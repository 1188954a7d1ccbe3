use crate::deposit::{tax_rates, TAX_SCALE};
use crate::error::ContractError;
use crate::math::seq_sum;
use crate::sync::{collected, copy_series};
use crate::models::{
    Account, AccountSyncState, AccountUnbondingState, BalanceEvent, DepositTotals, StakingEvent,
    TaxRecipientBalance, TaxRecipientConfig, TaxRecipientInfo,
};
use crate::msg::{init_rates, HouseMarketingInfo, TaxRecipientInitArgs};
use crate::token::{copy_text, Token};
use std::collections::VecDeque;
use vstd::prelude::*;

verus! {

/// The whole state of a revenue-sharing house. Accounts and assets are
/// addressed by index: account `a` is `accounts[a]`, asset `k` is
/// `tokens[k]`, and the per-account and per-asset tables below are indexed
/// the same way. Times are in nanoseconds.
pub struct House {
    pub created_at: u64,
    pub marketing: HouseMarketingInfo,
    /// The asset that is staked.
    pub staking_token: Token,
    /// The revenue assets accepted in deposits.
    pub tokens: Vec<Token>,
    pub unbonding_seconds: u64,
    pub taxes: Vec<TaxRecipientConfig>,
    pub tax_infos: Vec<TaxRecipientInfo>,
    /// Addresses of the tax recipients, by recipient index.
    pub tax_addresses: Vec<String>,
    /// Global sequence counter, shared by both event series.
    pub seq_no: u64,
    /// Generation counter: advances whenever the staking composition or an
    /// account's checkpoint changes. A deposit merges into the latest balance
    /// entry only within one generation. Since amortization settles accounts
    /// (once there are 20 or more), a deposit that triggers it ends the
    /// generation: consecutive deposits then each open a new entry, which
    /// keeps every settled account from missing revenue merged after it
    /// settled.
    pub x: u64,
    pub total_delegation: u128,
    pub total_unbonding: u128,
    pub accounts: Vec<Account>,
    /// `syncs[a][k]`: account `a`'s settlement state for asset `k`.
    pub syncs: Vec<Vec<AccountSyncState>>,
    /// `stake_events[a]`: account `a`'s delegation series.
    pub stake_events: Vec<Vec<(u64, StakingEvent)>>,
    pub unbondings: Vec<Option<AccountUnbondingState>>,
    /// Accounts in the order in which amortization visits them.
    pub queue: VecDeque<usize>,
    /// `balance_events[k]`: asset `k`'s balance series.
    pub balance_events: Vec<Vec<(u64, BalanceEvent)>>,
    /// `balances[k]`: revenue of asset `k` held for the stakers.
    pub balances: Vec<u128>,
    /// `tax_held[k]`: tax of asset `k` held for recipients.
    pub tax_held: Vec<u128>,
    pub deposits: Vec<DepositTotals>,
    /// `depositors[d][k]`: what depositor `d` has deposited of asset `k`.
    pub depositors: Vec<Vec<DepositTotals>>,
    /// `tax_totals[k][i]`: recipient `i`'s tally in asset `k`.
    pub tax_totals: Vec<Vec<TaxRecipientBalance>>,
}

/// The mathematical value of a house.
pub struct HouseModel {
    pub created_at: u64,
    pub marketing: HouseMarketingInfo,
    pub tax_infos: Seq<TaxRecipientInfo>,
    pub tax_addresses: Seq<Seq<char>>,
    pub staking_token: Token,
    pub tokens: Seq<Token>,
    pub unbonding_seconds: u64,
    pub taxes: Seq<TaxRecipientConfig>,
    pub seq_no: u64,
    pub x: u64,
    pub total_delegation: u128,
    pub total_unbonding: u128,
    pub accounts: Seq<Account>,
    pub syncs: Seq<Seq<AccountSyncState>>,
    pub stake_events: Seq<Seq<(u64, StakingEvent)>>,
    pub unbondings: Seq<Option<AccountUnbondingState>>,
    pub queue: Seq<usize>,
    pub balance_events: Seq<Seq<(u64, BalanceEvent)>>,
    pub balances: Seq<u128>,
    pub tax_held: Seq<u128>,
    pub deposits: Seq<DepositTotals>,
    pub depositors: Seq<Seq<DepositTotals>>,
    pub tax_totals: Seq<Seq<TaxRecipientBalance>>,
}

impl View for House {
    type V = HouseModel;

    open spec fn view(&self) -> HouseModel {
        HouseModel {
            created_at: self.created_at,
            marketing: self.marketing,
            tax_infos: self.tax_infos@,
            tax_addresses: self.tax_addresses@.map_values(|t: String| t@),
            staking_token: self.staking_token,
            tokens: self.tokens@,
            unbonding_seconds: self.unbonding_seconds,
            taxes: self.taxes@,
            seq_no: self.seq_no,
            x: self.x,
            total_delegation: self.total_delegation,
            total_unbonding: self.total_unbonding,
            accounts: self.accounts@,
            syncs: self.syncs@.map_values(|v: Vec<AccountSyncState>| v@),
            stake_events: self.stake_events@.map_values(|v: Vec<(u64, StakingEvent)>| v@),
            unbondings: self.unbondings@,
            queue: self.queue@,
            balance_events: self.balance_events@.map_values(|v: Vec<(u64, BalanceEvent)>| v@),
            balances: self.balances@,
            tax_held: self.tax_held@,
            deposits: self.deposits@,
            depositors: self.depositors@.map_values(|v: Vec<DepositTotals>| v@),
            tax_totals: self.tax_totals@.map_values(|v: Vec<TaxRecipientBalance>| v@),
        }
    }
}

impl HouseModel {
    /// Every table has one row per account or per asset, the queue names
    /// existing accounts only, and the tax rates add up to at most 100%.
    pub open spec fn wf(&self) -> bool {
        &&& self.accounts.len() <= u32::MAX
        &&& self.syncs.len() == self.accounts.len()
        &&& self.stake_events.len() == self.accounts.len()
        &&& self.unbondings.len() == self.accounts.len()
        &&& forall|a: int| 0 <= a < self.syncs.len() ==> #[trigger] self.syncs[a].len()
            == self.tokens.len()
        &&& self.balance_events.len() == self.tokens.len()
        &&& self.balances.len() == self.tokens.len()
        &&& self.tax_held.len() == self.tokens.len()
        &&& self.deposits.len() == self.tokens.len()
        &&& forall|d: int| 0 <= d < self.depositors.len() ==> #[trigger] self.depositors[d].len()
            == self.tokens.len()
        &&& self.tax_totals.len() == self.tokens.len()
        &&& forall|k: int| 0 <= k < self.tax_totals.len() ==> #[trigger] self.tax_totals[k].len()
            == self.taxes.len()
        &&& forall|i: int| 0 <= i < self.queue.len() ==> #[trigger] self.queue[i] < self.accounts.len()
        &&& self.queue.len() == self.accounts.len()
        &&& forall|i: int, j: int|
            0 <= i < j < self.queue.len() ==> #[trigger] self.queue[i] != #[trigger] self.queue[j]
        &&& seq_sum(tax_rates(self.taxes)) <= TAX_SCALE
        &&& self.tax_infos.len() == self.taxes.len()
        &&& self.tax_addresses.len() == self.taxes.len()
        &&& self.total_delegation == delegation_sum(self.accounts)
        &&& self.total_unbonding == unbonding_sum(self.unbondings)
        &&& forall|a: int, k: int|
            0 <= a < self.syncs.len() && 0 <= k < self.syncs[a].len() ==> #[trigger] self.syncs[a][k].seq_no
                <= self.seq_no
        &&& forall|k: int|
            0 <= k < self.balance_events.len() ==> balance_series_ok(
                #[trigger] self.balance_events[k],
                self.seq_no,
                self.x,
            )
        &&& forall|a: int|
            0 <= a < self.stake_events.len() ==> stake_series_ok(
                #[trigger] self.stake_events[a],
                self.seq_no,
            )
    }
}

/// A balance series in strictly increasing order of sequence number, each
/// entry numbered below `bound` and opened in a generation no later than
/// `x`.
pub open spec fn balance_series_ok(bs: Seq<(u64, BalanceEvent)>, bound: u64, x: u64) -> bool {
    &&& forall|i: int, j: int| 0 <= i < j < bs.len() ==> #[trigger] bs[i].0 < #[trigger] bs[j].0
    &&& forall|i: int| 0 <= i < bs.len() ==> #[trigger] bs[i].0 < bound && bs[i].1.x <= x
}

/// Garbage collection keeps a balance series in order: it only drops
/// entries and lowers reference counts.
pub proof fn lemma_collected_ok(bs: Seq<(u64, BalanceEvent)>, lo: u64, hi: u64, bound: u64, x: u64)
    requires
        balance_series_ok(bs, bound, x),
    ensures
        balance_series_ok(collected(bs, lo, hi), bound, x),
    decreases bs.len(),
{
    if bs.len() > 0 {
        let rest = bs.drop_last();
        let last = bs.last();
        assert(bs[bs.len() - 1] == last);
        assert(balance_series_ok(rest, last.0, x)) by {
            assert forall|i: int| 0 <= i < rest.len() implies #[trigger] rest[i].0 < last.0 && rest[i].1.x
                <= x by {
                assert(rest[i] == bs[i]);
                assert(bs[i].0 < bs[bs.len() - 1].0);
            }
            assert forall|i: int, j: int| 0 <= i < j < rest.len() implies #[trigger] rest[i].0
                < #[trigger] rest[j].0 by {
                assert(rest[i] == bs[i]);
                assert(rest[j] == bs[j]);
            }
        }
        lemma_collected_ok(rest, lo, hi, last.0, x);
        let cr = collected(rest, lo, hi);
        let c = collected(bs, lo, hi);
        assert forall|i: int| 0 <= i < c.len() implies #[trigger] c[i].0 < bound && c[i].1.x <= x by {
            if i < cr.len() {
                assert(c[i] == cr[i]);
            }
        }
        assert forall|i: int, j: int| 0 <= i < j < c.len() implies #[trigger] c[i].0 < #[trigger] c[j].0 by {
            assert(c[i] == cr[i]);
            if j < cr.len() {
                assert(c[j] == cr[j]);
            }
        }
    }
}

/// A looser bound keeps a balance series in order.
pub proof fn lemma_balance_series_weaken(
    bs: Seq<(u64, BalanceEvent)>,
    b1: u64,
    x1: u64,
    b2: u64,
    x2: u64,
)
    requires
        balance_series_ok(bs, b1, x1),
        b1 <= b2,
        x1 <= x2,
    ensures
        balance_series_ok(bs, b2, x2),
{
}

/// A looser bound keeps a delegation series in order.
pub proof fn lemma_stake_series_weaken(ds: Seq<(u64, StakingEvent)>, b1: u64, b2: u64)
    requires
        stake_series_ok(ds, b1),
        b1 <= b2,
    ensures
        stake_series_ok(ds, b2),
{
}

/// A delegation series in strictly increasing order of sequence number,
/// each entry numbered at most `bound`.
pub open spec fn stake_series_ok(ds: Seq<(u64, StakingEvent)>, bound: u64) -> bool {
    &&& forall|i: int, j: int| 0 <= i < j < ds.len() ==> #[trigger] ds[i].0 < #[trigger] ds[j].0
    &&& forall|i: int| 0 <= i < ds.len() ==> #[trigger] ds[i].0 <= bound
}

/// Sum of the accounts' delegations.
pub open spec fn delegation_sum(accounts: Seq<Account>) -> int
    decreases accounts.len(),
{
    if accounts.len() == 0 {
        0
    } else {
        delegation_sum(accounts.drop_last()) + accounts.last().delegation
    }
}

/// The amount of a pending unbonding, zero for none.
pub open spec fn unbonding_amount(u: Option<AccountUnbondingState>) -> int {
    match u {
        Some(v) => v.amount as int,
        None => 0,
    }
}

/// Sum of the accounts' pending unbonding amounts.
pub open spec fn unbonding_sum(us: Seq<Option<AccountUnbondingState>>) -> int
    decreases us.len(),
{
    if us.len() == 0 {
        0
    } else {
        unbonding_sum(us.drop_last()) + unbonding_amount(us.last())
    }
}

/// Changing one account changes the delegation sum by the difference.
pub proof fn lemma_delegation_sum_update(s: Seq<Account>, i: int, v: Account)
    requires
        0 <= i < s.len(),
    ensures
        delegation_sum(s.update(i, v)) == delegation_sum(s) - s[i].delegation + v.delegation,
    decreases s.len(),
{
    if i == s.len() - 1 {
        assert(s.update(i, v).drop_last() =~= s.drop_last());
    } else {
        lemma_delegation_sum_update(s.drop_last(), i, v);
        assert(s.update(i, v).drop_last() =~= s.drop_last().update(i, v));
    }
}

/// A new account adds its delegation to the sum.
pub proof fn lemma_delegation_sum_push(s: Seq<Account>, v: Account)
    ensures
        delegation_sum(s.push(v)) == delegation_sum(s) + v.delegation,
{
    assert(s.push(v).drop_last() =~= s);
}

/// Changing one unbonding changes the unbonding sum by the difference.
pub proof fn lemma_unbonding_sum_update(
    s: Seq<Option<AccountUnbondingState>>,
    i: int,
    v: Option<AccountUnbondingState>,
)
    requires
        0 <= i < s.len(),
    ensures
        unbonding_sum(s.update(i, v)) == unbonding_sum(s) - unbonding_amount(s[i])
            + unbonding_amount(v),
    decreases s.len(),
{
    if i == s.len() - 1 {
        assert(s.update(i, v).drop_last() =~= s.drop_last());
    } else {
        lemma_unbonding_sum_update(s.drop_last(), i, v);
        assert(s.update(i, v).drop_last() =~= s.drop_last().update(i, v));
    }
}

/// A new account adds its unbonding to the sum.
pub proof fn lemma_unbonding_sum_push(
    s: Seq<Option<AccountUnbondingState>>,
    v: Option<AccountUnbondingState>,
)
    ensures
        unbonding_sum(s.push(v)) == unbonding_sum(s) + unbonding_amount(v),
{
    assert(s.push(v).drop_last() =~= s);
}

/// The delegations of the first `k` accounts add up to at most all of them.
pub proof fn lemma_delegation_sum_prefix(s: Seq<Account>, k: int)
    requires
        0 <= k <= s.len(),
    ensures
        0 <= delegation_sum(s.take(k)) <= delegation_sum(s),
    decreases s.len() - k,
{
    if k < s.len() {
        lemma_delegation_sum_prefix(s, k + 1);
        assert(s.take(k + 1).drop_last() =~= s.take(k));
        lemma_delegation_sum_nonneg(s.take(k));
    } else {
        assert(s.take(k) =~= s);
        lemma_delegation_sum_nonneg(s);
    }
}

/// A delegation sum is never negative.
pub proof fn lemma_delegation_sum_nonneg(s: Seq<Account>)
    ensures
        delegation_sum(s) >= 0,
    decreases s.len(),
{
    if s.len() > 0 {
        lemma_delegation_sum_nonneg(s.drop_last());
    }
}

/// The unbondings of the first `k` accounts add up to at most all of them.
pub proof fn lemma_unbonding_sum_prefix(s: Seq<Option<AccountUnbondingState>>, k: int)
    requires
        0 <= k <= s.len(),
    ensures
        0 <= unbonding_sum(s.take(k)) <= unbonding_sum(s),
    decreases s.len() - k,
{
    if k < s.len() {
        lemma_unbonding_sum_prefix(s, k + 1);
        assert(s.take(k + 1).drop_last() =~= s.take(k));
        lemma_unbonding_sum_nonneg(s.take(k));
    } else {
        assert(s.take(k) =~= s);
        lemma_unbonding_sum_nonneg(s);
    }
}

/// An unbonding sum is never negative.
pub proof fn lemma_unbonding_sum_nonneg(s: Seq<Option<AccountUnbondingState>>)
    ensures
        unbonding_sum(s) >= 0,
    decreases s.len(),
{
    if s.len() > 0 {
        lemma_unbonding_sum_nonneg(s.drop_last());
    }
}

/// A copy of a table of plain rows.
pub fn copy_table<T: Copy>(t: &Vec<Vec<T>>) -> (r: Vec<Vec<T>>)
    ensures
        r@.len() == t@.len(),
        forall|i: int| 0 <= i < t@.len() ==> #[trigger] r@[i]@ == t@[i]@,
{
    let mut out: Vec<Vec<T>> = Vec::new();
    let mut i: usize = 0;
    while i < t.len()
        invariant
            i <= t.len(),
            out@.len() == i,
            forall|j: int| 0 <= j < i ==> #[trigger] out@[j]@ == t@[j]@,
        decreases t.len() - i,
    {
        out.push(copy_series(&t[i]));
        i = i + 1;
    }
    out
}

/// Tests `balance_series_ok`.
fn balance_series_checked(bs: &Vec<(u64, BalanceEvent)>, bound: u64, x: u64) -> (r: bool)
    ensures
        r == balance_series_ok(bs@, bound, x),
{
    let mut i: usize = 0;
    while i < bs.len()
        invariant
            i <= bs.len(),
            forall|p: int, q: int| 0 <= p < q < i ==> #[trigger] bs@[p].0 < #[trigger] bs@[q].0,
            forall|p: int| 0 <= p < i ==> #[trigger] bs@[p].0 < bound && bs@[p].1.x <= x,
        decreases bs.len() - i,
    {
        if bs[i].0 >= bound || bs[i].1.x > x {
            return false;
        }
        if i > 0 && bs[i - 1].0 >= bs[i].0 {
            assert(!(bs@[i - 1].0 < bs@[i as int].0));
            return false;
        }
        proof {
            assert forall|p: int, q: int| 0 <= p < q < i + 1 implies #[trigger] bs@[p].0
                < #[trigger] bs@[q].0 by {
                if q == i && p < i - 1 {
                    assert(bs@[p].0 < bs@[i - 1].0);
                }
            }
        }
        i = i + 1;
    }
    true
}

/// Tests `stake_series_ok`.
fn stake_series_checked(ds: &Vec<(u64, StakingEvent)>, bound: u64) -> (r: bool)
    ensures
        r == stake_series_ok(ds@, bound),
{
    let mut i: usize = 0;
    while i < ds.len()
        invariant
            i <= ds.len(),
            forall|p: int, q: int| 0 <= p < q < i ==> #[trigger] ds@[p].0 < #[trigger] ds@[q].0,
            forall|p: int| 0 <= p < i ==> #[trigger] ds@[p].0 <= bound,
        decreases ds.len() - i,
    {
        if ds[i].0 > bound {
            return false;
        }
        if i > 0 && ds[i - 1].0 >= ds[i].0 {
            assert(!(ds@[i - 1].0 < ds@[i as int].0));
            return false;
        }
        proof {
            assert forall|p: int, q: int| 0 <= p < q < i + 1 implies #[trigger] ds@[p].0
                < #[trigger] ds@[q].0 by {
                if q == i && p < i - 1 {
                    assert(ds@[p].0 < ds@[i - 1].0);
                }
            }
        }
        i = i + 1;
    }
    true
}

impl House {
    pub open spec fn wf(&self) -> bool {
        self@.wf()
    }

    /// A copy of the house.
    pub fn duplicate(&self) -> (r: House)
        ensures
            r@ == self@,
    {
        let mut tokens: Vec<Token> = Vec::new();
        let mut i: usize = 0;
        while i < self.tokens.len()
            invariant
                i <= self.tokens.len(),
                tokens@ == self.tokens@.take(i as int),
            decreases self.tokens.len() - i,
        {
            tokens.push(self.tokens[i].duplicate());
            i = i + 1;
            assert(tokens@ =~= self.tokens@.take(i as int));
        }
        assert(self.tokens@.take(i as int) =~= self.tokens@);
        let mut tax_infos: Vec<TaxRecipientInfo> = Vec::new();
        let mut i: usize = 0;
        while i < self.tax_infos.len()
            invariant
                i <= self.tax_infos.len(),
                tax_infos@ == self.tax_infos@.take(i as int),
            decreases self.tax_infos.len() - i,
        {
            let t = &self.tax_infos[i];
            tax_infos.push(TaxRecipientInfo { name: copy_text(&t.name), logo: copy_text(&t.logo) });
            i = i + 1;
            assert(tax_infos@ =~= self.tax_infos@.take(i as int));
        }
        assert(self.tax_infos@.take(i as int) =~= self.tax_infos@);
        let mut tax_addresses: Vec<String> = Vec::new();
        let mut i: usize = 0;
        while i < self.tax_addresses.len()
            invariant
                i <= self.tax_addresses.len(),
                tax_addresses@ == self.tax_addresses@.take(i as int),
            decreases self.tax_addresses.len() - i,
        {
            tax_addresses.push(self.tax_addresses[i].clone());
            i = i + 1;
            assert(tax_addresses@ =~= self.tax_addresses@.take(i as int));
        }
        assert(self.tax_addresses@.take(i as int) =~= self.tax_addresses@);
        let mut queue: VecDeque<usize> = VecDeque::new();
        let mut i: usize = 0;
        while i < self.queue.len()
            invariant
                i <= self.queue.len(),
                queue@ == self.queue@.take(i as int),
            decreases self.queue.len() - i,
        {
            queue.push_back(self.queue[i]);
            i = i + 1;
            assert(queue@ =~= self.queue@.take(i as int));
        }
        assert(self.queue@.take(i as int) =~= self.queue@);
        let h = House {
            created_at: self.created_at,
            marketing: HouseMarketingInfo {
                logo: copy_text(&self.marketing.logo),
                name: copy_text(&self.marketing.name),
                description: copy_text(&self.marketing.description),
            },
            staking_token: self.staking_token.duplicate(),
            tokens,
            unbonding_seconds: self.unbonding_seconds,
            taxes: self.taxes.clone(),
            tax_infos,
            tax_addresses,
            seq_no: self.seq_no,
            x: self.x,
            total_delegation: self.total_delegation,
            total_unbonding: self.total_unbonding,
            accounts: self.accounts.clone(),
            syncs: copy_table(&self.syncs),
            stake_events: copy_table(&self.stake_events),
            unbondings: self.unbondings.clone(),
            queue,
            balance_events: copy_table(&self.balance_events),
            balances: self.balances.clone(),
            tax_held: self.tax_held.clone(),
            deposits: self.deposits.clone(),
            depositors: copy_table(&self.depositors),
            tax_totals: copy_table(&self.tax_totals),
        };
        proof {
            assert(h@.tax_addresses =~= self@.tax_addresses);
            assert(h@.syncs =~= self@.syncs);
            assert(h@.stake_events =~= self@.stake_events);
            assert(h@.balance_events =~= self@.balance_events);
            assert(h@.depositors =~= self@.depositors);
            assert(h@.tax_totals =~= self@.tax_totals);
        }
        h
    }

    /// Tests `wf`: a house read back from storage is checked before use.
    pub fn is_well_formed(&self) -> (r: bool)
        ensures
            r == self.wf(),
    {
        let n = self.accounts.len();
        let t = self.tokens.len();
        if n > 0xffff_ffff || self.syncs.len() != n || self.stake_events.len() != n
            || self.unbondings.len() != n || self.tax_infos.len() != self.taxes.len()
            || self.tax_addresses.len() != self.taxes.len() || self.balance_events.len() != t || self.balances.len()
            != t || self.tax_held.len() != t || self.deposits.len() != t || self.tax_totals.len()
            != t {
            return false;
        }
        let mut a: usize = 0;
        while a < n
            invariant
                n == self.accounts.len(),
                t == self.tokens.len(),
                self.syncs.len() == n,
                a <= n,
                forall|b: int| 0 <= b < a ==> #[trigger] self@.syncs[b].len() == t,
            decreases n - a,
        {
            assert(self@.syncs[a as int] == self.syncs@[a as int]@);
            if self.syncs[a].len() != t {
                return false;
            }
            a = a + 1;
        }
        let mut k: usize = 0;
        while k < t
            invariant
                t == self.tokens.len(),
                self.tax_totals.len() == t,
                k <= t,
                forall|j: int| 0 <= j < k ==> #[trigger] self@.tax_totals[j].len() == self@.taxes.len(),
            decreases t - k,
        {
            assert(self@.tax_totals[k as int] == self.tax_totals@[k as int]@);
            if self.tax_totals[k].len() != self.taxes.len() {
                return false;
            }
            k = k + 1;
        }
        let mut q: usize = 0;
        while q < t
            invariant
                t == self.tokens.len(),
                self.balance_events.len() == t,
                q <= t,
                forall|j: int| 0 <= j < q ==> balance_series_ok(#[trigger] self@.balance_events[j], self.seq_no, self.x),
            decreases t - q,
        {
            assert(self@.balance_events[q as int] == self.balance_events@[q as int]@);
            if !balance_series_checked(&self.balance_events[q], self.seq_no, self.x) {
                return false;
            }
            q = q + 1;
        }
        let mut w: usize = 0;
        while w < n
            invariant
                n == self.stake_events.len(),
                w <= n,
                forall|j: int| 0 <= j < w ==> stake_series_ok(#[trigger] self@.stake_events[j], self.seq_no),
            decreases n - w,
        {
            assert(self@.stake_events[w as int] == self.stake_events@[w as int]@);
            if !stake_series_checked(&self.stake_events[w], self.seq_no) {
                return false;
            }
            w = w + 1;
        }
        let mut p: usize = 0;
        while p < self.depositors.len()
            invariant
                t == self.tokens.len(),
                p <= self.depositors.len(),
                forall|j: int| 0 <= j < p ==> #[trigger] self@.depositors[j].len() == t,
            decreases self.depositors.len() - p,
        {
            assert(self@.depositors[p as int] == self.depositors@[p as int]@);
            if self.depositors[p].len() != t {
                return false;
            }
            p = p + 1;
        }
        if self.queue.len() != n {
            return false;
        }
        let mut seen: Vec<bool> = Vec::new();
        let mut z: usize = 0;
        while z < n
            invariant
                z <= n,
                seen@.len() == z,
                forall|j: int| 0 <= j < z ==> !(#[trigger] seen@[j]),
            decreases n - z,
        {
            seen.push(false);
            z = z + 1;
        }
        let mut i: usize = 0;
        while i < self.queue.len()
            invariant
                n == self.accounts.len(),
                self.queue.len() == n,
                seen@.len() == n,
                i <= self.queue.len(),
                forall|j: int| 0 <= j < i ==> #[trigger] self@.queue[j] < n,
                forall|j: int| 0 <= j < i ==> seen@[#[trigger] self@.queue[j] as int],
                forall|v: int|
                    0 <= v < n && #[trigger] seen@[v] ==> exists|j: int|
                        0 <= j < i && self@.queue[j] == v,
                forall|p: int, q: int|
                    0 <= p < q < i ==> #[trigger] self@.queue[p] != #[trigger] self@.queue[q],
            decreases self.queue.len() - i,
        {
            let v = self.queue[i];
            if v >= n {
                assert(self@.queue[i as int] >= self@.accounts.len());
                return false;
            }
            if seen[v] {
                proof {
                    let j = choose|j: int| 0 <= j < i && self@.queue[j] == v;
                    assert(self@.queue[j] == self@.queue[i as int]);
                }
                return false;
            }
            seen.set(v, true);
            proof {
                assert forall|p: int, q: int|
                    0 <= p < q < i + 1 implies #[trigger] self@.queue[p] != #[trigger] self@.queue[q] by {
                    if q == i {
                        assert(seen@[self@.queue[p] as int] || self@.queue[p] as int == v as int);
                    }
                }
                assert forall|w: int|
                    0 <= w < n && #[trigger] seen@[w] implies exists|j: int|
                        0 <= j < i + 1 && self@.queue[j] == w by {
                    if w == v as int {
                        assert(self@.queue[i as int] == w);
                    }
                }
            }
            i = i + 1;
        }
        let mut total: u128 = 0;
        let mut r: usize = 0;
        while r < self.taxes.len()
            invariant
                r <= self.taxes.len(),
                total == seq_sum(tax_rates(self@.taxes).take(r as int)),
                total <= TAX_SCALE,
            decreases self.taxes.len() - r,
        {
            assert(tax_rates(self@.taxes).take(r + 1).drop_last() == tax_rates(self@.taxes).take(
                r as int,
            ));
            if self.taxes[r].pct > TAX_SCALE - total {
                proof {
                    crate::math::lemma_seq_sum_prefix_monotone(tax_rates(self@.taxes), r + 1);
                }
                return false;
            }
            total = total + self.taxes[r].pct;
            r = r + 1;
        }
        assert(tax_rates(self@.taxes).take(r as int) == tax_rates(self@.taxes));
        let mut delegated: u128 = 0;
        let mut b: usize = 0;
        while b < n
            invariant
                n == self.accounts.len(),
                b <= n,
                delegated == delegation_sum(self@.accounts.take(b as int)),
            decreases n - b,
        {
            assert(self@.accounts.take(b + 1).drop_last() =~= self@.accounts.take(b as int));
            match delegated.checked_add(self.accounts[b].delegation) {
                Some(v) => {
                    delegated = v;
                },
                None => {
                    proof {
                        lemma_delegation_sum_prefix(self@.accounts, b + 1);
                    }
                    return false;
                },
            }
            b = b + 1;
        }
        assert(self@.accounts.take(b as int) =~= self@.accounts);
        if delegated != self.total_delegation {
            return false;
        }
        let mut unbonding: u128 = 0;
        let mut c: usize = 0;
        while c < n
            invariant
                n == self.unbondings.len(),
                c <= n,
                unbonding == unbonding_sum(self@.unbondings.take(c as int)),
            decreases n - c,
        {
            assert(self@.unbondings.take(c + 1).drop_last() =~= self@.unbondings.take(c as int));
            let amount: u128 = match self.unbondings[c] {
                Some(u) => u.amount,
                None => 0,
            };
            match unbonding.checked_add(amount) {
                Some(v) => {
                    unbonding = v;
                },
                None => {
                    proof {
                        lemma_unbonding_sum_prefix(self@.unbondings, c + 1);
                    }
                    return false;
                },
            }
            c = c + 1;
        }
        assert(self@.unbondings.take(c as int) =~= self@.unbondings);
        if unbonding != self.total_unbonding {
            return false;
        }
        let mut d: usize = 0;
        while d < n
            invariant
                n == self.syncs.len(),
                t == self.tokens.len(),
                d <= n,
                forall|x: int| 0 <= x < n ==> #[trigger] self@.syncs[x].len() == t,
                forall|x: int, y: int|
                    0 <= x < d && 0 <= y < self@.syncs[x].len() ==> #[trigger] self@.syncs[x][y].seq_no
                        <= self.seq_no,
            decreases n - d,
        {
            assert(self@.syncs[d as int] == self.syncs@[d as int]@);
            let mut e: usize = 0;
            while e < t
                invariant
                    n == self.syncs.len(),
                    t == self.tokens.len(),
                    d < n,
                    e <= t,
                    self@.syncs[d as int].len() == t,
                    self@.syncs[d as int] == self.syncs@[d as int]@,
                    forall|y: int| 0 <= y < e ==> #[trigger] self@.syncs[d as int][y].seq_no <= self.seq_no,
                decreases t - e,
            {
                if self.syncs[d][e].seq_no > self.seq_no {
                    assert(self@.syncs[d as int][e as int].seq_no > self.seq_no);
                    return false;
                }
                e = e + 1;
            }
            d = d + 1;
        }
        true
    }
}

/// A tally with nothing received.
pub open spec fn zero_tally() -> TaxRecipientBalance {
    TaxRecipientBalance { balance: 0, total: 0 }
}

/// One empty tally per tax recipient.
fn zero_tallies(n: usize) -> (r: Vec<TaxRecipientBalance>)
    ensures
        r@ == Seq::new(n as nat, |i: int| zero_tally()),
{
    let mut v: Vec<TaxRecipientBalance> = Vec::new();
    let mut i: usize = 0;
    while i < n
        invariant
            i <= n,
            v@ == Seq::new(i as nat, |j: int| zero_tally()),
        decreases n - i,
    {
        v.push(TaxRecipientBalance { balance: 0, total: 0 });
        i = i + 1;
        assert(v@ =~= Seq::new(i as nat, |j: int| zero_tally()));
    }
    v
}

impl House {
    /// Creates a house with no accounts and empty event series. Fails when
    /// the tax rates add up to more than 100%.
    pub fn init(
        created_at: u64,
        marketing: HouseMarketingInfo,
        staking_token: Token,
        revenue_tokens: Vec<Token>,
        unbonding_seconds: Option<u64>,
        taxes: &Vec<TaxRecipientInitArgs>,
    ) -> (r: Result<House, ContractError>)
        ensures
            r.is_ok() <==> seq_sum(init_rates(taxes@)) <= TAX_SCALE,
            r.is_err() ==> r == Err::<House, ContractError>(ContractError::TaxRateExceeded),
            r matches Ok(h) ==> {
                &&& h.wf()
                &&& h@.created_at == created_at
                &&& h@.staking_token == staking_token
                &&& h@.marketing == marketing
                &&& h@.tax_infos.len() == taxes@.len()
                &&& h@.tax_addresses.len() == taxes@.len()
                &&& forall|i: int|
                    0 <= i < taxes@.len() ==> #[trigger] h@.tax_infos[i] == (TaxRecipientInfo {
                        name: taxes@[i].name,
                        logo: taxes@[i].logo,
                    }) && h@.tax_addresses[i] == taxes@[i].address@
                &&& h@.tokens == revenue_tokens@
                &&& h@.unbonding_seconds == match unbonding_seconds {
                    Some(u) => u,
                    None => 0,
                }
                &&& h@.taxes.len() == taxes@.len()
                &&& forall|i: int|
                    0 <= i < taxes@.len() ==> #[trigger] h@.taxes[i] == (TaxRecipientConfig {
                        pct: taxes@[i].pct,
                        autosend: taxes@[i].autosend,
                        immutable: taxes@[i].immutable,
                    })
                &&& h@.seq_no == 0
                &&& h@.x == 0
                &&& h@.total_delegation == 0
                &&& h@.total_unbonding == 0
                &&& h@.accounts.len() == 0
                &&& h@.depositors.len() == 0
                &&& h@.queue.len() == 0
                &&& forall|k: int|
                    0 <= k < revenue_tokens@.len() ==> {
                        &&& #[trigger] h@.balance_events[k].len() == 0
                        &&& h@.balances[k] == 0
                        &&& h@.tax_held[k] == 0
                        &&& h@.deposits[k] == (DepositTotals { n: 0, amount: 0 })
                        &&& h@.tax_totals[k] == Seq::new(taxes@.len() as nat, |i: int| zero_tally())
                    }
            },
    {
        let mut configs: Vec<TaxRecipientConfig> = Vec::new();
        let mut infos: Vec<TaxRecipientInfo> = Vec::new();
        let mut addresses: Vec<String> = Vec::new();
        let mut total: u128 = 0;
        let mut i: usize = 0;
        while i < taxes.len()
            invariant
                i <= taxes.len(),
                configs@.len() == i,
                forall|j: int|
                    0 <= j < i ==> #[trigger] configs@[j] == (TaxRecipientConfig {
                        pct: taxes@[j].pct,
                        autosend: taxes@[j].autosend,
                        immutable: taxes@[j].immutable,
                    }),
                infos@.len() == i,
                addresses@.len() == i,
                forall|j: int|
                    0 <= j < i ==> #[trigger] infos@[j] == (TaxRecipientInfo {
                        name: taxes@[j].name,
                        logo: taxes@[j].logo,
                    }),
                forall|j: int| 0 <= j < i ==> #[trigger] addresses@[j]@ == taxes@[j].address@,
                total == seq_sum(init_rates(taxes@).take(i as int)),
                total <= TAX_SCALE,
            decreases taxes.len() - i,
        {
            assert(init_rates(taxes@).take(i + 1).drop_last() == init_rates(taxes@).take(i as int));
            let t = &taxes[i];
            if t.pct > TAX_SCALE - total {
                proof {
                    crate::math::lemma_seq_sum_prefix_monotone(init_rates(taxes@), i + 1);
                }
                return Err(ContractError::TaxRateExceeded);
            }
            total = total + t.pct;
            configs.push(TaxRecipientConfig { pct: t.pct, autosend: t.autosend, immutable: t.immutable });
            infos.push(TaxRecipientInfo { name: copy_text(&t.name), logo: copy_text(&t.logo) });
            addresses.push(t.address.clone());
            i = i + 1;
        }
        assert(init_rates(taxes@).take(i as int) == init_rates(taxes@));
        assert(tax_rates(configs@) =~= init_rates(taxes@));
        let mut balance_events: Vec<Vec<(u64, BalanceEvent)>> = Vec::new();
        let mut balances: Vec<u128> = Vec::new();
        let mut tax_held: Vec<u128> = Vec::new();
        let mut deposits: Vec<DepositTotals> = Vec::new();
        let mut tax_totals: Vec<Vec<TaxRecipientBalance>> = Vec::new();
        let mut k: usize = 0;
        while k < revenue_tokens.len()
            invariant
                k <= revenue_tokens.len(),
                configs@.len() == taxes@.len(),
                balance_events@.len() == k,
                balances@.len() == k,
                tax_held@.len() == k,
                deposits@.len() == k,
                tax_totals@.len() == k,
                forall|j: int| 0 <= j < k ==> (#[trigger] balance_events@[j])@.len() == 0,
                forall|j: int| 0 <= j < k ==> #[trigger] balances@[j] == 0,
                forall|j: int| 0 <= j < k ==> #[trigger] tax_held@[j] == 0,
                forall|j: int|
                    0 <= j < k ==> #[trigger] deposits@[j] == (DepositTotals { n: 0, amount: 0 }),
                forall|j: int|
                    0 <= j < k ==> (#[trigger] tax_totals@[j])@ == Seq::new(
                        taxes@.len() as nat,
                        |i: int| zero_tally(),
                    ),
            decreases revenue_tokens.len() - k,
        {
            balance_events.push(Vec::new());
            balances.push(0);
            tax_held.push(0);
            deposits.push(DepositTotals { n: 0, amount: 0 });
            tax_totals.push(zero_tallies(configs.len()));
            k = k + 1;
        }
        let h = House {
            created_at,
            marketing,
            staking_token,
            tokens: revenue_tokens,
            unbonding_seconds: match unbonding_seconds {
                Some(u) => u,
                None => 0,
            },
            taxes: configs,
            tax_infos: infos,
            tax_addresses: addresses,
            seq_no: 0,
            x: 0,
            total_delegation: 0,
            total_unbonding: 0,
            accounts: Vec::new(),
            syncs: Vec::new(),
            stake_events: Vec::new(),
            unbondings: Vec::new(),
            queue: VecDeque::new(),
            balance_events,
            balances,
            tax_held,
            deposits,
            depositors: Vec::new(),
            tax_totals,
        };
        assert(h@.tax_totals.len() == h@.tokens.len());
        assert forall|k: int| 0 <= k < h@.tax_totals.len() implies #[trigger] h@.tax_totals[k].len()
            == h@.taxes.len() by {
            assert(h@.tax_totals[k] == h.tax_totals@[k]@);
        }
        assert forall|k: int| 0 <= k < revenue_tokens@.len() implies #[trigger] h@.balance_events[k].len()
            == 0 by {
            assert(h@.balance_events[k] == h.balance_events@[k]@);
            assert(h@.tax_totals[k] == h.tax_totals@[k]@);
        }
        assert(h.wf());
        Ok(h)
    }
}

} // verus!
