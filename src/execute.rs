use crate::amortize::{
    amortize_fits, amortized, batch_size, lemma_amortized_keeps_balances, lemma_small_batch_empty,
};
use crate::deposit::{
    append_balance_event, append_fits, lemma_appended_ok, appended, autosend_transfers, compute_taxes, floor_shares,
    held_tax, lemma_floor_shares_bounded, next_seq, record_taxes, tallied, tallies_fit, tax_of,
    tax_rates, taxes_fit, TAX_SCALE,
};
use crate::error::ContractError;
use crate::house::{
    balance_series_ok, lemma_balance_series_weaken, lemma_stake_series_weaken, stake_series_ok,
    lemma_delegation_sum_push, lemma_delegation_sum_update, lemma_unbonding_sum_push,
    lemma_unbonding_sum_update, House, HouseModel,
};
use crate::math::{add_u128, add_u64, mul_ratio_u128, seq_sum, sub_u128, sum_u128};
use crate::models::{
    Account, AccountSyncState, AccountUnbondingState, DepositTotals, StakingEvent,
    TaxRecipientConfig,
};
use crate::responses::ClaimOutcome;
use crate::settle::{after_sync, lemma_after_settle_all_shape, selected, sync_fits};
use crate::sync::copy_series;
use vstd::prelude::*;

verus! {

/// Each recipient's tax on `amount`.
pub open spec fn taxes_on(amount: u128, taxes: Seq<TaxRecipientConfig>) -> Seq<u128> {
    Seq::new(taxes.len(), |i: int| tax_of(amount, taxes[i].pct) as u128)
}

/// What of `amount` remains for the stakers once taxed.
pub open spec fn net_of(amount: u128, taxes: Seq<TaxRecipientConfig>) -> int {
    amount - seq_sum(taxes_on(amount, taxes))
}

/// A deposit of `amount` into asset `k` stays within range.
pub open spec fn deposit_fits(m: HouseModel, k: int, amount: u128) -> bool {
    let t = taxes_on(amount, m.taxes);
    let net = net_of(amount, m.taxes) as u128;
    &&& taxes_fit(amount, m.taxes)
    &&& tallies_fit(m.tax_totals[k], m.tax_held[k], m.taxes, t)
    &&& append_fits(m.balance_events[k], m.seq_no, m.x, net)
    &&& m.deposits[k].n + 1 <= u64::MAX
    &&& m.deposits[k].amount + amount <= u128::MAX
    &&& m.balances[k] + net <= u128::MAX
}

/// The house after a deposit of `amount` into asset `k`: the taxes are
/// tallied, the net revenue goes into the balance series (merged into the
/// latest entry or in a new one) and into the stakers' balance.
pub open spec fn after_deposit(m: HouseModel, k: int, amount: u128) -> HouseModel {
    let t = taxes_on(amount, m.taxes);
    let net = net_of(amount, m.taxes) as u128;
    HouseModel {
        tax_totals: m.tax_totals.update(
            k,
            Seq::new(m.taxes.len(), |i: int| tallied(m.tax_totals[k][i], m.taxes[i], t[i])),
        ),
        tax_held: m.tax_held.update(k, (m.tax_held[k] + held_tax(t, m.taxes)) as u128),
        balance_events: m.balance_events.update(
            k,
            appended(
                m.balance_events[k],
                m.seq_no,
                m.x,
                net,
                m.total_delegation,
                m.accounts.len() as u32,
            ),
        ),
        seq_no: next_seq(m.balance_events[k], m.seq_no, m.x) as u64,
        deposits: m.deposits.update(
            k,
            DepositTotals {
                n: (m.deposits[k].n + 1) as u64,
                amount: (m.deposits[k].amount + amount) as u128,
            },
        ),
        balances: m.balances.update(k, (m.balances[k] + net) as u128),
        ..m
    }
}

/// The taxes of a deposit add up to the truncated shares of the rates.
pub proof fn lemma_taxes_on_sum(amount: u128, taxes: Seq<TaxRecipientConfig>)
    requires
        taxes_fit(amount, taxes),
    ensures
        seq_sum(taxes_on(amount, taxes)) == floor_shares(amount, tax_rates(taxes), TAX_SCALE as int),
    decreases taxes.len(),
{
    if taxes.len() > 0 {
        let rest = taxes.drop_last();
        assert(taxes_fit(amount, rest)) by {
            assert forall|i: int| 0 <= i < rest.len() implies amount * #[trigger] rest[i].pct
                <= u128::MAX by {
                assert(rest[i] == taxes[i]);
            }
        }
        lemma_taxes_on_sum(amount, rest);
        assert(taxes_on(amount, taxes).drop_last() =~= taxes_on(amount, rest));
        assert(tax_rates(taxes).drop_last() =~= tax_rates(rest));
        let p = taxes.last().pct;
        assert(amount * taxes[taxes.len() - 1].pct <= u128::MAX);
        assert(0 <= (amount * p) / (TAX_SCALE as int) <= u128::MAX) by (nonlinear_arith)
            requires
                amount * p <= u128::MAX,
                amount >= 0,
                p >= 0,
        ;
    }
}

/// The taxes of a deposit never exceed it while the rates add up to at most
/// 100%.
pub proof fn lemma_taxes_bounded(amount: u128, taxes: Seq<TaxRecipientConfig>)
    requires
        taxes_fit(amount, taxes),
        seq_sum(tax_rates(taxes)) <= TAX_SCALE,
    ensures
        0 <= seq_sum(taxes_on(amount, taxes)) <= amount,
        0 <= net_of(amount, taxes) <= amount,
{
    lemma_taxes_on_sum(amount, taxes);
    lemma_floor_shares_bounded(amount, tax_rates(taxes), TAX_SCALE as int);
    crate::deposit::lemma_floor_shares_scaled(amount, tax_rates(taxes), TAX_SCALE as int);
}

impl House {
    /// Records a deposit of `amount` into asset `k`: skims the taxes,
    /// consolidates the net revenue into the balance series, and returns the
    /// transfers owed to the recipients whose share is sent at once.
    pub fn deposit(&mut self, k: usize, amount: u128) -> (r: Result<
        Vec<(usize, u128)>,
        ContractError,
    >)
        requires
            old(self).wf(),
            k < old(self)@.tokens.len(),
        ensures
            r.is_ok() <==> deposit_fits(old(self)@, k as int, amount),
            r matches Ok(transfers) ==> {
                &&& final(self)@ == after_deposit(old(self)@, k as int, amount)
                &&& transfers@ == autosend_transfers(taxes_on(amount, old(self)@.taxes), old(self)@.taxes)
            },
            r.is_err() ==> final(self)@ == old(self)@,
            final(self).wf(),
    {
        let ghost m = self@;
        let amounts = compute_taxes(&self.taxes, amount)?;
        assert(amounts@ =~= taxes_on(amount, m.taxes));
        proof {
            lemma_taxes_bounded(amount, m.taxes);
        }
        let tax_sum = match sum_u128(&amounts) {
            Ok(v) => v,
            Err(e) => {
                return Err(e);
            },
        };
        let net = amount - tax_sum;
        let mut row = self.tax_totals[k].clone();
        let mut held = self.tax_held[k];
        assert(row@ == m.tax_totals[k as int]);
        let transfers = record_taxes(&mut row, &mut held, &self.taxes, &amounts)?;
        let mut bs = copy_series(&self.balance_events[k]);
        let mut seq = self.seq_no;
        assert(bs@ == m.balance_events[k as int]);
        append_balance_event(&mut bs, &mut seq, self.x, net, self.total_delegation, self.accounts.len() as u32)?;
        let d = self.deposits[k];
        let n = add_u64(d.n, 1)?;
        let total = add_u128(d.amount, amount)?;
        let bal = add_u128(self.balances[k], net)?;
        self.tax_totals.set(k, row);
        self.tax_held.set(k, held);
        self.balance_events.set(k, bs);
        self.seq_no = seq;
        self.deposits.set(k, DepositTotals { n, amount: total });
        self.balances.set(k, bal);
        proof {
            let e = after_deposit(m, k as int, amount);
            assert(self@.tax_totals[k as int] =~= e.tax_totals[k as int]);
            assert(self@.tax_totals =~= e.tax_totals);
            assert(self@.balance_events =~= e.balance_events);
            assert(self@.syncs =~= e.syncs);
            assert(self@.stake_events =~= e.stake_events);
            assert(self@ == e);
            assert forall|j: int| 0 <= j < self@.tax_totals.len() implies #[trigger] self@.tax_totals[j].len()
                == self@.taxes.len() by {
                if j != k {
                    assert(self@.tax_totals[j] == m.tax_totals[j]);
                }
            }
            let net = net_of(amount, m.taxes) as u128;
            assert forall|j: int| 0 <= j < self@.balance_events.len() implies balance_series_ok(
                #[trigger] self@.balance_events[j],
                self@.seq_no,
                self@.x,
            ) by {
                assert(balance_series_ok(m.balance_events[j], m.seq_no, m.x));
                if j == k {
                    lemma_appended_ok(
                        m.balance_events[j],
                        m.seq_no,
                        m.x,
                        net,
                        m.total_delegation,
                        m.accounts.len() as u32,
                    );
                } else {
                    lemma_balance_series_weaken(m.balance_events[j], m.seq_no, m.x, self@.seq_no, self@.x);
                }
            }
            assert forall|b: int| 0 <= b < self@.stake_events.len() implies stake_series_ok(
                #[trigger] self@.stake_events[b],
                self@.seq_no,
            ) by {
                assert(stake_series_ok(m.stake_events[b], m.seq_no));
                lemma_stake_series_weaken(m.stake_events[b], m.seq_no, self@.seq_no);
            }
        }
        Ok(transfers)
    }
}

/// What of the asset's held balance the house must not count as new
/// revenue: the deposit itself, the tax held, and, for the staking asset,
/// the delegated and unbonding principal.
pub open spec fn required_for(m: HouseModel, k: int, amount: u128) -> int {
    amount + m.tax_held[k] + if m.tokens[k].same_spec(&m.staking_token) {
        m.total_delegation + m.total_unbonding
    } else {
        0
    }
}

/// Revenue that reached the house without a deposit: what the house holds
/// beyond `required`, less what it already tracks.
pub open spec fn untracked_of(contract_balance: u128, required: u128, booked: u128) -> int {
    let untracked = contract_balance - required;
    if booked < untracked {
        untracked - booked
    } else {
        0
    }
}

/// Compares the asset balance the house holds with what it accounts for,
/// and returns the untracked surplus. Fails when the house holds less than
/// `required`.
pub fn sync_untracked_balance(contract_balance: u128, required: u128, booked: u128) -> (r: Result<
    u128,
    ContractError,
>)
    ensures
        r.is_ok() <==> required <= contract_balance,
        r matches Ok(v) ==> v == untracked_of(contract_balance, required, booked),
        r.is_err() ==> r == Err::<u128, ContractError>(ContractError::Overflow),
{
    let untracked = sub_u128(contract_balance, required)?;
    if booked < untracked {
        Ok(untracked - booked)
    } else {
        Ok(0)
    }
}

/// The amount a deposit of `amount` books, the untracked surplus included.
pub open spec fn deposit_total(m: HouseModel, k: int, amount: u128, contract_balance: u128) -> int {
    amount + untracked_of(contract_balance, required_for(m, k, amount) as u128, m.balances[k])
}

/// The untracked surplus that a deposit of `amount` into asset `k` finds.
pub open spec fn untracked_delta(m: HouseModel, k: int, amount: u128, contract_balance: u128) -> u128 {
    untracked_of(contract_balance, required_for(m, k, amount) as u128, m.balances[k]) as u128
}

/// The depositor records after a deposit: the sender `depositor` is
/// credited `amount`, and the house's own record `own` the untracked
/// surplus `delta`, if any.
pub open spec fn credited(
    p: HouseModel,
    k: int,
    amount: u128,
    delta: u128,
    depositor: int,
    own: int,
) -> HouseModel {
    let s1 = after_depositor(p, depositor, k, amount);
    if delta > 0 {
        after_depositor(s1, own, k, delta)
    } else {
        s1
    }
}

/// Those records stay within range.
pub open spec fn credit_fits(
    p: HouseModel,
    k: int,
    amount: u128,
    delta: u128,
    depositor: int,
    own: int,
) -> bool {
    &&& depositor_fits(p, depositor, k, amount)
    &&& delta > 0 ==> depositor_fits(after_depositor(p, depositor, k, amount), own, k, delta)
}

/// `exec_deposit` succeeds.
pub open spec fn exec_deposit_fits(
    m: HouseModel,
    k: int,
    amount: u128,
    contract_balance: u128,
    depositor: int,
    own: int,
    now: u64,
) -> bool {
    let total = deposit_total(m, k, amount, contract_balance) as u128;
    let delta = untracked_delta(m, k, amount, contract_balance);
    let d = credited(after_deposit(m, k, total), k, amount, delta, depositor, own);
    &&& 0 <= k < m.tokens.len()
    &&& 0 <= depositor <= m.depositors.len()
    &&& required_for(m, k, amount) <= u128::MAX
    &&& required_for(m, k, amount) <= contract_balance
    &&& deposit_total(m, k, amount, contract_balance) <= u128::MAX
    &&& credit_fits(m, k, amount, delta, depositor, own)
    &&& deposit_fits(m, k, total)
    &&& amortize_fits(d, batch_size(d.queue.len() as int, d.accounts.len() as int), None)
}

/// A depositor that has deposited nothing yet.
pub open spec fn no_deposits(n: nat) -> Seq<DepositTotals> {
    Seq::new(n, |j: int| DepositTotals { n: 0, amount: 0 })
}

/// Depositor `d` (an existing one, or the next index for a new one) can be
/// credited a deposit of `amount` of asset `k`.
pub open spec fn depositor_fits(m: HouseModel, d: int, k: int, amount: u128) -> bool {
    &&& 0 <= d <= m.depositors.len()
    &&& d < m.depositors.len() ==> m.depositors[d][k].n + 1 <= u64::MAX && m.depositors[d][k].amount
        + amount <= u128::MAX
}

/// The house after depositor `d` is credited a deposit of `amount` of
/// asset `k`.
pub open spec fn after_depositor(m: HouseModel, d: int, k: int, amount: u128) -> HouseModel {
    let row = if d < m.depositors.len() {
        m.depositors[d]
    } else {
        no_deposits(m.tokens.len())
    };
    let row2 = row.update(
        k,
        DepositTotals { n: (row[k].n + 1) as u64, amount: (row[k].amount + amount) as u128 },
    );
    HouseModel {
        depositors: if d < m.depositors.len() {
            m.depositors.update(d, row2)
        } else {
            m.depositors.push(row2)
        },
        ..m
    }
}

/// A new account for the next index, created at `now`, checkpointed at the
/// current sequence number for every asset, and queued for amortization.
pub open spec fn opened(m: HouseModel, now: u64) -> HouseModel {
    HouseModel {
        accounts: m.accounts.push(
            Account { created_at: now, created_at_seq_no: m.seq_no, delegation: 0 },
        ),
        syncs: m.syncs.push(
            Seq::new(
                m.tokens.len(),
                |k: int| AccountSyncState { t: now, seq_no: m.seq_no, amount: 0 },
            ),
        ),
        stake_events: m.stake_events.push(seq![]),
        unbondings: m.unbondings.push(None),
        queue: m.queue.push(m.accounts.len() as usize),
        x: (m.x + 1) as u64,
        ..m
    }
}

/// A delegation series with the snapshot `d` at sequence number `s`:
/// replacing the snapshot already taken at `s`, if any.
pub open spec fn with_snapshot(ds: Seq<(u64, StakingEvent)>, s: u64, d: u128) -> Seq<
    (u64, StakingEvent),
> {
    if ds.len() > 0 && ds.last().0 == s {
        ds.update(ds.len() - 1, (s, StakingEvent { delta: d }))
    } else {
        ds.push((s, StakingEvent { delta: d }))
    }
}

/// The house with account `a` delegating `d` and a total delegation of
/// `total`, the change recorded in the account's delegation series.
pub open spec fn redelegated(m: HouseModel, a: int, d: u128, total: u128) -> HouseModel {
    HouseModel {
        accounts: m.accounts.update(a, Account { delegation: d, ..m.accounts[a] }),
        total_delegation: total,
        stake_events: m.stake_events.update(a, with_snapshot(m.stake_events[a], m.seq_no, d)),
        ..m
    }
}

/// Before a stake: an existing account is settled, a new one is opened.
pub open spec fn stake_base(m: HouseModel, a: int, now: u64) -> HouseModel {
    if a < m.accounts.len() {
        after_sync(m, a, None, now)
    } else {
        opened(m, now)
    }
}

/// The house after account `a` stakes `amount`, before amortization.
pub open spec fn staked(m: HouseModel, a: int, amount: u128, now: u64) -> HouseModel {
    let b = stake_base(m, a, now);
    redelegated(
        b,
        a,
        (b.accounts[a].delegation + amount) as u128,
        (b.total_delegation + amount) as u128,
    )
}

/// `stake` succeeds.
pub open spec fn stake_fits(m: HouseModel, a: int, amount: u128, now: u64) -> bool {
    let b = stake_base(m, a, now);
    let s = staked(m, a, amount, now);
    &&& 0 <= a <= m.accounts.len()
    &&& a < m.accounts.len() ==> sync_fits(m, a, None, now)
    &&& a == m.accounts.len() ==> m.accounts.len() < u32::MAX && m.x + 1 <= u64::MAX
    &&& b.accounts[a].delegation + amount <= u128::MAX
    &&& b.total_delegation + amount <= u128::MAX
    &&& amortize_fits(s, batch_size(s.queue.len() as int, s.accounts.len() as int), Some(a as usize))
}

/// Records the snapshot `d` at the current sequence number in account `a`'s
/// delegation series, and the new delegation and total.
fn set_delegation(h: &mut House, a: usize, d: u128, total: u128)
    requires
        old(h).wf(),
        a < old(h)@.accounts.len(),
        total == old(h)@.total_delegation - old(h)@.accounts[a as int].delegation + d,
    ensures
        final(h)@ == redelegated(old(h)@, a as int, d, total),
        final(h).wf(),
{
    let ghost m = h@;
    let mut ds = copy_series(&h.stake_events[a]);
    let len = ds.len();
    if len > 0 && ds[len - 1].0 == h.seq_no {
        ds.set(len - 1, (h.seq_no, StakingEvent { delta: d }));
    } else {
        ds.push((h.seq_no, StakingEvent { delta: d }));
    }
    h.stake_events.set(a, ds);
    let acct = h.accounts[a];
    h.accounts.set(a, Account { delegation: d, ..acct });
    h.total_delegation = total;
    proof {
        let e = redelegated(m, a as int, d, total);
        lemma_delegation_sum_update(m.accounts, a as int, Account { delegation: d, ..m.accounts[a as int] });
        assert(h@.stake_events =~= e.stake_events);
        assert(h@.syncs =~= e.syncs);
        assert(h@.balance_events =~= e.balance_events);
        assert(h@.tax_totals =~= e.tax_totals);
        assert(h@ == e);
    }
}

impl House {
    /// Credits depositor `d` (the next index opens a new depositor) with a
    /// deposit of `amount` of asset `k`.
    pub fn update_depositor_totals(&mut self, d: usize, k: usize, amount: u128)
        requires
            old(self).wf(),
            k < old(self)@.tokens.len(),
            depositor_fits(old(self)@, d as int, k as int, amount),
        ensures
            final(self)@ == after_depositor(old(self)@, d as int, k as int, amount),
            final(self).wf(),
    {
        let ghost m = self@;
        if d < self.depositors.len() {
            assert(self.depositors@[d as int]@ == m.depositors[d as int]);
            let mut row = self.depositors[d].clone();
            let t = row[k];
            row.set(k, DepositTotals { n: t.n + 1, amount: t.amount + amount });
            self.depositors.set(d, row);
        } else {
            let mut row: Vec<DepositTotals> = Vec::new();
            let mut j: usize = 0;
            while j < self.tokens.len()
                invariant
                    j <= self.tokens.len(),
                    row@ == no_deposits(j as nat),
                decreases self.tokens.len() - j,
            {
                row.push(DepositTotals { n: 0, amount: 0 });
                j = j + 1;
                assert(row@ =~= no_deposits(j as nat));
            }
            row.set(k, DepositTotals { n: 1, amount });
            self.depositors.push(row);
        }
        proof {
            let e = after_depositor(m, d as int, k as int, amount);
            assert(self@.depositors =~= e.depositors);
            assert(self@.syncs =~= e.syncs);
            assert(self@.stake_events =~= e.stake_events);
            assert(self@.balance_events =~= e.balance_events);
            assert(self@.tax_totals =~= e.tax_totals);
            assert(self@ == e);
            assert forall|j: int| 0 <= j < self@.depositors.len() implies #[trigger] self@.depositors[j].len()
                == self@.tokens.len() by {
                if j < m.depositors.len() && j != d {
                    assert(self@.depositors[j] == m.depositors[j]);
                }
            }
        }
    }

    /// Handles a deposit request: rejects an asset that is not a revenue
    /// asset, books the deposit together with any untracked surplus of the
    /// asset (`contract_balance` is what the house holds of it), and runs
    /// amortization. Returns the transfers owed to tax recipients. Nothing
    /// changes on failure.
    ///
    /// Consecutive deposits merge into one balance entry only while no
    /// account settles in between; once the house has 20 or more accounts,
    /// the amortization that each deposit runs settles some of them, so each
    /// deposit then opens an entry of its own.
    pub fn exec_deposit(
        &mut self,
        k: usize,
        amount: u128,
        contract_balance: u128,
        depositor: usize,
        own: usize,
        now: u64,
    ) -> (r: Result<Vec<(usize, u128)>, ContractError>)
        requires
            old(self).wf(),
        ensures
            k >= old(self)@.tokens.len() ==> r == Err::<Vec<(usize, u128)>, ContractError>(
                ContractError::TokenNotAccepted,
            ),
            k < old(self)@.tokens.len() && depositor > old(self)@.depositors.len() ==> r == Err::<
                Vec<(usize, u128)>,
                ContractError,
            >(ContractError::DepositorNotFound),
            r.is_ok() <==> exec_deposit_fits(
                old(self)@,
                k as int,
                amount,
                contract_balance,
                depositor as int,
                own as int,
                now,
            ),
            r matches Ok(transfers) ==> {
                let total = deposit_total(old(self)@, k as int, amount, contract_balance) as u128;
                let d = credited(
                    after_deposit(old(self)@, k as int, total),
                    k as int,
                    amount,
                    untracked_delta(old(self)@, k as int, amount, contract_balance),
                    depositor as int,
                    own as int,
                );
                &&& final(self)@ == amortized(
                    d,
                    batch_size(d.queue.len() as int, d.accounts.len() as int),
                    None,
                    now,
                )
                &&& transfers@ == autosend_transfers(taxes_on(total, old(self)@.taxes), old(self)@.taxes)
                &&& final(self)@.balances[k as int] == old(self)@.balances[k as int] + net_of(
                    total,
                    old(self)@.taxes,
                )
            },
            r.is_err() ==> final(self)@ == old(self)@,
            final(self).wf(),
    {
        if k >= self.tokens.len() {
            return Err(ContractError::TokenNotAccepted);
        }
        let ghost m = self@;
        let saved: Option<House> = if self.accounts.len() >= 19 {
            Some(self.duplicate())
        } else {
            None
        };
        if depositor > self.depositors.len() {
            return Err(ContractError::DepositorNotFound);
        }
        let len = self.depositors.len();
        let mut row_n: u64 = 0;
        let mut row_amount: u128 = 0;
        if depositor < len {
            assert(self.depositors@[depositor as int]@ == m.depositors[depositor as int]);
            assert(m.depositors[depositor as int].len() == m.tokens.len());
            let t = self.depositors[depositor][k];
            row_n = add_u64(t.n, 1)?;
            row_amount = add_u128(t.amount, amount)?;
        } else {
            row_n = 1;
            row_amount = amount;
        }
        let mut required = add_u128(amount, self.tax_held[k])?;
        if self.tokens[k].same_as(&self.staking_token) {
            required = add_u128(required, self.total_delegation)?;
            required = add_u128(required, self.total_unbonding)?;
        }
        let untracked = sync_untracked_balance(contract_balance, required, self.balances[k])?;
        let total = add_u128(amount, untracked)?;
        let ghost s1 = after_depositor(m, depositor as int, k as int, amount);
        assert(s1.depositors[depositor as int][k as int] == (DepositTotals { n: row_n, amount: row_amount }));
        if untracked > 0 {
            let beyond = if depositor == len {
                own > len && own - 1 > len
            } else {
                own > len
            };
            if beyond {
                return Err(ContractError::DepositorNotFound);
            }
            let existing = if depositor == len {
                own <= len
            } else {
                own < len
            };
            if existing {
                let cur = if own == depositor {
                    DepositTotals { n: row_n, amount: row_amount }
                } else {
                    assert(self.depositors@[own as int]@ == m.depositors[own as int]);
                    assert(m.depositors[own as int].len() == m.tokens.len());
                    self.depositors[own][k]
                };
                assert(s1.depositors[own as int][k as int] == cur);
                add_u64(cur.n, 1)?;
                add_u128(cur.amount, untracked)?;
            }
        }
        let transfers = self.deposit(k, total)?;
        self.update_depositor_totals(depositor, k, amount);
        if untracked > 0 {
            self.update_depositor_totals(own, k, untracked);
        }
        let ghost d = self@;
        let ghost pre = self@;
        proof {
            if pre.accounts.len() < 20 {
                lemma_small_batch_empty(pre, None);
            }
        }
        match self.amortize(None, now) {
            Ok(()) => {},
            Err(e) => {
                match saved {
                    Some(h) => {
                        *self = h;
                    },
                    None => {},
                }
                return Err(e);
            },
        }
        proof {
            lemma_amortized_keeps_balances(d, None, now);
            lemma_taxes_bounded(total, m.taxes);
        }
        Ok(transfers)
    }

    /// Stakes `amount` for account `a`: an existing account is settled
    /// first; `a` equal to the number of accounts opens a new account, which
    /// joins the amortization queue. Returns the account's index. Nothing
    /// changes on failure.
    pub fn exec_stake(&mut self, a: usize, amount: u128, now: u64) -> (r: Result<usize, ContractError>)
        requires
            old(self).wf(),
        ensures
            a > old(self)@.accounts.len() ==> r == Err::<usize, ContractError>(
                ContractError::AccountNotFound,
            ),
            r.is_ok() <==> stake_fits(old(self)@, a as int, amount, now),
            r matches Ok(i) ==> {
                let s = staked(old(self)@, a as int, amount, now);
                &&& i == a
                &&& final(self)@.balances == old(self)@.balances
                &&& final(self)@ == amortized(
                    s,
                    batch_size(s.queue.len() as int, s.accounts.len() as int),
                    Some(a),
                    now,
                )
            },
            r.is_err() ==> final(self)@ == old(self)@,
            final(self).wf(),
    {
        let ghost m = self@;
        let saved: Option<House> = if self.accounts.len() >= 19 {
            Some(self.duplicate())
        } else {
            None
        };
        if a > self.accounts.len() {
            return Err(ContractError::AccountNotFound);
        }
        proof {
            lemma_after_settle_all_shape(m, a as int, now, m.tokens.len() as int);
        }
        let d = if a < self.accounts.len() {
            add_u128(self.accounts[a].delegation, amount)?
        } else {
            amount
        };
        let total = add_u128(self.total_delegation, amount)?;
        if a < self.accounts.len() {
            self.settle_account(a, None, now)?;
        } else {
            if self.accounts.len() >= 0xffff_ffff {
                return Err(ContractError::Overflow);
            }
            let x = add_u64(self.x, 1)?;
            let mut row: Vec<AccountSyncState> = Vec::new();
            let mut k: usize = 0;
            while k < self.tokens.len()
                invariant
                    k <= self.tokens.len(),
                    row@ == Seq::new(
                        k as nat,
                        |j: int| AccountSyncState { t: now, seq_no: self.seq_no, amount: 0 },
                    ),
                decreases self.tokens.len() - k,
            {
                row.push(AccountSyncState { t: now, seq_no: self.seq_no, amount: 0 });
                k = k + 1;
                assert(row@ =~= Seq::new(
                    k as nat,
                    |j: int| AccountSyncState { t: now, seq_no: self.seq_no, amount: 0 },
                ));
            }
            self.accounts.push(Account::new(now, self.seq_no));
            self.syncs.push(row);
            self.stake_events.push(Vec::new());
            self.unbondings.push(None);
            self.queue.push_back(a);
            self.x = x;
            proof {
                let e = opened(m, now);
                lemma_delegation_sum_push(m.accounts, Account { created_at: now, created_at_seq_no: m.seq_no, delegation: 0 });
                lemma_unbonding_sum_push(m.unbondings, None);
                assert(self@.syncs =~= e.syncs);
                assert(self@.stake_events =~= e.stake_events);
                assert(self@.balance_events =~= e.balance_events);
                assert(self@.tax_totals =~= e.tax_totals);
                assert(self@ == e);
                assert forall|b: int| 0 <= b < self@.syncs.len() implies #[trigger] self@.syncs[b].len()
                    == self@.tokens.len() by {
                    if b < m.syncs.len() {
                        assert(self@.syncs[b] == m.syncs[b]);
                    }
                }
                assert forall|b: int, j: int|
                    0 <= b < self@.syncs.len() && 0 <= j < self@.syncs[b].len() implies #[trigger] self@.syncs[b][j].seq_no
                    <= self@.seq_no by {
                    if b < m.syncs.len() {
                        assert(self@.syncs[b] == m.syncs[b]);
                    }
                }
            }
        }
        assert(self@ == stake_base(m, a as int, now));
        set_delegation(self, a, d, total);
        let ghost s = self@;
        let ghost pre = self@;
        proof {
            if pre.accounts.len() < 20 {
                lemma_small_batch_empty(pre, Some(a));
            }
        }
        match self.amortize(Some(a), now) {
            Ok(()) => {},
            Err(e) => {
                match saved {
                    Some(h) => {
                        *self = h;
                    },
                    None => {},
                }
                return Err(e);
            },
        }
        proof {
            lemma_amortized_keeps_balances(s, Some(a), now);
        }
        Ok(a)
    }
}

/// Nanoseconds per second.
pub const NANOS_PER_SECOND: u64 = 1_000_000_000;

/// When an unbonding that starts at `now` matures.
pub open spec fn maturity_of(m: HouseModel, now: u64) -> int {
    now + m.unbonding_seconds * (NANOS_PER_SECOND as int)
}

/// The maturity of two merged unbondings, `a1` maturing at `m1` and `a2` at
/// `m2`: their average weighted by amount, truncated toward `m1`.
pub open spec fn merged_maturity(a1: u128, m1: u64, a2: u128, m2: u64) -> int {
    let total = a1 + a2;
    if total == 0 {
        m2 as int
    } else if m1 <= m2 {
        m1 + ((m2 - m1) * a2) / total
    } else {
        m1 - ((m1 - m2) * a2) / total
    }
}

/// Merging the two unbondings stays within range.
pub open spec fn merge_fits(a1: u128, m1: u64, a2: u128, m2: u64) -> bool {
    &&& a1 + a2 <= u128::MAX
    &&& m1 <= m2 ==> (m2 - m1) * a2 <= u128::MAX
    &&& m2 < m1 ==> (m1 - m2) * a2 <= u128::MAX
}

/// `floor(d * a2 / total)` lies between zero and `d` when `a2 <= total`.
pub proof fn lemma_weighted_step(d: int, a2: int, total: int)
    requires
        0 <= d,
        0 <= a2 <= total,
        total > 0,
    ensures
        0 <= (d * a2) / total <= d,
{
    assert(0 <= d * a2 <= d * total) by (nonlinear_arith)
        requires
            0 <= d,
            0 <= a2 <= total,
    ;
    assert((d * total) / total == d) by (nonlinear_arith)
        requires
            total > 0,
    ;
    assert((d * a2) / total <= (d * total) / total) by (nonlinear_arith)
        requires
            d * a2 <= d * total,
            total > 0,
    ;
    assert(0 <= (d * a2) / total) by (nonlinear_arith)
        requires
            d * a2 >= 0,
            total > 0,
    ;
}

/// Merges a new unbonding of `amount` maturing at `maturity` into the
/// pending one `u`.
pub fn merge_unbonding(u: AccountUnbondingState, amount: u128, maturity: u64) -> (r: Result<
    AccountUnbondingState,
    ContractError,
>)
    ensures
        r.is_ok() <==> merge_fits(u.amount, u.unbonds_at, amount, maturity),
        r matches Ok(v) ==> v.amount == u.amount + amount && v.unbonds_at == merged_maturity(
            u.amount,
            u.unbonds_at,
            amount,
            maturity,
        ),
{
    let total = add_u128(u.amount, amount)?;
    if total == 0 {
        proof {
            let d1: int = maturity - u.unbonds_at;
            let d2: int = u.unbonds_at - maturity;
            assert(amount == 0);
            assert(d1 * amount == 0 && d2 * amount == 0) by (nonlinear_arith)
                requires
                    amount == 0,
            ;
        }
        return Ok(AccountUnbondingState { amount: 0, unbonds_at: maturity });
    }
    if u.unbonds_at <= maturity {
        let shift = mul_ratio_u128((maturity - u.unbonds_at) as u128, amount, total)?;
        proof {
            lemma_weighted_step(maturity - u.unbonds_at, amount as int, total as int);
        }
        Ok(AccountUnbondingState { amount: total, unbonds_at: u.unbonds_at + shift as u64 })
    } else {
        let shift = mul_ratio_u128((u.unbonds_at - maturity) as u128, amount, total)?;
        proof {
            lemma_weighted_step(u.unbonds_at - maturity, amount as int, total as int);
        }
        Ok(AccountUnbondingState { amount: total, unbonds_at: u.unbonds_at - shift as u64 })
    }
}

/// The pending unbonding after `amount` more starts to unbond.
pub open spec fn unbonding_after(
    u: Option<AccountUnbondingState>,
    amount: u128,
    maturity: u64,
) -> AccountUnbondingState {
    match u {
        Some(p) => AccountUnbondingState {
            amount: (p.amount + amount) as u128,
            unbonds_at: merged_maturity(p.amount, p.unbonds_at, amount, maturity) as u64,
        },
        None => AccountUnbondingState { amount, unbonds_at: maturity },
    }
}

/// That merge stays within range.
pub open spec fn unbonding_fits(u: Option<AccountUnbondingState>, amount: u128, maturity: u64) -> bool {
    match u {
        Some(p) => merge_fits(p.amount, p.unbonds_at, amount, maturity),
        None => true,
    }
}

/// The amount an unstake takes: the one requested, or all of the delegation.
pub open spec fn unstake_amount(b: HouseModel, a: int, amount: Option<u128>) -> u128 {
    match amount {
        Some(v) => v,
        None => b.accounts[a].delegation,
    }
}

/// The house after account `a` unstakes, before amortization.
pub open spec fn unstaked(m: HouseModel, a: int, amount: Option<u128>, now: u64) -> HouseModel {
    let b = after_sync(m, a, None, now);
    let amt = unstake_amount(b, a, amount);
    let r = redelegated(
        b,
        a,
        (b.accounts[a].delegation - amt) as u128,
        (b.total_delegation - amt) as u128,
    );
    HouseModel {
        total_unbonding: (b.total_unbonding + amt) as u128,
        unbondings: r.unbondings.update(
            a,
            Some(unbonding_after(b.unbondings[a], amt, maturity_of(m, now) as u64)),
        ),
        ..r
    }
}

/// `unstake` succeeds, given that the caller may act for the account.
pub open spec fn unstake_fits(m: HouseModel, a: int, amount: Option<u128>, now: u64) -> bool {
    let b = after_sync(m, a, None, now);
    let amt = unstake_amount(b, a, amount);
    let u = unstaked(m, a, amount, now);
    &&& 0 <= a < m.accounts.len()
    &&& sync_fits(m, a, None, now)
    &&& amt <= b.accounts[a].delegation
    &&& amt <= b.total_delegation
    &&& b.total_unbonding + amt <= u128::MAX
    &&& maturity_of(m, now) <= u64::MAX
    &&& unbonding_fits(b.unbondings[a], amt, maturity_of(m, now) as u64)
    &&& amortize_fits(u, batch_size(u.queue.len() as int, u.accounts.len() as int), Some(a as usize))
}

/// The house after account `a` claims asset `k`, before amortization: the
/// settled revenue is paid out, and a matured unbonding is released.
pub open spec fn claimed(m: HouseModel, a: int, k: int, now: u64) -> HouseModel {
    let b = after_sync(m, a, Some(k as usize), now);
    let rev = b.syncs[a][k].amount;
    let c = HouseModel {
        syncs: b.syncs.update(a, b.syncs[a].update(k, AccountSyncState { amount: 0, ..b.syncs[a][k] })),
        balances: b.balances.update(k, (b.balances[k] - rev) as u128),
        ..b
    };
    match b.unbondings[a] {
        Some(u) => if now >= u.unbonds_at {
            HouseModel {
                unbondings: c.unbondings.update(a, None),
                total_unbonding: (c.total_unbonding - u.amount) as u128,
                ..c
            }
        } else {
            c
        },
        None => c,
    }
}

/// What that claim pays out.
pub open spec fn claim_payout(m: HouseModel, a: int, k: int, now: u64) -> ClaimOutcome {
    let b = after_sync(m, a, Some(k as usize), now);
    ClaimOutcome {
        revenue: b.syncs[a][k].amount,
        unbonded: match b.unbondings[a] {
            Some(u) => if now >= u.unbonds_at {
                u.amount
            } else {
                0
            },
            None => 0,
        },
    }
}

/// `claim` succeeds.
pub open spec fn claim_fits(m: HouseModel, a: int, k: int, now: u64) -> bool {
    let b = after_sync(m, a, Some(k as usize), now);
    let c = claimed(m, a, k, now);
    &&& 0 <= a < m.accounts.len()
    &&& 0 <= k < m.tokens.len()
    &&& sync_fits(m, a, Some(k as usize), now)
    &&& b.syncs[a][k].amount <= b.balances[k]
    &&& match b.unbondings[a] {
        Some(u) => now >= u.unbonds_at ==> u.amount <= b.total_unbonding,
        None => true,
    }
    &&& amortize_fits(c, batch_size(c.queue.len() as int, c.accounts.len() as int), Some(a as usize))
}

impl House {
    /// Unstakes from account `a` the amount given, or all of its delegation,
    /// after settling the account; the amount starts unbonding, merged with
    /// any pending unbonding. Acting for another account (`on_behalf`) is
    /// reserved to the manager. Returns the pending unbonding. Nothing
    /// changes on failure.
    pub fn exec_unstake(
        &mut self,
        a: usize,
        amount: Option<u128>,
        on_behalf: bool,
        sender_is_manager: bool,
        now: u64,
    ) -> (r: Result<AccountUnbondingState, ContractError>)
        requires
            old(self).wf(),
        ensures
            on_behalf && !sender_is_manager ==> r == Err::<AccountUnbondingState, ContractError>(
                ContractError::NotManager,
            ),
            !(on_behalf && !sender_is_manager) && a >= old(self)@.accounts.len() ==> r == Err::<
                AccountUnbondingState,
                ContractError,
            >(ContractError::AccountNotFound),
            r.is_ok() <==> !(on_behalf && !sender_is_manager) && unstake_fits(
                old(self)@,
                a as int,
                amount,
                now,
            ),
            r matches Ok(v) ==> {
                let u = unstaked(old(self)@, a as int, amount, now);
                &&& final(self)@ == amortized(
                    u,
                    batch_size(u.queue.len() as int, u.accounts.len() as int),
                    Some(a),
                    now,
                )
                &&& Some(v) == u.unbondings[a as int]
                &&& final(self)@.balances == old(self)@.balances
            },
            r.is_err() ==> final(self)@ == old(self)@,
            final(self).wf(),
    {
        if on_behalf && !sender_is_manager {
            return Err(ContractError::NotManager);
        }
        if a >= self.accounts.len() {
            return Err(ContractError::AccountNotFound);
        }
        let ghost m = self@;
        let saved: Option<House> = if self.accounts.len() >= 19 {
            Some(self.duplicate())
        } else {
            None
        };
        let secs = match self.unbonding_seconds.checked_mul(NANOS_PER_SECOND) {
            Some(v) => v,
            None => {
                return Err(ContractError::Overflow);
            },
        };
        proof {
            lemma_after_settle_all_shape(m, a as int, now, m.tokens.len() as int);
        }
        let amt = match amount {
            Some(v) => v,
            None => self.accounts[a].delegation,
        };
        let d = sub_u128(self.accounts[a].delegation, amt)?;
        let total = sub_u128(self.total_delegation, amt)?;
        let unbonding_total = add_u128(self.total_unbonding, amt)?;
        let maturity = add_u64(now, secs)?;
        let next = match self.unbondings[a] {
            Some(u) => merge_unbonding(u, amt, maturity)?,
            None => AccountUnbondingState { amount: amt, unbonds_at: maturity },
        };
        self.settle_account(a, None, now)?;
        set_delegation(self, a, d, total);
        let ghost p = self@;
        self.total_unbonding = unbonding_total;
        self.unbondings.set(a, Some(next));
        proof {
            lemma_unbonding_sum_update(p.unbondings, a as int, Some(next));
            let e = unstaked(m, a as int, amount, now);
            assert(self@.syncs =~= e.syncs);
            assert(self@.stake_events =~= e.stake_events);
            assert(self@.balance_events =~= e.balance_events);
            assert(self@.tax_totals =~= e.tax_totals);
            assert(self@ == e);
        }
        let ghost s = self@;
        let ghost pre = self@;
        proof {
            if pre.accounts.len() < 20 {
                lemma_small_batch_empty(pre, Some(a));
            }
        }
        match self.amortize(Some(a), now) {
            Ok(()) => {},
            Err(e) => {
                match saved {
                    Some(h) => {
                        *self = h;
                    },
                    None => {},
                }
                return Err(e);
            },
        }
        proof {
            lemma_amortized_keeps_balances(s, Some(a), now);
        }
        Ok(next)
    }

    /// Claims for account `a` its settled revenue of asset `k`, after
    /// settling it, and its unbonding if that has matured. Nothing changes
    /// on failure.
    pub fn exec_claim(&mut self, a: usize, k: usize, now: u64) -> (r: Result<ClaimOutcome, ContractError>)
        requires
            old(self).wf(),
        ensures
            a >= old(self)@.accounts.len() ==> r == Err::<ClaimOutcome, ContractError>(
                ContractError::AccountNotFound,
            ),
            a < old(self)@.accounts.len() && k >= old(self)@.tokens.len() ==> r == Err::<
                ClaimOutcome,
                ContractError,
            >(ContractError::TokenNotAccepted),
            r.is_ok() <==> claim_fits(old(self)@, a as int, k as int, now),
            r matches Ok(v) ==> {
                let c = claimed(old(self)@, a as int, k as int, now);
                &&& final(self)@ == amortized(
                    c,
                    batch_size(c.queue.len() as int, c.accounts.len() as int),
                    Some(a),
                    now,
                )
                &&& v == claim_payout(old(self)@, a as int, k as int, now)
                &&& v.revenue <= old(self)@.balances[k as int]
                &&& final(self)@.balances == old(self)@.balances.update(
                    k as int,
                    (old(self)@.balances[k as int] - v.revenue) as u128,
                )
            },
            r.is_err() ==> final(self)@ == old(self)@,
            final(self).wf(),
    {
        if a >= self.accounts.len() {
            return Err(ContractError::AccountNotFound);
        }
        if k >= self.tokens.len() {
            return Err(ContractError::TokenNotAccepted);
        }
        let ghost m = self@;
        let saved: Option<House> = if self.accounts.len() >= 19 {
            Some(self.duplicate())
        } else {
            None
        };
        let results = self.sync_account(a, Some(k), now)?;
        let revenue = results[0].1.amount;
        proof {
            assert(crate::settle::result_of(m, a as int, selected(Some(k), 0), now, results@[0]));
            assert(m.syncs[a as int].len() == m.tokens.len());
            let b = after_sync(m, a as int, Some(k), now);
            assert(b.syncs[a as int][k as int] == results@[0].1);
            assert(b.balances == m.balances);
            assert(b.unbondings == m.unbondings);
            assert(b.total_unbonding == m.total_unbonding);
        }
        let bal = sub_u128(self.balances[k], revenue)?;
        let mut unbonded: u128 = 0;
        let mut release = false;
        let mut unbonding_total = self.total_unbonding;
        match self.unbondings[a] {
            Some(u) => {
                if now >= u.unbonds_at {
                    unbonding_total = sub_u128(self.total_unbonding, u.amount)?;
                    unbonded = u.amount;
                    release = true;
                }
            },
            None => {},
        }
        if self.x == u64::MAX {
            return Err(ContractError::Overflow);
        }
        self.persist_sync_results(a, Some(k), &results, now);
        let ghost b = self@;
        assert(b.syncs[a as int].len() == b.tokens.len());
        let st = self.syncs[a][k];
        self.total_unbonding = unbonding_total;
        if release {
            self.unbondings.set(a, None);
        }
        self.balances.set(k, bal);
        let mut row = self.syncs[a].clone();
        row.set(k, AccountSyncState { amount: 0, ..st });
        self.syncs.set(a, row);
        proof {
            let e = claimed(m, a as int, k as int, now);
            if release {
                lemma_unbonding_sum_update(b.unbondings, a as int, None);
            }
            assert forall|x: int, y: int|
                0 <= x < self@.syncs.len() && 0 <= y < self@.syncs[x].len() implies #[trigger] self@.syncs[x][y].seq_no
                <= self@.seq_no by {
                if x != a {
                    assert(self@.syncs[x] == b.syncs[x]);
                } else if y != k {
                    assert(self@.syncs[x][y] == b.syncs[x][y]);
                }
            }
            assert(self@.syncs =~= e.syncs);
            assert(self@.stake_events =~= e.stake_events);
            assert(self@.balance_events =~= e.balance_events);
            assert(self@.tax_totals =~= e.tax_totals);
            assert(self@ == e);
            assert forall|j: int| 0 <= j < self@.syncs.len() implies #[trigger] self@.syncs[j].len()
                == self@.tokens.len() by {
                if j != a {
                    assert(self@.syncs[j] == b.syncs[j]);
                }
            }
        }
        let ghost s = self@;
        let ghost pre = self@;
        proof {
            if pre.accounts.len() < 20 {
                lemma_small_batch_empty(pre, Some(a));
            }
        }
        match self.amortize(Some(a), now) {
            Ok(()) => {},
            Err(e) => {
                match saved {
                    Some(h) => {
                        *self = h;
                    },
                    None => {},
                }
                return Err(e);
            },
        }
        proof {
            lemma_amortized_keeps_balances(s, Some(a), now);
        }
        Ok(ClaimOutcome { revenue, unbonded })
    }
}

} // verus!
