use crate::error::ContractError;
use crate::house::{
    balance_series_ok, lemma_balance_series_weaken, lemma_collected_ok, stake_series_ok, House,
    HouseModel,
};
use crate::models::{AccountSyncState, BalanceEvent, StakingEvent};
use crate::sync::{
    accrued, collected, copy_series, delegation_at, entry_settles, in_window, lemma_share_nonneg,
    released, share_of, sync_account_balance, window_settles, zombies,
    TokenSyncResult,
};
use vstd::prelude::*;

verus! {

/// Account `a` can settle asset `k` up to the current sequence number.
pub open spec fn settle_fits(m: HouseModel, a: int, k: int) -> bool {
    let cp = m.syncs[a][k].seq_no;
    &&& window_settles(m.stake_events[a], m.balance_events[k], cp, m.seq_no)
    &&& m.syncs[a][k].amount + accrued(m.stake_events[a], m.balance_events[k], cp, m.seq_no)
        <= u128::MAX
}

/// Account `a`'s sync state for asset `k` once settled at time `now`.
pub open spec fn settled_state(m: HouseModel, a: int, k: int, now: u64) -> AccountSyncState {
    let cp = m.syncs[a][k].seq_no;
    AccountSyncState {
        t: now,
        seq_no: m.seq_no,
        amount: (m.syncs[a][k].amount + accrued(
            m.stake_events[a],
            m.balance_events[k],
            cp,
            m.seq_no,
        )) as u128,
    }
}

/// The house after account `a` settles asset `k`: the account is credited,
/// its checkpoint moves to the current sequence number, and each balance
/// entry it settled past loses one reference.
pub open spec fn after_settle(m: HouseModel, a: int, k: int, now: u64) -> HouseModel {
    let cp = m.syncs[a][k].seq_no;
    HouseModel {
        syncs: m.syncs.update(a, m.syncs[a].update(k, settled_state(m, a, k, now))),
        balance_events: m.balance_events.update(k, collected(m.balance_events[k], cp, m.seq_no)),
        ..m
    }
}

/// Account `a` can settle each of the assets `0..n`.
pub open spec fn settle_all_fits(m: HouseModel, a: int, now: u64, n: int) -> bool {
    forall|j: int| 0 <= j < n ==> #[trigger] settle_fits(m, a, j)
}

/// The house after account `a` settles the assets `0..n`. The assets are
/// independent: each one's settlement reads only its own balance series and
/// the account's delegation series, which none of them changes.
pub open spec fn after_settle_all(m: HouseModel, a: int, now: u64, n: int) -> HouseModel {
    HouseModel {
        syncs: m.syncs.update(
            a,
            Seq::new(
                m.syncs[a].len(),
                |j: int|
                    if j < n {
                        settled_state(m, a, j, now)
                    } else {
                        m.syncs[a][j]
                    },
            ),
        ),
        balance_events: Seq::new(
            m.balance_events.len(),
            |j: int|
                if j < n {
                    collected(m.balance_events[j], m.syncs[a][j].seq_no, m.seq_no)
                } else {
                    m.balance_events[j]
                },
        ),
        ..m
    }
}

/// The asset of the `i`-th settlement that `sync_account` performs.
pub open spec fn selected(token: Option<usize>, i: int) -> int {
    match token {
        Some(k) => k as int,
        None => i,
    }
}

/// How many assets `sync_account` settles.
pub open spec fn selected_count(m: HouseModel, token: Option<usize>) -> int {
    match token {
        Some(k) => 1,
        None => m.tokens.len() as int,
    }
}

/// `r` is what settling asset `k` of account `a` reports, with the
/// account's new sync state for it.
pub open spec fn result_of(
    m: HouseModel,
    a: int,
    k: int,
    now: u64,
    r: (TokenSyncResult, AccountSyncState),
) -> bool {
    let cp = m.syncs[a][k].seq_no;
    &&& r.0.asset == k
    &&& r.0.synced_amount == accrued(m.stake_events[a], m.balance_events[k], cp, m.seq_no)
    &&& r.0.balance_events@ == collected(m.balance_events[k], cp, m.seq_no)
    &&& r.0.zombie_balance_event_keys@ == zombies(m.balance_events[k], cp, m.seq_no)
    &&& r.1 == settled_state(m, a, k, now)
}

/// `v` holds, for each selected asset in order, what settling it reports
/// and the account's new sync state for it.
pub open spec fn sync_results(
    m: HouseModel,
    a: int,
    token: Option<usize>,
    now: u64,
    v: Seq<(TokenSyncResult, AccountSyncState)>,
) -> bool {
    &&& v.len() == selected_count(m, token)
    &&& forall|i: int| 0 <= i < v.len() ==> result_of(m, a, selected(token, i), now, #[trigger] v[i])
}

/// The selected settlements can all be performed.
pub open spec fn selected_fit(m: HouseModel, a: int, token: Option<usize>) -> bool {
    match token {
        Some(k) => settle_fits(m, a, k as int),
        None => settle_all_fits(m, a, 0, m.tokens.len() as int),
    }
}

/// The house after the first `i` settlements that `sync_account` selects
/// have been recorded.
pub open spec fn settle_selected_prefix(
    m: HouseModel,
    a: int,
    token: Option<usize>,
    now: u64,
    i: int,
) -> HouseModel {
    match token {
        Some(k) => after_settle(m, a, k as int, now),
        None => after_settle_all(m, a, now, i),
    }
}

/// The smallest checkpoint among `syncs`, and at most `init`.
pub open spec fn min_checkpoint(syncs: Seq<AccountSyncState>, init: u64) -> u64
    decreases syncs.len(),
{
    if syncs.len() == 0 {
        init
    } else {
        let rest = min_checkpoint(syncs.drop_last(), init);
        if syncs.last().seq_no < rest {
            syncs.last().seq_no
        } else {
            rest
        }
    }
}

/// Where the part of a delegation series that settlements from `m` on still
/// read begins: at its last entry at or before `m`.
pub open spec fn prune_start(ds: Seq<(u64, StakingEvent)>, m: u64) -> int
    decreases ds.len(),
{
    if ds.len() == 0 {
        0
    } else if ds.last().0 <= m {
        ds.len() - 1
    } else {
        prune_start(ds.drop_last(), m)
    }
}

/// A delegation series without the entries that no settlement from `m` on
/// reads.
pub open spec fn pruned(ds: Seq<(u64, StakingEvent)>, m: u64) -> Seq<(u64, StakingEvent)> {
    ds.subrange(prune_start(ds, m), ds.len() as int)
}

/// The settlement that `settle_account` performs: of asset `k`, or of every
/// asset.
pub open spec fn settle_selected(m: HouseModel, a: int, token: Option<usize>, now: u64) -> HouseModel {
    match token {
        Some(k) => after_settle(m, a, k as int, now),
        None => after_settle_all(m, a, now, m.tokens.len() as int),
    }
}

/// `settle_account` succeeds.
pub open spec fn sync_fits(m: HouseModel, a: int, token: Option<usize>, now: u64) -> bool {
    &&& selected_fit(m, a, token)
    &&& m.x + 1 <= u64::MAX
}

/// The house after `settle_account`: settled, the account's consumed
/// delegation entries dropped, and the generation advanced.
pub open spec fn after_sync(m: HouseModel, a: int, token: Option<usize>, now: u64) -> HouseModel {
    let s = settle_selected(m, a, token, now);
    HouseModel {
        stake_events: s.stake_events.update(
            a,
            pruned(s.stake_events[a], min_checkpoint(s.syncs[a], s.seq_no)),
        ),
        x: (s.x + 1) as u64,
        ..s
    }
}

/// Dropping the delegation entries before the last one at or before `m`
/// changes no delegation that a settlement from `m` on reads.
pub proof fn lemma_pruned_keeps_delegation(ds: Seq<(u64, StakingEvent)>, m: u64, s: int)
    requires
        m <= s,
    ensures
        delegation_at(pruned(ds, m), s) == delegation_at(ds, s),
    decreases ds.len(),
{
    lemma_prune_start_range(ds, m);
    if ds.len() > 0 {
        lemma_prune_start_range(ds.drop_last(), m);
        let p = pruned(ds, m);
        if ds.last().0 <= m {
            assert(p =~= seq![ds.last()]);
            assert(p.drop_last() =~= Seq::<(u64, StakingEvent)>::empty());
        } else {
            lemma_pruned_keeps_delegation(ds.drop_last(), m, s);
            let q = pruned(ds.drop_last(), m);
            assert(p.drop_last() =~= q);
            assert(p.last() == ds.last());
        }
    }
}

/// The start of the kept part lies within the series.
pub proof fn lemma_prune_start_range(ds: Seq<(u64, StakingEvent)>, m: u64)
    ensures
        0 <= prune_start(ds, m) <= ds.len(),
        ds.len() > 0 ==> prune_start(ds, m) < ds.len(),
    decreases ds.len(),
{
    if ds.len() > 0 {
        lemma_prune_start_range(ds.drop_last(), m);
    }
}

/// Looks up the smallest checkpoint.
fn min_checkpoint_of(syncs: &Vec<AccountSyncState>, init: u64) -> (r: u64)
    ensures
        r == min_checkpoint(syncs@, init),
{
    let mut r: u64 = init;
    let mut i: usize = 0;
    while i < syncs.len()
        invariant
            i <= syncs.len(),
            r == min_checkpoint(syncs@.take(i as int), init),
        decreases syncs.len() - i,
    {
        assert(syncs@.take(i + 1).drop_last() == syncs@.take(i as int));
        if syncs[i].seq_no < r {
            r = syncs[i].seq_no;
        }
        i = i + 1;
    }
    assert(syncs@.take(i as int) == syncs@);
    r
}

/// Copies the part of a delegation series still needed from `m` on.
fn prune_delegation(ds: &Vec<(u64, StakingEvent)>, m: u64) -> (r: Vec<(u64, StakingEvent)>)
    ensures
        r@ == pruned(ds@, m),
{
    let mut start: usize = ds.len();
    assert(ds@.take(start as int) == ds@);
    while start > 0 && ds[start - 1].0 > m
        invariant
            start <= ds.len(),
            prune_start(ds@, m) == prune_start(ds@.take(start as int), m),
        decreases start,
    {
        assert(ds@.take(start as int).drop_last() == ds@.take(start - 1));
        start = start - 1;
    }
    let begin: usize = if start > 0 {
        start - 1
    } else {
        0
    };
    assert(begin == prune_start(ds@, m)) by {
        if start > 0 {
            assert(ds@.take(start as int).last() == ds@[start - 1]);
        }
    }
    let mut out: Vec<(u64, StakingEvent)> = Vec::new();
    let mut i: usize = begin;
    while i < ds.len()
        invariant
            begin <= i <= ds.len(),
            out@ == ds@.subrange(begin as int, i as int),
        decreases ds.len() - i,
    {
        out.push(ds[i]);
        i = i + 1;
        assert(out@ =~= ds@.subrange(begin as int, i as int));
    }
    out
}

/// Settling changes neither the account list, nor the assets, nor the
/// counters and totals.
pub proof fn lemma_after_settle_all_shape(m: HouseModel, a: int, now: u64, n: int)
    ensures
        after_settle_all(m, a, now, n).tokens == m.tokens,
        after_settle_all(m, a, now, n).accounts == m.accounts,
        after_settle_all(m, a, now, n).seq_no == m.seq_no,
        after_settle_all(m, a, now, n).x == m.x,
        after_settle_all(m, a, now, n).queue == m.queue,
        after_settle_all(m, a, now, n).total_delegation == m.total_delegation,
        after_settle_all(m, a, now, n).unbondings == m.unbondings,
        after_settle_all(m, a, now, n).balances == m.balances,
        after_settle_all(m, a, now, n).taxes == m.taxes,
        after_settle_all(m, a, now, n).total_unbonding == m.total_unbonding,
{
}

/// Garbage collection on behalf of one account never makes another
/// account's settlement fail, nor raises what it accrues: it only drops
/// entries and lowers reference counts that stay above zero.
pub proof fn lemma_collected_keeps_settling(
    ds: Seq<(u64, StakingEvent)>,
    bs: Seq<(u64, BalanceEvent)>,
    lo: u64,
    hi: u64,
    lo2: u64,
    hi2: u64,
)
    requires
        window_settles(ds, bs, lo, hi),
    ensures
        window_settles(ds, collected(bs, lo2, hi2), lo, hi),
        accrued(ds, collected(bs, lo2, hi2), lo, hi) <= accrued(ds, bs, lo, hi),
    decreases bs.len(),
{
    if bs.len() > 0 {
        let rest = bs.drop_last();
        let last = bs.last();
        assert(bs[bs.len() - 1] == last);
        assert(window_settles(ds, rest, lo, hi)) by {
            assert forall|i: int|
                0 <= i < rest.len() && in_window(#[trigger] rest[i].0, lo, hi) implies entry_settles(
                rest[i].1,
                delegation_at(ds, rest[i].0 as int),
            ) by {
                assert(rest[i] == bs[i]);
            }
        }
        lemma_collected_keeps_settling(ds, rest, lo, hi, lo2, hi2);
        lemma_share_nonneg(last.1, delegation_at(ds, last.0 as int));
        let cr = collected(rest, lo2, hi2);
        let c = collected(bs, lo2, hi2);
        if in_window(last.0, lo2, hi2) && last.1.ref_count > 1 {
            assert(share_of(released(last.1), delegation_at(ds, last.0 as int)) == share_of(
                last.1,
                delegation_at(ds, last.0 as int),
            ));
        }
        if c.len() > cr.len() {
            assert(c.drop_last() =~= cr);
        }
        assert forall|i: int|
            0 <= i < c.len() && in_window(#[trigger] c[i].0, lo, hi) implies entry_settles(
            c[i].1,
            delegation_at(ds, c[i].0 as int),
        ) by {
            if i < cr.len() {
                assert(c[i] == cr[i]);
            }
        }
    }
}

/// Settling one account never makes the settlement of another account
/// fail.
pub proof fn lemma_settle_fits_after_other(m: HouseModel, q: int, q2: int, k: int, now: u64)
    requires
        m.wf(),
        0 <= q < m.accounts.len(),
        0 <= q2 < m.accounts.len(),
        q != q2,
        0 <= k < m.tokens.len(),
        settle_fits(m, q, k),
    ensures
        settle_fits(after_sync(m, q2, None, now), q, k),
{
    let e = after_sync(m, q2, None, now);
    assert(m.syncs[q2].len() == m.tokens.len());
    assert(e.stake_events[q] == m.stake_events[q]);
    assert(e.syncs[q] == m.syncs[q]);
    assert(e.balance_events[k] == collected(m.balance_events[k], m.syncs[q2][k].seq_no, m.seq_no));
    lemma_collected_keeps_settling(
        m.stake_events[q],
        m.balance_events[k],
        m.syncs[q][k].seq_no,
        m.seq_no,
        m.syncs[q2][k].seq_no,
        m.seq_no,
    );
}

/// Settling keeps the house well formed.
pub proof fn lemma_after_sync_wf(m: HouseModel, a: int, token: Option<usize>, now: u64)
    requires
        m.wf(),
        m.x + 1 <= u64::MAX,
        0 <= a < m.accounts.len(),
        token matches Some(k) ==> k < m.tokens.len(),
    ensures
        after_sync(m, a, token, now).wf(),
{
    let e = after_sync(m, a, token, now);
    assert(m.syncs[a].len() == m.tokens.len());
    assert forall|b: int| 0 <= b < e.syncs.len() implies #[trigger] e.syncs[b].len() == e.tokens.len() by {
        if b != a {
            assert(e.syncs[b] == m.syncs[b]);
        }
    }
    assert forall|b: int, j: int|
        0 <= b < e.syncs.len() && 0 <= j < e.syncs[b].len() implies #[trigger] e.syncs[b][j].seq_no
        <= e.seq_no by {
        if b != a {
            assert(e.syncs[b] == m.syncs[b]);
        } else {
            assert(m.syncs[b].len() == m.tokens.len());
        }
    }
    let sel = settle_selected(m, a, token, now);
    assert forall|k: int| 0 <= k < e.balance_events.len() implies balance_series_ok(
        #[trigger] e.balance_events[k],
        e.seq_no,
        e.x,
    ) by {
        assert(balance_series_ok(m.balance_events[k], m.seq_no, m.x));
        lemma_collected_ok(m.balance_events[k], m.syncs[a][k].seq_no, m.seq_no, m.seq_no, m.x);
        assert(balance_series_ok(e.balance_events[k], m.seq_no, m.x));
        lemma_balance_series_weaken(e.balance_events[k], m.seq_no, m.x, e.seq_no, e.x);
    }
    assert forall|b: int| 0 <= b < e.stake_events.len() implies stake_series_ok(
        #[trigger] e.stake_events[b],
        e.seq_no,
    ) by {
        assert(stake_series_ok(m.stake_events[b], m.seq_no));
        if b == a {
            let ds = m.stake_events[a];
            let p = pruned(ds, min_checkpoint(sel.syncs[a], sel.seq_no));
            lemma_prune_start_range(ds, min_checkpoint(sel.syncs[a], sel.seq_no));
            let st = prune_start(ds, min_checkpoint(sel.syncs[a], sel.seq_no));
            assert forall|i: int, j: int| 0 <= i < j < p.len() implies #[trigger] p[i].0 < #[trigger] p[j].0 by {
                assert(p[i] == ds[i + st]);
                assert(p[j] == ds[j + st]);
            }
            assert forall|i: int| 0 <= i < p.len() implies #[trigger] p[i].0 <= e.seq_no by {
                assert(p[i] == ds[i + st]);
            }
        }
    }
}

impl House {
    /// The settlement step: what account `a` would be credited for asset
    /// `k` when `token` is `Some(k)`, or for every asset otherwise, and the
    /// balance series that garbage collection would leave, computed from the
    /// logs alone. The house is not changed; `persist_sync_results` records
    /// the outcome. Fails when some selected asset cannot be settled.
    pub fn sync_account(&self, a: usize, token: Option<usize>, now: u64) -> (r: Result<
        Vec<(TokenSyncResult, AccountSyncState)>,
        ContractError,
    >)
        requires
            self.wf(),
            a < self@.accounts.len(),
            token matches Some(k) ==> k < self@.tokens.len(),
        ensures
            r.is_ok() <==> selected_fit(self@, a as int, token),
            r matches Ok(v) ==> sync_results(self@, a as int, token, now, v@),
    {
        let n: usize = match token {
            Some(_) => 1,
            None => self.tokens.len(),
        };
        let ghost m = self@;
        assert(m.syncs[a as int].len() == m.tokens.len());
        assert(self.syncs@[a as int]@ == m.syncs[a as int]);
        assert(self.stake_events@[a as int]@ == m.stake_events[a as int]);
        let mut out: Vec<(TokenSyncResult, AccountSyncState)> = Vec::new();
        let mut i: usize = 0;
        while i < n
            invariant
                self.wf(),
                m == self@,
                a < m.accounts.len(),
                token matches Some(k) ==> k < m.tokens.len(),
                n == selected_count(m, token),
                m.syncs[a as int].len() == m.tokens.len(),
                self.syncs@[a as int]@ == m.syncs[a as int],
                self.stake_events@[a as int]@ == m.stake_events[a as int],
                i <= n,
                out@.len() == i,
                forall|j: int|
                    0 <= j < i ==> result_of(m, a as int, selected(token, j), now, #[trigger] out@[j]),
                forall|j: int| 0 <= j < i ==> #[trigger] settle_fits(m, a as int, selected(token, j)),
            decreases n - i,
        {
            let k: usize = match token {
                Some(k) => k,
                None => i,
            };
            assert(self.balance_events@[k as int]@ == m.balance_events[k as int]);
            let mut st = self.syncs[a][k];
            let res = match sync_account_balance(
                &self.stake_events[a],
                &self.balance_events[k],
                &mut st,
                k,
                self.seq_no,
                now,
            ) {
                Ok(res) => res,
                Err(e) => {
                    assert(!settle_fits(m, a as int, k as int));
                    return Err(e);
                },
            };
            out.push((res, st));
            i = i + 1;
        }
        proof {
            assert(sync_results(m, a as int, token, now, out@));
            match token {
                Some(k) => {
                    assert(settle_fits(m, a as int, selected(token, 0)));
                },
                None => {
                    assert forall|j: int| 0 <= j < m.tokens.len() implies #[trigger] settle_fits(
                        m,
                        a as int,
                        j,
                    ) by {
                        assert(settle_fits(m, a as int, selected(token, j)));
                    }
                },
            }
        }
        Ok(out)
    }

    /// Records the outcome of `sync_account` (computed on this same house):
    /// credits the account, moves its checkpoints, applies the garbage
    /// collection of the balance series, drops the delegation entries that no
    /// later settlement reads, and advances the generation so that no later
    /// deposit merges into an entry that the account has settled past.
    pub fn persist_sync_results(
        &mut self,
        a: usize,
        token: Option<usize>,
        results: &Vec<(TokenSyncResult, AccountSyncState)>,
        now: u64,
    )
        requires
            old(self).wf(),
            a < old(self)@.accounts.len(),
            token matches Some(k) ==> k < old(self)@.tokens.len(),
            sync_results(old(self)@, a as int, token, now, results@),
            old(self)@.x + 1 <= u64::MAX,
        ensures
            final(self)@ == after_sync(old(self)@, a as int, token, now),
            final(self).wf(),
    {
        let ghost m = self@;
        assert(m.syncs[a as int].len() == m.tokens.len());
        let mut i: usize = 0;
        while i < results.len()
            invariant
                m == old(self)@,
                m.wf(),
                a < m.accounts.len(),
                token matches Some(k) ==> k < m.tokens.len(),
                m.syncs[a as int].len() == m.tokens.len(),
                sync_results(m, a as int, token, now, results@),
                i <= results.len(),
                i == 0 ==> self@ == m,
                i > 0 ==> self@ == settle_selected_prefix(m, a as int, token, now, i as int),
            decreases results.len() - i,
        {
            let k = results[i].0.asset;
            assert(result_of(m, a as int, selected(token, i as int), now, results@[i as int]));
            assert(k < m.tokens.len());
            assert(self.balance_events@.len() == self@.balance_events.len());
            assert(self.syncs@.len() == self@.syncs.len());
            assert(self@.balance_events.len() == m.tokens.len());
            assert(self@.syncs.len() == m.accounts.len());
            let bs = copy_series(&results[i].0.balance_events);
            let st = results[i].1;
            let ghost before = self@;
            self.balance_events.set(k, bs);
            assert(self.syncs@[a as int]@ == self@.syncs[a as int]);
            assert(self@.syncs[a as int].len() == m.tokens.len());
            let mut row = self.syncs[a].clone();
            row.set(k, st);
            self.syncs.set(a, row);
            i = i + 1;
            proof {
                let e = settle_selected_prefix(m, a as int, token, now, i as int);
                assert(self@.syncs[a as int] =~= e.syncs[a as int]);
                assert forall|b: int| 0 <= b < e.syncs.len() implies #[trigger] self@.syncs[b]
                    == e.syncs[b] by {
                    if b != a {
                        assert(self@.syncs[b] == before.syncs[b]);
                        assert(before.syncs[b] == m.syncs[b]);
                    }
                }
                assert(self@.syncs =~= e.syncs);
                assert forall|j: int|
                    0 <= j < e.balance_events.len() implies #[trigger] self@.balance_events[j]
                    == e.balance_events[j] by {
                    if j != k {
                        assert(self@.balance_events[j] == before.balance_events[j]);
                    } else {
                        assert(self@.balance_events[j] == bs@);
                    }
                }
                assert(self@.balance_events =~= e.balance_events);
                assert(self@.stake_events =~= e.stake_events);
                assert(self@.tax_totals =~= e.tax_totals);
                assert(self@ == e);
            }
        }
        proof {
            let s = settle_selected(m, a as int, token, now);
            if results.len() == 0 {
                assert(self@.syncs[a as int] =~= s.syncs[a as int]);
                assert(self@.syncs =~= s.syncs);
                assert(self@.balance_events =~= s.balance_events);
            } else {
                let e = settle_selected_prefix(m, a as int, token, now, results.len() as int);
                assert(e.syncs =~= s.syncs);
                assert(e.balance_events =~= s.balance_events);
            }
            assert(self@ == s);
        }
        let x = self.x + 1;
        assert(self.syncs@.len() == self@.syncs.len());
        assert(self.stake_events@.len() == self@.stake_events.len());
        let mcp = min_checkpoint_of(&self.syncs[a], self.seq_no);
        let kept = prune_delegation(&self.stake_events[a], mcp);
        self.stake_events.set(a, kept);
        self.x = x;
        proof {
            let e = after_sync(m, a as int, token, now);
            assert(self@.stake_events =~= e.stake_events);
            assert(self@.syncs =~= e.syncs);
            assert(self@.balance_events =~= e.balance_events);
            assert(self@.tax_totals =~= e.tax_totals);
            assert(self@ == e);
            lemma_after_sync_wf(m, a as int, token, now);
        }
    }

    /// Settles account `a` (asset `k` when `token` is `Some(k)`, every asset
    /// otherwise) and records the outcome. Nothing changes on failure.
    pub fn settle_account(&mut self, a: usize, token: Option<usize>, now: u64) -> (r: Result<
        (),
        ContractError,
    >)
        requires
            old(self).wf(),
            a < old(self)@.accounts.len(),
            token matches Some(k) ==> k < old(self)@.tokens.len(),
        ensures
            r.is_ok() <==> sync_fits(old(self)@, a as int, token, now),
            r.is_ok() ==> final(self)@ == after_sync(old(self)@, a as int, token, now),
            r.is_err() ==> final(self)@ == old(self)@,
            final(self).wf(),
    {
        let results = self.sync_account(a, token, now)?;
        if self.x == u64::MAX {
            return Err(ContractError::Overflow);
        }
        self.persist_sync_results(a, token, &results, now);
        Ok(())
    }
}

} // verus!
