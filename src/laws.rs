use crate::deposit::{can_merge, floor_shares, lemma_floor_shares_bounded};
use crate::amortize::{amortized, batch_size, lemma_amortized_keeps_balances};
use crate::deposit::{tax_rates, TAX_SCALE};
use crate::execute::{
    after_deposit, claim_fits, credited, untracked_delta, claim_payout, claimed, deposit_fits, deposit_total,
    exec_deposit_fits, lemma_taxes_bounded, merged_maturity, net_of, stake_fits, staked,
    taxes_on, unstake_fits, unstaked,
};
use crate::house::HouseModel;
use crate::math::seq_sum;
use crate::models::{BalanceEvent, StakingEvent};
use crate::settle::{
    after_settle_all, after_sync, lemma_after_settle_all_shape, settle_all_fits, settle_fits,
};
use crate::sync::{accrued, collected, in_window, share_of, window_settles};
use vstd::arithmetic::div_mod::{lemma_fundamental_div_mod, lemma_fundamental_div_mod_converse_div};
use vstd::prelude::*;

verus! {

/// Nothing accrues over an empty window.
pub proof fn lemma_empty_window(ds: Seq<(u64, StakingEvent)>, bs: Seq<(u64, BalanceEvent)>, s: u64)
    ensures
        accrued(ds, bs, s, s) == 0,
        collected(bs, s, s) == bs,
        window_settles(ds, bs, s, s),
    decreases bs.len(),
{
    if bs.len() > 0 {
        lemma_empty_window(ds, bs.drop_last(), s);
        assert(collected(bs, s, s) =~= bs);
    }
}

/// Idempotence: once account `a` has settled asset `k`, settling it again
/// with no event in between credits nothing and leaves the balance series as
/// it was; it always succeeds.
pub proof fn lemma_settle_idempotent(m: HouseModel, a: int, k: usize, now1: u64, now2: u64)
    requires
        m.wf(),
        0 <= a < m.accounts.len(),
        k < m.tokens.len(),
    ensures
        ({
            let m1 = after_sync(m, a, Some(k), now1);
            let m2 = after_sync(m1, a, Some(k), now2);
            &&& settle_fits(m1, a, k as int)
            &&& accrued(
                m1.stake_events[a],
                m1.balance_events[k as int],
                m1.syncs[a][k as int].seq_no,
                m1.seq_no,
            ) == 0
            &&& m2.syncs[a][k as int].amount == m1.syncs[a][k as int].amount
            &&& m2.balance_events == m1.balance_events
        }),
{
    let m1 = after_sync(m, a, Some(k), now1);
    assert(m.syncs[a].len() == m.tokens.len());
    assert(m1.syncs[a][k as int].seq_no == m1.seq_no);
    lemma_empty_window(m1.stake_events[a], m1.balance_events[k as int], m1.seq_no);
    let m2 = after_sync(m1, a, Some(k), now2);
    assert(m2.balance_events =~= m1.balance_events);
}

/// Settling the assets `0..n` of account `a` moves their checkpoints to the
/// current sequence number and keeps the table shapes.
proof fn lemma_settle_all_checkpoints(m: HouseModel, a: int, now: u64, n: int)
    requires
        0 <= a < m.syncs.len(),
        0 <= n <= m.syncs[a].len(),
        n <= m.balance_events.len(),
    ensures
        ({
            let p = after_settle_all(m, a, now, n);
            &&& p.syncs.len() == m.syncs.len()
            &&& p.syncs[a].len() == m.syncs[a].len()
            &&& p.balance_events.len() == m.balance_events.len()
            &&& forall|j: int| 0 <= j < n ==> #[trigger] p.syncs[a][j].seq_no == m.seq_no
        }),
    decreases n,
{
    if n > 0 {
        lemma_settle_all_checkpoints(m, a, now, n - 1);
        lemma_after_settle_all_shape(m, a, now, n - 1);
        let p = after_settle_all(m, a, now, n - 1);
        let q = after_settle_all(m, a, now, n);
        assert forall|j: int| 0 <= j < n implies #[trigger] q.syncs[a][j].seq_no == m.seq_no by {
            if j < n - 1 {
                assert(q.syncs[a][j] == p.syncs[a][j]);
            }
        }
    }
}

/// Settling the assets `0..n` of an account whose checkpoints for them are
/// already current succeeds, credits nothing and changes no balance series.
proof fn lemma_settle_all_current(m: HouseModel, a: int, now: u64, n: int)
    requires
        0 <= a < m.syncs.len(),
        0 <= n <= m.syncs[a].len(),
        n <= m.balance_events.len(),
        forall|j: int| 0 <= j < n ==> #[trigger] m.syncs[a][j].seq_no == m.seq_no,
    ensures
        ({
            let p = after_settle_all(m, a, now, n);
            &&& settle_all_fits(m, a, now, n)
            &&& p.balance_events == m.balance_events
            &&& p.syncs.len() == m.syncs.len()
            &&& p.syncs[a].len() == m.syncs[a].len()
            &&& forall|j: int|
                0 <= j < m.syncs[a].len() ==> #[trigger] p.syncs[a][j].amount == m.syncs[a][j].amount
                    && p.syncs[a][j].seq_no == m.syncs[a][j].seq_no
        }),
    decreases n,
{
    if n > 0 {
        lemma_settle_all_current(m, a, now, n - 1);
        lemma_after_settle_all_shape(m, a, now, n - 1);
        let p = after_settle_all(m, a, now, n - 1);
        let k = n - 1;
        assert(p.syncs[a][k].seq_no == p.seq_no);
        lemma_empty_window(p.stake_events[a], p.balance_events[k], p.seq_no);
        let q = after_settle_all(m, a, now, n);
        assert(q.balance_events =~= m.balance_events);
        assert forall|j: int|
            0 <= j < m.syncs[a].len() implies #[trigger] q.syncs[a][j].amount == m.syncs[a][j].amount
            && q.syncs[a][j].seq_no == m.syncs[a][j].seq_no by {
            if j != k {
                assert(q.syncs[a][j] == p.syncs[a][j]);
            }
        }
    }
}

/// Idempotence, for every asset at once: once account `a` has settled, a
/// second settlement with no event in between succeeds, credits nothing
/// and leaves every balance series as it was.
pub proof fn lemma_sync_all_idempotent(m: HouseModel, a: int, now1: u64, now2: u64)
    requires
        m.wf(),
        0 <= a < m.accounts.len(),
    ensures
        ({
            let m1 = after_sync(m, a, None, now1);
            let m2 = after_sync(m1, a, None, now2);
            &&& settle_all_fits(m1, a, now2, m1.tokens.len() as int)
            &&& m2.balance_events == m1.balance_events
            &&& forall|k: int|
                0 <= k < m.tokens.len() ==> #[trigger] m2.syncs[a][k].amount == m1.syncs[a][k].amount
        }),
{
    let n = m.tokens.len() as int;
    assert(m.syncs[a].len() == m.tokens.len());
    lemma_settle_all_checkpoints(m, a, now1, n);
    lemma_after_settle_all_shape(m, a, now1, n);
    let m1 = after_sync(m, a, None, now1);
    lemma_settle_all_current(m1, a, now2, n);
}

/// Pro-rata shares: two accounts that delegate `d1` and `d2` over a whole
/// interval in which one balance entry of `r` is recorded, with `d1 + d2`
/// as its total, accrue `r * d1 / (d1 + d2)` and `r * d2 / (d1 + d2)`
/// (truncated), which together do not exceed `r`.
pub proof fn lemma_pro_rata(
    r: u128,
    d1: u128,
    d2: u128,
    s0: u64,
    s: u64,
    lo: u64,
    hi: u64,
    e: BalanceEvent,
)
    requires
        e.delta == r,
        e.total == d1 + d2,
        d1 + d2 > 0,
        s0 <= s,
        in_window(s, lo, hi),
    ensures
        accrued(seq![(s0, StakingEvent { delta: d1 })], seq![(s, e)], lo, hi) == (r * d1) / (d1
            + d2) as int,
        accrued(seq![(s0, StakingEvent { delta: d2 })], seq![(s, e)], lo, hi) == (r * d2) / (d1
            + d2) as int,
        (r * d1) / (d1 + d2) as int + (r * d2) / (d1 + d2) as int <= r,
{
    let bs = seq![(s, e)];
    assert(bs.drop_last() =~= Seq::<(u64, BalanceEvent)>::empty());
    let ds = seq![d1, d2];
    let one = seq![d1];
    assert(ds.drop_last() =~= one);
    assert(ds.last() == d2);
    assert(one.drop_last() =~= Seq::<u128>::empty());
    assert(one.last() == d1);
    assert(seq_sum(one.drop_last()) == 0);
    assert(seq_sum(one) == d1);
    assert(seq_sum(ds) == d1 + d2);
    assert(floor_shares(r, one.drop_last(), (d1 + d2) as int) == 0);
    assert(floor_shares(r, one, (d1 + d2) as int) == (r * d1) / (d1 + d2) as int);
    assert(floor_shares(r, ds, (d1 + d2) as int) == (r * d1) / (d1 + d2) as int + (r * d2) / (d1
        + d2) as int);
    lemma_floor_shares_bounded(r, ds, (d1 + d2) as int);
    let e1 = seq![(s0, StakingEvent { delta: d1 })];
    let e2 = seq![(s0, StakingEvent { delta: d2 })];
    assert(e1.last().0 <= s);
    assert(e2.last().0 <= s);
    assert(bs.last() == (s, e));
    assert(crate::sync::delegation_at(e1, s as int) == d1);
    assert(crate::sync::delegation_at(e2, s as int) == d2);
    assert(accrued(e1, bs.drop_last(), lo, hi) == 0);
    assert(accrued(e2, bs.drop_last(), lo, hi) == 0);
}

/// Pro-rata settlement goes through: with the entry still referenced and
/// the products within 128 bits, each account's settlement over the window
/// succeeds and is credited exactly its pro-rata share.
pub proof fn lemma_pro_rata_settles(
    r: u128,
    d1: u128,
    d2: u128,
    s0: u64,
    s: u64,
    lo: u64,
    hi: u64,
    e: BalanceEvent,
)
    requires
        e.delta == r,
        e.total == d1 + d2,
        d1 + d2 > 0,
        e.ref_count > 0,
        r * d1 <= u128::MAX,
        r * d2 <= u128::MAX,
        s0 <= s,
        in_window(s, lo, hi),
    ensures
        window_settles(seq![(s0, StakingEvent { delta: d1 })], seq![(s, e)], lo, hi),
        window_settles(seq![(s0, StakingEvent { delta: d2 })], seq![(s, e)], lo, hi),
        accrued(seq![(s0, StakingEvent { delta: d1 })], seq![(s, e)], lo, hi) <= u128::MAX,
        accrued(seq![(s0, StakingEvent { delta: d2 })], seq![(s, e)], lo, hi) <= u128::MAX,
{
    lemma_pro_rata(r, d1, d2, s0, s, lo, hi, e);
    let e1 = seq![(s0, StakingEvent { delta: d1 })];
    let e2 = seq![(s0, StakingEvent { delta: d2 })];
    assert(e1.last().0 <= s);
    assert(e2.last().0 <= s);
    assert(crate::sync::delegation_at(e1, s as int) == d1);
    assert(crate::sync::delegation_at(e2, s as int) == d2);
    let bs = seq![(s, e)];
    assert forall|i: int| 0 <= i < bs.len() && in_window(#[trigger] bs[i].0, lo, hi) implies crate::sync::entry_settles(
        bs[i].1,
        crate::sync::delegation_at(e1, bs[i].0 as int),
    ) by {}
    assert forall|i: int| 0 <= i < bs.len() && in_window(#[trigger] bs[i].0, lo, hi) implies crate::sync::entry_settles(
        bs[i].1,
        crate::sync::delegation_at(e2, bs[i].0 as int),
    ) by {}
}

/// The shares that accounts delegating `ds` take of one balance entry.
pub open spec fn entry_payout(e: BalanceEvent, ds: Seq<u128>) -> int
    decreases ds.len(),
{
    if ds.len() == 0 {
        0
    } else {
        entry_payout(e, ds.drop_last()) + share_of(e, ds.last())
    }
}

/// Conservation for one balance entry: accounts whose delegations add up
/// to at most the entry's total delegation are paid at most its amount,
/// whatever the truncation does.
pub proof fn lemma_entry_conserved(e: BalanceEvent, ds: Seq<u128>)
    requires
        e.total > 0,
        seq_sum(ds) <= e.total,
    ensures
        entry_payout(e, ds) <= e.delta,
{
    lemma_entry_payout_is_floor_shares(e, ds);
    lemma_floor_shares_bounded(e.delta, ds, e.total as int);
}

/// The payout of an entry is the truncated shares of its amount.
proof fn lemma_entry_payout_is_floor_shares(e: BalanceEvent, ds: Seq<u128>)
    requires
        e.total > 0,
    ensures
        entry_payout(e, ds) == floor_shares(e.delta, ds, e.total as int),
    decreases ds.len(),
{
    if ds.len() > 0 {
        lemma_entry_payout_is_floor_shares(e, ds.drop_last());
    }
}

/// Conservation at a deposit: what the stakers are credited and what the
/// tax recipients take add up to the deposit, and the stakers' part is at
/// most the deposit.
pub proof fn lemma_deposit_conserved(m: HouseModel, k: int, amount: u128)
    requires
        m.wf(),
        0 <= k < m.tokens.len(),
        deposit_fits(m, k, amount),
    ensures
        after_deposit(m, k, amount).balances[k] == m.balances[k] + net_of(amount, m.taxes),
        net_of(amount, m.taxes) + seq_sum(taxes_on(amount, m.taxes)) == amount,
        0 <= net_of(amount, m.taxes) <= amount,
{
    lemma_taxes_bounded(amount, m.taxes);
}

/// The house after deposits of `amounts`, in order, into asset `k`.
pub open spec fn deposited_all(m: HouseModel, k: int, amounts: Seq<u128>) -> HouseModel
    decreases amounts.len(),
{
    if amounts.len() == 0 {
        m
    } else {
        after_deposit(deposited_all(m, k, amounts.drop_last()), k, amounts.last())
    }
}

/// Each of those deposits stays within range.
pub open spec fn deposits_fit(m: HouseModel, k: int, amounts: Seq<u128>) -> bool
    decreases amounts.len(),
{
    if amounts.len() == 0 {
        true
    } else {
        deposits_fit(m, k, amounts.drop_last()) && deposit_fits(
            deposited_all(m, k, amounts.drop_last()),
            k,
            amounts.last(),
        )
    }
}

/// Total net revenue of deposits of `amounts`.
pub open spec fn net_total(taxes: Seq<crate::models::TaxRecipientConfig>, amounts: Seq<u128>) -> int
    decreases amounts.len(),
{
    if amounts.len() == 0 {
        0
    } else {
        net_total(taxes, amounts.drop_last()) + net_of(amounts.last(), taxes)
    }
}

/// Deposits change neither the taxes, nor the generation, nor the staking
/// composition.
pub proof fn lemma_deposited_all_shape(m: HouseModel, k: int, amounts: Seq<u128>)
    requires
        0 <= k < m.balance_events.len(),
    ensures
        deposited_all(m, k, amounts).taxes == m.taxes,
        deposited_all(m, k, amounts).x == m.x,
        deposited_all(m, k, amounts).total_delegation == m.total_delegation,
        deposited_all(m, k, amounts).accounts == m.accounts,
        deposited_all(m, k, amounts).tokens == m.tokens,
        deposited_all(m, k, amounts).balance_events.len() == m.balance_events.len(),
    decreases amounts.len(),
{
    if amounts.len() > 0 {
        lemma_deposited_all_shape(m, k, amounts.drop_last());
    }
}

/// Consolidation: one or more deposits into asset `k`, with no stake,
/// unstake or settlement in between, starting where the latest entry cannot
/// take them, leave exactly one new balance entry, whose amount is the sum
/// of the deposits' net revenue; the sequence counter advances once.
pub proof fn lemma_consolidation(m: HouseModel, k: int, amounts: Seq<u128>)
    requires
        m.wf(),
        0 <= k < m.tokens.len(),
        amounts.len() >= 1,
        !can_merge(m.balance_events[k], m.seq_no, m.x),
        deposits_fit(m, k, amounts),
    ensures
        deposited_all(m, k, amounts).balance_events[k] == m.balance_events[k].push(
            (
                m.seq_no,
                BalanceEvent {
                    delta: net_total(m.taxes, amounts) as u128,
                    total: m.total_delegation,
                    n_accounts: m.accounts.len() as u32,
                    ref_count: m.accounts.len() as u32,
                    x: m.x,
                },
            ),
        ),
        deposited_all(m, k, amounts).seq_no == m.seq_no + 1,
        0 <= net_total(m.taxes, amounts) <= u128::MAX,
    decreases amounts.len(),
{
    let rest = amounts.drop_last();
    let last = amounts.last();
    lemma_deposited_all_shape(m, k, rest);
    let p = deposited_all(m, k, rest);
    assert(deposit_fits(p, k, last));
    lemma_taxes_bounded(last, m.taxes);
    if amounts.len() == 1 {
        assert(rest =~= Seq::<u128>::empty());
        assert(p == m);
        assert(net_total(m.taxes, amounts) == net_of(last, m.taxes)) by {
            assert(net_total(m.taxes, rest) == 0);
        }
    } else {
        lemma_consolidation(m, k, rest);
        let bs = p.balance_events[k];
        assert(bs.last().0 == m.seq_no);
        assert(can_merge(bs, p.seq_no, p.x));
        assert(after_deposit(p, k, last).balance_events[k] =~= m.balance_events[k].push(
            (
                m.seq_no,
                BalanceEvent {
                    delta: net_total(m.taxes, amounts) as u128,
                    total: m.total_delegation,
                    n_accounts: m.accounts.len() as u32,
                    ref_count: m.accounts.len() as u32,
                    x: m.x,
                },
            ),
        ));
    }
}

/// Every entry of the series at sequence number `s` has at most `r`
/// references.
pub open spec fn refs_at_most(bs: Seq<(u64, BalanceEvent)>, s: u64, r: int) -> bool {
    forall|i: int| 0 <= i < bs.len() && #[trigger] bs[i].0 == s ==> bs[i].1.ref_count <= r
}

/// No entry of the series is at sequence number `s`.
pub open spec fn absent(bs: Seq<(u64, BalanceEvent)>, s: u64) -> bool {
    forall|i: int| 0 <= i < bs.len() ==> #[trigger] bs[i].0 != s
}

/// The balance series after accounts settle past the windows `ws`, in order.
pub open spec fn collected_all(bs: Seq<(u64, BalanceEvent)>, ws: Seq<(u64, u64)>) -> Seq<
    (u64, BalanceEvent),
>
    decreases ws.len(),
{
    if ws.len() == 0 {
        bs
    } else {
        let p = collected_all(bs, ws.drop_last());
        collected(p, ws.last().0, ws.last().1)
    }
}

/// One settlement past `s` takes one reference from the entry at `s`, and
/// retires it when it held the last one.
pub proof fn lemma_collect_step(bs: Seq<(u64, BalanceEvent)>, s: u64, lo: u64, hi: u64, r: int)
    requires
        in_window(s, lo, hi),
        refs_at_most(bs, s, r),
        r >= 1,
    ensures
        refs_at_most(collected(bs, lo, hi), s, r - 1),
        r == 1 ==> absent(collected(bs, lo, hi), s),
    decreases bs.len(),
{
    if bs.len() > 0 {
        let rest = bs.drop_last();
        assert(refs_at_most(rest, s, r)) by {
            assert forall|i: int| 0 <= i < rest.len() && #[trigger] rest[i].0 == s implies rest[i].1.ref_count
                <= r by {
                assert(rest[i] == bs[i]);
            }
        }
        lemma_collect_step(rest, s, lo, hi, r);
        let c = collected(bs, lo, hi);
        let cr = collected(rest, lo, hi);
        let (t, e) = bs.last();
        assert(bs[bs.len() - 1] == bs.last());
        assert forall|i: int| 0 <= i < c.len() && #[trigger] c[i].0 == s implies c[i].1.ref_count
            <= r - 1 by {
            if i < cr.len() {
                assert(c[i] == cr[i]);
            }
        }
        if r == 1 {
            assert forall|i: int| 0 <= i < c.len() implies #[trigger] c[i].0 != s by {
                if i < cr.len() {
                    assert(c[i] == cr[i]);
                }
            }
        }
    }
}

/// Settlement never brings back a retired entry.
pub proof fn lemma_collect_keeps_absent(bs: Seq<(u64, BalanceEvent)>, s: u64, lo: u64, hi: u64)
    requires
        absent(bs, s),
    ensures
        absent(collected(bs, lo, hi), s),
    decreases bs.len(),
{
    if bs.len() > 0 {
        let rest = bs.drop_last();
        assert(absent(rest, s)) by {
            assert forall|i: int| 0 <= i < rest.len() implies #[trigger] rest[i].0 != s by {
                assert(rest[i] == bs[i]);
            }
        }
        lemma_collect_keeps_absent(rest, s, lo, hi);
        let c = collected(bs, lo, hi);
        let cr = collected(rest, lo, hi);
        assert(bs[bs.len() - 1] == bs.last());
        assert forall|i: int| 0 <= i < c.len() implies #[trigger] c[i].0 != s by {
            if i < cr.len() {
                assert(c[i] == cr[i]);
            }
        }
    }
}

/// Garbage collection at the last reference: when account `a` settles
/// asset `k` past the entry at `s`, and that entry holds at most one
/// reference, the entry is gone from the series afterwards.
pub proof fn lemma_settle_retires_last(m: HouseModel, a: int, k: usize, now: u64, s: u64)
    requires
        m.wf(),
        0 <= a < m.accounts.len(),
        k < m.tokens.len(),
        refs_at_most(m.balance_events[k as int], s, 1),
        m.syncs[a][k as int].seq_no <= s < m.seq_no,
    ensures
        absent(after_sync(m, a, Some(k), now).balance_events[k as int], s),
{
    assert(m.syncs[a].len() == m.tokens.len());
    lemma_collect_step(m.balance_events[k as int], s, m.syncs[a][k as int].seq_no, m.seq_no, 1);
}

/// Garbage collection terminates: a balance entry created with `r`
/// references (one per account that existed then) is gone from the series
/// once `r` settlements have passed it.
pub proof fn lemma_gc_retires(bs: Seq<(u64, BalanceEvent)>, s: u64, ws: Seq<(u64, u64)>, r: int)
    requires
        r >= 1,
        ws.len() >= r,
        refs_at_most(bs, s, r),
        forall|j: int| 0 <= j < ws.len() ==> in_window(s, #[trigger] ws[j].0, ws[j].1),
    ensures
        absent(collected_all(bs, ws), s),
    decreases ws.len(),
{
    let rest = ws.drop_last();
    let last = ws.last();
    assert(ws[ws.len() - 1] == last);
    if ws.len() == r {
        lemma_gc_counts_down(bs, s, rest, r);
        lemma_collect_step(collected_all(bs, rest), s, last.0, last.1, 1);
    } else {
        assert forall|j: int| 0 <= j < rest.len() implies in_window(s, #[trigger] rest[j].0, rest[j].1) by {
            assert(rest[j] == ws[j]);
        }
        lemma_gc_retires(bs, s, rest, r);
        lemma_collect_keeps_absent(collected_all(bs, rest), s, last.0, last.1);
    }
}

/// Fewer than `r` settlements past `s` leave its entry with at most
/// `r - (number of settlements)` references.
proof fn lemma_gc_counts_down(bs: Seq<(u64, BalanceEvent)>, s: u64, ws: Seq<(u64, u64)>, r: int)
    requires
        ws.len() < r,
        refs_at_most(bs, s, r),
        forall|j: int| 0 <= j < ws.len() ==> in_window(s, #[trigger] ws[j].0, ws[j].1),
    ensures
        refs_at_most(collected_all(bs, ws), s, r - ws.len()),
    decreases ws.len(),
{
    if ws.len() > 0 {
        let rest = ws.drop_last();
        let last = ws.last();
        assert(ws[ws.len() - 1] == last);
        assert forall|j: int| 0 <= j < rest.len() implies in_window(s, #[trigger] rest[j].0, rest[j].1) by {
            assert(rest[j] == ws[j]);
        }
        lemma_gc_counts_down(bs, s, rest, r);
        lemma_collect_step(collected_all(bs, rest), s, last.0, last.1, r - rest.len());
    }
}

/// Unbonding merge: amounts `a1` and `a2` maturing at `m1 <= m2` merge
/// into one unbonding that matures between the two, at their average
/// weighted by amount (truncated).
pub proof fn lemma_merged_maturity(a1: u128, m1: u64, a2: u128, m2: u64)
    requires
        m1 <= m2,
        a1 + a2 > 0,
    ensures
        m1 <= merged_maturity(a1, m1, a2, m2) <= m2,
        merged_maturity(a1, m1, a2, m2) == (a1 * m1 + a2 * m2) / (a1 + a2),
{
    let t: int = a1 + a2;
    let d: int = m2 - m1;
    crate::execute::lemma_weighted_step(d, a2 as int, t);
    let x: int = d * a2;
    let q = x / t;
    let rem = x % t;
    lemma_fundamental_div_mod(x, t);
    assert(a1 * m1 + a2 * m2 == (m1 + q) * t + rem) by (nonlinear_arith)
        requires
            t == a1 + a2,
            d == m2 - m1,
            x == d * a2,
            x == t * q + rem,
    ;
    assert(0 <= rem < t) by {
        assert(t > 0);
    }
    lemma_fundamental_div_mod_converse_div(a1 * m1 + a2 * m2, t, m1 + q, rem);
}

/// An operation on the house, with its arguments.
pub enum Operation {
    Deposit {
        k: usize,
        amount: u128,
        contract_balance: u128,
        depositor: usize,
        own: usize,
        now: u64,
    },
    Stake { a: usize, amount: u128, now: u64 },
    Unstake { a: usize, amount: Option<u128>, on_behalf: bool, sender_is_manager: bool, now: u64 },
    Claim { a: usize, k: usize, now: u64 },
}

/// The operation succeeds.
pub open spec fn op_fits(m: HouseModel, op: Operation) -> bool {
    match op {
        Operation::Deposit { k, amount, contract_balance, depositor, own, now } => exec_deposit_fits(
            m,
            k as int,
            amount,
            contract_balance,
            depositor as int,
            own as int,
            now,
        ),
        Operation::Stake { a, amount, now } => stake_fits(m, a as int, amount, now),
        Operation::Unstake { a, amount, on_behalf, sender_is_manager, now } => !(on_behalf
            && !sender_is_manager) && unstake_fits(m, a as int, amount, now),
        Operation::Claim { a, k, now } => claim_fits(m, a as int, k as int, now),
    }
}

/// The house after the operation, as the operation's contract gives it.
pub open spec fn op_result(m: HouseModel, op: Operation) -> HouseModel {
    match op {
        Operation::Deposit { k, amount, contract_balance, depositor, own, now } => {
            let d = credited(
                after_deposit(m, k as int, deposit_total(m, k as int, amount, contract_balance) as u128),
                k as int,
                amount,
                untracked_delta(m, k as int, amount, contract_balance),
                depositor as int,
                own as int,
            );
            amortized(d, batch_size(d.queue.len() as int, d.accounts.len() as int), None, now)
        },
        Operation::Stake { a, amount, now } => {
            let s = staked(m, a as int, amount, now);
            amortized(s, batch_size(s.queue.len() as int, s.accounts.len() as int), Some(a), now)
        },
        Operation::Unstake { a, amount, on_behalf, sender_is_manager, now } => {
            let u = unstaked(m, a as int, amount, now);
            amortized(u, batch_size(u.queue.len() as int, u.accounts.len() as int), Some(a), now)
        },
        Operation::Claim { a, k, now } => {
            let c = claimed(m, a as int, k as int, now);
            amortized(c, batch_size(c.queue.len() as int, c.accounts.len() as int), Some(a), now)
        },
    }
}

/// Net revenue of asset `k` that the operation deposits.
pub open spec fn op_net(m: HouseModel, op: Operation, k: int) -> int {
    match op {
        Operation::Deposit { k: j, amount, contract_balance, depositor, own, now } => if j == k {
            net_of(deposit_total(m, j as int, amount, contract_balance) as u128, m.taxes)
        } else {
            0
        },
        _ => 0,
    }
}

/// Revenue of asset `k` that the operation pays out.
pub open spec fn op_paid(m: HouseModel, op: Operation, k: int) -> int {
    match op {
        Operation::Claim { a, k: j, now } => if j == k {
            claim_payout(m, a as int, j as int, now).revenue as int
        } else {
            0
        },
        _ => 0,
    }
}

/// The house after the operations `ops`, in order.
pub open spec fn run(m: HouseModel, ops: Seq<Operation>) -> HouseModel
    decreases ops.len(),
{
    if ops.len() == 0 {
        m
    } else {
        op_result(run(m, ops.drop_last()), ops.last())
    }
}

/// Each of the operations succeeds.
pub open spec fn run_fits(m: HouseModel, ops: Seq<Operation>) -> bool
    decreases ops.len(),
{
    if ops.len() == 0 {
        true
    } else {
        run_fits(m, ops.drop_last()) && op_fits(run(m, ops.drop_last()), ops.last())
    }
}

/// Net revenue of asset `k` deposited by the operations.
pub open spec fn total_net(m: HouseModel, ops: Seq<Operation>, k: int) -> int
    decreases ops.len(),
{
    if ops.len() == 0 {
        0
    } else {
        total_net(m, ops.drop_last(), k) + op_net(run(m, ops.drop_last()), ops.last(), k)
    }
}

/// Revenue of asset `k` paid out by the operations.
pub open spec fn total_paid(m: HouseModel, ops: Seq<Operation>, k: int) -> int
    decreases ops.len(),
{
    if ops.len() == 0 {
        0
    } else {
        total_paid(m, ops.drop_last(), k) + op_paid(run(m, ops.drop_last()), ops.last(), k)
    }
}

/// One operation moves the stakers' balance of asset `k` by what it
/// deposits net of tax, less what it pays out.
proof fn lemma_op_accounting(m: HouseModel, op: Operation, k: int)
    requires
        m.balances.len() == m.tokens.len(),
        seq_sum(tax_rates(m.taxes)) <= TAX_SCALE,
        0 <= k < m.tokens.len(),
        op_fits(m, op),
    ensures
        op_result(m, op).balances[k] + op_paid(m, op, k) == m.balances[k] + op_net(m, op, k),
        op_result(m, op).taxes == m.taxes,
        op_result(m, op).tokens == m.tokens,
        op_result(m, op).balances.len() == m.balances.len(),
        op_paid(m, op, k) >= 0,
        op_net(m, op, k) >= 0,
{
    match op {
        Operation::Deposit { k: j, amount, contract_balance, depositor, own, now } => {
            let total = deposit_total(m, j as int, amount, contract_balance) as u128;
            let d = credited(
                after_deposit(m, j as int, total),
                j as int,
                amount,
                untracked_delta(m, j as int, amount, contract_balance),
                depositor as int,
                own as int,
            );
            lemma_taxes_bounded(total, m.taxes);
            lemma_amortized_keeps_balances(d, None, now);
        },
        Operation::Stake { a, amount, now } => {
            lemma_after_settle_all_shape(m, a as int, now, m.tokens.len() as int);
            let s = staked(m, a as int, amount, now);
            lemma_amortized_keeps_balances(s, Some(a), now);
        },
        Operation::Unstake { a, amount, on_behalf, sender_is_manager, now } => {
            lemma_after_settle_all_shape(m, a as int, now, m.tokens.len() as int);
            let u = unstaked(m, a as int, amount, now);
            lemma_amortized_keeps_balances(u, Some(a), now);
        },
        Operation::Claim { a, k: j, now } => {
            let c = claimed(m, a as int, j as int, now);
            lemma_amortized_keeps_balances(c, Some(a), now);
        },
    }
}

/// Conservation of revenue: over any run of successful operations, what
/// claims pay out of an asset plus what the house still holds for its
/// stakers equals what it held before plus the deposits net of tax. In
/// particular, claims never pay out more than the deposits net of tax and
/// the balance held at the start.
pub proof fn lemma_revenue_conserved(m: HouseModel, ops: Seq<Operation>, k: int)
    requires
        m.balances.len() == m.tokens.len(),
        seq_sum(tax_rates(m.taxes)) <= TAX_SCALE,
        0 <= k < m.tokens.len(),
        run_fits(m, ops),
    ensures
        run(m, ops).balances[k] + total_paid(m, ops, k) == m.balances[k] + total_net(m, ops, k),
        total_paid(m, ops, k) <= m.balances[k] + total_net(m, ops, k),
        run(m, ops).taxes == m.taxes,
        run(m, ops).tokens == m.tokens,
        run(m, ops).balances.len() == m.balances.len(),
    decreases ops.len(),
{
    if ops.len() > 0 {
        lemma_revenue_conserved(m, ops.drop_last(), k);
        let p = run(m, ops.drop_last());
        lemma_op_accounting(p, ops.last(), k);
    }
}

} // verus!
