use crate::error::ContractError;
use crate::math::{add_u128, mul_ratio_u128, sub_u32};
use crate::models::{AccountSyncState, BalanceEvent, StakingEvent};
use vstd::prelude::*;

verus! {

/// The delegation in effect at sequence number `s`: the snapshot of the last
/// entry of the series whose sequence number is at most `s`, or zero when
/// there is none.
pub open spec fn delegation_at(ds: Seq<(u64, StakingEvent)>, s: int) -> u128
    decreases ds.len(),
{
    if ds.len() == 0 {
        0
    } else if ds.last().0 <= s {
        ds.last().1.delta
    } else {
        delegation_at(ds.drop_last(), s)
    }
}

/// An account's pro-rata share of one balance entry, for a delegation `d`:
/// `delta * d / total`, truncated.
pub open spec fn share_of(e: BalanceEvent, d: u128) -> int {
    if e.total == 0 {
        0
    } else {
        (e.delta * d) / (e.total as int)
    }
}

/// The half-open settlement window `[lo, hi)`.
pub open spec fn in_window(s: u64, lo: u64, hi: u64) -> bool {
    lo <= s && s < hi
}

/// What an account with delegation series `ds` accrues from the balance
/// entries `bs` that fall in the window `[lo, hi)`.
pub open spec fn accrued(
    ds: Seq<(u64, StakingEvent)>,
    bs: Seq<(u64, BalanceEvent)>,
    lo: u64,
    hi: u64,
) -> int
    decreases bs.len(),
{
    if bs.len() == 0 {
        0
    } else {
        accrued(ds, bs.drop_last(), lo, hi) + if in_window(bs.last().0, lo, hi) {
            share_of(bs.last().1, delegation_at(ds, bs.last().0 as int))
        } else {
            0
        }
    }
}

/// A balance entry can be settled by an account with delegation `d`: its
/// total is not zero, the product fits, and some account still holds a
/// reference to it.
pub open spec fn entry_settles(e: BalanceEvent, d: u128) -> bool {
    e.total > 0 && e.delta * d <= u128::MAX && e.ref_count > 0
}

/// Every balance entry in the window can be settled.
pub open spec fn window_settles(
    ds: Seq<(u64, StakingEvent)>,
    bs: Seq<(u64, BalanceEvent)>,
    lo: u64,
    hi: u64,
) -> bool {
    forall|i: int|
        0 <= i < bs.len() && in_window(#[trigger] bs[i].0, lo, hi) ==> entry_settles(
            bs[i].1,
            delegation_at(ds, bs[i].0 as int),
        )
}

/// A balance entry with one reference fewer.
pub open spec fn released(e: BalanceEvent) -> BalanceEvent {
    BalanceEvent { ref_count: (e.ref_count - 1) as u32, ..e }
}

/// The balance series after one account has settled past the window
/// `[lo, hi)`: each entry in the window loses one reference, and an entry
/// that loses its last one is gone. Entries outside the window are kept.
pub open spec fn collected(bs: Seq<(u64, BalanceEvent)>, lo: u64, hi: u64) -> Seq<
    (u64, BalanceEvent),
>
    decreases bs.len(),
{
    if bs.len() == 0 {
        seq![]
    } else {
        let rest = collected(bs.drop_last(), lo, hi);
        let (s, e) = bs.last();
        if !in_window(s, lo, hi) {
            rest.push((s, e))
        } else if e.ref_count <= 1 {
            rest
        } else {
            rest.push((s, released(e)))
        }
    }
}

/// The sequence numbers of the balance entries that settling past `[lo, hi)`
/// retires: those in the window that hold their last reference.
pub open spec fn zombies(bs: Seq<(u64, BalanceEvent)>, lo: u64, hi: u64) -> Seq<u64>
    decreases bs.len(),
{
    if bs.len() == 0 {
        seq![]
    } else {
        let rest = zombies(bs.drop_last(), lo, hi);
        let (s, e) = bs.last();
        if in_window(s, lo, hi) && e.ref_count <= 1 {
            rest.push(s)
        } else {
            rest
        }
    }
}

/// What settling one asset for one account produced.
pub struct TokenSyncResult {
    /// Index of the asset.
    pub asset: usize,
    /// The asset's balance series after garbage collection.
    pub balance_events: Vec<(u64, BalanceEvent)>,
    /// Sequence numbers of the balance entries that were retired.
    pub zombie_balance_event_keys: Vec<u64>,
    /// Revenue accrued in the window.
    pub synced_amount: u128,
}

/// A share is never negative.
pub proof fn lemma_share_nonneg(e: BalanceEvent, d: u128)
    ensures
        share_of(e, d) >= 0,
{
    if e.total > 0 {
        assert((e.delta * d) / (e.total as int) >= 0) by (nonlinear_arith)
            requires
                e.total > 0,
        ;
    }
}

/// Accrual over a prefix of the balance series never exceeds accrual over
/// the whole series.
pub proof fn lemma_accrued_prefix(
    ds: Seq<(u64, StakingEvent)>,
    bs: Seq<(u64, BalanceEvent)>,
    lo: u64,
    hi: u64,
    k: int,
)
    requires
        0 <= k <= bs.len(),
    ensures
        accrued(ds, bs.take(k), lo, hi) <= accrued(ds, bs, lo, hi),
    decreases bs.len() - k,
{
    if k < bs.len() {
        lemma_accrued_prefix(ds, bs, lo, hi, k + 1);
        assert(bs.take(k + 1).drop_last() == bs.take(k));
        lemma_share_nonneg(bs[k].1, delegation_at(ds, bs[k].0 as int));
    } else {
        assert(bs.take(k) == bs);
    }
}

/// A copy of a series of plain entries.
pub fn copy_series<T: Copy>(v: &Vec<T>) -> (r: Vec<T>)
    ensures
        r@ == v@,
{
    let mut out: Vec<T> = Vec::new();
    let mut i: usize = 0;
    while i < v.len()
        invariant
            i <= v.len(),
            out@ == v@.take(i as int),
        decreases v.len() - i,
    {
        out.push(v[i]);
        i = i + 1;
        assert(out@ =~= v@.take(i as int));
    }
    assert(v@.take(i as int) == v@);
    out
}

/// Looks up the delegation in effect at sequence number `s`.
pub fn delegation_at_seq(ds: &Vec<(u64, StakingEvent)>, s: u64) -> (r: u128)
    ensures
        r == delegation_at(ds@, s as int),
{
    let mut k: usize = ds.len();
    assert(ds@.take(k as int) == ds@);
    while k > 0
        invariant
            k <= ds.len(),
            delegation_at(ds@, s as int) == delegation_at(ds@.take(k as int), s as int),
        decreases k,
    {
        assert(ds@.take(k as int).drop_last() == ds@.take(k - 1));
        if ds[k - 1].0 <= s {
            return ds[k - 1].1.delta;
        }
        k = k - 1;
    }
    0
}

/// Computes an account's share of the asset's balance entries in the window
/// `[lo, hi)`, where `ds` is the account's delegation series and `bs` the
/// asset's balance series, and the series that garbage collection leaves.
///
/// Each entry in the window pays `delta * d / total` (truncated), `d` being
/// the delegation the account held at the entry's sequence number: within
/// each interval between two delegation changes, and in the last one, which
/// runs up to `hi`, the account's delegation is the snapshot that opened it.
/// Fails when an entry in the window cannot be settled or the sum does not
/// fit in 128 bits.
pub fn perform_sync(
    ds: &Vec<(u64, StakingEvent)>,
    bs: &Vec<(u64, BalanceEvent)>,
    asset: usize,
    lo: u64,
    hi: u64,
) -> (r: Result<TokenSyncResult, ContractError>)
    ensures
        r.is_ok() <==> window_settles(ds@, bs@, lo, hi) && accrued(ds@, bs@, lo, hi)
            <= u128::MAX,
        r matches Ok(res) ==> {
            &&& res.asset == asset
            &&& res.synced_amount == accrued(ds@, bs@, lo, hi)
            &&& res.balance_events@ == collected(bs@, lo, hi)
            &&& res.zombie_balance_event_keys@ == zombies(bs@, lo, hi)
        },
{
    let mut amount: u128 = 0;
    let mut remaining: Vec<(u64, BalanceEvent)> = Vec::new();
    let mut retired: Vec<u64> = Vec::new();
    let mut j: usize = 0;
    while j < bs.len()
        invariant
            j <= bs.len(),
            amount == accrued(ds@, bs@.take(j as int), lo, hi),
            remaining@ == collected(bs@.take(j as int), lo, hi),
            retired@ == zombies(bs@.take(j as int), lo, hi),
            window_settles(ds@, bs@.take(j as int), lo, hi),
        decreases bs.len() - j,
    {
        assert(bs@.take(j + 1).drop_last() == bs@.take(j as int));
        assert(bs@.take(j + 1).last() == bs@[j as int]);
        let (s, e) = bs[j];
        if lo <= s && s < hi {
            let d = delegation_at_seq(ds, s);
            let share = match mul_ratio_u128(e.delta, d, e.total) {
                Ok(v) => v,
                Err(err) => {
                    proof {
                        assert(in_window(bs@[j as int].0, lo, hi));
                    }
                    return Err(err);
                },
            };
            let rc = match sub_u32(e.ref_count, 1) {
                Ok(v) => v,
                Err(err) => {
                    proof {
                        assert(in_window(bs@[j as int].0, lo, hi));
                    }
                    return Err(err);
                },
            };
            amount = match add_u128(amount, share) {
                Ok(v) => v,
                Err(err) => {
                    proof {
                        lemma_accrued_prefix(ds@, bs@, lo, hi, j + 1);
                    }
                    return Err(err);
                },
            };
            if rc == 0 {
                retired.push(s);
            } else {
                remaining.push((s, BalanceEvent { ref_count: rc, ..e }));
            }
        } else {
            remaining.push((s, e));
        }
        j = j + 1;
        proof {
            assert forall|i: int|
                0 <= i < bs@.take(j as int).len() && in_window(
                    #[trigger] bs@.take(j as int)[i].0,
                    lo,
                    hi,
                ) implies entry_settles(
                bs@.take(j as int)[i].1,
                delegation_at(ds@, bs@.take(j as int)[i].0 as int),
            ) by {
                if i < j - 1 {
                    assert(bs@.take(j as int)[i] == bs@.take(j - 1)[i]);
                }
            }
        }
    }
    assert(bs@.take(j as int) == bs@);
    Ok(
        TokenSyncResult {
            asset,
            balance_events: remaining,
            zombie_balance_event_keys: retired,
            synced_amount: amount,
        },
    )
}

/// Settles one asset for one account up to sequence number `seq_no`: credits
/// what accrued since the checkpoint and moves the checkpoint to `seq_no`.
/// On failure the sync state is unchanged.
pub fn sync_account_balance(
    ds: &Vec<(u64, StakingEvent)>,
    bs: &Vec<(u64, BalanceEvent)>,
    sync: &mut AccountSyncState,
    asset: usize,
    seq_no: u64,
    now: u64,
) -> (r: Result<TokenSyncResult, ContractError>)
    ensures
        r.is_ok() <==> window_settles(ds@, bs@, old(sync).seq_no, seq_no) && old(sync).amount
            + accrued(ds@, bs@, old(sync).seq_no, seq_no) <= u128::MAX,
        r matches Ok(res) ==> {
            &&& res.asset == asset
            &&& res.synced_amount == accrued(ds@, bs@, old(sync).seq_no, seq_no)
            &&& res.balance_events@ == collected(bs@, old(sync).seq_no, seq_no)
            &&& res.zombie_balance_event_keys@ == zombies(bs@, old(sync).seq_no, seq_no)
            &&& final(sync).amount == old(sync).amount + res.synced_amount
            &&& final(sync).seq_no == seq_no
            &&& final(sync).t == now
        },
        r.is_err() ==> *final(sync) == *old(sync),
{
    proof {
        lemma_accrued_nonneg(ds@, bs@, sync.seq_no, seq_no);
    }
    let result = perform_sync(ds, bs, asset, sync.seq_no, seq_no)?;
    let total = add_u128(sync.amount, result.synced_amount)?;
    sync.amount = total;
    sync.seq_no = seq_no;
    sync.t = now;
    Ok(result)
}

/// Accrual is never negative.
pub proof fn lemma_accrued_nonneg(
    ds: Seq<(u64, StakingEvent)>,
    bs: Seq<(u64, BalanceEvent)>,
    lo: u64,
    hi: u64,
)
    ensures
        accrued(ds, bs, lo, hi) >= 0,
    decreases bs.len(),
{
    if bs.len() > 0 {
        lemma_accrued_nonneg(ds, bs.drop_last(), lo, hi);
        lemma_share_nonneg(bs.last().1, delegation_at(ds, bs.last().0 as int));
    }
}

} // verus!
