use crate::error::ContractError;
use crate::math::{add_u128, add_u64, mul_ratio_u128, seq_sum};
use crate::house::balance_series_ok;
use crate::models::{BalanceEvent, TaxRecipientBalance, TaxRecipientConfig};
use vstd::prelude::*;

verus! {

/// Tax rates are expressed in millionths.
pub const TAX_SCALE: u128 = 1_000_000;

/// The tax a recipient with rate `pct` takes from `amount`, truncated.
pub open spec fn tax_of(amount: u128, pct: u128) -> int {
    (amount * pct) / (TAX_SCALE as int)
}

/// The rates of the recipients, in order.
pub open spec fn tax_rates(taxes: Seq<TaxRecipientConfig>) -> Seq<u128> {
    taxes.map_values(|c: TaxRecipientConfig| c.pct)
}

/// Every recipient's tax on `amount` can be computed without overflow.
pub open spec fn taxes_fit(amount: u128, taxes: Seq<TaxRecipientConfig>) -> bool {
    forall|i: int| 0 <= i < taxes.len() ==> amount * #[trigger] taxes[i].pct <= u128::MAX
}

/// `sum of floor(r * d / t)` over the values `d` of `ds`.
pub open spec fn floor_shares(r: u128, ds: Seq<u128>, t: int) -> int
    decreases ds.len(),
{
    if ds.len() == 0 {
        0
    } else {
        floor_shares(r, ds.drop_last(), t) + (r * ds.last()) / t
    }
}

/// Tax withheld for recipients whose share is not sent at once.
pub open spec fn held_tax(amounts: Seq<u128>, taxes: Seq<TaxRecipientConfig>) -> int
    decreases amounts.len(),
{
    if amounts.len() == 0 || taxes.len() == 0 {
        0
    } else {
        held_tax(amounts.drop_last(), taxes.drop_last()) + if taxes.last().autosend {
            0
        } else {
            amounts.last() as int
        }
    }
}

/// Transfers to the recipients whose share is sent at once, as pairs of
/// recipient index and amount, in recipient order.
pub open spec fn autosend_transfers(amounts: Seq<u128>, taxes: Seq<TaxRecipientConfig>) -> Seq<
    (usize, u128),
>
    decreases amounts.len(),
{
    if amounts.len() == 0 || taxes.len() == 0 {
        seq![]
    } else {
        let rest = autosend_transfers(amounts.drop_last(), taxes.drop_last());
        if taxes.last().autosend {
            rest.push(((amounts.len() - 1) as usize, amounts.last()))
        } else {
            rest
        }
    }
}

/// A recipient's tally after it was taxed `amount`.
pub open spec fn tallied(
    b: TaxRecipientBalance,
    c: TaxRecipientConfig,
    amount: u128,
) -> TaxRecipientBalance {
    TaxRecipientBalance {
        total: (b.total + amount) as u128,
        balance: if c.autosend {
            b.balance
        } else {
            (b.balance + amount) as u128
        },
    }
}

/// Every tally, and the held tax, stay within range after recording.
pub open spec fn tallies_fit(
    totals: Seq<TaxRecipientBalance>,
    held: u128,
    taxes: Seq<TaxRecipientConfig>,
    amounts: Seq<u128>,
) -> bool {
    &&& held + held_tax(amounts, taxes) <= u128::MAX
    &&& forall|i: int|
        0 <= i < amounts.len() ==> #[trigger] totals[i].total + amounts[i] <= u128::MAX && (
        taxes[i].autosend || totals[i].balance + amounts[i] <= u128::MAX)
}

/// The latest balance entry can take a new deposit: it was opened at the
/// immediately preceding sequence number, in the current generation.
pub open spec fn can_merge(bs: Seq<(u64, BalanceEvent)>, seq_no: u64, x: u64) -> bool {
    bs.len() > 0 && bs.last().0 + 1 == seq_no && bs.last().1.x == x
}

/// The balance series after a deposit of net revenue `net`, with total
/// delegation `total` and `n` accounts.
pub open spec fn appended(
    bs: Seq<(u64, BalanceEvent)>,
    seq_no: u64,
    x: u64,
    net: u128,
    total: u128,
    n: u32,
) -> Seq<(u64, BalanceEvent)> {
    if can_merge(bs, seq_no, x) {
        bs.update(
            bs.len() - 1,
            (bs.last().0, BalanceEvent { delta: (bs.last().1.delta + net) as u128, ..bs.last().1 }),
        )
    } else {
        bs.push((seq_no, BalanceEvent { delta: net, total, n_accounts: n, ref_count: n, x }))
    }
}

/// The sequence counter after that deposit: a new entry takes one number.
pub open spec fn next_seq(bs: Seq<(u64, BalanceEvent)>, seq_no: u64, x: u64) -> int {
    if can_merge(bs, seq_no, x) {
        seq_no as int
    } else {
        seq_no + 1
    }
}

/// That deposit stays within range.
pub open spec fn append_fits(bs: Seq<(u64, BalanceEvent)>, seq_no: u64, x: u64, net: u128) -> bool {
    if can_merge(bs, seq_no, x) {
        bs.last().1.delta + net <= u128::MAX
    } else {
        seq_no + 1 <= u64::MAX
    }
}

/// Computes each recipient's tax on `amount`.
pub fn compute_taxes(taxes: &Vec<TaxRecipientConfig>, amount: u128) -> (r: Result<
    Vec<u128>,
    ContractError,
>)
    ensures
        r.is_ok() <==> taxes_fit(amount, taxes@),
        r matches Ok(v) ==> v@.len() == taxes@.len() && forall|i: int|
            0 <= i < v@.len() ==> #[trigger] v@[i] == tax_of(amount, taxes@[i].pct),
{
    let mut out: Vec<u128> = Vec::new();
    let mut i: usize = 0;
    while i < taxes.len()
        invariant
            i <= taxes.len(),
            out@.len() == i,
            forall|j: int| 0 <= j < i ==> #[trigger] out@[j] == tax_of(amount, taxes@[j].pct),
            forall|j: int| 0 <= j < i ==> amount * #[trigger] taxes@[j].pct <= u128::MAX,
        decreases taxes.len() - i,
    {
        let t = mul_ratio_u128(amount, taxes[i].pct, TAX_SCALE)?;
        out.push(t);
        i = i + 1;
    }
    Ok(out)
}

/// Records the taxes `amounts` (one per recipient) in the recipients'
/// tallies and the held total, and returns the transfers owed to the
/// recipients whose share is sent at once. Nothing changes on failure.
pub fn record_taxes(
    totals: &mut Vec<TaxRecipientBalance>,
    held: &mut u128,
    taxes: &Vec<TaxRecipientConfig>,
    amounts: &Vec<u128>,
) -> (r: Result<Vec<(usize, u128)>, ContractError>)
    requires
        old(totals)@.len() == taxes@.len(),
        amounts@.len() == taxes@.len(),
    ensures
        r.is_ok() <==> tallies_fit(old(totals)@, *old(held), taxes@, amounts@),
        r matches Ok(transfers) ==> {
            &&& transfers@ == autosend_transfers(amounts@, taxes@)
            &&& *final(held) == *old(held) + held_tax(amounts@, taxes@)
            &&& final(totals)@.len() == old(totals)@.len()
            &&& forall|i: int|
                0 <= i < taxes@.len() ==> #[trigger] final(totals)@[i] == tallied(
                    old(totals)@[i],
                    taxes@[i],
                    amounts@[i],
                )
        },
        r.is_err() ==> final(totals)@ == old(totals)@ && *final(held) == *old(held),
{
    let ghost t0 = totals@;
    let ghost h0 = *held;
    let mut new_totals: Vec<TaxRecipientBalance> = Vec::new();
    let mut new_held: u128 = *held;
    let mut transfers: Vec<(usize, u128)> = Vec::new();
    let mut i: usize = 0;
    while i < taxes.len()
        invariant
            i <= taxes.len(),
            t0 == totals@,
            h0 == *held,
            t0.len() == taxes@.len(),
            amounts@.len() == taxes@.len(),
            new_totals@.len() == i,
            new_held == h0 + held_tax(amounts@.take(i as int), taxes@.take(i as int)),
            transfers@ == autosend_transfers(amounts@.take(i as int), taxes@.take(i as int)),
            forall|j: int|
                0 <= j < i ==> #[trigger] new_totals@[j] == tallied(t0[j], taxes@[j], amounts@[j]),
            forall|j: int|
                0 <= j < i ==> #[trigger] t0[j].total + amounts@[j] <= u128::MAX && (
                taxes@[j].autosend || t0[j].balance + amounts@[j] <= u128::MAX),
        decreases taxes.len() - i,
    {
        assert(amounts@.take(i + 1).drop_last() == amounts@.take(i as int));
        assert(taxes@.take(i + 1).drop_last() == taxes@.take(i as int));
        let c = taxes[i];
        let a = amounts[i];
        let b = totals[i];
        let total = match add_u128(b.total, a) {
            Ok(v) => v,
            Err(e) => {
                return Err(e);
            },
        };
        let balance = if c.autosend {
            b.balance
        } else {
            match add_u128(b.balance, a) {
                Ok(v) => v,
                Err(e) => {
                    return Err(e);
                },
            }
        };
        if c.autosend {
            transfers.push((i, a));
        } else {
            new_held = match add_u128(new_held, a) {
                Ok(v) => v,
                Err(e) => {
                    proof {
                        lemma_held_tax_prefix(amounts@, taxes@, i + 1);
                    }
                    return Err(e);
                },
            };
        }
        new_totals.push(TaxRecipientBalance { total, balance });
        i = i + 1;
    }
    assert(amounts@.take(i as int) == amounts@);
    assert(taxes@.take(i as int) == taxes@);
    *totals = new_totals;
    *held = new_held;
    Ok(transfers)
}

/// Held tax over prefixes grows with the prefix.
pub proof fn lemma_held_tax_prefix(amounts: Seq<u128>, taxes: Seq<TaxRecipientConfig>, k: int)
    requires
        0 <= k <= amounts.len(),
        amounts.len() == taxes.len(),
    ensures
        held_tax(amounts.take(k), taxes.take(k)) <= held_tax(amounts, taxes),
    decreases amounts.len() - k,
{
    if k < amounts.len() {
        lemma_held_tax_prefix(amounts, taxes, k + 1);
        assert(amounts.take(k + 1).drop_last() == amounts.take(k));
        assert(taxes.take(k + 1).drop_last() == taxes.take(k));
    } else {
        assert(amounts.take(k) == amounts);
        assert(taxes.take(k) == taxes);
    }
}

/// Adds a deposit's net revenue to the asset's balance series: into the
/// latest entry when it can take it, else into a new entry at the current
/// sequence number, which then advances. Nothing changes on failure.
pub fn append_balance_event(
    bs: &mut Vec<(u64, BalanceEvent)>,
    seq_no: &mut u64,
    x: u64,
    net: u128,
    total: u128,
    n: u32,
) -> (r: Result<(), ContractError>)
    ensures
        r.is_ok() <==> append_fits(old(bs)@, *old(seq_no), x, net),
        r.is_ok() ==> final(bs)@ == appended(old(bs)@, *old(seq_no), x, net, total, n)
            && *final(seq_no) == next_seq(old(bs)@, *old(seq_no), x),
        r.is_err() ==> final(bs)@ == old(bs)@ && *final(seq_no) == *old(seq_no),
{
    let len = bs.len();
    if len > 0 {
        let (s, e) = bs[len - 1];
        if s < u64::MAX && s + 1 == *seq_no && e.x == x {
            let delta = add_u128(e.delta, net)?;
            bs.set(len - 1, (s, BalanceEvent { delta, ..e }));
            return Ok(());
        }
    }
    let next = add_u64(*seq_no, 1)?;
    bs.push((*seq_no, BalanceEvent { delta: net, total, n_accounts: n, ref_count: n, x }));
    *seq_no = next;
    Ok(())
}

/// A deposit keeps the balance series in order: a merge keeps the latest
/// entry's sequence number, and a new entry takes the current one.
pub proof fn lemma_appended_ok(
    bs: Seq<(u64, BalanceEvent)>,
    seq_no: u64,
    x: u64,
    net: u128,
    total: u128,
    n: u32,
)
    requires
        balance_series_ok(bs, seq_no, x),
        append_fits(bs, seq_no, x, net),
    ensures
        balance_series_ok(appended(bs, seq_no, x, net, total, n), next_seq(bs, seq_no, x) as u64, x),
{
    let r = appended(bs, seq_no, x, net, total, n);
    if can_merge(bs, seq_no, x) {
        assert forall|i: int| 0 <= i < r.len() implies r[i].0 == bs[i].0 && r[i].1.x == bs[i].1.x by {
            assert(bs[bs.len() - 1] == bs.last());
        }
        assert forall|i: int, j: int| 0 <= i < j < r.len() implies #[trigger] r[i].0 < #[trigger] r[j].0 by {
            assert(r[i].0 == bs[i].0 && r[j].0 == bs[j].0);
        }
        assert forall|i: int| 0 <= i < r.len() implies #[trigger] r[i].0 < seq_no && r[i].1.x <= x by {
            assert(r[i].0 == bs[i].0 && r[i].1.x == bs[i].1.x);
        }
    } else {
        assert forall|i: int, j: int| 0 <= i < j < r.len() implies #[trigger] r[i].0 < #[trigger] r[j].0 by {
            if j < bs.len() {
                assert(r[i] == bs[i] && r[j] == bs[j]);
            } else {
                assert(r[i] == bs[i]);
            }
        }
        assert forall|i: int| 0 <= i < r.len() implies #[trigger] r[i].0 < seq_no + 1 && r[i].1.x <= x by {
            if i < bs.len() {
                assert(r[i] == bs[i]);
            }
        }
    }
}

/// A truncated share never exceeds its exact value: `floor(r * d / t) * t <= r * d`.
pub proof fn lemma_floor_share(r: u128, d: u128, t: int)
    requires
        t > 0,
    ensures
        ((r * d) / t) * t <= r * d,
        (r * d) / t >= 0,
{
    let p = r * d;
    assert(p >= 0) by (nonlinear_arith)
        requires
            r >= 0,
            d >= 0,
            p == r * d,
    ;
    assert((p / t) * t <= p && p / t >= 0) by (nonlinear_arith)
        requires
            t > 0,
            p >= 0,
    ;
}

/// Truncated shares of `r` in proportion to `ds` out of `t` add up to no more
/// than `r * sum(ds) / t`.
pub proof fn lemma_floor_shares_scaled(r: u128, ds: Seq<u128>, t: int)
    requires
        t > 0,
    ensures
        floor_shares(r, ds, t) * t <= r * seq_sum(ds),
        floor_shares(r, ds, t) >= 0,
    decreases ds.len(),
{
    if ds.len() > 0 {
        lemma_floor_shares_scaled(r, ds.drop_last(), t);
        lemma_floor_share(r, ds.last(), t);
        let a = floor_shares(r, ds.drop_last(), t);
        let b = (r * ds.last()) / t;
        let s = seq_sum(ds.drop_last());
        assert((a + b) * t == a * t + b * t) by (nonlinear_arith);
        assert(r * (s + ds.last()) == r * s + r * ds.last()) by (nonlinear_arith);
    }
}

/// When the parts `ds` add up to at most `t`, truncated shares of `r` in
/// proportion to them add up to at most `r`. This is why the taxes of a
/// deposit never exceed it, and why the accounts' shares of one balance
/// entry never exceed the entry's amount.
pub proof fn lemma_floor_shares_bounded(r: u128, ds: Seq<u128>, t: int)
    requires
        t > 0,
        seq_sum(ds) <= t,
    ensures
        floor_shares(r, ds, t) <= r,
{
    lemma_floor_shares_scaled(r, ds, t);
    let f = floor_shares(r, ds, t);
    let s = seq_sum(ds);
    assert(r * s <= r * t) by (nonlinear_arith)
        requires
            s <= t,
            r >= 0,
    ;
    assert(f <= r) by (nonlinear_arith)
        requires
            f * t <= r * t,
            t > 0,
    ;
}

} // verus!
