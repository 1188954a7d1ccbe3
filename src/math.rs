use crate::error::ContractError;
use vstd::prelude::*;

verus! {

/// Sum of a sequence of amounts, as an unbounded integer.
pub open spec fn seq_sum(values: Seq<u128>) -> int
    decreases values.len(),
{
    if values.len() == 0 {
        0
    } else {
        seq_sum(values.drop_last()) + values.last()
    }
}

/// Checked addition of two 128-bit amounts.
pub fn add_u128(a: u128, b: u128) -> (r: Result<u128, ContractError>)
    ensures
        a + b <= u128::MAX <==> r.is_ok(),
        r.is_ok() ==> r == Ok::<u128, ContractError>((a + b) as u128),
        r.is_err() ==> r == Err::<u128, ContractError>(ContractError::Overflow),
{
    match a.checked_add(b) {
        Some(v) => Ok(v),
        None => Err(ContractError::Overflow),
    }
}

/// Checked subtraction of two 128-bit amounts.
pub fn sub_u128(a: u128, b: u128) -> (r: Result<u128, ContractError>)
    ensures
        b <= a <==> r.is_ok(),
        r.is_ok() ==> r == Ok::<u128, ContractError>((a - b) as u128),
        r.is_err() ==> r == Err::<u128, ContractError>(ContractError::Overflow),
{
    match a.checked_sub(b) {
        Some(v) => Ok(v),
        None => Err(ContractError::Overflow),
    }
}

/// Checked multiplication of two 128-bit amounts.
pub fn mul_u128(a: u128, b: u128) -> (r: Result<u128, ContractError>)
    ensures
        a * b <= u128::MAX <==> r.is_ok(),
        r.is_ok() ==> r == Ok::<u128, ContractError>((a * b) as u128),
        r.is_err() ==> r == Err::<u128, ContractError>(ContractError::Overflow),
{
    match a.checked_mul(b) {
        Some(v) => Ok(v),
        None => Err(ContractError::Overflow),
    }
}

/// Checked, truncating division of two 128-bit amounts.
pub fn div_u128(numerator: u128, denominator: u128) -> (r: Result<u128, ContractError>)
    ensures
        denominator != 0 <==> r.is_ok(),
        r.is_ok() ==> r == Ok::<u128, ContractError>((numerator / denominator) as u128),
        r.is_err() ==> r == Err::<u128, ContractError>(ContractError::DivideByZero),
{
    match numerator.checked_div(denominator) {
        Some(v) => Ok(v),
        None => Err(ContractError::DivideByZero),
    }
}

/// `base * numerator / denominator` with truncation, failing when the product
/// does not fit or the denominator is zero.
pub fn mul_ratio_u128(base: u128, numerator: u128, denominator: u128) -> (r: Result<
    u128,
    ContractError,
>)
    ensures
        (base * numerator <= u128::MAX && denominator != 0) <==> r.is_ok(),
        r.is_ok() ==> r == Ok::<u128, ContractError>(((base * numerator) / (denominator as int)) as u128),
        base * numerator > u128::MAX ==> r == Err::<u128, ContractError>(ContractError::Overflow),
        base * numerator <= u128::MAX && denominator == 0 ==> r == Err::<u128, ContractError>(
            ContractError::DivideByZero,
        ),
{
    let product = mul_u128(base, numerator)?;
    div_u128(product, denominator)
}

/// Checked addition of two 64-bit values.
pub fn add_u64(a: u64, b: u64) -> (r: Result<u64, ContractError>)
    ensures
        a + b <= u64::MAX <==> r.is_ok(),
        r.is_ok() ==> r == Ok::<u64, ContractError>((a + b) as u64),
        r.is_err() ==> r == Err::<u64, ContractError>(ContractError::Overflow),
{
    match a.checked_add(b) {
        Some(v) => Ok(v),
        None => Err(ContractError::Overflow),
    }
}

/// Checked addition of two 32-bit values.
pub fn add_u32(a: u32, b: u32) -> (r: Result<u32, ContractError>)
    ensures
        a + b <= u32::MAX <==> r.is_ok(),
        r.is_ok() ==> r == Ok::<u32, ContractError>((a + b) as u32),
        r.is_err() ==> r == Err::<u32, ContractError>(ContractError::Overflow),
{
    match a.checked_add(b) {
        Some(v) => Ok(v),
        None => Err(ContractError::Overflow),
    }
}

/// Checked multiplication of two 32-bit values.
pub fn mul_u32(a: u32, b: u32) -> (r: Result<u32, ContractError>)
    ensures
        a * b <= u32::MAX <==> r.is_ok(),
        r.is_ok() ==> r == Ok::<u32, ContractError>((a * b) as u32),
        r.is_err() ==> r == Err::<u32, ContractError>(ContractError::Overflow),
{
    match a.checked_mul(b) {
        Some(v) => Ok(v),
        None => Err(ContractError::Overflow),
    }
}

/// Checked subtraction of two 32-bit values.
pub fn sub_u32(a: u32, b: u32) -> (r: Result<u32, ContractError>)
    ensures
        b <= a <==> r.is_ok(),
        r.is_ok() ==> r == Ok::<u32, ContractError>((a - b) as u32),
        r.is_err() ==> r == Err::<u32, ContractError>(ContractError::Overflow),
{
    match a.checked_sub(b) {
        Some(v) => Ok(v),
        None => Err(ContractError::Overflow),
    }
}

/// Checked sum of a list of amounts.
pub fn sum_u128(values: &Vec<u128>) -> (r: Result<u128, ContractError>)
    ensures
        seq_sum(values@) <= u128::MAX <==> r.is_ok(),
        r.is_ok() ==> r == Ok::<u128, ContractError>(seq_sum(values@) as u128),
        r.is_err() ==> r == Err::<u128, ContractError>(ContractError::Overflow),
{
    let mut total: u128 = 0;
    let mut i: usize = 0;
    while i < values.len()
        invariant
            i <= values.len(),
            total == seq_sum(values@.take(i as int)),
            forall|j: int| 0 <= j <= i ==> seq_sum(values@.take(j)) <= u128::MAX,
        decreases values.len() - i,
    {
        assert(values@.take(i + 1).drop_last() == values@.take(i as int));
        match total.checked_add(values[i]) {
            Some(v) => {
                total = v;
            },
            None => {
                proof {
                    lemma_seq_sum_prefix_monotone(values@, i + 1);
                }
                return Err(ContractError::Overflow);
            },
        }
        i = i + 1;
    }
    assert(values@.take(i as int) == values@);
    Ok(total)
}

/// A prefix of a list of amounts never sums to more than the whole list.
pub proof fn lemma_seq_sum_prefix_monotone(values: Seq<u128>, k: int)
    requires
        0 <= k <= values.len(),
    ensures
        seq_sum(values.take(k)) <= seq_sum(values),
    decreases values.len() - k,
{
    if k < values.len() {
        lemma_seq_sum_prefix_monotone(values, k + 1);
        assert(values.take(k + 1).drop_last() == values.take(k));
    } else {
        assert(values.take(k) == values);
    }
}

} // verus!
