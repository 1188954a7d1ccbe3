use cw_sath::error::ContractError;
use cw_sath::math::{
    add_u128, add_u32, add_u64, div_u128, mul_ratio_u128, mul_u128, mul_u32, sub_u128, sub_u32,
    sum_u128,
};
use cw_sath::models::{Account, StakingEvent};
use cw_sath::token::Token;

#[test]
fn checked_arithmetic() {
    assert_eq!(add_u128(2, 3), Ok(5));
    assert_eq!(add_u128(u128::MAX, 1), Err(ContractError::Overflow));
    assert_eq!(sub_u128(2, 3), Err(ContractError::Overflow));
    assert_eq!(sub_u128(7, 3), Ok(4));
    assert_eq!(mul_u128(u128::MAX, 2), Err(ContractError::Overflow));
    assert_eq!(mul_u128(6, 7), Ok(42));
    assert_eq!(div_u128(7, 2), Ok(3));
    assert_eq!(div_u128(7, 0), Err(ContractError::DivideByZero));
    assert_eq!(add_u64(u64::MAX, 1), Err(ContractError::Overflow));
    assert_eq!(add_u32(1, 2), Ok(3));
    assert_eq!(mul_u32(u32::MAX, 2), Err(ContractError::Overflow));
    assert_eq!(sub_u32(0, 1), Err(ContractError::Overflow));
}

#[test]
fn ratio_truncates() {
    assert_eq!(mul_ratio_u128(1000, 1, 3), Ok(333));
    assert_eq!(mul_ratio_u128(1000, 1, 0), Err(ContractError::DivideByZero));
    assert_eq!(mul_ratio_u128(u128::MAX, 2, 2), Err(ContractError::Overflow));
}

#[test]
fn sums() {
    assert_eq!(sum_u128(&vec![]), Ok(0));
    assert_eq!(sum_u128(&vec![1, 2, 3]), Ok(6));
    assert_eq!(sum_u128(&vec![u128::MAX, 1]), Err(ContractError::Overflow));
}

#[test]
fn account_delegation() {
    let mut a = Account::new(5, 9);
    assert_eq!(a.created_at, 5);
    assert_eq!(a.created_at_seq_no, 9);
    assert_eq!(a.add_delegation(10), Ok(10));
    assert_eq!(a.subtract_delegation(4), Ok(6));
    assert_eq!(a.subtract_delegation(7), Err(ContractError::Overflow));
    assert_eq!(a.delegation, 6);
    assert_eq!(StakingEvent::default().delta, 0);
}

#[test]
fn token_identity() {
    let a = Token::Native { denom: "uusd".to_string() };
    let b = Token::Cw20 { address: "uusd".to_string() };
    assert!(a.same_as(&a.clone()));
    assert!(!a.same_as(&b));
}
