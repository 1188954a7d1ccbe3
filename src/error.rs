use vstd::prelude::*;

verus! {

/// Every way an operation on the house can fail. A failed operation leaves
/// the house exactly as it was.
#[derive(Clone, Copy, Debug, PartialEq, Eq, Structural)]
pub enum ContractError {
    /// An addition or multiplication went past the integer's range, or a
    /// subtraction went below zero.
    Overflow,
    /// A division by zero, such as a share of a balance entry whose total
    /// delegation snapshot is zero.
    DivideByZero,
    /// The asset is not on the house's list of revenue assets.
    TokenNotAccepted,
    /// The account does not exist.
    AccountNotFound,
    /// The depositor does not exist.
    DepositorNotFound,
    /// Only the house's manager may act on behalf of another account.
    NotManager,
    /// The tax rates together exceed one hundred percent.
    TaxRateExceeded,
}

} // verus!
