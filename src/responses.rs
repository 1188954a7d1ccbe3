use crate::models::{
    AccountUnbondingState, DepositTokenAmount, DepositTotals, TaxRecipientBalance, TaxRecipientConfig, TaxRecipientInfo,
};
use crate::token::Token;
use vstd::prelude::*;

verus! {

/// Counters of the house.
#[derive(Clone, Copy, Debug, PartialEq, Eq, Structural)]
pub struct HouseStats {
    pub n_accounts: u32,
}

/// Number of live balance entries of one asset.
#[derive(Clone, Debug, PartialEq, Eq)]
pub struct BalanceEventCount {
    pub n: u32,
    pub token: Token,
}

/// An account as seen from outside: its delegation, what it could claim of
/// each asset if it settled now, and its pending unbonding.
#[derive(Clone, Debug, PartialEq, Eq)]
pub struct AccountResponse {
    pub created_at: u64,
    pub delegation: u128,
    pub balances: Vec<u128>,
    pub unbonding: Option<AccountUnbondingState>,
}

/// What a claim pays out: the settled revenue of the asset, and the matured
/// unbonding principal (zero when there is none).
#[derive(Clone, Copy, Debug, PartialEq, Eq, Structural)]
pub struct ClaimOutcome {
    pub revenue: u128,
    pub unbonded: u128,
}

/// A tax recipient as seen from outside: its address, metadata, settings,
/// and its tally in each revenue asset, in asset order.
#[derive(Clone, Debug, PartialEq, Eq)]
pub struct TaxRecipientResponseItem {
    pub address: String,
    pub info: TaxRecipientInfo,
    pub config: TaxRecipientConfig,
    pub totals: Vec<TaxRecipientBalance>,
}

/// The aggregate tax rate, in millionths, and every recipient.
#[derive(Clone, Debug, PartialEq, Eq)]
pub struct TaxesResponse {
    pub pct: u128,
    pub recipients: Vec<TaxRecipientResponseItem>,
}

/// Deposit totals of each revenue asset, and of each depositor by asset
/// (`depositors[d][k]`).
#[derive(Clone, Debug, PartialEq, Eq)]
pub struct DepositsResponse {
    pub totals: Vec<DepositTokenAmount>,
    pub depositors: Vec<Vec<DepositTotals>>,
}

} // verus!
