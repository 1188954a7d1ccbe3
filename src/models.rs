use crate::error::ContractError;
use crate::math::{add_u128, sub_u128};
use crate::token::Token;
use vstd::prelude::*;

verus! {

/// One entry of an asset's balance series: revenue received while the
/// staking composition stayed the same.
#[derive(Clone, Copy, Debug, PartialEq, Eq, Structural)]
pub struct BalanceEvent {
    /// Revenue (net of tax) received in this window.
    pub delta: u128,
    /// Total delegation across all accounts when the entry was opened.
    pub total: u128,
    /// Number of accounts when the entry was opened.
    pub n_accounts: u32,
    /// Accounts that have not yet settled past this entry.
    pub ref_count: u32,
    /// Generation counter when the entry was opened; a later deposit merges
    /// into this entry only while the generation is unchanged.
    pub x: u64,
}

/// One entry of an account's delegation series: the account's total
/// delegation right after a change (a snapshot, not an increment).
#[derive(Clone, Copy, Debug, PartialEq, Eq, Structural)]
pub struct StakingEvent {
    pub delta: u128,
}

/// An account's settlement state for one asset.
#[derive(Clone, Copy, Debug, PartialEq, Eq, Structural)]
pub struct AccountSyncState {
    /// Time of the last settlement, in nanoseconds.
    pub t: u64,
    /// Checkpoint: the sequence number up to which revenue has been credited.
    pub seq_no: u64,
    /// Settled, claimable amount.
    pub amount: u128,
}

/// Running count and sum of deposits.
#[derive(Clone, Copy, Debug, PartialEq, Eq, Structural)]
pub struct DepositTotals {
    pub n: u64,
    pub amount: u128,
}

/// Deposit totals for one asset.
#[derive(Clone, Debug, PartialEq, Eq)]
pub struct DepositTokenAmount {
    pub n: u64,
    pub amount: u128,
    pub token: Token,
}

/// Display metadata of a tax recipient.
#[derive(Clone, Debug, PartialEq, Eq)]
pub struct TaxRecipientInfo {
    pub name: Option<String>,
    pub logo: Option<String>,
}

/// How a tax recipient is paid: its rate in millionths, and whether its share
/// is sent at once or held for it.
#[derive(Clone, Copy, Debug, PartialEq, Eq, Structural)]
pub struct TaxRecipientConfig {
    pub pct: u128,
    pub autosend: bool,
    pub immutable: bool,
}

/// Tax held for a recipient and tax it has received in all.
#[derive(Clone, Copy, Debug, PartialEq, Eq, Structural)]
pub struct TaxRecipientBalance {
    pub balance: u128,
    pub total: u128,
}

/// A pending unbonding: the amount and when it matures, in nanoseconds.
#[derive(Clone, Copy, Debug, PartialEq, Eq, Structural)]
pub struct AccountUnbondingState {
    pub amount: u128,
    pub unbonds_at: u64,
}

/// A staking account.
#[derive(Clone, Copy, Debug, PartialEq, Eq, Structural)]
pub struct Account {
    /// Creation time, in nanoseconds.
    pub created_at: u64,
    /// Sequence number when the account was created.
    pub created_at_seq_no: u64,
    /// Current delegated amount.
    pub delegation: u128,
}

impl StakingEvent {
    /// An empty snapshot.
    pub fn default() -> (r: Self)
        ensures
            r.delta == 0,
    {
        StakingEvent { delta: 0 }
    }
}

impl Account {
    /// An account created at `time` and sequence number `seq_no`, with no
    /// delegation yet.
    pub fn new(time: u64, seq_no: u64) -> (r: Self)
        ensures
            r.created_at == time,
            r.created_at_seq_no == seq_no,
            r.delegation == 0,
    {
        Account { created_at: time, created_at_seq_no: seq_no, delegation: 0 }
    }

    /// Adds to the delegation and returns the new total; fails, changing
    /// nothing, on overflow.
    pub fn add_delegation(&mut self, delta: u128) -> (r: Result<u128, ContractError>)
        ensures
            r.is_ok() <==> old(self).delegation + delta <= u128::MAX,
            r.is_ok() ==> final(self).delegation == old(self).delegation + delta && r
                == Ok::<u128, ContractError>(final(self).delegation),
            r.is_err() ==> *final(self) == *old(self) && r == Err::<u128, ContractError>(
                ContractError::Overflow,
            ),
            final(self).created_at == old(self).created_at,
            final(self).created_at_seq_no == old(self).created_at_seq_no,
    {
        let d = add_u128(self.delegation, delta)?;
        self.delegation = d;
        Ok(d)
    }

    /// Takes from the delegation and returns the new total; fails, changing
    /// nothing, when the delegation is smaller than `delta`.
    pub fn subtract_delegation(&mut self, delta: u128) -> (r: Result<u128, ContractError>)
        ensures
            r.is_ok() <==> delta <= old(self).delegation,
            r.is_ok() ==> final(self).delegation == old(self).delegation - delta && r
                == Ok::<u128, ContractError>(final(self).delegation),
            r.is_err() ==> *final(self) == *old(self) && r == Err::<u128, ContractError>(
                ContractError::Overflow,
            ),
            final(self).created_at == old(self).created_at,
            final(self).created_at_seq_no == old(self).created_at_seq_no,
    {
        let d = sub_u128(self.delegation, delta)?;
        self.delegation = d;
        Ok(d)
    }
}

} // verus!
