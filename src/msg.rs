use crate::token::Token;
use vstd::prelude::*;

verus! {

/// Display metadata of the house.
#[derive(Clone, Debug, PartialEq, Eq)]
pub struct HouseMarketingInfo {
    pub logo: Option<String>,
    pub name: Option<String>,
    pub description: Option<String>,
}

/// A request to claim the settled revenue of one asset.
#[derive(Clone, Debug, PartialEq, Eq)]
pub struct ClaimMsg {
    pub token: Token,
}

/// A migration request; it carries nothing.
#[derive(Clone, Copy, Debug, PartialEq, Eq, Structural)]
pub struct MigrateMsg {}

} // verus!

verus! {

/// A tax recipient as configured when the house is created.
#[derive(Clone, Debug, PartialEq, Eq)]
pub struct TaxRecipientInitArgs {
    pub address: String,
    pub name: Option<String>,
    pub logo: Option<String>,
    pub pct: u128,
    pub autosend: bool,
    pub immutable: bool,
}

/// The rates of the configured tax recipients, in order.
pub open spec fn init_rates(args: Seq<TaxRecipientInitArgs>) -> Seq<u128> {
    args.map_values(|a: TaxRecipientInitArgs| a.pct)
}

} // verus!
