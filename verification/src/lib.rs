//! A fractional-ownership ledger for real-estate assets.
//!
//! Properties are divided into tradable shares. The library tracks how many
//! shares of each property exist and who owns them, lets owners trade shares
//! on an internal marketplace, and distributes deposited rental income to
//! owners in proportion to their holdings.
//!
//! All state lives in a single [`System`] value; every operation is a method
//! on it that either completes in full or returns an error having changed
//! nothing. The central invariant, stated by [`System::wf`], is conservation:
//! for every property, the shares still available for issuance plus the sum
//! of all owner balances equals the property's total share count.

mod errors;
mod income;
mod marketplace;
mod ownership;
mod registry;
mod system;

pub use errors::LedgerError;
pub use income::share_of;
pub use marketplace::{first_serving, listing_serves, no_serving, Listing};
pub use ownership::UserId;
pub use registry::{Property, PropertyId};
pub use system::{
    claim_step,
    lemma_balance_nonneg,
    lemma_claim_idempotent,
    lemma_conservation,
    lemma_distribution_bounded,
    same_balances,
    same_income,
    same_listings,
    same_properties,
    unchanged,
    System,
};
