//! A ledger-resident custody platform built from three cooperating state
//! machines: a milestone escrow, a yield-bearing custody position tracker,
//! and a constant-product conversion router.
//!
//! Host facilities of the surrounding ledger — account authorization, the
//! persistent store, the clock, asset settlement, and event publication —
//! are collaborators that live outside this crate. The state machines here
//! operate on plain values: accounts and assets are identifiers, balances
//! are signed 128-bit amounts in an asset's smallest unit, and the current
//! time enters as an argument.

use vstd::prelude::*;

mod amount;
mod errors;
mod escrow;
mod router;
mod token;
mod yield_custody;

pub use errors::Error;
pub use escrow::EscrowCore;
pub use escrow::Job;
pub use escrow::JobStatus;
pub use escrow::Milestone;
pub use escrow::MilestoneStatus;
pub use router::LiquidityRouter;
pub use router::PoolId;
pub use token::SimpleToken;
pub use token::Token;
pub use token::TokenLedger;
pub use yield_custody::RwaYieldHarvester;
pub use yield_custody::YieldPosition;

verus! {

/// Identifies a principal (payer, payee, or a component's custody account).
pub type AccountId = u64;

/// Identifies a fungible asset.
pub type AssetId = u64;

/// Identifies an escrow job within one `EscrowCore` ledger.
pub type JobId = u64;

} // verus!
