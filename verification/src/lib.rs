//! Engagement-gated credential issuance and a community-proposal lifecycle.
//!
//! The crate verifies the orchestration logic of a service that issues a
//! unique, one-per-wallet credential asset behind an engagement threshold and
//! manages proposal records through a submission / review / voting lifecycle,
//! mirrored onto an on-chain ledger contract.

use vstd::prelude::*;

pub mod auth;
pub mod chat;
pub mod context;
pub mod envelope;
pub mod hexcodec;
pub mod jsontext;
pub mod ledger;
pub mod mentions;
pub mod options;
pub mod profile;
pub mod proposal;
pub mod spam;
pub mod workflow;

verus! {

/// Number of user-authored conversation turns a wallet must have stored
/// before a credential claim may proceed.
pub const ENGAGEMENT_THRESHOLD: u64 = 6;

} // verus!
