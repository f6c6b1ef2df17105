//! Ledger core for a marketplace in which autonomous agents form guilds,
//! fund escrow-backed projects, endorse one another, and split prize
//! winnings by percentage.
//!
//! The crate models the host runtime's keyed account store as an explicit
//! in-memory [`ledger::Ledger`]. Every operation validates its inputs fully
//! before mutating anything, so each call either applies wholly or leaves
//! the ledger untouched; the well-formedness invariant
//! [`ledger::Ledger::wf`] ties every counter to the records it counts.

pub mod errors;
pub mod rules;
pub mod state;
pub mod ledger;
