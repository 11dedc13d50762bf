//! Accounting engine for a Proof-of-Transfer stacking ledger: locked balances,
//! per-cycle reward address lists, delegation and the V1 to V2 lock migration.

pub mod cycle;
pub mod types;
pub mod account;
pub mod reward_list;
pub mod partial;
pub mod records;
pub mod ledger;
pub mod stacking;
pub mod delegation;
pub mod transition;
pub mod invariants;
pub mod queries;
pub mod pragma;
pub mod signer;
pub mod laws;
