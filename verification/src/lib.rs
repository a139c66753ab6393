//! Accounting core of a staking platform.
//!
//! Users lock fungible tokens or unique non-fungible items into a vault, earn
//! a share of independently funded reward pools proportional to their stake,
//! and withdraw their assets after an optional cooldown delay. The crate holds
//! the verified state machines for the stake ledger, the height-indexed
//! snapshot of the global total, the streaming reward-distribution engine and
//! the delayed-claim queue; host-side plumbing (message routing, address
//! validation, fund transfers) stays outside and hands the library plain
//! values.

pub mod claim;
pub mod error;
pub mod events;
pub mod factory;
pub mod native;
pub mod pay;
pub mod query;
pub mod rewards;
pub mod snapshot;
pub mod vault;
pub mod vault_ops;
pub mod vault_query;
pub mod wide;
