//! Event payloads the operations emit, for the host to attach to its
//! responses.

use vstd::prelude::*;

verus! {

/// A reward pool was registered under a derived address.
pub struct RewardAccountEvent<'a> {
    pub ty: &'a str,
    pub address: &'a str,
}

/// An account's stake moved; the figures are the pre-operation ones the
/// reward pools are told.
pub struct StakeChangeEvent<'a> {
    pub ty: &'a str,
    pub sender: &'a str,
    pub amount: &'a str,
    pub total_staked: &'a str,
}

/// A vault was registered under a derived address.
pub struct VaultEvent<'a> {
    pub ty: &'a str,
    pub address: &'a str,
}

} // verus!
