//! Errors of the staking core.
//!
//! Every operation rejects bad input before any state change: a function that
//! returns one of these errors leaves its receiver exactly as it was.

use vstd::prelude::*;

verus! {

/// A rejected payment attached to an operation.
#[derive(Debug, Clone)]
pub enum PaymentError {
    /// No funds were sent where exactly one coin was expected.
    NoFunds,
    /// More than one denomination was sent where one coin was expected.
    MultipleDenoms,
    /// The sent coin's denomination differs from the required one.
    MissingDenom(String),
    /// Funds were attached to an operation that accepts none.
    NonPayable,
}

/// The error of every fallible operation of the staking core.
#[derive(Debug, Clone)]
pub enum ContractError {
    /// Malformed or disallowed input, rejected before any mutation.
    InvalidInput(String),
    /// The caller may not perform the operation on the targeted records.
    Unauthorized(String),
    /// The caller's staked balance does not cover the request.
    InsufficientFunds(String),
    /// A configuration the operations cannot work on.
    InternalError(String),
    /// The attached payment does not match what the operation expects.
    Payment(PaymentError),
    /// Arithmetic left the representable range.
    Overflow,
    /// A division by zero, such as a zero-duration emission schedule.
    DivideByZero,
    /// A wide intermediate did not fit back into 128 bits.
    ConversionOverflow,
    /// A claim sweep found no matured withdrawal records.
    ClaimableNftsNotFound,
    /// A claim sweep found no matured withdrawal balance.
    ClaimableBalanceNotFound,
}

} // verus!
