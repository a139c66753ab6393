//! 256-bit arithmetic for the reward accumulator.
//!
//! The reward-per-unit accumulator is a fixed-point value scaled by `10^39`,
//! which does not fit in 128 bits. The library holds such a value as two
//! 128-bit halves and delegates the arithmetic itself to `cosmwasm_std`'s
//! `Uint256`, whose operations are stated here exactly over the mathematical
//! value of the halves.

use vstd::prelude::*;

verus! {

/// A 256-bit unsigned quantity, held as a high and a low 128-bit half.
#[derive(Clone, Copy, Debug, PartialEq, Eq, Structural)]
pub struct U256 {
    pub hi: u128,
    pub lo: u128,
}

/// 2^128, the weight of the high half.
pub open spec fn pow2_128() -> int {
    (0x10000000000000000 as int) * (0x10000000000000000 as int)
}

/// The largest value a 256-bit quantity can hold.
pub open spec fn u256_max() -> int {
    pow2_128() * pow2_128() - 1
}

impl U256 {
    /// The mathematical value of the two halves.
    pub open spec fn as_int(self) -> int {
        self.hi * pow2_128() + self.lo
    }

    /// The zero value.
    pub fn zero() -> (r: U256)
        ensures
            r.as_int() == 0,
    {
        U256 { hi: 0, lo: 0 }
    }

    /// Widen a 128-bit value.
    pub fn from_u128(x: u128) -> (r: U256)
        ensures
            r.as_int() == x,
    {
        U256 { hi: 0, lo: x }
    }

    /// Narrow to 128 bits, or report that the value does not fit.
    pub fn try_to_u128(&self) -> (r: Option<u128>)
        ensures
            match r {
                Some(x) => self.as_int() == x,
                None => self.as_int() > u128::MAX,
            },
    {
        if self.hi == 0 {
            Some(self.lo)
        } else {
            assert(self.as_int() > u128::MAX) by (nonlinear_arith)
                requires
                    self.hi >= 1,
                    self.as_int() == self.hi * pow2_128() + self.lo,
            ;
            None
        }
    }
}

/// The fixed-point scale of the reward accumulator: 10^39.
pub open spec fn scale_int() -> int {
    2 * pow2_128() + 319435266158123073073250785136463577088
}

/// The fixed-point scale of the reward accumulator as a 256-bit value.
pub fn scale_factor() -> (r: U256)
    ensures
        r.as_int() == scale_int(),
{
    U256 { hi: 2, lo: 319435266158123073073250785136463577088u128 }
}

/// Relies on `cosmwasm_std::Uint256::checked_add`: the sum of the operands,
/// or an error when it exceeds the 256-bit range.
#[verifier::external_body]
pub(crate) fn u256_checked_add(a: &U256, b: &U256) -> (r: Option<U256>)
    ensures
        match r {
            Some(c) => a.as_int() + b.as_int() <= u256_max() && c.as_int() == a.as_int()
                + b.as_int(),
            None => a.as_int() + b.as_int() > u256_max(),
        },
{
    let mut ab = [0u8; 32];
    ab[..16].copy_from_slice(&a.hi.to_be_bytes());
    ab[16..].copy_from_slice(&a.lo.to_be_bytes());
    let mut bb = [0u8; 32];
    bb[..16].copy_from_slice(&b.hi.to_be_bytes());
    bb[16..].copy_from_slice(&b.lo.to_be_bytes());
    let x = cosmwasm_std::Uint256::from_be_bytes(ab);
    let y = cosmwasm_std::Uint256::from_be_bytes(bb);
    x.checked_add(y).ok().map(|z: cosmwasm_std::Uint256| {
        let zb = z.to_be_bytes();
        U256 {
            hi: u128::from_be_bytes(zb[..16].try_into().unwrap()),
            lo: u128::from_be_bytes(zb[16..].try_into().unwrap()),
        }
    })
}

/// Relies on `cosmwasm_std::Uint256::checked_sub`: the difference of the
/// operands, or an error when it would be negative.
#[verifier::external_body]
pub(crate) fn u256_checked_sub(a: &U256, b: &U256) -> (r: Option<U256>)
    ensures
        match r {
            Some(c) => a.as_int() >= b.as_int() && c.as_int() == a.as_int() - b.as_int(),
            None => a.as_int() < b.as_int(),
        },
{
    let mut ab = [0u8; 32];
    ab[..16].copy_from_slice(&a.hi.to_be_bytes());
    ab[16..].copy_from_slice(&a.lo.to_be_bytes());
    let mut bb = [0u8; 32];
    bb[..16].copy_from_slice(&b.hi.to_be_bytes());
    bb[16..].copy_from_slice(&b.lo.to_be_bytes());
    let x = cosmwasm_std::Uint256::from_be_bytes(ab);
    let y = cosmwasm_std::Uint256::from_be_bytes(bb);
    x.checked_sub(y).ok().map(|z: cosmwasm_std::Uint256| {
        let zb = z.to_be_bytes();
        U256 {
            hi: u128::from_be_bytes(zb[..16].try_into().unwrap()),
            lo: u128::from_be_bytes(zb[16..].try_into().unwrap()),
        }
    })
}

/// Relies on `cosmwasm_std::Uint256::checked_mul`: the product of the
/// operands, or an error when it exceeds the 256-bit range.
#[verifier::external_body]
pub(crate) fn u256_checked_mul(a: &U256, b: &U256) -> (r: Option<U256>)
    ensures
        match r {
            Some(c) => a.as_int() * b.as_int() <= u256_max() && c.as_int() == a.as_int()
                * b.as_int(),
            None => a.as_int() * b.as_int() > u256_max(),
        },
{
    let mut ab = [0u8; 32];
    ab[..16].copy_from_slice(&a.hi.to_be_bytes());
    ab[16..].copy_from_slice(&a.lo.to_be_bytes());
    let mut bb = [0u8; 32];
    bb[..16].copy_from_slice(&b.hi.to_be_bytes());
    bb[16..].copy_from_slice(&b.lo.to_be_bytes());
    let x = cosmwasm_std::Uint256::from_be_bytes(ab);
    let y = cosmwasm_std::Uint256::from_be_bytes(bb);
    x.checked_mul(y).ok().map(|z: cosmwasm_std::Uint256| {
        let zb = z.to_be_bytes();
        U256 {
            hi: u128::from_be_bytes(zb[..16].try_into().unwrap()),
            lo: u128::from_be_bytes(zb[16..].try_into().unwrap()),
        }
    })
}

/// Relies on `cosmwasm_std::Uint256::checked_div`: the quotient rounded
/// toward zero, or an error on division by zero.
#[verifier::external_body]
pub(crate) fn u256_checked_div(a: &U256, b: &U256) -> (r: Option<U256>)
    ensures
        match r {
            Some(c) => b.as_int() > 0 && c.as_int() == a.as_int() / b.as_int(),
            None => b.as_int() == 0,
        },
{
    let mut ab = [0u8; 32];
    ab[..16].copy_from_slice(&a.hi.to_be_bytes());
    ab[16..].copy_from_slice(&a.lo.to_be_bytes());
    let mut bb = [0u8; 32];
    bb[..16].copy_from_slice(&b.hi.to_be_bytes());
    bb[16..].copy_from_slice(&b.lo.to_be_bytes());
    let x = cosmwasm_std::Uint256::from_be_bytes(ab);
    let y = cosmwasm_std::Uint256::from_be_bytes(bb);
    x.checked_div(y).ok().map(|z: cosmwasm_std::Uint256| {
        let zb = z.to_be_bytes();
        U256 {
            hi: u128::from_be_bytes(zb[..16].try_into().unwrap()),
            lo: u128::from_be_bytes(zb[16..].try_into().unwrap()),
        }
    })
}

} // verus!
