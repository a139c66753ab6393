//! Validation of funds attached to an operation.
//!
//! An operation either requires exactly one coin of a fixed denomination or
//! accepts no funds at all; both rules are checked here before anything else
//! runs.

use vstd::prelude::*;

use crate::error::PaymentError;

verus! {

/// An amount of a native asset, identified by its denomination.
#[derive(Debug, Clone)]
pub struct Coin {
    pub denom: String,
    pub amount: u128,
}

/// Requires the attached funds to be exactly one positive coin of the given
/// denomination and returns its amount.
pub fn must_pay(funds: &Vec<Coin>, denom: &String) -> (r: Result<u128, PaymentError>)
    ensures
        match r {
            Ok(a) => funds@.len() == 1 && funds@[0].denom@ == denom@ && funds@[0].amount == a && a
                > 0,
            Err(PaymentError::NoFunds) => funds@.len() == 0 || (funds@.len() == 1 && funds@[0].amount
                == 0),
            Err(PaymentError::MultipleDenoms) => funds@.len() > 1,
            Err(PaymentError::MissingDenom(d)) => funds@.len() == 1 && funds@[0].amount > 0
                && funds@[0].denom@ != denom@ && d@ == denom@,
            Err(PaymentError::NonPayable) => false,
        },
{
    if funds.len() == 0 {
        Err(PaymentError::NoFunds)
    } else if funds.len() > 1 {
        Err(PaymentError::MultipleDenoms)
    } else if funds[0].amount == 0 {
        Err(PaymentError::NoFunds)
    } else if !(funds[0].denom == *denom) {
        Err(PaymentError::MissingDenom(denom.clone()))
    } else {
        Ok(funds[0].amount)
    }
}

/// Requires that no funds at all are attached to the operation.
pub fn nonpayable(funds: &Vec<Coin>) -> (r: Result<(), PaymentError>)
    ensures
        r is Ok <==> funds@.len() == 0,
        r is Err ==> (r matches Err(PaymentError::NonPayable)),
{
    if funds.len() == 0 {
        Ok(())
    } else {
        Err(PaymentError::NonPayable)
    }
}

} // verus!
