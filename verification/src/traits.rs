//! Plaintexts come as big integers or as raw bytes; this trait turns either
//! into the big integer that the engines work on.

use crate::bignum::{be_value, big_from_bytes_be, big_value};
use num_bigint::BigUint;
use vstd::prelude::*;

verus! {

/// A value that stands for a natural number and can be handed out as a
/// `BigUint`.
pub trait ToBigUint {
    /// The natural number that the value stands for.
    spec fn as_nat(&self) -> nat;

    /// The big integer with that value.
    fn to_biguint(&self) -> (r: BigUint)
        ensures
            big_value(r) == self.as_nat(),
    ;
}

impl ToBigUint for BigUint {
    open spec fn as_nat(&self) -> nat {
        big_value(*self)
    }

    fn to_biguint(&self) -> (r: BigUint) {
        self.clone()
    }
}

/// A byte string is read as a number written most significant byte first.
impl ToBigUint for &[u8] {
    open spec fn as_nat(&self) -> nat {
        be_value(self@)
    }

    fn to_biguint(&self) -> (r: BigUint) {
        big_from_bytes_be(self)
    }
}

} // verus!
