//! The ways in which the library's operations fail.

use vstd::prelude::*;

verus! {

/// Key construction found no modular inverse, or was handed a number below 2
/// as a prime.
#[derive(Debug, Clone, Copy, PartialEq, Eq)]
pub struct KeyConstructionError;

/// The sampler looked at `attempts` candidates and accepted none.
#[derive(Debug, Clone, Copy, PartialEq, Eq)]
pub struct SamplingExhaustedError {
    pub attempts: usize,
}

} // verus!
