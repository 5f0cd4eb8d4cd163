//! Bounded rejection sampling of a number coprime to a modulus: draw from
//! `[2, modulus)`, keep the first candidate whose gcd with the modulus is 1,
//! give up after a fixed number of draws.

use crate::arith::gcd::gcd;
use crate::arith::primes::{is_prime, lemma_prime_coprime};
use crate::bignum::{
    big_eq, big_from_u32, big_gcd, big_lt, big_value, random_in_range, thread_random_source,
};
use crate::errors::SamplingExhaustedError;
use num_bigint::BigUint;
use vstd::arithmetic::div_mod::lemma_small_mod;
use vstd::prelude::*;

verus! {

/// How many candidates the sampler draws when the caller names no bound.
pub const DEFAULT_ATTEMPTS: u8 = 64;

/// What the sampler accepts: a number in `[2, modulus)` coprime to the modulus.
pub open spec fn acceptable(candidate: nat, modulus: nat) -> bool {
    2 <= candidate < modulus && gcd(candidate, modulus) == 1
}

/// Every number in `[2, modulus)` is coprime to the modulus.
pub open spec fn all_acceptable(modulus: nat) -> bool {
    forall|c: nat| 2 <= c < modulus ==> #[trigger] gcd(c, modulus) == 1
}

/// The number of draws that an optional bound stands for.
pub open spec fn attempt_bound(ct: Option<u8>) -> nat {
    match ct {
        Some(c) => c as nat,
        None => DEFAULT_ATTEMPTS as nat,
    }
}

/// The number of candidates that the sampler has drawn when it gives up:
/// none from an empty range, else as many as the bound allows.
pub open spec fn draws_before_giving_up(modulus: nat, ct: Option<u8>) -> nat {
    if modulus <= 2 {
        0
    } else {
        attempt_bound(ct)
    }
}

/// Whether `candidate` is coprime to `modulus`.
pub fn is_coprime(candidate: &BigUint, modulus: &BigUint) -> (r: bool)
    ensures
        r == (gcd(big_value(*candidate), big_value(*modulus)) == 1),
{
    let one = big_from_u32(1);
    big_eq(&big_gcd(candidate, modulus), &one)
}

/// Draws up to `ct` candidates (64 when `ct` is `None`) from `[2, xn)` and
/// returns the first that is coprime to `xn`. Nothing is drawn from an empty
/// range. Which candidates come up is left to chance, so success is promised
/// only where no candidate can fail.
pub fn get_coprime(xn: &BigUint, ct: Option<u8>) -> (r: Result<BigUint, SamplingExhaustedError>)
    ensures
        r matches Ok(c) ==> acceptable(big_value(c), big_value(*xn)),
        r matches Err(e) ==> e.attempts == draws_before_giving_up(big_value(*xn), ct),
        (big_value(*xn) <= 2 || attempt_bound(ct) == 0) ==> r is Err,
        (big_value(*xn) > 2 && attempt_bound(ct) > 0 && all_acceptable(big_value(*xn))) ==> r is Ok,
{
    let bound: u8 = match ct {
        Some(c) => c,
        None => DEFAULT_ATTEMPTS,
    };
    let two = big_from_u32(2);
    if !big_lt(&two, xn) {
        return Err(SamplingExhaustedError { attempts: 0 });
    }
    let mut rng = thread_random_source();
    let mut drawn: u8 = 0;
    while drawn < bound
        invariant
            drawn <= bound,
            bound == attempt_bound(ct),
            big_value(two) == 2,
            big_value(*xn) > 2,
            all_acceptable(big_value(*xn)) ==> drawn == 0,
        decreases bound - drawn,
    {
        let cand = random_in_range(&mut rng, &two, xn);
        if is_coprime(&cand, xn) {
            return Ok(cand);
        }
        drawn = drawn + 1;
    }
    Err(SamplingExhaustedError { attempts: bound as usize })
}

/// The numbers that a sequence of candidates stands for.
pub open spec fn values_of(candidates: Seq<BigUint>) -> Seq<nat> {
    Seq::new(candidates.len(), |i: int| big_value(candidates[i]))
}

/// `draws[i]` is acceptable and nothing before it is.
pub open spec fn first_acceptable_at(draws: Seq<nat>, modulus: nat, i: int) -> bool {
    &&& 0 <= i < draws.len()
    &&& acceptable(draws[i], modulus)
    &&& forall|j: int| 0 <= j < i ==> !acceptable(#[trigger] draws[j], modulus)
}

/// Nothing in `draws` is acceptable.
pub open spec fn none_acceptable(draws: Seq<nat>, modulus: nat) -> bool {
    forall|j: int| 0 <= j < draws.len() ==> !acceptable(#[trigger] draws[j], modulus)
}

/// The first of the given candidates that the sampler would accept for
/// `modulus`, for a caller that brings its own draws; exhaustion when it
/// would accept none of them.
pub fn first_coprime(candidates: &Vec<BigUint>, modulus: &BigUint) -> (r: Result<
    BigUint,
    SamplingExhaustedError,
>)
    ensures
        r matches Ok(c) ==> exists|i: int|
            #[trigger] first_acceptable_at(values_of(candidates@), big_value(*modulus), i)
                && big_value(c) == values_of(candidates@)[i],
        r matches Err(e) ==> e.attempts == candidates.len() && none_acceptable(
            values_of(candidates@),
            big_value(*modulus),
        ),
{
    let two = big_from_u32(2);
    let mut i: usize = 0;
    while i < candidates.len()
        invariant
            i <= candidates.len(),
            big_value(two) == 2,
            forall|j: int|
                0 <= j < i ==> !acceptable(
                    #[trigger] values_of(candidates@)[j],
                    big_value(*modulus),
                ),
        decreases candidates.len() - i,
    {
        let cand = &candidates[i];
        if !big_lt(cand, &two) && big_lt(cand, modulus) && is_coprime(cand, modulus) {
            assert(first_acceptable_at(values_of(candidates@), big_value(*modulus), i as int));
            return Ok(cand.clone());
        }
        i = i + 1;
    }
    Err(SamplingExhaustedError { attempts: candidates.len() })
}

/// Below a prime modulus every candidate is acceptable, so the sampler
/// succeeds at its first draw.
pub proof fn lemma_prime_modulus_all_acceptable(p: nat)
    requires
        is_prime(p),
    ensures
        all_acceptable(p),
{
    assert forall|c: nat| 2 <= c < p implies #[trigger] gcd(c, p) == 1 by {
        lemma_small_mod(c, p);
        lemma_prime_coprime(c, p);
    }
}

} // verus!
