//! The boundary to `num_bigint::BigUint`: the type, the natural number that a
//! value of it stands for, and one contract per operation that the library
//! calls. Nothing in this file is proved; every contract restates what the
//! documentation of the operation promises. The functions `gcd` and `lcm`
//! that the contracts mention are shown in `arith` to be a greatest common
//! divisor and a common multiple.

use crate::arith::gcd::{gcd, lcm};
use num_bigint::{BigUint, RandBigInt};
use num_integer::Integer;
use rand::rngs::ThreadRng;
use vstd::arithmetic::power::pow;
use vstd::prelude::*;

verus! {

/// `num_bigint::BigUint`, carried through verified code as an opaque value.
#[verifier::external_type_specification]
#[verifier::external_body]
pub struct ExBigUint(num_bigint::BigUint);

/// `rand::rngs::ThreadRng`, carried through verified code as an opaque value.
#[verifier::external_type_specification]
#[verifier::external_body]
pub struct ExThreadRng(rand::rngs::ThreadRng);

/// The bytes that a `BigUint` holds, most significant first: what
/// `BigUint::to_bytes_be` hands out.
pub uninterp spec fn big_bytes(b: BigUint) -> Seq<u8>;

/// The natural number written by a byte string, most significant byte first.
pub open spec fn be_value(bytes: Seq<u8>) -> nat
    decreases bytes.len(),
{
    if bytes.len() == 0 {
        0
    } else {
        be_value(bytes.drop_last()) * 256 + bytes.last() as nat
    }
}

/// The natural number that a `BigUint` stands for: the one its bytes write.
pub open spec fn big_value(b: BigUint) -> nat {
    be_value(big_bytes(b))
}

/// `BigUint::from` on a `u32`: the big integer of the same value.
#[verifier::external_body]
pub(crate) fn big_from_u32(x: u32) -> (r: BigUint)
    ensures
        big_value(r) == x,
{
    BigUint::from(x)
}

/// `BigUint::from_bytes_be`: the big integer that the bytes write, most
/// significant byte first; the empty string writes 0. The result's own
/// bytes may differ from the argument by leading zeros, not in value.
#[verifier::external_body]
pub(crate) fn big_from_bytes_be(bytes: &[u8]) -> (r: BigUint)
    ensures
        be_value(big_bytes(r)) == be_value(bytes@),
{
    BigUint::from_bytes_be(bytes)
}

/// `Clone::clone` of a `BigUint`: a big integer of the same value.
pub assume_specification[ <BigUint as Clone>::clone ](a: &BigUint) -> (r: BigUint)
    ensures
        big_value(r) == big_value(*a),
;

/// `==` on `BigUint`: equality of the values.
#[verifier::external_body]
pub(crate) fn big_eq(a: &BigUint, b: &BigUint) -> (r: bool)
    ensures
        r == (big_value(*a) == big_value(*b)),
{
    a == b
}

/// `<` on `BigUint`: the order of the values.
#[verifier::external_body]
pub(crate) fn big_lt(a: &BigUint, b: &BigUint) -> (r: bool)
    ensures
        r == (big_value(*a) < big_value(*b)),
{
    a < b
}

/// `+` on `BigUint`: the exact sum.
#[verifier::external_body]
pub(crate) fn big_add(a: &BigUint, b: &BigUint) -> (r: BigUint)
    ensures
        big_value(r) == big_value(*a) + big_value(*b),
{
    a + b
}

/// `-` on `BigUint`: the exact difference. The operator panics when the
/// difference would be negative, which the precondition rules out.
#[verifier::external_body]
pub(crate) fn big_sub(a: &BigUint, b: &BigUint) -> (r: BigUint)
    requires
        big_value(*a) >= big_value(*b),
    ensures
        big_value(r) == big_value(*a) - big_value(*b),
{
    a - b
}

/// `*` on `BigUint`: the exact product.
#[verifier::external_body]
pub(crate) fn big_mul(a: &BigUint, b: &BigUint) -> (r: BigUint)
    ensures
        big_value(r) == big_value(*a) * big_value(*b),
{
    a * b
}

/// `/` on `BigUint`: the quotient rounded down. The operator panics on a
/// zero divisor, which the precondition rules out.
#[verifier::external_body]
pub(crate) fn big_div(a: &BigUint, b: &BigUint) -> (r: BigUint)
    requires
        big_value(*b) > 0,
    ensures
        big_value(r) == big_value(*a) / big_value(*b),
{
    a / b
}

/// `%` on `BigUint`: the remainder. The operator panics on a zero divisor,
/// which the precondition rules out.
#[verifier::external_body]
pub(crate) fn big_rem(a: &BigUint, b: &BigUint) -> (r: BigUint)
    requires
        big_value(*b) > 0,
    ensures
        big_value(r) == big_value(*a) % big_value(*b),
{
    a % b
}

/// `BigUint::modpow`: `base^exponent` reduced modulo `modulus`. The method
/// panics on a zero modulus, which the precondition rules out.
#[verifier::external_body]
pub(crate) fn big_modpow(base: &BigUint, exponent: &BigUint, modulus: &BigUint) -> (r: BigUint)
    requires
        big_value(*modulus) > 0,
    ensures
        big_value(r) == pow(big_value(*base) as int, big_value(*exponent)) % (big_value(
            *modulus,
        ) as int),
{
    base.modpow(exponent, modulus)
}

/// `BigUint::modinv`: the inverse of `a` modulo `modulus` in `[0, modulus)`,
/// which exists exactly when the two are coprime. The method panics on a
/// zero modulus, which the precondition rules out.
#[verifier::external_body]
pub(crate) fn big_modinv(a: &BigUint, modulus: &BigUint) -> (r: Option<BigUint>)
    requires
        big_value(*modulus) > 0,
    ensures
        r is Some <==> gcd(big_value(*a), big_value(*modulus)) == 1,
        r matches Some(x) ==> big_value(x) < big_value(*modulus) && (big_value(*a) * big_value(x))
            % big_value(*modulus) == 1nat % big_value(*modulus),
{
    a.modinv(modulus)
}

/// `Integer::gcd` on `BigUint`: the greatest common divisor, with
/// `gcd(a, 0) == a`.
#[verifier::external_body]
pub(crate) fn big_gcd(a: &BigUint, b: &BigUint) -> (r: BigUint)
    ensures
        big_value(r) == gcd(big_value(*a), big_value(*b)),
{
    a.gcd(b)
}

/// `Integer::lcm` on `BigUint`: 0 when both arguments are 0, and otherwise
/// `a / gcd(a, b) * b`.
#[verifier::external_body]
pub(crate) fn big_lcm(a: &BigUint, b: &BigUint) -> (r: BigUint)
    ensures
        big_value(r) == lcm(big_value(*a), big_value(*b)),
{
    a.lcm(b)
}

/// `rand::thread_rng`: a handle to the thread's random source.
#[verifier::external_body]
pub(crate) fn thread_random_source() -> ThreadRng {
    rand::thread_rng()
}

/// `RandBigInt::gen_biguint_range`: some value in `[low, high)`. The method
/// panics on an empty range, which the precondition rules out. Nothing is
/// said of which value comes out.
#[verifier::external_body]
pub(crate) fn random_in_range(rng: &mut ThreadRng, low: &BigUint, high: &BigUint) -> (r: BigUint)
    requires
        big_value(*low) < big_value(*high),
    ensures
        big_value(*low) <= big_value(r) < big_value(*high),
{
    rng.gen_biguint_range(low, high)
}

} // verus!
