//! Primality and what it gives for divisibility.

use crate::arith::gcd::{
    gcd, lemma_bezout, lemma_common_divisor_divides_gcd, lemma_coprime_cancels, lemma_gcd_divides,
    lemma_multiple_scales, lemma_multiples_add,
};
use vstd::arithmetic::mul::lemma_mul_strictly_positive;
use vstd::arithmetic::div_mod::*;
use vstd::prelude::*;

verus! {

/// `d` is a positive divisor of `n`.
pub open spec fn divides(d: nat, n: nat) -> bool {
    d > 0 && n % d == 0
}

/// `p` is at least 2 and has no divisor strictly between 1 and itself.
pub open spec fn is_prime(p: nat) -> bool {
    p >= 2 && forall|d: nat| 1 < d < p ==> !#[trigger] divides(d, p)
}

/// The product of two numbers of at least 2 is at least 4.
pub proof fn lemma_product_bound(p: nat, q: nat)
    requires
        p >= 2,
        q >= 2,
    ensures
        p * q >= 4,
{
    assert(p * q >= 4) by (nonlinear_arith)
        requires
            p >= 2,
            q >= 2,
    ;
}

/// A prime is coprime to everything it does not divide.
pub proof fn lemma_prime_coprime(a: nat, p: nat)
    requires
        is_prime(p),
        a % p != 0,
    ensures
        gcd(a, p) == 1,
{
    let g = gcd(a, p);
    lemma_gcd_divides(a, p);
    lemma_mod_is_zero(p, g);
    if g != 1 {
        if g < p {
            assert(divides(g, p));
        }
    }
}

/// Euclid's lemma for a prime: it divides a product only if it divides a factor.
pub proof fn lemma_prime_divides_product(a: nat, b: int, p: nat)
    requires
        is_prime(p),
        (a * b) % (p as int) == 0,
    ensures
        a % p == 0 || b % (p as int) == 0,
{
    if a % p != 0 {
        lemma_prime_coprime(a, p);
        lemma_coprime_cancels(a, b, p);
    }
}

/// Two different primes are coprime.
pub proof fn lemma_distinct_primes_coprime(p: nat, q: nat)
    requires
        is_prime(p),
        is_prime(q),
        p != q,
    ensures
        gcd(p, q) == 1,
{
    if p < q {
        lemma_small_mod(p, q);
    } else {
        if p % q == 0 {
            assert(divides(q, p));
        }
    }
    lemma_prime_coprime(p, q);
}

/// Something coprime to a product is divisible by no prime factor of it.
pub proof fn lemma_coprime_to_product(r: nat, p: nat, q: nat)
    requires
        p >= 2,
        q >= 1,
        gcd(r, p * q) == 1,
    ensures
        r % p != 0,
{
    if r % p == 0 {
        lemma_mod_multiples_basic(q as int, p as int);
        lemma_common_divisor_divides_gcd(r, p * q, p);
        lemma_small_mod(1, p);
    }
}

/// What neither of two primes divides is coprime to their product.
pub proof fn lemma_coprime_to_prime_product(a: nat, p: nat, q: nat)
    requires
        is_prime(p),
        is_prime(q),
        a % p != 0,
        a % q != 0,
    ensures
        gcd(a, p * q) == 1,
{
    let n = p * q;
    lemma_mul_strictly_positive(p as int, q as int);
    lemma_prime_coprime(a, p);
    lemma_prime_coprime(a, q);
    let (x, y) = lemma_bezout(a, p);
    let (u, v) = lemma_bezout(a, q);
    let g = gcd(a, n);
    lemma_gcd_divides(a, n);
    let left = a * x * u + x * q * v + p * y * u;
    assert(1 == a * left + n * (y * v)) by (nonlinear_arith)
        requires
            a * x + p * y == 1,
            a * u + q * v == 1,
            n == p * q,
            left == a * x * u + x * q * v + p * y * u,
    ;
    lemma_multiple_scales(a as int, left, g as int);
    lemma_multiple_scales(n as int, y * v, g as int);
    lemma_multiples_add(a * left, n * (y * v), g as int);
    if g > 1 {
        lemma_small_mod(1, g);
    }
}

/// A prime above 2 is odd.
pub proof fn lemma_prime_above_two_is_odd(p: nat)
    requires
        is_prime(p),
        p > 2,
    ensures
        p % 2 == 1,
{
    if p % 2 == 0 {
        assert(divides(2, p));
    }
}

} // verus!
