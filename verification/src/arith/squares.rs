//! Arithmetic modulo `n * n`, the ciphertext space of Paillier, and the
//! exponent that sends every unit modulo `p * q` to 1.

use crate::arith::fermat::{lemma_chinese_remainder, lemma_fermat_unit_power};
use crate::arith::gcd::{
    gcd, lcm, lemma_gcd_divides, lemma_gcd_is_symmetric, lemma_multiple_factors,
    lemma_multiple_scales,
};
use crate::arith::primes::{
    is_prime, lemma_coprime_to_prime_product, lemma_coprime_to_product,
    lemma_distinct_primes_coprime, lemma_prime_above_two_is_odd, lemma_prime_divides_product,
    lemma_product_bound,
};
use vstd::arithmetic::div_mod::*;
use vstd::arithmetic::mul::*;
use vstd::arithmetic::power::*;
use vstd::prelude::*;

verus! {

/// Squaring keeps the order of natural numbers.
pub proof fn lemma_square_bound(n: nat, low: nat)
    requires
        n >= low,
    ensures
        n * n >= low * low,
{
    assert(n * n >= low * low) by (nonlinear_arith)
        requires
            n >= low,
    ;
}

/// Modulo `n * n`, the binomial expansion of `(1 + t * n)^k` stops after
/// its second term.
pub proof fn lemma_power_mod_square(t: int, n: nat, k: nat)
    requires
        n > 0,
    ensures
        n * n > 0,
        pow(1 + t * n, k) % ((n * n) as int) == (1 + k * t * n) % ((n * n) as int),
    decreases k,
{
    let big = (n * n) as int;
    let b = 1 + t * n;
    lemma_mul_strictly_positive(n as int, n as int);
    reveal(pow);
    if k == 0 {
        assert(0 * t * n == 0) by (nonlinear_arith);
    } else {
        let j = (k - 1) as nat;
        lemma_power_mod_square(t, n, j);
        lemma_mul_mod_noop_right(b, pow(b, j), big);
        lemma_mul_mod_noop_right(b, 1 + j * t * n, big);
        assert(b * (1 + j * t * n) == big * (j * t * t) + (1 + k * t * n)) by (nonlinear_arith)
            requires
                b == 1 + t * n,
                big == n * n,
                k == j + 1,
        ;
        lemma_mod_multiples_vanish(j * t * t, 1 + k * t * n, big);
    }
}

/// Whatever is 1 modulo `n` becomes 1 modulo `n * n` when raised to the
/// power `n`.
pub proof fn lemma_unit_lifts_to_square(y: int, n: nat)
    requires
        n >= 2,
        y % (n as int) == 1,
    ensures
        pow(y, n) % ((n * n) as int) == 1,
{
    let big = (n * n) as int;
    let t = y / (n as int);
    lemma_fundamental_div_mod(y, n as int);
    lemma_power_mod_square(t, n, n);
    assert(y == 1 + t * n) by (nonlinear_arith)
        requires
            y == n * t + 1,
    ;
    assert(1 + n * t * n == big * t + 1) by (nonlinear_arith)
        requires
            big == n * n,
    ;
    lemma_mod_multiples_vanish(t, 1, big);
    assert(big >= 4) by (nonlinear_arith)
        requires
            big == n * n,
            n >= 2,
    ;
    lemma_small_mod(1, big as nat);
}

/// The residue of `1 + a * n` modulo `n * n` is `1 + (a mod n) * n`.
pub proof fn lemma_residue_mod_square(a: int, n: nat)
    requires
        n >= 2,
    ensures
        (1 + a * n) % ((n * n) as int) == 1 + (a % (n as int)) * n,
        0 <= a % (n as int) < n,
{
    let big = (n * n) as int;
    let q = a / (n as int);
    let r = a % (n as int);
    lemma_fundamental_div_mod(a, n as int);
    assert(1 + a * n == q * big + (1 + r * n)) by (nonlinear_arith)
        requires
            a == n * q + r,
            big == n * n,
    ;
    assert(0 <= 1 + r * n < big) by (nonlinear_arith)
        requires
            0 <= r < n,
            n >= 2,
            big == n * n,
    ;
    lemma_fundamental_div_mod_converse_mod(1 + a * n, big, q, 1 + r * n);
}

/// For positive arguments the least common multiple is a multiple of each.
pub proof fn lemma_lcm_is_common_multiple(a: nat, b: nat)
    requires
        a > 0,
        b > 0,
    ensures
        gcd(a, b) > 0,
        lcm(a, b) == a * (b / gcd(a, b)),
        lcm(a, b) == b * (a / gcd(a, b)),
{
    let g = gcd(a, b);
    lemma_gcd_divides(a, b);
    lemma_multiple_factors(a as int, g as int);
    lemma_multiple_factors(b as int, g as int);
    let x = a / g;
    let y = b / g;
    assert(x * b == a * y && x * b == b * x) by (nonlinear_arith)
        requires
            a == g * x,
            b == g * y,
    ;
}

/// For two different primes `p` and `q`, the exponent `lcm(p - 1, q - 1)`
/// sends everything coprime to `p * q` to 1 modulo `p * q`.
pub proof fn lemma_unit_power_of_lcm(r: nat, p: nat, q: nat)
    requires
        is_prime(p),
        is_prime(q),
        p != q,
        gcd(r, p * q) == 1,
    ensures
        pow(r as int, lcm((p - 1) as nat, (q - 1) as nat)) % ((p * q) as int) == 1,
{
    let p1 = (p - 1) as nat;
    let q1 = (q - 1) as nat;
    let g = gcd(p1, q1);
    lemma_lcm_is_common_multiple(p1, q1);
    lemma_coprime_to_product(r, p, q);
    lemma_mul_is_commutative(p as int, q as int);
    lemma_coprime_to_product(r, q, p);
    lemma_fermat_unit_power(r, p, q1 / g);
    lemma_fermat_unit_power(r, q, p1 / g);
    lemma_distinct_primes_coprime(p, q);
    lemma_small_mod(1, p);
    lemma_small_mod(1, q);
    lemma_chinese_remainder(pow(r as int, lcm(p1, q1)), 1, p, q);
    assert(p * q >= 4) by (nonlinear_arith)
        requires
            p >= 2,
            q >= 2,
    ;
    lemma_small_mod(1, p * q);
}

/// For two different odd primes of which neither is twice the other or
/// more, `p` does not divide `lcm(p - 1, q - 1)`.
proof fn lemma_prime_misses_lcm(p: nat, q: nat)
    requires
        is_prime(p),
        is_prime(q),
        p != q,
        p > 2,
        q > 2,
        q < 2 * p,
    ensures
        lcm((p - 1) as nat, (q - 1) as nat) % p != 0,
{
    let p1 = (p - 1) as nat;
    let q1 = (q - 1) as nat;
    let g = gcd(p1, q1);
    let rest = q1 / g;
    lemma_lcm_is_common_multiple(p1, q1);
    if lcm(p1, q1) % p == 0 {
        lemma_prime_divides_product(p1, rest as int, p);
        lemma_small_mod(p1, p);
        // So p divides (q - 1) / g, and with it q - 1.
        lemma_gcd_divides(p1, q1);
        lemma_multiple_factors(q1 as int, g as int);
        lemma_multiple_scales(rest as int, g as int, p as int);
        assert(q1 % p == 0);
        // The only multiple of p in [1, 2p) is p itself.
        lemma_mod_is_zero(q1, p);
        lemma_multiple_factors(q1 as int, p as int);
        let k = q1 as int / p as int;
        assert(q1 == p) by (nonlinear_arith)
            requires
                q1 == p * k,
                p <= q1 < 2 * p,
        ;
        assert(q == p + 1);
        // Then q is even, which no prime above 2 is.
        lemma_prime_above_two_is_odd(p);
        lemma_prime_above_two_is_odd(q);
    }
}

/// For two different odd primes of which neither is twice the other or
/// more (two primes of one bit length are such), `lcm(p - 1, q - 1)` is
/// coprime to `p * q`.
pub proof fn lemma_lcm_coprime_to_balanced_product(p: nat, q: nat)
    requires
        is_prime(p),
        is_prime(q),
        p != q,
        p > 2,
        q > 2,
        p < 2 * q,
        q < 2 * p,
    ensures
        gcd(lcm((p - 1) as nat, (q - 1) as nat), p * q) == 1,
{
    let p1 = (p - 1) as nat;
    let q1 = (q - 1) as nat;
    lemma_prime_misses_lcm(p, q);
    lemma_prime_misses_lcm(q, p);
    assert(lcm(q1, p1) == lcm(p1, q1)) by {
        lemma_lcm_is_common_multiple(p1, q1);
        lemma_lcm_is_common_multiple(q1, p1);
        lemma_gcd_is_symmetric(p1, q1);
    }
    lemma_coprime_to_prime_product(lcm(p1, q1), p, q);
}

/// Modulo `n * n`, the power `(n + 1)^m` has the inverse `(n + 1)^(m * (n - 1))`.
pub proof fn lemma_generator_power_inverse(n: nat, m: nat)
    requires
        n >= 2,
    ensures
        (pow((n + 1) as int, m) * pow((n + 1) as int, m * ((n - 1) as nat))) % ((n * n) as int)
            == 1,
{
    let big = (n * n) as int;
    let g = (n + 1) as int;
    let rest = m * ((n - 1) as nat);
    lemma_pow_adds(g, m, rest);
    assert(m + rest == m * n) by (nonlinear_arith)
        requires
            rest == m * (n - 1),
            n >= 2,
    ;
    lemma_power_mod_square(1, n, m * n);
    assert(1 + 1 * n == g && 1 + (m * n) * 1 * n == big * m + 1) by (nonlinear_arith)
        requires
            g == n + 1,
            big == n * n,
    ;
    lemma_mod_multiples_vanish(m as int, 1, big);
    lemma_square_bound(n, 2);
    lemma_small_mod(1, big as nat);
}

/// A factor with an inverse modulo `m` can be cancelled from a congruence.
pub proof fn lemma_cancel_invertible(g: int, g_inv: int, x: int, y: int, m: int)
    requires
        m > 1,
        (g * g_inv) % m == 1,
        (g * x) % m == (g * y) % m,
    ensures
        x % m == y % m,
{
    lemma_cancel_step(g, g_inv, x, m);
    lemma_cancel_step(g, g_inv, y, m);
}

/// Multiplying `g * x` by an inverse of `g` gives `x` back modulo `m`.
proof fn lemma_cancel_step(g: int, g_inv: int, x: int, m: int)
    requires
        m > 1,
        (g * g_inv) % m == 1,
    ensures
        (g_inv * ((g * x) % m)) % m == x % m,
{
    lemma_mul_mod_noop_right(g_inv, g * x, m);
    assert(g_inv * (g * x) == (g * g_inv) * x) by (nonlinear_arith);
    lemma_mul_mod_noop_left(g * g_inv, x, m);
    assert(1 * x == x);
}

/// For two different primes `p` and `q` and a base coprime to `p * q`,
/// exponents that are 1 modulo `lcm(p - 1, q - 1)` act as the identity
/// modulo `p * q`.
pub proof fn lemma_unit_power_cycle(r: nat, p: nat, q: nat, b: nat)
    requires
        is_prime(p),
        is_prime(q),
        p != q,
        gcd(r, p * q) == 1,
    ensures
        pow(r as int, 1 + lcm((p - 1) as nat, (q - 1) as nat) * b) % ((p * q) as int) == r % (p * q),
{
    let n = (p * q) as int;
    let x = r as int;
    let lambda = lcm((p - 1) as nat, (q - 1) as nat);
    lemma_mul_strictly_positive(p as int, q as int);
    lemma_unit_power_of_lcm(r, p, q);
    lemma_pow_adds(x, 1, lambda * b);
    lemma_pow1(x);
    lemma_pow_multiplies(x, lambda, b);
    lemma_pow_mod_noop(pow(x, lambda), b, n);
    lemma1_pow(b);
    lemma_product_bound(p, q);
    lemma_small_mod(1, (p * q) as nat);
    lemma_mul_mod_noop_right(x, pow(x, lambda * b), n);
    assert(x * 1 == x);
}

} // verus!
