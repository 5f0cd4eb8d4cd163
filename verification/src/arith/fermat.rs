//! Fermat's little theorem, its consequences for exponents that are
//! multiples of `p - 1`, and the Chinese remainder theorem for two moduli.

use crate::arith::binomial::lemma_prime_power_of_successor;
use crate::arith::gcd::{gcd, lemma_coprime_cancels, lemma_multiple_factors};
use crate::arith::primes::{is_prime, lemma_distinct_primes_coprime, lemma_prime_divides_product};
use vstd::arithmetic::div_mod::*;
use vstd::arithmetic::mul::*;
use vstd::arithmetic::power::*;
use vstd::prelude::*;

verus! {

/// Fermat's little theorem in the form that needs no coprimality:
/// `a^p` is congruent to `a` modulo a prime `p`.
pub proof fn lemma_fermat(a: nat, p: nat)
    requires
        is_prime(p),
    ensures
        pow(a as int, p) % (p as int) == a % p,
    decreases a,
{
    let m = p as int;
    if a == 0 {
        lemma0_pow(p);
    } else {
        let b = (a - 1) as nat;
        lemma_fermat(b, p);
        lemma_prime_power_of_successor(b as int, p);
        lemma_add_mod_noop(pow(b as int, p), 1, m);
        lemma_add_mod_noop(b as int, 1, m);
    }
}

/// Exponents congruent to 1 modulo `p - 1` act as the identity modulo `p`.
pub proof fn lemma_fermat_cycle(a: nat, p: nat, j: nat)
    requires
        is_prime(p),
    ensures
        pow(a as int, 1 + j * (p - 1) as nat) % (p as int) == a % p,
    decreases j,
{
    let m = p as int;
    let x = a as int;
    let step = (p - 1) as nat;
    if j == 0 {
        assert(0 * step == 0);
        lemma_pow1(x);
    } else {
        let i = (j - 1) as nat;
        let before = 1 + i * step;
        lemma_fermat_cycle(a, p, i);
        assert(1 + j * step == before + step) by (nonlinear_arith)
            requires
                i == j - 1,
                before == 1 + i * step,
        ;
        lemma_pow_adds(x, before, step);
        lemma_mul_mod_noop_left(pow(x, before), pow(x, step), m);
        lemma_mul_mod_noop_left(x, pow(x, step), m);
        assert(pow(x, p) == x * pow(x, step)) by {
            reveal(pow);
        }
        lemma_fermat(a, p);
    }
}

/// Fermat's little theorem for a base that the prime does not divide.
pub proof fn lemma_fermat_unit(a: nat, p: nat)
    requires
        is_prime(p),
        a % p != 0,
    ensures
        pow(a as int, (p - 1) as nat) % (p as int) == 1,
{
    let m = p as int;
    let x = a as int;
    let u = pow(x, (p - 1) as nat);
    lemma_fermat(a, p);
    assert(pow(x, p) == x * u) by {
        reveal(pow);
    }
    lemma_mod_equivalence(x * u, x, m);
    assert(x * (u - 1) == x * u - x) by (nonlinear_arith);
    lemma_prime_divides_product(a, u - 1, p);
    lemma_mod_equivalence(u, 1, m);
    lemma_small_mod(1, p);
}

/// Modulo a prime `p`, a base that `p` does not divide raised to a multiple
/// of `p - 1` is 1.
pub proof fn lemma_fermat_unit_power(a: nat, p: nat, j: nat)
    requires
        is_prime(p),
        a % p != 0,
    ensures
        pow(a as int, ((p - 1) as nat) * j) % (p as int) == 1,
{
    let m = p as int;
    let x = a as int;
    let step = (p - 1) as nat;
    lemma_fermat_unit(a, p);
    lemma_pow_multiplies(x, step, j);
    lemma_pow_mod_noop(pow(x, step), j, m);
    lemma1_pow(j);
    lemma_small_mod(1, p);
}

/// The Chinese remainder theorem for two coprime moduli: congruence modulo
/// each of them is congruence modulo their product.
pub proof fn lemma_chinese_remainder(x: int, y: int, p: nat, q: nat)
    requires
        p > 0,
        q > 0,
        gcd(p, q) == 1,
        x % (p as int) == y % (p as int),
        x % (q as int) == y % (q as int),
    ensures
        p * q > 0,
        x % ((p * q) as int) == y % ((p * q) as int),
{
    let d = x - y;
    let t = d / (p as int);
    lemma_mul_strictly_positive(p as int, q as int);
    lemma_mod_equivalence(x, y, p as int);
    lemma_mod_equivalence(x, y, q as int);
    lemma_multiple_factors(d, p as int);
    lemma_coprime_cancels(p, t, q);
    let s = t / (q as int);
    lemma_multiple_factors(t, q as int);
    assert(d == s * (p * q)) by (nonlinear_arith)
        requires
            d == p * t,
            t == q * s,
    ;
    lemma_mod_multiples_basic(s, (p * q) as int);
    lemma_mod_equivalence(x, y, (p * q) as int);
}

/// Two different primes have a totient product of at least 2.
pub proof fn lemma_totient_of_distinct_primes(p: nat, q: nat)
    requires
        is_prime(p),
        is_prime(q),
        p != q,
    ensures
        (p - 1) * (q - 1) >= 2,
{
    assert((p - 1) * (q - 1) >= 2) by (nonlinear_arith)
        requires
            p >= 2,
            q >= 2,
            p != q,
    ;
}

/// The heart of RSA: for two different primes `p` and `q`, exponents whose
/// product is 1 modulo `(p - 1) * (q - 1)` undo each other modulo `p * q`.
pub proof fn lemma_inverse_exponents(x: nat, e: nat, d: nat, p: nat, q: nat)
    requires
        is_prime(p),
        is_prime(q),
        p != q,
        (e * d) as int % ((p - 1) * (q - 1)) == 1,
    ensures
        p * q > 0,
        pow(x as int, e * d) % ((p * q) as int) == x % (p * q),
{
    let p1 = (p - 1) as nat;
    let q1 = (q - 1) as nat;
    let phi = (p - 1) * (q - 1);
    lemma_totient_of_distinct_primes(p, q);
    let k = (e * d) as int / phi;
    lemma_fundamental_div_mod((e * d) as int, phi);
    assert(k >= 0) by {
        lemma_div_pos_is_pos((e * d) as int, phi);
    }
    let kn = k as nat;
    assert(kn * q1 >= 0 && kn * p1 >= 0);
    assert(e * d == 1 + (kn * q1) * p1 && e * d == 1 + (kn * p1) * q1) by (nonlinear_arith)
        requires
            e * d == phi * k + 1,
            phi == (p - 1) * (q - 1),
            p1 == p - 1,
            q1 == q - 1,
            kn == k,
    ;
    lemma_fermat_cycle(x, p, kn * q1);
    lemma_fermat_cycle(x, q, kn * p1);
    lemma_distinct_primes_coprime(p, q);
    lemma_chinese_remainder(pow(x as int, e * d), x as int, p, q);
}

} // verus!
