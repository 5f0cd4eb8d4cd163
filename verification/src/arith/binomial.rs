//! Binomial coefficients, the binomial expansion of `(a + 1)^n`, and the
//! divisibility of the inner coefficients of a prime row.

use crate::arith::gcd::lemma_multiple_scales;
use crate::arith::primes::{is_prime, lemma_prime_divides_product};
use vstd::arithmetic::div_mod::*;
use vstd::arithmetic::power::*;
use vstd::prelude::*;

verus! {

/// The binomial coefficient `n` over `k`, by Pascal's rule.
pub open spec fn binom(n: nat, k: nat) -> nat
    decreases n,
{
    if k == 0 {
        1
    } else if n == 0 {
        0
    } else {
        binom((n - 1) as nat, (k - 1) as nat) + binom((n - 1) as nat, k)
    }
}

/// The first `j + 1` terms of the expansion of `(a + 1)^n`:
/// the sum of `binom(n, k) * a^k` for `k` from 0 to `j`.
pub open spec fn binomial_sum(n: nat, a: int, j: nat) -> int
    decreases j,
{
    if j == 0 {
        1
    } else {
        binomial_sum(n, a, (j - 1) as nat) + binom(n, j) * pow(a, j)
    }
}

/// Above the diagonal the coefficients vanish.
pub proof fn lemma_binom_above_diagonal(n: nat, k: nat)
    requires
        k > n,
    ensures
        binom(n, k) == 0,
    decreases n,
{
    if n > 0 {
        lemma_binom_above_diagonal((n - 1) as nat, (k - 1) as nat);
        lemma_binom_above_diagonal((n - 1) as nat, k);
    }
}

/// On the diagonal the coefficients are 1.
pub proof fn lemma_binom_diagonal(n: nat)
    ensures
        binom(n, n) == 1,
    decreases n,
{
    if n > 0 {
        lemma_binom_diagonal((n - 1) as nat);
        lemma_binom_above_diagonal((n - 1) as nat, n);
    }
}

/// The absorption identity: `k * binom(n, k) == n * binom(n - 1, k - 1)`.
pub proof fn lemma_binom_absorption(n: nat, k: nat)
    requires
        n >= 1,
        k >= 1,
    ensures
        k * binom(n, k) == n * binom((n - 1) as nat, (k - 1) as nat),
    decreases n,
{
    let n1 = (n - 1) as nat;
    let k1 = (k - 1) as nat;
    if n == 1 {
        if k == 1 {
            assert(binom(1, 1) == 1) by {
                lemma_binom_diagonal(1);
            }
        } else {
            lemma_binom_above_diagonal(1, k);
            lemma_binom_above_diagonal(0, k1);
        }
    } else {
        let n2 = (n - 2) as nat;
        let upper_left = binom(n1, k1);
        let upper = binom(n1, k);
        lemma_binom_absorption(n1, k);
        assert(k * upper == n1 * binom(n2, k1));
        if k == 1 {
            assert(binom(n2, 0) == 1);
            assert(upper_left == 1);
            assert(k * binom(n, k) == n * upper_left) by (nonlinear_arith)
                requires
                    k == 1,
                    binom(n, k) == upper_left + upper,
                    upper_left == 1,
                    k * upper == n1 * 1,
                    n1 == n - 1,
            ;
        } else {
            let k2 = (k - 2) as nat;
            lemma_binom_absorption(n1, k1);
            assert(k1 * upper_left == n1 * binom(n2, k2));
            assert(upper_left == binom(n2, k2) + binom(n2, k1));
            assert(k * binom(n, k) == n * upper_left) by (nonlinear_arith)
                requires
                    binom(n, k) == upper_left + upper,
                    k * upper == n1 * binom(n2, k1),
                    k1 * upper_left == n1 * binom(n2, k2),
                    upper_left == binom(n2, k2) + binom(n2, k1),
                    n1 == n - 1,
                    k1 == k - 1,
            ;
        }
    }
}

/// A prime divides every coefficient of its row but the two outer ones.
pub proof fn lemma_prime_divides_binom(p: nat, k: nat)
    requires
        is_prime(p),
        0 < k < p,
    ensures
        binom(p, k) % p == 0,
{
    lemma_binom_absorption(p, k);
    let inner = binom((p - 1) as nat, (k - 1) as nat);
    lemma_mod_multiples_basic(inner as int, p as int);
    assert((k * (binom(p, k) as int)) % (p as int) == 0) by {
        assert(k * (binom(p, k) as int) == inner * p) by (nonlinear_arith)
            requires
                k * binom(p, k) == p * inner,
        ;
    }
    lemma_prime_divides_product(k, binom(p, k) as int, p);
    lemma_small_mod(k, p);
}

/// Pascal's rule lifted to partial sums of the expansion.
pub proof fn lemma_binomial_sum_step(n: nat, a: int, j: nat)
    ensures
        binomial_sum(n + 1, a, j + 1) == a * binomial_sum(n, a, j) + binomial_sum(n, a, j + 1),
    decreases j,
{
    reveal(pow);
    if j == 0 {
        assert(binomial_sum(n + 1, a, 1) == binomial_sum(n + 1, a, 0) + binom(n + 1, 1) * pow(a, 1));
        assert(binomial_sum(n, a, 1) == binomial_sum(n, a, 0) + binom(n, 1) * pow(a, 1));
        assert(binom(n + 1, 1) == binom(n, 0) + binom(n, 1));
        lemma_pow1(a);
        assert((1 + binom(n, 1)) * a == a * 1 + binom(n, 1) * a) by (nonlinear_arith);
    } else {
        lemma_binomial_sum_step(n, a, (j - 1) as nat);
        let s_prev = binomial_sum(n, a, (j - 1) as nat);
        let s_j = binomial_sum(n, a, j);
        let c1 = binom(n, j);
        let c2 = binom(n, j + 1);
        let pw = pow(a, j);
        let pw1 = pow(a, j + 1);
        assert(pw1 == a * pw);
        assert(binom(n + 1, j + 1) == c1 + c2);
        assert(binomial_sum(n + 1, a, j + 1) == binomial_sum(n + 1, a, j) + binom(n + 1, j + 1)
            * pw1);
        assert(binomial_sum(n, a, j + 1) == s_j + c2 * pw1);
        assert(s_j == s_prev + c1 * pw);
        assert(binomial_sum(n + 1, a, j) == a * s_prev + s_j);
        assert(a * s_prev + s_j + (c1 + c2) * pw1 == a * (s_prev + c1 * pw) + (s_j + c2 * pw1))
            by (nonlinear_arith)
            requires
                pw1 == a * pw,
        ;
    }
}

/// The binomial theorem for `(a + 1)^n`.
pub proof fn lemma_binomial_theorem(a: int, n: nat)
    ensures
        pow(a + 1, n) == binomial_sum(n, a, n),
    decreases n,
{
    reveal(pow);
    if n > 0 {
        let m = (n - 1) as nat;
        lemma_binomial_theorem(a, m);
        lemma_binomial_sum_step(m, a, m);
        lemma_binom_above_diagonal(m, n);
        assert(binomial_sum(m, a, n) == binomial_sum(m, a, m) + binom(m, n) * pow(a, n));
        assert(0 * pow(a, n) == 0);
        assert((a + 1) * binomial_sum(m, a, m) == a * binomial_sum(m, a, m) + binomial_sum(
            m,
            a,
            m,
        )) by (nonlinear_arith);
    }
}

/// Modulo a prime `p`, every partial sum of the expansion of `(a + 1)^p`
/// short of the last term is 1.
pub proof fn lemma_prime_row_inner_sum(p: nat, a: int, j: nat)
    requires
        is_prime(p),
        j < p,
    ensures
        binomial_sum(p, a, j) % (p as int) == 1,
    decreases j,
{
    if j == 0 {
        lemma_small_mod(1, p);
    } else {
        lemma_prime_row_inner_sum(p, a, (j - 1) as nat);
        lemma_prime_divides_binom(p, j);
        lemma_multiple_scales(binom(p, j) as int, pow(a, j), p as int);
        lemma_add_mod_noop(
            binomial_sum(p, a, (j - 1) as nat),
            binom(p, j) * pow(a, j),
            p as int,
        );
        lemma_small_mod(1, p);
    }
}

/// Modulo a prime `p`, raising to the power `p` commutes with adding 1.
pub proof fn lemma_prime_power_of_successor(a: int, p: nat)
    requires
        is_prime(p),
    ensures
        pow(a + 1, p) % (p as int) == (pow(a, p) + 1) % (p as int),
{
    lemma_binomial_theorem(a, p);
    lemma_prime_row_inner_sum(p, a, (p - 1) as nat);
    lemma_binom_diagonal(p);
    let inner = binomial_sum(p, a, (p - 1) as nat);
    assert(binomial_sum(p, a, p) == inner + binom(p, p) * pow(a, p));
    assert(1 * pow(a, p) == pow(a, p));
    lemma_add_mod_noop(inner, pow(a, p), p as int);
    lemma_add_mod_noop(1, pow(a, p), p as int);
    lemma_small_mod(1, p);
}

} // verus!
