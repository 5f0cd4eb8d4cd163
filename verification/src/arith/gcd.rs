//! Divisibility, the greatest common divisor and Bezout's identity.

use vstd::arithmetic::div_mod::*;
use vstd::arithmetic::mul::*;
use vstd::prelude::*;

verus! {

/// The greatest common divisor by Euclid's recursion; `gcd(0, 0)` is 0.
pub open spec fn gcd(a: nat, b: nat) -> nat
    decreases b,
{
    if b == 0 {
        a
    } else {
        gcd(b, a % b)
    }
}

/// The least common multiple; 0 as soon as one argument is 0.
pub open spec fn lcm(a: nat, b: nat) -> nat {
    if a == 0 && b == 0 {
        0
    } else {
        ((a / gcd(a, b)) * b) as nat
    }
}

/// A multiple of a multiple of `d` is a multiple of `d`.
pub proof fn lemma_multiple_scales(a: int, x: int, d: int)
    requires
        d > 0,
        a % d == 0,
    ensures
        (a * x) % d == 0,
        (x * a) % d == 0,
{
    lemma_mul_mod_noop_left(a, x, d);
    lemma_mul_is_commutative(a, x);
    lemma_small_mod(0, d as nat);
    assert((a % d) * x == 0);
}

/// The sum of two multiples of `d` is a multiple of `d`.
pub proof fn lemma_multiples_add(a: int, b: int, d: int)
    requires
        d > 0,
        a % d == 0,
        b % d == 0,
    ensures
        (a + b) % d == 0,
{
    lemma_add_mod_noop(a, b, d);
    lemma_small_mod(0, d as nat);
}

/// `x` is a multiple of `d` exactly when it is `d` times its quotient.
pub proof fn lemma_multiple_factors(x: int, d: int)
    requires
        d > 0,
    ensures
        x % d == 0 <==> x == d * (x / d),
{
    lemma_fundamental_div_mod(x, d);
    if x == d * (x / d) {
        lemma_mod_multiples_basic(x / d, d);
        lemma_mul_is_commutative(d, x / d);
    }
}

/// The gcd is positive unless both arguments are 0.
pub proof fn lemma_gcd_positive(a: nat, b: nat)
    requires
        a > 0 || b > 0,
    ensures
        gcd(a, b) > 0,
    decreases b,
{
    if b != 0 {
        lemma_gcd_positive(b, a % b);
    }
}

/// The gcd divides both of its arguments.
pub proof fn lemma_gcd_divides(a: nat, b: nat)
    requires
        a > 0 || b > 0,
    ensures
        gcd(a, b) > 0,
        a % gcd(a, b) == 0,
        b % gcd(a, b) == 0,
    decreases b,
{
    lemma_gcd_positive(a, b);
    let g = gcd(a, b) as int;
    if b == 0 {
        lemma_mod_self_0(a as int);
        lemma_small_mod(0, a);
    } else {
        let r = a % b;
        lemma_gcd_divides(b, r);
        lemma_fundamental_div_mod(a as int, b as int);
        lemma_multiple_scales(b as int, a as int / b as int, g);
        lemma_multiples_add(b as int * (a as int / b as int), r as int, g);
    }
}

/// Bezout's identity: the gcd is an integer combination of its arguments.
pub proof fn lemma_bezout(a: nat, b: nat) -> (c: (int, int))
    ensures
        a * c.0 + b * c.1 == gcd(a, b),
    decreases b,
{
    if b == 0 {
        (1, 0)
    } else {
        let r = a % b;
        let q = a as int / b as int;
        let (x, y) = lemma_bezout(b, r);
        lemma_fundamental_div_mod(a as int, b as int);
        assert(a * y + b * (x - q * y) == b * x + (a - b * q) * y) by (nonlinear_arith);
        (y, x - q * y)
    }
}

/// Every common divisor of `a` and `b` divides their gcd.
pub proof fn lemma_common_divisor_divides_gcd(a: nat, b: nat, d: nat)
    requires
        d > 0,
        a % d == 0,
        b % d == 0,
    ensures
        gcd(a, b) % d == 0,
{
    let (x, y) = lemma_bezout(a, b);
    lemma_multiple_scales(a as int, x, d as int);
    lemma_multiple_scales(b as int, y, d as int);
    lemma_multiples_add(a * x, b * y, d as int);
}

/// Euclid's lemma: a modulus coprime to `a` that divides `a * b` divides `b`.
pub proof fn lemma_coprime_cancels(a: nat, b: int, m: nat)
    requires
        m > 0,
        gcd(a, m) == 1,
        (a * b) % (m as int) == 0,
    ensures
        b % (m as int) == 0,
{
    let (x, y) = lemma_bezout(a, m);
    let mi = m as int;
    assert(b == (a * b) * x + mi * (b * y)) by (nonlinear_arith)
        requires
            a * x + mi * y == 1,
    ;
    lemma_multiple_scales(a * b, x, mi);
    lemma_mod_multiples_basic(b * y, mi);
    lemma_mul_is_commutative(mi, b * y);
    lemma_multiples_add((a * b) * x, mi * (b * y), mi);
}

/// The gcd does not depend on the order of its arguments.
pub proof fn lemma_gcd_is_symmetric(a: nat, b: nat)
    ensures
        gcd(a, b) == gcd(b, a),
{
    if a == 0 || b == 0 {
        assert(gcd(a, 0) == a);
        assert(gcd(0, b) == (if b == 0 {
            0
        } else {
            gcd(b, 0)
        })) by {
            if b != 0 {
                lemma_small_mod(0, b);
            }
        }
        assert(gcd(0, a) == (if a == 0 {
            0
        } else {
            gcd(a, 0)
        })) by {
            if a != 0 {
                lemma_small_mod(0, a);
            }
        }
    } else {
        let g = gcd(a, b);
        let h = gcd(b, a);
        lemma_gcd_divides(a, b);
        lemma_gcd_divides(b, a);
        lemma_common_divisor_divides_gcd(b, a, g);
        lemma_common_divisor_divides_gcd(a, b, h);
        lemma_mod_is_zero(h, g);
        lemma_mod_is_zero(g, h);
    }
}

/// Reducing the first argument modulo the second leaves the gcd unchanged.
pub proof fn lemma_gcd_of_residue(a: nat, n: nat)
    requires
        n > 0,
    ensures
        gcd(a % n, n) == gcd(a, n),
{
    lemma_mod_twice(a as int, n as int);
    assert(gcd(a, n) == gcd(n, a % n));
    assert(gcd(a % n, n) == gcd(n, (a % n) % n));
}

} // verus!
