//! The Paillier cryptosystem with the generator `n + 1`: key derivation from
//! two primes, randomized encryption, decryption, and the multiplication of
//! ciphertexts, which adds the plaintexts.

use crate::arith::gcd::{gcd, lcm, lemma_gcd_of_residue};
use crate::arith::primes::{is_prime, lemma_product_bound};
use crate::arith::squares::{
    lemma_cancel_invertible, lemma_generator_power_inverse, lemma_lcm_coprime_to_balanced_product,
    lemma_power_mod_square, lemma_residue_mod_square, lemma_square_bound,
    lemma_unit_lifts_to_square, lemma_unit_power_cycle, lemma_unit_power_of_lcm,
};
use crate::bignum::{
    big_add, big_div, big_eq, big_from_u32, big_lcm, big_lt, big_modinv, big_modpow, big_mul,
    big_rem, big_sub, big_value,
};
use crate::errors::{KeyConstructionError, SamplingExhaustedError};
use crate::sampler::{acceptable, all_acceptable, draws_before_giving_up, get_coprime};
use num_bigint::BigUint;
use vstd::arithmetic::div_mod::*;
use vstd::arithmetic::mul::*;
use vstd::arithmetic::power::*;
use vstd::prelude::*;

verus! {

/// Paillier key material: the two primes, the modulus and its square, the
/// Carmichael exponent, the generator and the decryption denominator.
pub struct PaillierKeys {
    pub p: BigUint,
    pub q: BigUint,
    pub n: BigUint,
    pub n2: BigUint,
    pub lambda: BigUint,
    pub g: BigUint,
    pub mi: BigUint,
}

/// The numbers that a `PaillierKeys` stands for.
pub ghost struct PaillierKeyModel {
    pub p: nat,
    pub q: nat,
    pub n: nat,
    pub n2: nat,
    pub lambda: nat,
    pub g: nat,
    pub mi: nat,
}

/// Paillier's function `L(x) = (x - 1) / n`, read over the integers with the
/// quotient rounded down, so that `L(0)` is -1.
pub open spec fn ell(x: int, n: int) -> int {
    (x - 1) / n
}

/// The number that key derivation inverts modulo `p * q`:
/// `L((n + 1)^lambda mod n^2)` with `n = p * q` and `lambda = lcm(p - 1, q - 1)`.
pub open spec fn denominator(p: nat, q: nat) -> nat {
    let n = p * q;
    let lambda = lcm((p - 1) as nat, (q - 1) as nat);
    ell(pow((n + 1) as int, lambda) % ((n * n) as int), n as int) as nat
}

/// Two different odd primes of which neither is twice the other or more.
/// Two different odd primes of one bit length are such a pair.
pub open spec fn balanced_primes(p: nat, q: nat) -> bool {
    &&& is_prime(p)
    &&& is_prime(q)
    &&& p != q
    &&& p > 2
    &&& q > 2
    &&& p < 2 * q
    &&& q < 2 * p
}

impl PaillierKeyModel {
    /// What construction establishes: every derived number is the stated
    /// function of the two given ones, and `mi` is the inverse modulo `n`,
    /// below `n`, of `L(g^lambda mod n^2)`.
    pub open spec fn wf(self) -> bool {
        &&& self.p >= 2
        &&& self.q >= 2
        &&& self.n == self.p * self.q
        &&& self.n2 == self.n * self.n
        &&& self.lambda == lcm((self.p - 1) as nat, (self.q - 1) as nat)
        &&& self.g == self.n + 1
        &&& self.mi < self.n
        &&& (denominator(self.p, self.q) * self.mi) % self.n == 1
    }

    /// Well-formed key material over two different primes.
    pub open spec fn valid(self) -> bool {
        &&& self.wf()
        &&& is_prime(self.p)
        &&& is_prime(self.q)
        &&& self.p != self.q
    }

    /// `(g^m mod n^2) * (r^n mod n^2) mod n^2`: the encryption of `m` with
    /// the randomizer `r`.
    pub open spec fn encrypt_with(self, m: nat, r: nat) -> nat {
        let gm = pow(self.g as int, m) % (self.n2 as int);
        let rn = pow(r as int, self.n) % (self.n2 as int);
        ((gm * rn) % (self.n2 as int)) as nat
    }

    /// `L(c^lambda mod n^2) * mi mod n`.
    pub open spec fn decrypt(self, c: nat) -> nat {
        let power = pow(c as int, self.lambda) % (self.n2 as int);
        ((ell(power, self.n as int) * self.mi) % (self.n as int)) as nat
    }

    /// The product of two ciphertexts modulo `n^2`.
    pub open spec fn combine(self, c1: nat, c2: nat) -> nat {
        (c1 * c2) % self.n2
    }

    /// The ciphertexts of a sequence multiplied together from the left.
    pub open spec fn fold_ciphertexts(self, cs: Seq<nat>) -> nat
        recommends
            cs.len() > 0,
        decreases cs.len(),
    {
        if cs.len() <= 1 {
            cs[0]
        } else {
            self.combine(self.fold_ciphertexts(cs.drop_last()), cs.last())
        }
    }

    /// `c` carries the plaintext `a`: its power `c^lambda` is
    /// `1 + a * lambda * n` modulo `n^2`.
    pub open spec fn carries(self, c: nat, a: nat) -> bool {
        pow(c as int, self.lambda) % (self.n2 as int)
            == ((1 + (a * self.lambda) * self.n) as int) % (self.n2 as int)
    }
}

impl View for PaillierKeys {
    type V = PaillierKeyModel;

    open spec fn view(&self) -> PaillierKeyModel {
        PaillierKeyModel {
            p: big_value(self.p),
            q: big_value(self.q),
            n: big_value(self.n),
            n2: big_value(self.n2),
            lambda: big_value(self.lambda),
            g: big_value(self.g),
            mi: big_value(self.mi),
        }
    }
}

/// The modulus of well-formed key material is at least 4, its square at
/// least 16.
pub proof fn lemma_paillier_modulus_bound(key: PaillierKeyModel)
    requires
        key.wf(),
    ensures
        key.n >= 4,
        key.n2 >= 16,
{
    lemma_product_bound(key.p, key.q);
    lemma_square_bound(key.n, 4);
}

/// For `p, q >= 2` the power `(n + 1)^lambda mod n^2` is `1 + (lambda mod n) * n`,
/// so the denominator is `lambda mod n`.
pub proof fn lemma_denominator(p: nat, q: nat)
    requires
        p >= 2,
        q >= 2,
    ensures
        pow((p * q + 1) as int, lcm((p - 1) as nat, (q - 1) as nat)) % (((p * q) * (p * q)) as int)
            == 1 + (lcm((p - 1) as nat, (q - 1) as nat) % (p * q)) * (p * q),
        denominator(p, q) == lcm((p - 1) as nat, (q - 1) as nat) % (p * q),
{
    let n = p * q;
    let lambda = lcm((p - 1) as nat, (q - 1) as nat);
    lemma_product_bound(p, q);
    lemma_power_mod_square(1, n, lambda);
    assert(1 + 1 * n == n + 1 && lambda * 1 * n == lambda * n) by (nonlinear_arith);
    lemma_residue_mod_square(lambda as int, n);
    lemma_div_multiples_vanish((lambda % n) as int, n as int);
    lemma_mul_is_commutative((lambda % n) as int, n as int);
}

/// The generator `n + 1` serves every balanced pair of primes: the
/// denominator has an inverse modulo `p * q`, so key derivation succeeds.
pub proof fn lemma_balanced_primes_admit_a_key(p: nat, q: nat)
    requires
        balanced_primes(p, q),
    ensures
        gcd(denominator(p, q), p * q) == 1,
{
    lemma_denominator(p, q);
    lemma_mul_strictly_positive(p as int, q as int);
    lemma_gcd_of_residue(lcm((p - 1) as nat, (q - 1) as nat), p * q);
    lemma_lcm_coprime_to_balanced_product(p, q);
}

impl PaillierKeys {
    /// Derives key material from two primes. Primality is the caller's
    /// business; construction fails when a number is below 2 and when
    /// `L(g^lambda mod n^2)` has no inverse modulo `n`, which does not
    /// happen for a balanced pair of primes.
    pub fn new(p: &BigUint, q: &BigUint) -> (r: Result<PaillierKeys, KeyConstructionError>)
        ensures
            r is Err <==> big_value(*p) < 2 || big_value(*q) < 2
                || gcd(denominator(big_value(*p), big_value(*q)), big_value(*p) * big_value(*q))
                != 1,
            balanced_primes(big_value(*p), big_value(*q)) ==> r is Ok,
            r matches Ok(keys) ==> keys@.wf() && keys@.p == big_value(*p)
                && keys@.q == big_value(*q) && keys@.n >= 4 && keys@.n2 >= 16,
    {
        let two = big_from_u32(2);
        if big_lt(p, &two) || big_lt(q, &two) {
            return Err(KeyConstructionError);
        }
        let n = big_mul(p, q);
        let n2 = big_mul(&n, &n);
        let one = big_from_u32(1);
        let p1 = big_sub(p, &one);
        let q1 = big_sub(q, &one);
        let lambda = big_lcm(&p1, &q1);
        let g = big_add(&n, &one);
        proof {
            if balanced_primes(big_value(*p), big_value(*q)) {
                lemma_balanced_primes_admit_a_key(big_value(*p), big_value(*q));
            }
            lemma_denominator(big_value(*p), big_value(*q));
            lemma_mul_strictly_positive(big_value(*p) as int, big_value(*q) as int);
            lemma_product_bound(big_value(*p), big_value(*q));
            lemma_square_bound(big_value(n), 4);
            lemma_small_mod(1, big_value(n));
        }
        let u = big_modpow(&g, &lambda, &n2);
        let l_u = big_div(&big_sub(&u, &one), &n);
        match big_modinv(&l_u, &n) {
            Some(mi) => Ok(PaillierKeys { p: p.clone(), q: q.clone(), n, n2, lambda, g, mi }),
            None => Err(KeyConstructionError),
        }
    }

    /// Encrypts `data` with a randomizer drawn by the sampler. Fails only
    /// when the sampler does, which chance decides unless no candidate can
    /// fail. A plaintext of `n` or more is not refused; it decrypts to its
    /// residue modulo `n`.
    pub fn encrypt(&self, data: BigUint) -> (r: Result<BigUint, SamplingExhaustedError>)
        requires
            self@.n2 > 0,
        ensures
            r matches Ok(c) ==> exists|rnd: nat|
                acceptable(rnd, self@.n)
                    && big_value(c) == #[trigger] self@.encrypt_with(big_value(data), rnd),
            r matches Ok(c) ==> (self@.valid() ==> self@.decrypt(big_value(c))
                == big_value(data) % self@.n),
            r matches Err(e) ==> e.attempts == draws_before_giving_up(self@.n, None),
            self@.n <= 2 ==> r is Err,
            (self@.n > 2 && all_acceptable(self@.n)) ==> r is Ok,
    {
        match get_coprime(&self.n, None) {
            Ok(rnd) => {
                let c = self.encrypt_with(&data, &rnd);
                proof {
                    if self@.valid() {
                        lemma_paillier_decrypts_residue(self@, big_value(data), big_value(rnd));
                    }
                }
                Ok(c)
            },
            Err(e) => Err(e),
        }
    }

    /// Encrypts `data` with the randomizer `rnd`, which the caller chose.
    pub fn encrypt_with(&self, data: &BigUint, rnd: &BigUint) -> (c: BigUint)
        requires
            self@.n2 > 0,
        ensures
            big_value(c) == self@.encrypt_with(big_value(*data), big_value(*rnd)),
    {
        let gm = big_modpow(&self.g, data, &self.n2);
        let rn = big_modpow(rnd, &self.n, &self.n2);
        big_rem(&big_mul(&gm, &rn), &self.n2)
    }

    /// Decrypts a ciphertext. Every number decrypts to something; the result
    /// means something only for a ciphertext made under this key.
    pub fn decrypt(&self, data: BigUint) -> (m: BigUint)
        requires
            self@.n > 0,
            self@.n2 > 0,
        ensures
            big_value(m) == self@.decrypt(big_value(data)),
    {
        let x = big_modpow(&data, &self.lambda, &self.n2);
        let zero = big_from_u32(0);
        if big_eq(&x, &zero) {
            let residue = big_rem(&self.mi, &self.n);
            proof {
                lemma_minus_one_quotient(self@.n);
                lemma_negated_residue(self@.mi, self@.n);
            }
            big_rem(&big_sub(&self.n, &residue), &self.n)
        } else {
            big_rem(&big_mul(&self.l(&x), &self.mi), &self.n)
        }
    }

    /// `L(x) = (x - 1) / n` for `x` of at least 1.
    pub fn l(&self, x: &BigUint) -> (r: BigUint)
        requires
            self@.n > 0,
            big_value(*x) >= 1,
        ensures
            big_value(r) == ell(big_value(*x) as int, self@.n as int),
    {
        let one = big_from_u32(1);
        big_div(&big_sub(x, &one), &self.n)
    }

    /// Multiplies two ciphertexts modulo `n^2`.
    pub fn combine(&self, c1: &BigUint, c2: &BigUint) -> (c: BigUint)
        requires
            self@.n2 > 0,
        ensures
            big_value(c) == self@.combine(big_value(*c1), big_value(*c2)),
    {
        big_rem(&big_mul(c1, c2), &self.n2)
    }
}

/// The quotient of -1 by a positive number, rounded down, is -1.
proof fn lemma_minus_one_quotient(n: nat)
    requires
        n > 0,
    ensures
        ell(0, n as int) == -1,
{
    lemma_fundamental_div_mod_converse_div(-1, n as int, -1, n - 1);
}

/// The residue of `-x` is the residue of `n - (x mod n)`.
proof fn lemma_negated_residue(x: nat, n: nat)
    requires
        n > 0,
    ensures
        (-1 * x) % (n as int) == ((n - x % n) % (n as int)),
{
    let q = x as int / n as int;
    let r = x as int % n as int;
    lemma_fundamental_div_mod(x as int, n as int);
    assert(-1 * x == (n as int) * (-q) + (-r)) by (nonlinear_arith)
        requires
            x == n * q + r,
    ;
    lemma_mod_multiples_vanish(-q, -r, n as int);
    lemma_mod_multiples_vanish(1, -r, n as int);
}

/// Under valid key material an encryption of `m` carries `m`, whatever
/// randomizer coprime to `n` was used.
pub proof fn lemma_encryption_carries(key: PaillierKeyModel, m: nat, r: nat)
    requires
        key.valid(),
        gcd(r, key.n) == 1,
    ensures
        key.carries(key.encrypt_with(m, r), m),
{
    let n = key.n;
    let big = key.n2 as int;
    let lambda = key.lambda;
    let gm = pow(key.g as int, m);
    let rn = pow(r as int, n);
    lemma_product_bound(key.p, key.q);
    lemma_mul_strictly_positive(n as int, n as int);
    // The power of the ciphertext is the product of the powers of its factors.
    lemma_pow_mod_noop((gm % big) * (rn % big), lambda, big);
    lemma_pow_distributes(gm % big, rn % big, lambda);
    lemma_mul_mod_noop_general(pow(gm % big, lambda), pow(rn % big, lambda), big);
    lemma_pow_mod_noop(gm, lambda, big);
    lemma_pow_mod_noop(rn, lambda, big);
    // The generator's factor: (1 + n)^(m * lambda).
    lemma_pow_multiplies(key.g as int, m, lambda);
    lemma_power_mod_square(1, n, m * lambda);
    assert(1 + 1 * n == key.g && (m * lambda) * 1 * n == (m * lambda) * n) by (nonlinear_arith)
        requires
            key.g == n + 1,
    ;
    // The randomizer's factor: (r^lambda)^n, where r^lambda is 1 modulo n.
    lemma_pow_multiplies(r as int, n, lambda);
    lemma_pow_multiplies(r as int, lambda, n);
    lemma_mul_is_commutative(n as int, lambda as int);
    lemma_unit_power_of_lcm(r, key.p, key.q);
    lemma_unit_lifts_to_square(pow(r as int, lambda), n);
    let carried = (1 + (m * lambda) * n) as int;
    lemma_mul_mod_noop_general(carried, 1, big);
    assert(carried * 1 == carried);
    lemma_mod_twice(carried, big);
}

/// The product of two ciphertexts carries the sum of what they carry.
pub proof fn lemma_product_carries_sum(key: PaillierKeyModel, c1: nat, c2: nat, a1: nat, a2: nat)
    requires
        key.wf(),
        key.carries(c1, a1),
        key.carries(c2, a2),
    ensures
        key.carries(key.combine(c1, c2), a1 + a2),
{
    let n = key.n;
    let big = key.n2 as int;
    let lambda = key.lambda;
    lemma_mul_strictly_positive(key.p as int, key.q as int);
    lemma_mul_strictly_positive(n as int, n as int);
    let t1 = (1 + (a1 * lambda) * n) as int;
    let t2 = (1 + (a2 * lambda) * n) as int;
    lemma_pow_mod_noop((c1 * c2) as int, lambda, big);
    lemma_pow_distributes(c1 as int, c2 as int, lambda);
    lemma_mul_mod_noop_general(pow(c1 as int, lambda), pow(c2 as int, lambda), big);
    lemma_mul_mod_noop_general(t1, t2, big);
    assert(t1 * t2 == big * ((a1 * lambda) * (a2 * lambda)) + (1 + ((a1 + a2) * lambda) * n))
        by (nonlinear_arith)
        requires
            t1 == 1 + (a1 * lambda) * n,
            t2 == 1 + (a2 * lambda) * n,
            big == n * n,
    ;
    lemma_mod_multiples_vanish(
        ((a1 * lambda) * (a2 * lambda)) as int,
        (1 + ((a1 + a2) * lambda) * n) as int,
        big,
    );
}

/// Under well-formed key material a ciphertext that carries `a` decrypts
/// to `a mod n`.
pub proof fn lemma_decrypts_carried(key: PaillierKeyModel, c: nat, a: nat)
    requires
        key.wf(),
        key.carries(c, a),
    ensures
        key.decrypt(c) == a % key.n,
{
    let n = key.n;
    let ni = n as int;
    let lambda = key.lambda;
    let mi = key.mi;
    lemma_product_bound(key.p, key.q);
    lemma_denominator(key.p, key.q);
    // L of the ciphertext's power is (a * lambda) mod n.
    lemma_residue_mod_square((a * lambda) as int, n);
    let al = (a * lambda) as int % ni;
    lemma_div_multiples_vanish(al, ni);
    lemma_mul_is_commutative(al, ni);
    assert(ell(pow(c as int, lambda) % (key.n2 as int), ni) == al);
    // Multiplying by mi undoes the factor lambda.
    lemma_mul_mod_noop_left((a * lambda) as int, mi as int, ni);
    lemma_mul_mod_noop_left(lambda as int, mi as int, ni);
    assert((a * lambda) * mi == a * (lambda * mi)) by (nonlinear_arith);
    lemma_mul_mod_noop_right(a as int, (lambda * mi) as int, ni);
    assert(a * 1 == a);
}

/// Decryption looks at a ciphertext modulo `n^2` only, so a product of
/// ciphertexts may be reduced or left as it is.
pub proof fn lemma_paillier_decrypt_reduces(key: PaillierKeyModel, c: nat)
    requires
        key.n2 > 0,
    ensures
        key.decrypt(c % key.n2) == key.decrypt(c),
{
    lemma_pow_mod_noop(c as int, key.lambda, key.n2 as int);
}

/// An encryption of `m` under valid key material decrypts to `m mod n`, so
/// a plaintext of `n` or more comes back as its residue.
pub proof fn lemma_paillier_decrypts_residue(key: PaillierKeyModel, m: nat, r: nat)
    requires
        key.valid(),
        gcd(r, key.n) == 1,
    ensures
        key.decrypt(key.encrypt_with(m, r)) == m % key.n,
{
    lemma_encryption_carries(key, m, r);
    lemma_decrypts_carried(key, key.encrypt_with(m, r), m);
}

/// Decryption undoes encryption: for valid key material, a plaintext below
/// `n` and any randomizer coprime to `n`, `decrypt(encrypt(m)) == m`.
pub proof fn lemma_paillier_round_trip(key: PaillierKeyModel, m: nat, r: nat)
    requires
        key.valid(),
        m < key.n,
        gcd(r, key.n) == 1,
    ensures
        key.decrypt(key.encrypt_with(m, r)) == m,
{
    lemma_paillier_decrypts_residue(key, m, r);
    lemma_small_mod(m, key.n);
}

/// Multiplying ciphertexts adds plaintexts: for valid key material, the
/// product modulo `n^2` of encryptions of `m1` and `m2` decrypts to
/// `(m1 + m2) mod n`.
pub proof fn lemma_paillier_additive(key: PaillierKeyModel, m1: nat, m2: nat, r1: nat, r2: nat)
    requires
        key.valid(),
        m1 < key.n,
        m2 < key.n,
        gcd(r1, key.n) == 1,
        gcd(r2, key.n) == 1,
    ensures
        key.decrypt(key.combine(key.encrypt_with(m1, r1), key.encrypt_with(m2, r2))) == (m1 + m2)
            % key.n,
{
    let c1 = key.encrypt_with(m1, r1);
    let c2 = key.encrypt_with(m2, r2);
    lemma_encryption_carries(key, m1, r1);
    lemma_encryption_carries(key, m2, r2);
    lemma_product_carries_sum(key, c1, c2, m1, m2);
    lemma_decrypts_carried(key, key.combine(c1, c2), m1 + m2);
}

/// Under well-formed key material some multiple of `n` is 1 more than a
/// multiple of `lambda`: the pair returned is `(a, b)` with
/// `a * n == 1 + lambda * b`.
proof fn lemma_modulus_inverts_modulo_lambda(key: PaillierKeyModel) -> (c: (nat, nat))
    requires
        key.wf(),
    ensures
        c.0 * key.n == 1 + key.lambda * c.1,
{
    let n = key.n as int;
    let lambda = key.lambda as int;
    let mi = key.mi as int;
    lemma_product_bound(key.p, key.q);
    lemma_denominator(key.p, key.q);
    lemma_mul_mod_noop_left(lambda, mi, n);
    let k = (lambda * mi) / n;
    lemma_fundamental_div_mod(lambda * mi, n);
    assert(lambda * mi >= 0) by (nonlinear_arith)
        requires
            lambda >= 0,
            mi >= 0,
    ;
    lemma_div_pos_is_pos(lambda * mi, n);
    let a = lambda * (k + 1) - k;
    let b = (k + 1) * n - mi;
    assert(a * n == 1 + lambda * b && b >= 0 && a >= 0) by (nonlinear_arith)
        requires
            lambda * mi == n * k + 1,
            a == lambda * (k + 1) - k,
            b == (k + 1) * n - mi,
            k >= 0,
            lambda >= 0,
            0 <= mi < n,
    ;
    (a as nat, b as nat)
}

/// The ciphertext shows the randomizer: under valid key material two
/// encryptions of one plaintext coincide only if their randomizers, taken
/// below `n` and coprime to `n`, coincide.
pub proof fn lemma_paillier_randomizer_shows(key: PaillierKeyModel, m: nat, r1: nat, r2: nat)
    requires
        key.valid(),
        r1 < key.n,
        r2 < key.n,
        gcd(r1, key.n) == 1,
        gcd(r2, key.n) == 1,
        key.encrypt_with(m, r1) == key.encrypt_with(m, r2),
    ensures
        r1 == r2,
{
    let n = key.n;
    let ni = n as int;
    let big = key.n2 as int;
    let g = key.g as int;
    lemma_paillier_modulus_bound(key);
    // Cancel the generator's factor, which has an inverse modulo n^2.
    let gm = pow(g, m);
    let g_inv = pow(g, m * ((n - 1) as nat));
    lemma_generator_power_inverse(n, m);
    lemma_mul_mod_noop_left(gm, g_inv, big);
    let x1 = pow(r1 as int, n);
    let x2 = pow(r2 as int, n);
    lemma_cancel_invertible(gm % big, g_inv, x1 % big, x2 % big, big);
    lemma_mod_twice(x1, big);
    lemma_mod_twice(x2, big);
    // Congruent modulo n^2 is congruent modulo n.
    lemma_mod_mod(x1, ni, ni);
    lemma_mod_mod(x2, ni, ni);
    assert(x1 % ni == x2 % ni);
    // Raising to the power a undoes raising to the power n.
    let (a, b) = lemma_modulus_inverts_modulo_lambda(key);
    lemma_pow_mod_noop(x1, a, ni);
    lemma_pow_mod_noop(x2, a, ni);
    lemma_pow_multiplies(r1 as int, n, a);
    lemma_pow_multiplies(r2 as int, n, a);
    lemma_mul_is_commutative(ni, a as int);
    lemma_unit_power_cycle(r1, key.p, key.q, b);
    lemma_unit_power_cycle(r2, key.p, key.q, b);
    lemma_small_mod(r1, n);
    lemma_small_mod(r2, n);
}

/// The sum of the numbers of a sequence.
pub open spec fn sum_of(ms: Seq<nat>) -> nat
    decreases ms.len(),
{
    if ms.len() == 0 {
        0
    } else {
        sum_of(ms.drop_last()) + ms.last()
    }
}

/// The fold of encryptions of `ms` carries the sum of `ms`.
proof fn lemma_paillier_fold_carries(
    key: PaillierKeyModel,
    ms: Seq<nat>,
    rs: Seq<nat>,
    cs: Seq<nat>,
)
    requires
        key.valid(),
        ms.len() == cs.len(),
        rs.len() == cs.len(),
        ms.len() > 0,
        forall|i: int| 0 <= i < rs.len() ==> gcd(#[trigger] rs[i], key.n) == 1,
        forall|i: int| 0 <= i < cs.len() ==> #[trigger] cs[i] == key.encrypt_with(ms[i], rs[i]),
    ensures
        key.carries(key.fold_ciphertexts(cs), sum_of(ms)),
    decreases ms.len(),
{
    let last = ms.len() - 1;
    assert(cs[last] == key.encrypt_with(ms[last], rs[last]));
    lemma_encryption_carries(key, ms[last], rs[last]);
    if ms.len() == 1 {
        assert(sum_of(ms.drop_last()) == 0);
    } else {
        lemma_paillier_fold_carries(key, ms.drop_last(), rs.drop_last(), cs.drop_last());
        lemma_product_carries_sum(
            key,
            key.fold_ciphertexts(cs.drop_last()),
            cs.last(),
            sum_of(ms.drop_last()),
            ms.last(),
        );
    }
}

/// Folding adds: for valid key material, encryptions of any non-empty
/// sequence of plaintexts, multiplied together from the left modulo `n^2`,
/// decrypt to the sum of the plaintexts modulo `n`.
pub proof fn lemma_paillier_fold_adds(
    key: PaillierKeyModel,
    ms: Seq<nat>,
    rs: Seq<nat>,
    cs: Seq<nat>,
)
    requires
        key.valid(),
        ms.len() == cs.len(),
        rs.len() == cs.len(),
        ms.len() > 0,
        forall|i: int| 0 <= i < rs.len() ==> gcd(#[trigger] rs[i], key.n) == 1,
        forall|i: int| 0 <= i < cs.len() ==> #[trigger] cs[i] == key.encrypt_with(ms[i], rs[i]),
    ensures
        key.decrypt(key.fold_ciphertexts(cs)) == sum_of(ms) % key.n,
{
    lemma_paillier_fold_carries(key, ms, rs, cs);
    lemma_decrypts_carried(key, key.fold_ciphertexts(cs), sum_of(ms));
}

} // verus!
