//! Textbook RSA: key derivation from two primes, deterministic encryption,
//! decryption, and the multiplication of ciphertexts, which multiplies the
//! plaintexts.

use crate::arith::fermat::{lemma_inverse_exponents, lemma_totient_of_distinct_primes};
use crate::arith::gcd::gcd;
use crate::arith::primes::{is_prime, lemma_product_bound};
use crate::bignum::{
    big_from_u32, big_lt, big_modinv, big_modpow, big_mul, big_rem, big_sub, big_value,
};
use crate::errors::KeyConstructionError;
use crate::traits::ToBigUint;
use crate::DEFAULT_E;
use num_bigint::BigUint;
use std::ops::Mul;
use vstd::arithmetic::div_mod::*;
use vstd::arithmetic::mul::*;
use vstd::arithmetic::power::*;
use vstd::prelude::*;

verus! {

/// RSA key material: the two primes, the public modulus and exponent, and
/// the private exponent.
pub struct RsaKeys {
    pub p: BigUint,
    pub q: BigUint,
    pub n: BigUint,
    pub e: BigUint,
    pub d: BigUint,
}

/// The numbers that an `RsaKeys` stands for.
pub ghost struct RsaKeyModel {
    pub p: nat,
    pub q: nat,
    pub n: nat,
    pub e: nat,
    pub d: nat,
}

/// `(p - 1) * (q - 1)`, which is Euler's totient of `p * q` for two
/// different primes.
pub open spec fn totient(p: nat, q: nat) -> nat {
    ((p - 1) * (q - 1)) as nat
}

impl RsaKeyModel {
    /// What construction establishes: the modulus is the product of the two
    /// numbers, the public exponent is the fixed one, and the private
    /// exponent is its inverse modulo the totient, below the totient.
    pub open spec fn wf(self) -> bool {
        &&& self.p >= 2
        &&& self.q >= 2
        &&& self.n == self.p * self.q
        &&& self.e == DEFAULT_E
        &&& self.d < totient(self.p, self.q)
        &&& (self.e * self.d) % totient(self.p, self.q) == 1nat % totient(self.p, self.q)
    }

    /// Well-formed key material over two different primes.
    pub open spec fn valid(self) -> bool {
        &&& self.wf()
        &&& is_prime(self.p)
        &&& is_prime(self.q)
        &&& self.p != self.q
    }

    /// `m^e mod n`.
    pub open spec fn encrypt(self, m: nat) -> nat {
        (pow(m as int, self.e) % (self.n as int)) as nat
    }

    /// `c^d mod n`.
    pub open spec fn decrypt(self, c: nat) -> nat {
        (pow(c as int, self.d) % (self.n as int)) as nat
    }

    /// The encryption of `m` paired with the key's modulus.
    pub open spec fn ciphertext(self, m: nat) -> CiphertextModel {
        CiphertextModel { value: self.encrypt(m), n: self.n }
    }
}

impl View for RsaKeys {
    type V = RsaKeyModel;

    open spec fn view(&self) -> RsaKeyModel {
        RsaKeyModel {
            p: big_value(self.p),
            q: big_value(self.q),
            n: big_value(self.n),
            e: big_value(self.e),
            d: big_value(self.d),
        }
    }
}

/// An RSA ciphertext together with the modulus it was produced under.
pub struct Ciphertext {
    pub value: BigUint,
    pub n: BigUint,
}

/// The numbers that a `Ciphertext` stands for.
pub ghost struct CiphertextModel {
    pub value: nat,
    pub n: nat,
}

impl CiphertextModel {
    /// The product of the two values, reduced modulo the left operand's
    /// modulus. The right operand's modulus is not looked at.
    pub open spec fn combine(self, rhs: CiphertextModel) -> CiphertextModel {
        CiphertextModel { value: (self.value * rhs.value) % self.n, n: self.n }
    }
}

impl View for Ciphertext {
    type V = CiphertextModel;

    open spec fn view(&self) -> CiphertextModel {
        CiphertextModel { value: big_value(self.value), n: big_value(self.n) }
    }
}

impl Clone for Ciphertext {
    /// A ciphertext of the same value under the same modulus.
    fn clone(&self) -> (r: Ciphertext)
        ensures
            r@ == self@,
    {
        Ciphertext { value: self.value.clone(), n: self.n.clone() }
    }
}

impl Ciphertext {
    /// Pairs a ciphertext value with the modulus of the key that made it.
    pub fn new(value: BigUint, n: &BigUint) -> (r: Ciphertext)
        ensures
            r@.value == big_value(value),
            r@.n == big_value(*n),
    {
        Ciphertext { value, n: n.clone() }
    }
}

/// The product is stated on `mul` itself, over the views: ghost code cannot
/// write down the `Ciphertext` that comes out.
impl vstd::std_specs::ops::MulSpecImpl for Ciphertext {
    open spec fn obeys_mul_spec() -> bool {
        false
    }

    open spec fn mul_req(self, rhs: Ciphertext) -> bool {
        self@.n > 0
    }

    open spec fn mul_spec(self, rhs: Ciphertext) -> Ciphertext {
        self
    }
}

impl Mul for Ciphertext {
    type Output = Ciphertext;

    /// Multiplies two ciphertexts modulo the left operand's modulus, which
    /// must not be 0.
    fn mul(self, rhs: Ciphertext) -> (r: Ciphertext)
        ensures
            r@ == self@.combine(rhs@),
    {
        let product = big_mul(&self.value, &rhs.value);
        Ciphertext { value: big_rem(&product, &self.n), n: self.n }
    }
}

impl<'a> vstd::std_specs::ops::MulSpecImpl<&'a Ciphertext> for Ciphertext {
    open spec fn obeys_mul_spec() -> bool {
        false
    }

    open spec fn mul_req(self, rhs: &'a Ciphertext) -> bool {
        self@.n > 0
    }

    open spec fn mul_spec(self, rhs: &'a Ciphertext) -> Ciphertext {
        self
    }
}

impl<'a> Mul<&'a Ciphertext> for Ciphertext {
    type Output = Ciphertext;

    /// Multiplies by a borrowed ciphertext modulo the left operand's
    /// modulus, which must not be 0.
    fn mul(self, rhs: &'a Ciphertext) -> (r: Ciphertext)
        ensures
            r@ == self@.combine(rhs@),
    {
        let product = big_mul(&self.value, &rhs.value);
        Ciphertext { value: big_rem(&product, &self.n), n: self.n }
    }
}

impl RsaKeys {
    /// Derives key material from two primes. Primality is the caller's
    /// business; construction fails when a number is below 2 and when the
    /// public exponent has no inverse modulo `(p - 1) * (q - 1)`.
    pub fn new(p: BigUint, q: BigUint) -> (r: Result<RsaKeys, KeyConstructionError>)
        ensures
            r is Err <==> big_value(p) < 2 || big_value(q) < 2
                || gcd(DEFAULT_E as nat, totient(big_value(p), big_value(q))) != 1,
            r matches Ok(keys) ==> keys@.wf() && keys@.p == big_value(p)
                && keys@.q == big_value(q) && keys@.n >= 4,
    {
        let two = big_from_u32(2);
        if big_lt(&p, &two) || big_lt(&q, &two) {
            return Err(KeyConstructionError);
        }
        let n = big_mul(&p, &q);
        let e = big_from_u32(DEFAULT_E);
        let one = big_from_u32(1);
        let fi = big_mul(&big_sub(&p, &one), &big_sub(&q, &one));
        proof {
            lemma_mul_strictly_positive(big_value(p) - 1, big_value(q) - 1);
            lemma_product_bound(big_value(p), big_value(q));
        }
        match big_modinv(&e, &fi) {
            Some(d) => Ok(RsaKeys { p, q, n, e, d }),
            None => Err(KeyConstructionError),
        }
    }

    /// Encrypts a plaintext given as a big integer or as big-endian bytes.
    /// A plaintext of `n` or more is reduced modulo `n` on the way.
    pub fn encrypt<T: ToBigUint>(&self, data: T) -> (c: BigUint)
        requires
            self@.n > 0,
        ensures
            big_value(c) == self@.encrypt(data.as_nat()),
            self@.valid() ==> self@.decrypt(big_value(c)) == data.as_nat() % self@.n,
    {
        let m: BigUint = data.to_biguint();
        proof {
            if self@.valid() {
                lemma_mod_twice(pow(data.as_nat() as int, self@.e), self@.n as int);
                lemma_rsa_decrypts_power(self@, self@.encrypt(data.as_nat()), data.as_nat());
            }
        }
        big_modpow(&m, &self.e, &self.n)
    }

    /// Decrypts a ciphertext. Nothing tells a forged ciphertext from a
    /// genuine one: every number decrypts to something.
    pub fn decrypt(&self, enc_msg: &BigUint) -> (m: BigUint)
        requires
            self@.n > 0,
        ensures
            big_value(m) == self@.decrypt(big_value(*enc_msg)),
    {
        big_modpow(enc_msg, &self.d, &self.n)
    }
}

/// The modulus of well-formed key material is at least 4.
pub proof fn lemma_rsa_modulus_bound(key: RsaKeyModel)
    requires
        key.wf(),
    ensures
        key.n >= 4,
{
    lemma_product_bound(key.p, key.q);
}

/// Under valid key material, whatever is congruent to `x^e` modulo `n`
/// decrypts to `x mod n`.
pub proof fn lemma_rsa_decrypts_power(key: RsaKeyModel, c: nat, x: nat)
    requires
        key.valid(),
        c % key.n == pow(x as int, key.e) % (key.n as int),
    ensures
        key.decrypt(c) == x % key.n,
{
    let n = key.n as int;
    lemma_totient_of_distinct_primes(key.p, key.q);
    lemma_small_mod(1, totient(key.p, key.q));
    lemma_inverse_exponents(x, key.e, key.d, key.p, key.q);
    lemma_pow_mod_noop(c as int, key.d, n);
    lemma_pow_mod_noop(pow(x as int, key.e), key.d, n);
    lemma_pow_multiplies(x as int, key.e, key.d);
}

/// A plaintext of `n` or more wraps: it encrypts as its residue modulo `n`
/// does, so that decryption cannot tell the two apart.
pub proof fn lemma_rsa_encrypt_wraps(key: RsaKeyModel, m: nat)
    requires
        key.n > 0,
    ensures
        key.encrypt(m) == key.encrypt(m % key.n),
{
    lemma_pow_mod_noop(m as int, key.e, key.n as int);
}

/// Decryption undoes encryption: for valid key material and a plaintext
/// below the modulus, `decrypt(encrypt(m)) == m`.
pub proof fn lemma_rsa_round_trip(key: RsaKeyModel, m: nat)
    requires
        key.valid(),
        m < key.n,
    ensures
        key.decrypt(key.encrypt(m)) == m,
{
    lemma_mul_strictly_positive(key.p as int, key.q as int);
    lemma_mod_twice(pow(m as int, key.e), key.n as int);
    lemma_rsa_decrypts_power(key, key.encrypt(m), m);
    lemma_small_mod(m, key.n);
}

/// Multiplying ciphertexts multiplies plaintexts: for valid key material,
/// the product of the encryptions of `m1` and `m2` decrypts to
/// `(m1 * m2) mod n`.
pub proof fn lemma_rsa_multiplicative(key: RsaKeyModel, m1: nat, m2: nat)
    requires
        key.valid(),
        m1 < key.n,
        m2 < key.n,
    ensures
        key.decrypt(key.ciphertext(m1).combine(key.ciphertext(m2)).value) == (m1 * m2) % key.n,
{
    let n = key.n as int;
    lemma_mul_strictly_positive(key.p as int, key.q as int);
    let c = (key.encrypt(m1) * key.encrypt(m2)) % key.n;
    lemma_mod_twice((key.encrypt(m1) * key.encrypt(m2)) as int, n);
    lemma_mul_mod_noop_general(pow(m1 as int, key.e), pow(m2 as int, key.e), n);
    lemma_pow_distributes(m1 as int, m2 as int, key.e);
    lemma_rsa_decrypts_power(key, c, m1 * m2);
    lemma_mod_twice((m1 * m2) as int, n);
}

/// The product of the numbers of a sequence; 1 for the empty sequence.
pub open spec fn product_of(ms: Seq<nat>) -> nat
    decreases ms.len(),
{
    if ms.len() == 0 {
        1
    } else {
        product_of(ms.drop_last()) * ms.last()
    }
}

/// The ciphertexts of a sequence multiplied together from the left.
pub open spec fn fold_ciphertexts(cs: Seq<CiphertextModel>) -> CiphertextModel
    recommends
        cs.len() > 0,
    decreases cs.len(),
{
    if cs.len() <= 1 {
        cs[0]
    } else {
        fold_ciphertexts(cs.drop_last()).combine(cs.last())
    }
}

/// The fold of the encryptions of `ms` keeps the key's modulus and is
/// congruent to the encryption of the product of `ms`.
proof fn lemma_rsa_fold_is_power(key: RsaKeyModel, ms: Seq<nat>, cs: Seq<CiphertextModel>)
    requires
        key.n > 0,
        ms.len() == cs.len(),
        ms.len() > 0,
        forall|i: int| 0 <= i < cs.len() ==> #[trigger] cs[i] == key.ciphertext(ms[i]),
    ensures
        fold_ciphertexts(cs).n == key.n,
        fold_ciphertexts(cs).value % key.n == pow(product_of(ms) as int, key.e) % (key.n as int),
    decreases ms.len(),
{
    let n = key.n as int;
    let last = ms.last();
    if ms.len() == 1 {
        assert(cs[0].value == key.encrypt(ms[0]));
        assert(product_of(ms.drop_last()) == 1);
        assert(product_of(ms) == 1 * last);
        lemma_mod_twice(pow(last as int, key.e), n);
    } else {
        let front = ms.drop_last();
        lemma_rsa_fold_is_power(key, front, cs.drop_last());
        let folded = fold_ciphertexts(cs.drop_last());
        assert(cs.last().value == key.encrypt(last));
        lemma_mod_twice((folded.value * key.encrypt(last)) as int, n);
        lemma_mul_mod_noop_general(folded.value as int, key.encrypt(last) as int, n);
        lemma_mod_twice(pow(last as int, key.e), n);
        lemma_mul_mod_noop_general(
            pow(product_of(front) as int, key.e),
            pow(last as int, key.e),
            n,
        );
        lemma_pow_distributes(product_of(front) as int, last as int, key.e);
    }
}

/// Folding multiplies: for valid key material, the ciphertexts of any
/// non-empty sequence of plaintexts, multiplied together from the left,
/// decrypt to the product of the plaintexts modulo `n`.
pub proof fn lemma_rsa_fold_multiplies(key: RsaKeyModel, ms: Seq<nat>, cs: Seq<CiphertextModel>)
    requires
        key.valid(),
        ms.len() == cs.len(),
        ms.len() > 0,
        forall|i: int| 0 <= i < cs.len() ==> #[trigger] cs[i] == key.ciphertext(ms[i]),
    ensures
        key.decrypt(fold_ciphertexts(cs).value) == product_of(ms) % key.n,
{
    lemma_mul_strictly_positive(key.p as int, key.q as int);
    lemma_rsa_fold_is_power(key, ms, cs);
    lemma_rsa_decrypts_power(key, fold_ciphertexts(cs).value, product_of(ms));
}

} // verus!
