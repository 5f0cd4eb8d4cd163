//! Textbook RSA and Paillier over arbitrary-precision unsigned integers,
//! with machine-checked proofs that decryption undoes encryption and that
//! products of ciphertexts decrypt to products (RSA) and sums (Paillier) of
//! plaintexts.
//!
//! * [`rsa_pure`]: RSA keys, encryption, decryption, ciphertext products.
//! * [`paillier_pure`]: Paillier keys, encryption, decryption, ciphertext
//!   products.
//! * [`sampler`]: the bounded rejection sampler that draws Paillier's
//!   randomizer.
//! * [`traits`]: plaintexts as big integers or as big-endian bytes.
//! * [`errors`]: what construction and sampling report.
//! * [`bignum`]: the contracts assumed of `num_bigint::BigUint`.
//! * [`arith`]: the number theory that the proofs rest on.
//!
//! Neither scheme pads or authenticates: this is the arithmetic of the two
//! schemes, not a way to keep secrets.

use vstd::prelude::*;

pub mod arith;
pub mod bignum;
pub mod errors;
pub mod paillier_pure;
pub mod rsa_pure;
pub mod sampler;
pub mod traits;

verus! {

/// The public exponent shared by every RSA key.
pub const DEFAULT_E: u32 = 65537;

/// The bit length of the modulus that key generation is asked for.
pub const KEY_SIZE: usize = 2048;

} // verus!
