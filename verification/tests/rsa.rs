use homomorphic_encryption_analysis::errors::KeyConstructionError;
use homomorphic_encryption_analysis::rsa_pure::{Ciphertext, RsaKeys};
use homomorphic_encryption_analysis::DEFAULT_E;
use num_bigint::BigUint;

fn big(x: u64) -> BigUint {
    BigUint::from(x)
}

fn dec(digits: &str) -> BigUint {
    BigUint::parse_bytes(digits.as_bytes(), 10).unwrap()
}

fn small_keys() -> RsaKeys {
    RsaKeys::new(big(61), big(53)).unwrap()
}

/// Two Mersenne primes, 2^61 - 1 and 2^89 - 1.
fn large_keys() -> RsaKeys {
    let p = (BigUint::from(1u8) << 61usize) - 1u32;
    let q = (BigUint::from(1u8) << 89usize) - 1u32;
    RsaKeys::new(p, q).unwrap()
}

#[test]
fn rsa_new_derives_the_classic_key() {
    let keys = small_keys();
    assert_eq!(keys.p, big(61));
    assert_eq!(keys.q, big(53));
    assert_eq!(keys.n, big(3233));
    assert_eq!(keys.e, big(65537));
    assert_eq!(keys.d, big(2753));
}

#[test]
fn rsa_public_exponent_is_the_fixed_one() {
    assert_eq!(DEFAULT_E, 65537);
    assert_eq!(large_keys().e, BigUint::from(DEFAULT_E));
}

#[test]
fn rsa_private_exponent_inverts_the_public_one() {
    let keys = large_keys();
    let one = BigUint::from(1u8);
    let totient = (&keys.p - &one) * (&keys.q - &one);
    assert_eq!(keys.n, &keys.p * &keys.q);
    assert!(keys.d < totient);
    assert_eq!((&keys.e * &keys.d) % &totient, one);
    assert_eq!(keys.d, dec("740443132154395775117746638826656402702473"));
}

#[test]
fn rsa_encrypt_gives_the_known_ciphertext() {
    let keys = small_keys();
    assert_eq!(keys.encrypt(big(65)), big(2790));
}

#[test]
fn rsa_decrypt_gives_the_known_plaintext() {
    let keys = small_keys();
    assert_eq!(keys.decrypt(&big(2790)), big(65));
}

#[test]
fn rsa_round_trip_of_every_plaintext_below_the_modulus() {
    let keys = small_keys();
    for m in 0..3233u64 {
        let c = keys.encrypt(big(m));
        assert!(c < keys.n);
        assert_eq!(keys.decrypt(&c), big(m));
    }
}

#[test]
fn rsa_round_trip_under_a_large_key() {
    let keys = large_keys();
    let m = dec("123456789012345678901234567890");
    let c = keys.encrypt(m.clone());
    assert_eq!(c, dec("523984720227238920971428624632008030284583010"));
    assert_eq!(keys.decrypt(&c), m);
}

#[test]
fn rsa_encryption_is_deterministic() {
    let keys = large_keys();
    assert_eq!(keys.encrypt(big(424242)), keys.encrypt(big(424242)));
}

#[test]
fn rsa_bytes_are_read_big_endian() {
    let keys = large_keys();
    let from_bytes = keys.encrypt(&b"Hello world!"[..]);
    let from_number = keys.encrypt(dec("22405534230753963835153736737"));
    assert_eq!(from_bytes, from_number);
    assert_eq!(keys.decrypt(&from_bytes).to_bytes_be(), b"Hello world!".to_vec());
}

#[test]
fn rsa_single_byte_and_empty_bytes() {
    let keys = small_keys();
    assert_eq!(keys.encrypt(&b"A"[..]), big(2790));
    assert_eq!(keys.encrypt(&b""[..]), big(0));
    assert_eq!(keys.encrypt(&[1u8, 0u8][..]), keys.encrypt(big(256)));
}

#[test]
fn rsa_plaintext_at_or_above_the_modulus_wraps() {
    let keys = small_keys();
    assert_eq!(keys.encrypt(big(65 + 3233)), big(2790));
    assert_eq!(keys.decrypt(&keys.encrypt(big(3233))), big(0));
    assert_eq!(keys.decrypt(&keys.encrypt(big(2 * 3233 + 7))), big(7));
}

#[test]
fn rsa_every_number_decrypts_to_something() {
    let keys = small_keys();
    assert_eq!(keys.decrypt(&big(0)), big(0));
    assert_eq!(keys.decrypt(&big(1)), big(1));
    assert!(keys.decrypt(&big(99999)) < keys.n);
}

#[test]
fn rsa_product_of_ciphertexts_decrypts_to_product_of_plaintexts() {
    let keys = small_keys();
    for (m1, m2) in [(2u64, 3u64), (65, 100), (0, 17), (1, 3232), (3232, 3232), (1500, 2000)] {
        let c1 = Ciphertext::new(keys.encrypt(big(m1)), &keys.n);
        let c2 = Ciphertext::new(keys.encrypt(big(m2)), &keys.n);
        let product = c1 * c2;
        assert_eq!(product.n, keys.n);
        assert_eq!(keys.decrypt(&product.value), big((m1 * m2) % 3233));
    }
}

#[test]
fn rsa_fold_of_one_to_hundred_decrypts_to_the_factorial() {
    let keys = large_keys();
    let mut folded = Ciphertext::new(keys.encrypt(big(1)), &keys.n);
    let mut factorial = big(1);
    for i in 2..=100u64 {
        let next = Ciphertext::new(keys.encrypt(big(i)), &keys.n);
        folded = folded * &next;
        factorial = factorial * big(i);
    }
    let expected = dec("772086220101522659510547206658920683519354383");
    assert_eq!(factorial % &keys.n, expected);
    assert_eq!(keys.decrypt(&folded.value), expected);
}

#[test]
fn rsa_fold_under_a_small_key_hits_zero() {
    let keys = small_keys();
    let mut folded = Ciphertext::new(keys.encrypt(big(1)), &keys.n);
    for i in 2..=100u64 {
        folded = folded * Ciphertext::new(keys.encrypt(big(i)), &keys.n);
    }
    assert_eq!(keys.decrypt(&folded.value), big(0));
}

#[test]
fn ciphertext_new_keeps_value_and_modulus() {
    let n = big(3233);
    let c = Ciphertext::new(big(2790), &n);
    assert_eq!(c.value, big(2790));
    assert_eq!(c.n, big(3233));
    let copy = c.clone();
    assert_eq!(copy.value, c.value);
    assert_eq!(copy.n, c.n);
}

#[test]
fn ciphertext_product_is_reduced_by_the_left_modulus() {
    let left = Ciphertext::new(big(10), &big(7));
    let right = Ciphertext::new(big(5), &big(1000));
    let by_value = left.clone() * right.clone();
    assert_eq!(by_value.value, big(1));
    assert_eq!(by_value.n, big(7));
    let by_reference = left * &right;
    assert_eq!(by_reference.value, big(1));
    assert_eq!(by_reference.n, big(7));
    let swapped = right * Ciphertext::new(big(10), &big(7));
    assert_eq!(swapped.value, big(50));
    assert_eq!(swapped.n, big(1000));
}

#[test]
fn rsa_construction_fails_when_the_exponent_divides_the_totient() {
    // 917519 = 14 * 65537 + 1 is prime.
    assert_eq!((917519u64 - 1) % 65537, 0);
    assert!(matches!(RsaKeys::new(big(917519), big(61)), Err(KeyConstructionError)));
    assert!(matches!(RsaKeys::new(big(61), big(917519)), Err(KeyConstructionError)));
}

#[test]
fn rsa_construction_fails_below_two() {
    assert!(RsaKeys::new(big(0), big(61)).is_err());
    assert!(RsaKeys::new(big(61), big(0)).is_err());
    assert!(RsaKeys::new(big(1), big(61)).is_err());
    assert!(RsaKeys::new(big(61), big(1)).is_err());
    assert!(RsaKeys::new(big(0), big(0)).is_err());
}

#[test]
fn rsa_construction_succeeds_for_the_smallest_primes() {
    let keys = RsaKeys::new(big(2), big(3)).unwrap();
    assert_eq!(keys.n, big(6));
    assert_eq!(keys.d, big(1));
    let twins = RsaKeys::new(big(2), big(2)).unwrap();
    assert_eq!(twins.n, big(4));
    assert_eq!(twins.d, big(0));
}

fn small_primes() -> Vec<u64> {
    let mut found: Vec<u64> = Vec::new();
    for candidate in 2..60u64 {
        if found.iter().all(|p| candidate % p != 0) {
            found.push(candidate);
        }
    }
    found
}

#[test]
fn rsa_round_trip_under_every_pair_of_small_primes() {
    let primes = small_primes();
    for p in &primes {
        for q in &primes {
            if p != q {
                let keys = RsaKeys::new(big(*p), big(*q)).unwrap();
                let n = p * q;
                let totient = (p - 1) * (q - 1);
                assert_eq!(keys.n, big(n));
                assert!(keys.d < big(totient));
                assert_eq!((&keys.e * &keys.d) % big(totient), big(1 % totient));
                for m in [0, 1, 2, n / 2, n - 2, n - 1] {
                    assert_eq!(keys.decrypt(&keys.encrypt(big(m))), big(m));
                }
            }
        }
    }
}

#[test]
fn rsa_product_law_for_every_pair_of_plaintexts() {
    let keys = RsaKeys::new(big(5), big(11)).unwrap();
    assert_eq!(keys.d, big(33));
    for m1 in 0..55u64 {
        for m2 in 0..55u64 {
            let c1 = Ciphertext::new(keys.encrypt(big(m1)), &keys.n);
            let c2 = Ciphertext::new(keys.encrypt(big(m2)), &keys.n);
            assert_eq!(keys.decrypt(&(c1 * c2).value), big(m1 * m2 % 55));
        }
    }
}

#[test]
fn rsa_decryption_is_a_permutation_of_the_residues() {
    let keys = RsaKeys::new(big(5), big(11)).unwrap();
    let mut seen = vec![false; 55];
    for c in 0..55u64 {
        let m = keys.decrypt(&big(c));
        assert!(m < keys.n);
        assert_eq!(keys.encrypt(m.clone()), big(c));
        let index = m.to_u64_digits().first().copied().unwrap_or(0) as usize;
        assert!(!seen[index]);
        seen[index] = true;
    }
}
