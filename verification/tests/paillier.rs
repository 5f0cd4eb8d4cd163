use homomorphic_encryption_analysis::errors::{KeyConstructionError, SamplingExhaustedError};
use homomorphic_encryption_analysis::paillier_pure::PaillierKeys;
use num_bigint::BigUint;
use num_integer::Integer;

fn pl(x: u64) -> BigUint {
    BigUint::from(x)
}

fn digits(text: &str) -> BigUint {
    BigUint::parse_bytes(text.as_bytes(), 10).unwrap()
}

fn small_paillier() -> PaillierKeys {
    PaillierKeys::new(&pl(11), &pl(13)).unwrap()
}

/// Two Mersenne primes, 2^61 - 1 and 2^89 - 1.
fn large_paillier() -> PaillierKeys {
    let p = (BigUint::from(1u8) << 61usize) - 1u32;
    let q = (BigUint::from(1u8) << 89usize) - 1u32;
    PaillierKeys::new(&p, &q).unwrap()
}

#[test]
fn paillier_new_derives_every_field() {
    let keys = small_paillier();
    assert_eq!(keys.p, pl(11));
    assert_eq!(keys.q, pl(13));
    assert_eq!(keys.n, pl(143));
    assert_eq!(keys.n2, pl(20449));
    assert_eq!(keys.lambda, pl(60));
    assert_eq!(keys.g, pl(144));
    assert_eq!(keys.mi, pl(31));
}

#[test]
fn paillier_new_under_large_primes() {
    let keys = large_paillier();
    assert_eq!(keys.n, digits("1427247692705959880439315947500961989719490561"));
    assert_eq!(keys.n2, &keys.n * &keys.n);
    assert_eq!(keys.lambda, digits("47574923090198662660678197518414294768541150"));
    assert_eq!(keys.g, &keys.n + 1u32);
    assert!(keys.mi < keys.n);
    assert_eq!((&keys.lambda % &keys.n) * &keys.mi % &keys.n, pl(1));
}

#[test]
fn paillier_l_is_the_rounded_quotient() {
    let keys = small_paillier();
    assert_eq!(keys.l(&pl(8581)), pl(60));
    assert_eq!(keys.l(&pl(1)), pl(0));
    assert_eq!(keys.l(&pl(143)), pl(0));
    assert_eq!(keys.l(&pl(144)), pl(1));
    assert_eq!(keys.l(&pl(20448)), pl(142));
}

#[test]
fn paillier_encrypt_with_gives_the_known_ciphertext() {
    let keys = small_paillier();
    assert_eq!(keys.encrypt_with(&pl(42), &pl(7)), pl(19021));
    assert_eq!(keys.encrypt_with(&pl(100), &pl(2)), pl(2230));
    assert_eq!(keys.encrypt_with(&pl(0), &pl(1)), pl(1));
}

#[test]
fn paillier_decrypt_gives_the_known_plaintext() {
    let keys = small_paillier();
    assert_eq!(keys.decrypt(pl(19021)), pl(42));
    assert_eq!(keys.decrypt(pl(2230)), pl(100));
    assert_eq!(keys.decrypt(pl(1)), pl(0));
}

#[test]
fn paillier_decrypt_of_a_ciphertext_whose_power_vanishes() {
    // 0^60 mod n^2 is 0, L(0) is -1, and -31 mod 143 is 112.
    let keys = small_paillier();
    assert_eq!(keys.decrypt(pl(0)), pl(112));
    assert_eq!(keys.decrypt(pl(143)), pl(112));
}

#[test]
fn paillier_round_trip_with_every_chosen_randomizer() {
    let keys = small_paillier();
    for r in 1..143u64 {
        if pl(r).gcd(&keys.n) == pl(1) {
            for m in [0u64, 1, 2, 42, 100, 141, 142] {
                let c = keys.encrypt_with(&pl(m), &pl(r));
                assert!(c < keys.n2);
                assert_eq!(keys.decrypt(c), pl(m));
            }
        }
    }
}

#[test]
fn paillier_round_trip_of_every_plaintext_below_the_modulus() {
    let keys = small_paillier();
    for m in 0..143u64 {
        let c = keys.encrypt(pl(m)).unwrap();
        assert!(c < keys.n2);
        assert_eq!(keys.decrypt(c), pl(m));
    }
}

#[test]
fn paillier_round_trip_under_a_large_key() {
    let keys = large_paillier();
    let m = digits("123456789012345678901234567890");
    let c = keys.encrypt(m.clone()).unwrap();
    assert_eq!(keys.decrypt(c), m);
}

#[test]
fn paillier_plaintext_at_or_above_the_modulus_decrypts_to_its_residue() {
    let keys = small_paillier();
    assert_eq!(keys.decrypt(keys.encrypt_with(&pl(143 + 42), &pl(7))), pl(42));
    assert_eq!(keys.decrypt(keys.encrypt(pl(143)).unwrap()), pl(0));
    assert_eq!(keys.decrypt(keys.encrypt(pl(1000)).unwrap()), pl(1000 % 143));
}

#[test]
fn paillier_product_of_ciphertexts_decrypts_to_sum_of_plaintexts() {
    let keys = small_paillier();
    let c1 = keys.encrypt_with(&pl(42), &pl(7));
    let c2 = keys.encrypt_with(&pl(100), &pl(2));
    let product = keys.combine(&c1, &c2);
    assert_eq!(product, pl(19021 * 2230 % 20449));
    assert_eq!(keys.decrypt(product), pl(142));
    for (m1, m2) in [(0u64, 0u64), (1, 142), (100, 100), (142, 142), (2, 33)] {
        let a = keys.encrypt(pl(m1)).unwrap();
        let b = keys.encrypt(pl(m2)).unwrap();
        assert_eq!(keys.decrypt(keys.combine(&a, &b)), pl((m1 + m2) % 143));
        assert_eq!(keys.decrypt(a * b), pl((m1 + m2) % 143));
    }
}

#[test]
fn paillier_fold_of_one_to_hundred_decrypts_to_the_sum() {
    let keys = large_paillier();
    let mut folded = keys.encrypt(pl(1)).unwrap();
    for i in 2..=100u64 {
        folded = keys.combine(&folded, &keys.encrypt(pl(i)).unwrap());
    }
    assert_eq!(keys.decrypt(folded), pl(5050));
}

#[test]
fn paillier_fold_under_a_small_key_wraps() {
    let keys = small_paillier();
    let mut folded = keys.encrypt(pl(1)).unwrap();
    for i in 2..=100u64 {
        folded = keys.combine(&folded, &keys.encrypt(pl(i)).unwrap());
    }
    assert_eq!(keys.decrypt(folded), pl(5050 % 143));
    assert_eq!(5050 % 143, 45);
}

#[test]
fn paillier_two_encryptions_of_one_plaintext_differ() {
    let keys = large_paillier();
    let a = keys.encrypt(pl(2)).unwrap();
    let b = keys.encrypt(pl(2)).unwrap();
    assert_ne!(a, b);
    assert_eq!(keys.decrypt(a), pl(2));
    assert_eq!(keys.decrypt(b), pl(2));
}

#[test]
fn paillier_encrypt_uses_a_randomizer_coprime_to_the_modulus() {
    // c = g^m * r^n, so c^lambda is 1 + m * lambda * n modulo n^2 only for
    // a randomizer coprime to n.
    let keys = small_paillier();
    for _ in 0..50 {
        let c = keys.encrypt(pl(5)).unwrap();
        let power = c.modpow(&keys.lambda, &keys.n2);
        assert_eq!(power, (pl(1) + pl(5) * &keys.lambda * &keys.n) % &keys.n2);
    }
}

#[test]
fn paillier_construction_fails_without_an_inverse() {
    // n = 21, lambda = 6, L(g^lambda mod n^2) = 6, gcd(6, 21) = 3.
    assert!(matches!(PaillierKeys::new(&pl(3), &pl(7)), Err(KeyConstructionError)));
    assert!(PaillierKeys::new(&pl(2), &pl(3)).is_err());
    assert!(PaillierKeys::new(&pl(2), &pl(5)).is_err());
}

#[test]
fn paillier_construction_fails_below_two() {
    assert!(PaillierKeys::new(&pl(0), &pl(13)).is_err());
    assert!(PaillierKeys::new(&pl(13), &pl(0)).is_err());
    assert!(PaillierKeys::new(&pl(1), &pl(13)).is_err());
    assert!(PaillierKeys::new(&pl(13), &pl(1)).is_err());
    assert!(PaillierKeys::new(&pl(1), &pl(1)).is_err());
}

#[test]
fn paillier_construction_succeeds_for_small_primes() {
    let keys = PaillierKeys::new(&pl(3), &pl(5)).unwrap();
    assert_eq!(keys.n, pl(15));
    assert_eq!(keys.lambda, pl(4));
    assert_eq!(keys.mi, pl(4));
    let c = keys.encrypt_with(&pl(7), &pl(2));
    assert_eq!(keys.decrypt(c), pl(7));
}

#[test]
fn paillier_encrypt_reports_an_empty_candidate_range() {
    let keys = PaillierKeys {
        p: pl(2),
        q: pl(1),
        n: pl(2),
        n2: pl(4),
        lambda: pl(1),
        g: pl(3),
        mi: pl(1),
    };
    assert_eq!(keys.encrypt(pl(1)), Err(SamplingExhaustedError { attempts: 0 }));
}

fn odd_primes() -> Vec<u64> {
    let mut found: Vec<u64> = vec![2];
    for candidate in 3..100u64 {
        if found.iter().all(|p| candidate % p != 0) {
            found.push(candidate);
        }
    }
    found.remove(0);
    found
}

#[test]
fn paillier_construction_succeeds_for_balanced_primes() {
    let primes = odd_primes();
    for p in &primes {
        for q in &primes {
            if p != q && *p < 2 * q && *q < 2 * p {
                let keys = PaillierKeys::new(&pl(*p), &pl(*q)).unwrap();
                let n = p * q;
                assert_eq!(keys.n, pl(n));
                assert_eq!((&keys.lambda % &keys.n) * &keys.mi % &keys.n, pl(1));
                for m in [0, 1, n / 2, n - 1] {
                    assert_eq!(keys.decrypt(keys.encrypt(pl(m)).unwrap()), pl(m));
                }
            }
        }
    }
}

#[test]
fn paillier_construction_fails_exactly_without_an_inverse() {
    let primes = odd_primes();
    for p in &primes {
        for q in &primes {
            if p != q {
                let n = pl(p * q);
                let lambda = pl(p - 1).lcm(&pl(q - 1));
                let invertible = (lambda % &n).gcd(&n) == pl(1);
                assert_eq!(PaillierKeys::new(&pl(*p), &pl(*q)).is_ok(), invertible);
            }
        }
    }
}

#[test]
fn paillier_sum_law_for_every_pair_of_plaintexts() {
    let keys = PaillierKeys::new(&pl(3), &pl(5)).unwrap();
    for m1 in 0..15u64 {
        for m2 in 0..15u64 {
            let c1 = keys.encrypt(pl(m1)).unwrap();
            let c2 = keys.encrypt(pl(m2)).unwrap();
            assert_eq!(keys.decrypt(keys.combine(&c1, &c2)), pl((m1 + m2) % 15));
        }
    }
}

#[test]
fn paillier_every_number_decrypts_to_something() {
    let keys = PaillierKeys::new(&pl(3), &pl(5)).unwrap();
    for c in 0..(225u64 + 30) {
        let m = keys.decrypt(pl(c));
        assert!(m < keys.n);
        assert_eq!(keys.decrypt(pl(c % 225)), m);
    }
    // 15^2 divides 15^4, so the power vanishes, L is -1 and -4 mod 15 is 11.
    assert_eq!(keys.mi, pl(4));
    assert_eq!(keys.decrypt(pl(15)), pl(11));
}

#[test]
fn paillier_distinct_randomizers_give_distinct_ciphertexts() {
    let keys = small_paillier();
    for m in [0u64, 1, 42, 142] {
        let mut seen: Vec<BigUint> = Vec::new();
        for r in 1..143u64 {
            if pl(r).gcd(&keys.n) == pl(1) {
                let c = keys.encrypt_with(&pl(m), &pl(r));
                assert!(!seen.contains(&c));
                seen.push(c);
            }
        }
        assert_eq!(seen.len(), 120);
    }
}
