use homomorphic_encryption_analysis::errors::SamplingExhaustedError;
use homomorphic_encryption_analysis::sampler::{
    first_coprime, get_coprime, is_coprime, DEFAULT_ATTEMPTS,
};
use num_bigint::BigUint;
use num_integer::Integer;

fn num(x: u64) -> BigUint {
    BigUint::from(x)
}

fn nums(xs: &[u64]) -> Vec<BigUint> {
    xs.iter().map(|x| BigUint::from(*x)).collect()
}

#[test]
fn sampler_default_bound_is_sixty_four() {
    assert_eq!(DEFAULT_ATTEMPTS, 64);
}

#[test]
fn is_coprime_agrees_with_the_gcd() {
    assert!(is_coprime(&num(9), &num(20)));
    assert!(!is_coprime(&num(6), &num(20)));
    assert!(is_coprime(&num(1), &num(20)));
    assert!(!is_coprime(&num(0), &num(20)));
    assert!(is_coprime(&num(0), &num(1)));
    assert!(is_coprime(&num(1), &num(0)));
    assert!(!is_coprime(&num(0), &num(0)));
    assert!(!is_coprime(&num(20), &num(20)));
}

#[test]
fn sampler_succeeds_below_a_prime_modulus() {
    for _ in 0..200 {
        let r = get_coprime(&num(101), Some(1)).unwrap();
        assert!(num(2) <= r && r < num(101));
    }
    let r = get_coprime(&num(3), None).unwrap();
    assert_eq!(r, num(2));
}

#[test]
fn sampler_result_is_in_range_and_coprime() {
    let modulus = num(2 * 3 * 5 * 7 * 11 * 13);
    for _ in 0..200 {
        match get_coprime(&modulus, None) {
            Ok(r) => {
                assert!(num(2) <= r && r < modulus);
                assert_eq!(r.gcd(&modulus), num(1));
            }
            Err(e) => assert_eq!(e, SamplingExhaustedError { attempts: 64 }),
        }
    }
}

#[test]
fn sampler_finds_the_single_coprime_residue() {
    // Of 2, 3, 4, 5 only 5 is coprime to 6.
    assert_eq!(get_coprime(&num(6), None), Ok(num(5)));
}

#[test]
fn sampler_with_one_attempt_either_succeeds_or_reports_one() {
    for _ in 0..100 {
        match get_coprime(&num(6), Some(1)) {
            Ok(r) => assert_eq!(r, num(5)),
            Err(e) => assert_eq!(e.attempts, 1),
        }
    }
}

#[test]
fn sampler_fails_with_no_attempts() {
    assert_eq!(get_coprime(&num(101), Some(0)), Err(SamplingExhaustedError { attempts: 0 }));
}

#[test]
fn sampler_fails_on_an_empty_range() {
    for modulus in 0..=2u64 {
        assert_eq!(get_coprime(&num(modulus), None), Err(SamplingExhaustedError { attempts: 0 }));
        assert_eq!(
            get_coprime(&num(modulus), Some(200)),
            Err(SamplingExhaustedError { attempts: 0 })
        );
    }
}

#[test]
fn first_coprime_picks_the_first_acceptable_candidate() {
    let picked = first_coprime(&nums(&[2, 3, 4, 5, 7]), &num(6));
    assert_eq!(picked, Ok(num(5)));
    let picked = first_coprime(&nums(&[9, 3]), &num(20));
    assert_eq!(picked, Ok(num(9)));
}

#[test]
fn first_coprime_is_exhausted_when_every_candidate_collides() {
    let draws = nums(&[2, 3, 4, 2, 3, 4, 2, 3, 4]);
    assert_eq!(first_coprime(&draws, &num(6)), Err(SamplingExhaustedError { attempts: 9 }));
    assert_eq!(first_coprime(&nums(&[]), &num(6)), Err(SamplingExhaustedError { attempts: 0 }));
}

#[test]
fn first_coprime_skips_candidates_out_of_range() {
    // 1 and 7 are coprime to 6 but lie outside [2, 6).
    assert_eq!(first_coprime(&nums(&[0, 1, 7, 6, 11]), &num(6)), Err(SamplingExhaustedError { attempts: 5 }));
    assert_eq!(first_coprime(&nums(&[1, 7, 5]), &num(6)), Ok(num(5)));
}

#[test]
fn sampler_succeeds_at_the_first_draw_below_every_small_prime() {
    for prime in [3u64, 5, 7, 11, 13, 17, 19, 23, 29, 31, 37, 9973] {
        for _ in 0..20 {
            let r = get_coprime(&num(prime), Some(1)).unwrap();
            assert!(num(2) <= r && r < num(prime));
        }
    }
}
