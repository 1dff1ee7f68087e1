use finite_curve::{extended_euclidean, is_prime, mod_inverse};

const LARGE_PRIME: u128 = 340282366920938463463374607431768211297;

fn plain_gcd(a: u128, b: u128) -> u128 {
    let mut x: u128 = a;
    let mut y: u128 = b;
    while y != 0 {
        let r: u128 = x % y;
        x = y;
        y = r;
    }
    x
}

#[test]
fn extended_euclidean_textbook_values() {
    assert_eq!(extended_euclidean(240, 46), (2, -9, 47));
    assert_eq!(extended_euclidean(46, 240), (2, 47, -9));
    assert_eq!(extended_euclidean(17, 5), (1, -2, 7));
}

#[test]
fn extended_euclidean_with_a_zero() {
    assert_eq!(extended_euclidean(0, 0), (0, 1, 0));
    assert_eq!(extended_euclidean(5, 0), (5, 1, 0));
    assert_eq!(extended_euclidean(0, 5), (5, 0, 1));
}

#[test]
fn extended_euclidean_of_equal_numbers() {
    assert_eq!(extended_euclidean(7, 7), (7, 0, 1));
    assert_eq!(extended_euclidean(u128::MAX, u128::MAX), (u128::MAX, 0, 1));
}

#[test]
fn extended_euclidean_at_the_top_of_the_range() {
    assert_eq!(extended_euclidean(u128::MAX, 1), (1, 0, 1));
    assert_eq!(extended_euclidean(1, u128::MAX), (1, 1, 0));
    assert_eq!(extended_euclidean(u128::MAX, u128::MAX - 1), (1, 1, -1));
    assert_eq!(extended_euclidean(u128::MAX, 1u128 << 127), (1, -1, 2));
    assert_eq!(
        extended_euclidean(LARGE_PRIME, 170141183460469231731687303715884118073),
        (
            1,
            -3396113606036168012351277823778764641,
            6792227212072336024702555647557528786
        )
    );
}

#[test]
fn extended_euclidean_satisfies_the_bezout_identity() {
    for a in 0u128..60 {
        for b in 0u128..60 {
            let (g, x, y) = extended_euclidean(a, b);
            assert_eq!(g, plain_gcd(a, b));
            assert_eq!((a as i128) * x + (b as i128) * y, g as i128);
        }
    }
}

#[test]
fn extended_euclidean_returns_small_coefficients() {
    for a in 1u128..80 {
        for b in 1u128..80 {
            let (g, x, y) = extended_euclidean(a, b);
            if a % b == 0 {
                assert_eq!((x, y), (0, 1));
            } else {
                assert!(2 * g * x.unsigned_abs() <= b);
                assert!(2 * g * y.unsigned_abs() <= a);
            }
        }
    }
}

#[test]
fn mod_inverse_round_trip_in_prime_fields() {
    let primes: Vec<u128> = vec![2, 3, 5, 7, 11, 13, 101, 257];
    for &p in primes.iter() {
        assert!(is_prime(p));
        for a in 1u128..p {
            let inv: u128 = mod_inverse(a, p).unwrap();
            assert!(inv < p);
            assert_eq!((a * inv) % p, 1);
        }
    }
}

#[test]
fn mod_inverse_of_zero_fails() {
    let primes: Vec<u128> = vec![2, 3, 5, 7, 11, 13, 101, LARGE_PRIME];
    for &p in primes.iter() {
        assert_eq!(mod_inverse(0, p), None);
    }
}

#[test]
fn mod_inverse_of_a_multiple_of_the_modulus_fails() {
    assert_eq!(mod_inverse(7, 7), None);
    assert_eq!(mod_inverse(21, 7), None);
}

#[test]
fn mod_inverse_named_values() {
    assert_eq!(mod_inverse(3, 7), Some(5));
    assert_eq!(mod_inverse(2, 7), Some(4));
    assert_eq!(mod_inverse(6, 7), Some(6));
    assert_eq!(mod_inverse(1, 7), Some(1));
    assert_eq!(mod_inverse(10, 7), Some(5));
}

#[test]
fn mod_inverse_with_a_composite_modulus() {
    assert_eq!(mod_inverse(4, 6), None);
    assert_eq!(mod_inverse(3, 6), None);
    assert_eq!(mod_inverse(5, 6), Some(5));
    assert_eq!(mod_inverse(3, 9), None);
    assert_eq!(mod_inverse(2, 9), Some(5));
}

#[test]
fn mod_inverse_modulo_one() {
    assert_eq!(mod_inverse(0, 1), Some(0));
    assert_eq!(mod_inverse(5, 1), Some(0));
}

#[test]
fn mod_inverse_exists_exactly_for_coprime_numbers() {
    for m in 1u128..40 {
        for a in 0u128..80 {
            assert_eq!(mod_inverse(a, m).is_some(), plain_gcd(a, m) == 1);
        }
    }
}

#[test]
fn mod_inverse_with_a_modulus_above_the_signed_range() {
    assert_eq!(
        mod_inverse(340282366920938463463374607431768210456, LARGE_PRIME),
        Some(50172429843277490451199109775908749347)
    );
    assert_eq!(
        mod_inverse((1u128 << 127) + 5, u128::MAX),
        Some(309347606291762239512158734028880192232)
    );
    assert_eq!(mod_inverse(LARGE_PRIME - 1, LARGE_PRIME), Some(LARGE_PRIME - 1));
}
