//! Behavioral tests for `factor` and `largest_prime_factor`.

use prime_factors::{factor, largest_prime_factor, FactorError};

#[test]
fn test_zero() {
    assert!(matches!(factor(0), Err(FactorError::InvalidArgument)));
}

#[test]
fn test_one() {
    let expected: Vec<(u32, u32)> = Vec::new();
    let actual = factor(1).unwrap();
    assert_eq!(expected, actual.entries());
}

#[test]
fn test_two() {
    let expected = vec![(2, 1)];
    let actual = factor(2).unwrap();
    assert_eq!(expected, actual.entries());
}

#[test]
fn test_four() {
    let expected = vec![(2, 2)];
    let actual = factor(4).unwrap();
    assert_eq!(expected, actual.entries());
}

#[test]
fn test_six() {
    let expected = vec![(2, 1), (3, 1)];
    let actual = factor(6).unwrap();
    assert_eq!(expected, actual.entries());
}

#[test]
fn test_power() {
    let expected = vec![(2, 31)];
    let actual = factor(1 << 31).unwrap();
    assert_eq!(expected, actual.entries());
}

#[test]
fn test_32bit_overflow() {
    let p1 = 65521_u32;
    let p2 = 65551_u32;

    let expected = vec![(p1, 1), (p2, 1)];

    let actual = factor(p1 * p2).unwrap();

    assert_eq!(expected, actual.entries());
}

#[test]
fn mixed_small_factors() {
    let expected = vec![(2, 3), (3, 2), (5, 1)];
    let actual = factor(360).unwrap();
    assert_eq!(expected, actual.entries());
}

#[test]
fn prime_below_trial_bound_squared() {
    let expected = vec![(997, 1)];
    let actual = factor(997).unwrap();
    assert_eq!(expected, actual.entries());
}

#[test]
fn large_prime_input() {
    let expected = vec![(4294967291, 1)];
    let actual = factor(4294967291).unwrap();
    assert_eq!(expected, actual.entries());
}

#[test]
fn square_of_prime_above_trial_bound() {
    // both halves of the rho split are the same prime, so its multiplicity
    // must accumulate to 2
    let expected = vec![(101, 2)];
    let actual = factor(101 * 101).unwrap();
    assert_eq!(expected, actual.entries());
}

#[test]
fn several_primes_above_trial_bound() {
    let expected = vec![(101, 1), (103, 1), (107, 1), (109, 1)];
    let actual = factor(101 * 103 * 107 * 109).unwrap();
    assert_eq!(expected, actual.entries());
}

#[test]
fn small_and_large_factors_together() {
    let expected = vec![(2, 2), (3, 1), (65521, 1)];
    let actual = factor(4 * 3 * 65521).unwrap();
    assert_eq!(expected, actual.entries());
}

#[test]
fn product_of_entries_restores_input() {
    for n in [1u32, 2, 6, 97, 360, 1 << 20, 9999991, 4294967071] {
        let entries = factor(n).unwrap().entries();
        let mut product: u64 = 1;
        for (p, e) in entries {
            for _ in 0..e {
                product *= u64::from(p);
            }
        }
        assert_eq!(u64::from(n), product);
    }
}

#[test]
fn keys_are_prime_and_increasing() {
    for n in [2u32, 24, 350, 1001, 65521 * 3, 4294967071] {
        let entries = factor(n).unwrap().entries();
        for i in 0..entries.len() {
            let (p, e) = entries[i];
            assert!(e >= 1);
            assert!(p >= 2);
            let mut d = 2u64;
            while d * d <= u64::from(p) {
                assert_ne!(u64::from(p) % d, 0, "key {} of {} is not prime", p, n);
                d += 1;
            }
            if i > 0 {
                assert!(entries[i - 1].0 < p);
            }
        }
    }
}

#[test]
fn largest_prime_factor_fails_on_zero() {
    assert!(matches!(largest_prime_factor(0), Err(FactorError::InvalidArgument)));
}

#[test]
fn largest_prime_factor_of_one_is_none() {
    assert_eq!(largest_prime_factor(1).unwrap(), None);
}

#[test]
fn largest_prime_factor_matches_last_key() {
    for n in [2u32, 6, 360, 997, 65521 * 65551, 101 * 101] {
        let last_key = factor(n).unwrap().entries().last().map(|&(p, _)| p);
        assert_eq!(largest_prime_factor(n).unwrap(), last_key);
    }
    assert_eq!(largest_prime_factor(6).unwrap(), Some(3));
    assert_eq!(largest_prime_factor(65521 * 65551).unwrap(), Some(65551));
}
