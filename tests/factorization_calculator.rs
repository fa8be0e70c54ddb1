use libprimes::error::{Diagnosable, PrimesError};
use libprimes::factorization::{FactorizationCalculator, DEFAULT_MAX_DIVISOR, DEFAULT_THRESHOLD};
use libprimes::sieve::SieveCalculator;

fn product(f: &[(u64, u64)]) -> u128 {
    let mut p: u128 = 1;
    for &(q, m) in f {
        for _ in 0..m {
            p *= q as u128;
        }
    }
    p
}

fn is_prime_slow(n: u64) -> bool {
    n >= 2 && (2..n).take_while(|d| d * d <= n).all(|d| n % d != 0)
}

fn check_decomposition(n: u64, f: &[(u64, u64)]) {
    assert_eq!(product(f), n as u128, "n = {}", n);
    for w in f.windows(2) {
        assert!(w[0].0 < w[1].0);
    }
    for &(p, m) in f {
        assert!(m >= 1);
        if p < 1_000_000 {
            assert!(is_prime_slow(p), "{} is not prime", p);
        }
    }
}

#[test]
fn defaults() {
    let c = FactorizationCalculator::new();
    assert_eq!(c.max_trial_divisor(), DEFAULT_MAX_DIVISOR);
    assert_eq!(c.sieve_threshold(), DEFAULT_THRESHOLD);
    assert_eq!(c.last_error(), None);
}

#[test]
fn factorize_360() {
    let mut c = FactorizationCalculator::new();
    assert_eq!(c.factorize(360), Ok(vec![(2, 3), (3, 2), (5, 1)]));
}

#[test]
fn factorize_one_is_empty() {
    let mut c = FactorizationCalculator::new();
    assert_eq!(c.factorize(1), Ok(vec![]));
}

#[test]
fn factorize_zero_is_invalid() {
    let mut c = FactorizationCalculator::new();
    assert_eq!(c.factorize(0), Err(PrimesError::InvalidArgument));
    assert_eq!(c.last_error(), Some(PrimesError::InvalidArgument.message()));
}

#[test]
fn product_of_factors_is_the_input() {
    let mut c = FactorizationCalculator::new();
    for n in 1..=5000u64 {
        let f = c.factorize(n).unwrap();
        check_decomposition(n, &f);
    }
}

#[test]
fn factorize_primes_and_large_values() {
    let mut c = FactorizationCalculator::new();
    assert_eq!(c.factorize(2), Ok(vec![(2, 1)]));
    assert_eq!(c.factorize(97), Ok(vec![(97, 1)]));
    assert_eq!(c.factorize(1_000_000_007), Ok(vec![(1_000_000_007, 1)]));
    assert_eq!(c.factorize(999_983 * 1_000_003), Ok(vec![(999_983, 1), (1_000_003, 1)]));
    assert_eq!(c.factorize(1 << 63), Ok(vec![(2, 63)]));
    assert_eq!(
        c.factorize(u64::MAX),
        Ok(vec![(3, 1), (5, 1), (17, 1), (257, 1), (641, 1), (65537, 1), (6700417, 1)])
    );
}

#[test]
fn factorize_with_sieve_agrees() {
    let mut c = FactorizationCalculator::with_config(DEFAULT_MAX_DIVISOR, 100);
    let mut s = SieveCalculator::new();
    for n in 1..=3000u64 {
        assert_eq!(c.factorize_with_sieve(n, &mut s), c.factorize(n), "n = {}", n);
    }
    assert_eq!(s.current_limit(), 100);
    assert_eq!(c.factorize_with_sieve(360, &mut s), Ok(vec![(2, 3), (3, 2), (5, 1)]));
    assert_eq!(c.factorize_with_sieve(0, &mut s), Err(PrimesError::InvalidArgument));
    assert_eq!(
        c.factorize_with_sieve(999_983 * 1_000_003, &mut s),
        Ok(vec![(999_983, 1), (1_000_003, 1)])
    );
}

#[test]
fn factorize_with_sieve_extends_it() {
    let mut c = FactorizationCalculator::new();
    let mut s = SieveCalculator::with_ceiling(50);
    assert_eq!(c.factorize_with_sieve(2 * 3 * 47 * 47, &mut s), Ok(vec![(2, 1), (3, 1), (47, 2)]));
    assert_eq!(s.current_limit(), 50);
    assert_eq!(s.last_error(), None);
}

#[test]
fn budget_exceeded_is_resource_exhausted() {
    let mut c = FactorizationCalculator::with_config(10, 10);
    assert_eq!(c.factorize(113), Ok(vec![(113, 1)]));
    assert_eq!(c.factorize(120), Ok(vec![(2, 3), (3, 1), (5, 1)]));
    assert_eq!(c.factorize(143), Err(PrimesError::ResourceExhausted));
    assert!(!c.last_error().unwrap().is_empty());
    assert_eq!(c.factorize(120), Ok(vec![(2, 3), (3, 1), (5, 1)]));
    assert_eq!(c.last_error(), None);
    let mut s = SieveCalculator::new();
    assert_eq!(c.factorize_with_sieve(143, &mut s), Err(PrimesError::ResourceExhausted));
}
