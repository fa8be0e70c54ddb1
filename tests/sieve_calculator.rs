use libprimes::error::{Diagnosable, PrimesError};
use libprimes::sieve::{SieveCalculator, DEFAULT_CEILING, MAX_CEILING};

fn by_trial_division(n: u64) -> bool {
    if n < 2 {
        return false;
    }
    let mut d: u64 = 2;
    while d * d <= n {
        if n % d == 0 {
            return false;
        }
        d += 1;
    }
    true
}

#[test]
fn new_sieve_classifies_zero_and_one() {
    let mut s = SieveCalculator::new();
    assert_eq!(s.current_limit(), 1);
    assert_eq!(s.max_limit(), DEFAULT_CEILING);
    assert_eq!(s.is_prime(0), Ok(false));
    assert_eq!(s.is_prime(1), Ok(false));
    assert_eq!(s.is_prime(2), Err(PrimesError::OutOfRange));
}

#[test]
fn ceiling_is_clamped() {
    assert_eq!(SieveCalculator::with_ceiling(0).max_limit(), 1);
    assert_eq!(SieveCalculator::with_ceiling(u64::MAX).max_limit(), MAX_CEILING);
    assert_eq!(SieveCalculator::with_ceiling(500).max_limit(), 500);
}

#[test]
fn is_prime_agrees_with_trial_division() {
    let mut s = SieveCalculator::new();
    assert_eq!(s.extend_to(10000), Ok(()));
    for n in 2..=10000u64 {
        assert_eq!(s.is_prime(n), Ok(by_trial_division(n)), "n = {}", n);
    }
}

#[test]
fn extending_in_steps_matches_extending_once() {
    let pairs: [(u64, u64); 5] = [(0, 50), (10, 10), (7, 1000), (100, 101), (2, 4000)];
    for (l1, l2) in pairs {
        let mut stepped = SieveCalculator::new();
        assert_eq!(stepped.extend_to(l1), Ok(()));
        assert_eq!(stepped.extend_to(l2), Ok(()));
        let mut direct = SieveCalculator::new();
        assert_eq!(direct.extend_to(l2), Ok(()));
        assert_eq!(stepped.current_limit(), direct.current_limit());
        assert_eq!(stepped.known_primes(), direct.known_primes());
        for n in 0..=l2 {
            assert_eq!(stepped.is_prime(n), direct.is_prime(n));
        }
    }
}

#[test]
fn extend_to_smaller_limit_is_a_no_op() {
    let mut s = SieveCalculator::new();
    assert_eq!(s.extend_to(100), Ok(()));
    assert_eq!(s.extend_to(0), Ok(()));
    assert_eq!(s.extend_to(1), Ok(()));
    assert_eq!(s.extend_to(50), Ok(()));
    assert_eq!(s.current_limit(), 100);
    assert_eq!(s.known_primes().len(), 25);
}

#[test]
fn primes_up_to_thirty() {
    let mut s = SieveCalculator::new();
    assert_eq!(s.primes_up_to(30), Ok(vec![2, 3, 5, 7, 11, 13, 17, 19, 23, 29]));
}

#[test]
fn primes_up_to_below_current_limit_truncates() {
    let mut s = SieveCalculator::new();
    assert_eq!(s.extend_to(1000), Ok(()));
    assert_eq!(s.primes_up_to(20), Ok(vec![2, 3, 5, 7, 11, 13, 17, 19]));
    assert_eq!(s.primes_up_to(1), Ok(vec![]));
    assert_eq!(s.primes_up_to(2), Ok(vec![2]));
    assert_eq!(s.current_limit(), 1000);
}

#[test]
fn primes_up_to_counts() {
    let mut s = SieveCalculator::new();
    assert_eq!(s.primes_up_to(100000).map(|v| v.len()), Ok(9592));
}

#[test]
fn nth_prime_first_and_sixth() {
    let mut s = SieveCalculator::new();
    assert_eq!(s.nth_prime(1), Ok(2));
    assert_eq!(s.nth_prime(6), Ok(13));
    assert_eq!(s.nth_prime(1000), Ok(7919));
}

#[test]
fn nth_prime_zero_is_invalid() {
    let mut s = SieveCalculator::new();
    assert_eq!(s.nth_prime(0), Err(PrimesError::InvalidArgument));
    assert!(s.last_error().is_some());
}

#[test]
fn nth_prime_beyond_ceiling_is_exhausted() {
    let mut s = SieveCalculator::with_ceiling(30);
    assert_eq!(s.nth_prime(10), Ok(29));
    assert_eq!(s.nth_prime(11), Err(PrimesError::ResourceExhausted));
    assert_eq!(s.current_limit(), 30);
}

#[test]
fn is_prime_beyond_limit_is_out_of_range() {
    let mut s = SieveCalculator::new();
    assert_eq!(s.extend_to(100), Ok(()));
    assert_eq!(s.is_prime(97), Ok(true));
    assert_eq!(s.is_prime(101), Err(PrimesError::OutOfRange));
    assert_eq!(s.current_limit(), 100);
}

#[test]
fn extend_beyond_ceiling_leaves_state_unchanged() {
    let mut s = SieveCalculator::with_ceiling(1000);
    assert_eq!(s.extend_to(500), Ok(()));
    let before = s.known_primes().clone();
    assert_eq!(s.extend_to(1001), Err(PrimesError::ResourceExhausted));
    assert_eq!(s.current_limit(), 500);
    assert_eq!(s.known_primes(), &before);
    assert_eq!(s.is_prime(499), Ok(true));
    assert_eq!(s.primes_up_to(2000), Err(PrimesError::ResourceExhausted));
    assert_eq!(s.current_limit(), 500);
    assert_eq!(s.extend_to(1000), Ok(()));
    assert_eq!(s.current_limit(), 1000);
}

#[test]
fn last_error_follows_the_latest_call() {
    let mut s = SieveCalculator::with_ceiling(100);
    assert_eq!(s.last_error(), None);
    assert_eq!(s.extend_to(200), Err(PrimesError::ResourceExhausted));
    let m = s.last_error().expect("a failing call records a message");
    assert!(!m.is_empty());
    assert_eq!(m, PrimesError::ResourceExhausted.message());
    assert_eq!(s.extend_to(50), Ok(()));
    assert_eq!(s.last_error(), None);
    assert_eq!(s.is_prime(60), Err(PrimesError::OutOfRange));
    assert_eq!(s.last_error(), Some(PrimesError::OutOfRange.message()));
    assert_eq!(s.is_prime(7), Ok(true));
    assert_eq!(s.last_error(), None);
    assert_eq!(s.nth_prime(0), Err(PrimesError::InvalidArgument));
    assert!(!s.last_error().unwrap().is_empty());
    assert_eq!(s.primes_up_to(10), Ok(vec![2, 3, 5, 7]));
    assert_eq!(s.last_error(), None);
}

#[test]
fn every_error_has_a_message() {
    for e in [
        PrimesError::InvalidArgument,
        PrimesError::OutOfRange,
        PrimesError::ResourceExhausted,
        PrimesError::NotImplemented,
    ] {
        assert!(!e.message().is_empty());
    }
}
