use libprimes::error::{Diagnosable, PrimesError};
use libprimes::wrapper::CWrapper;

#[test]
fn version_is_one_one_one() {
    let (mut major, mut minor, mut micro) = (0u32, 0u32, 0u32);
    CWrapper::get_version(&mut major, &mut minor, &mut micro);
    assert_eq!((major, minor, micro), (1, 1, 1));
}

#[test]
fn journal_is_not_implemented() {
    assert_eq!(CWrapper::set_journal("journal.log"), Err(PrimesError::NotImplemented));
}

#[test]
fn factories_and_last_error() {
    let mut s = CWrapper::create_sieve_calculator();
    let mut f = CWrapper::create_factorization_calculator();
    let mut msg = String::from("unchanged");
    assert!(!CWrapper::get_last_error(&s, &mut msg));
    assert_eq!(msg, "unchanged");
    assert_eq!(s.is_prime(5), Err(PrimesError::OutOfRange));
    assert!(CWrapper::get_last_error(&s, &mut msg));
    assert_eq!(msg, PrimesError::OutOfRange.message());
    assert_eq!(f.factorize(0), Err(PrimesError::InvalidArgument));
    assert!(CWrapper::get_last_error(&f, &mut msg));
    assert_eq!(Some(msg.clone()), f.last_error());
    assert_eq!(f.factorize(12), Ok(vec![(2, 2), (3, 1)]));
    assert!(!CWrapper::get_last_error(&f, &mut msg));
}
