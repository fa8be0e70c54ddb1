use vstd::prelude::*;
use crate::error::{PrimesError, Diagnosable, error_message_of};
use crate::factorization::FactorizationCalculator;
use crate::sieve::{SieveCalculator, DEFAULT_CEILING};
use crate::factorization::DEFAULT_MAX_DIVISOR;

verus! {

/// The library's major version.
pub const VERSION_MAJOR: u32 = 1;

/// The library's minor version.
pub const VERSION_MINOR: u32 = 1;

/// The library's micro version.
pub const VERSION_MICRO: u32 = 1;

/// The library's global entry points: version query, factories, error query and journaling.
pub struct CWrapper;

impl CWrapper {
    /// Writes the library's version (major, minor, micro).
    pub fn get_version(major: &mut u32, minor: &mut u32, micro: &mut u32)
        ensures
            *final(major) == VERSION_MAJOR,
            *final(minor) == VERSION_MINOR,
            *final(micro) == VERSION_MICRO,
    {
        *major = VERSION_MAJOR;
        *minor = VERSION_MINOR;
        *micro = VERSION_MICRO;
    }

    /// Whether `instance` has a last error; if so, its message is written to `error_message`,
    /// which is otherwise left as it was.
    pub fn get_last_error<T: Diagnosable>(instance: &T, error_message: &mut String) -> (has_error: bool)
        ensures
            has_error <==> instance.failure() is Some,
            has_error ==> Some(final(error_message)@) == error_message_of(instance.failure()),
            !has_error ==> final(error_message)@ == old(error_message)@,
    {
        match instance.last_error() {
            Some(m) => {
                *error_message = m;
                true
            },
            None => false,
        }
    }

    /// A new factorization calculator with the default trial-division budget.
    pub fn create_factorization_calculator() -> (c: FactorizationCalculator)
        ensures
            c.max_divisor() == DEFAULT_MAX_DIVISOR,
            c.failure() is None,
    {
        FactorizationCalculator::new()
    }

    /// A new sieve calculator that classifies `[0, 1]`, with the default ceiling.
    pub fn create_sieve_calculator() -> (s: SieveCalculator)
        ensures
            s.wf(),
            s.limit() == 1,
            s.ceiling() == DEFAULT_CEILING,
            s.failure() is None,
    {
        SieveCalculator::new()
    }

    /// Journaling is not provided: every request reports `NotImplemented`.
    pub fn set_journal(_file_name: &str) -> (r: Result<(), PrimesError>)
        ensures
            r == Err::<(), PrimesError>(PrimesError::NotImplemented),
    {
        Err(PrimesError::NotImplemented)
    }
}

} // verus!
