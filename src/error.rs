use vstd::prelude::*;

verus! {

/// The ways in which an operation of a calculator can fail.
#[derive(Debug, Clone, Copy, PartialEq, Eq, Structural)]
pub enum PrimesError {
    /// The input lies outside the operation's domain (factorizing 0, asking for the 0th prime).
    InvalidArgument,
    /// A sieve was queried beyond the limit it has been extended to.
    OutOfRange,
    /// A configured ceiling (table size or trial-division budget) would be exceeded.
    ResourceExhausted,
    /// An optional feature that this library does not provide was invoked.
    NotImplemented,
}

impl PrimesError {
    /// The message recorded for this error.
    pub open spec fn message_spec(self) -> Seq<char> {
        match self {
            PrimesError::InvalidArgument => "invalid argument: the input lies outside the operation's domain"@,
            PrimesError::OutOfRange => "out of range: the value exceeds the sieve's current limit; extend it first"@,
            PrimesError::ResourceExhausted => "resource exhausted: the request exceeds the configured ceiling"@,
            PrimesError::NotImplemented => "not implemented: this feature is not provided"@,
        }
    }

    /// A descriptive, non-empty message for this error.
    pub fn message(&self) -> (r: String)
        ensures
            r@ == self.message_spec(),
            r@.len() > 0,
    {
        match self {
            PrimesError::InvalidArgument => {
                let s = "invalid argument: the input lies outside the operation's domain";
                proof {
                    reveal_strlit("invalid argument: the input lies outside the operation's domain");
                }
                String::from_str(s)
            },
            PrimesError::OutOfRange => {
                let s = "out of range: the value exceeds the sieve's current limit; extend it first";
                proof {
                    reveal_strlit("out of range: the value exceeds the sieve's current limit; extend it first");
                }
                String::from_str(s)
            },
            PrimesError::ResourceExhausted => {
                let s = "resource exhausted: the request exceeds the configured ceiling";
                proof {
                    reveal_strlit("resource exhausted: the request exceeds the configured ceiling");
                }
                String::from_str(s)
            },
            PrimesError::NotImplemented => {
                let s = "not implemented: this feature is not provided";
                proof {
                    reveal_strlit("not implemented: this feature is not provided");
                }
                String::from_str(s)
            },
        }
    }
}

/// The last-error slot of an instance, as its message.
pub open spec fn error_message_of(slot: Option<PrimesError>) -> Option<Seq<char>> {
    match slot {
        Some(e) => Some(e.message_spec()),
        None => None,
    }
}

/// Reports the outcome of the most recent fallible call on an instance.
pub trait Diagnosable {
    /// The error recorded by the most recent fallible call, if it failed.
    spec fn failure(&self) -> Option<PrimesError>;

    /// The message of the most recent failing call, or `None` when the most recent call
    /// succeeded or no call has been made.
    fn last_error(&self) -> (r: Option<String>)
        ensures
            r is Some <==> self.failure() is Some,
            r is Some ==> Some(r->Some_0@) == error_message_of(self.failure()),
            r is Some ==> r->Some_0@.len() > 0,
    ;
}

/// The message of a last-error slot.
pub fn message_of(slot: Option<PrimesError>) -> (r: Option<String>)
    ensures
        r is Some <==> slot is Some,
        r is Some ==> Some(r->Some_0@) == error_message_of(slot),
        r is Some ==> r->Some_0@.len() > 0,
{
    match slot {
        Some(e) => Some(e.message()),
        None => None,
    }
}

} // verus!
