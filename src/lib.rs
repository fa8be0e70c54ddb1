//! Prime numbers: a resumable sieve of Eratosthenes and a factorization calculator that
//! decomposes positive integers into prime powers, both recording their last error.
//! Every executable function is verified against the mathematical definitions in `arith`.

pub mod arith;
pub mod error;
pub mod factorization;
pub mod sieve;
pub mod wrapper;
