//! Generation and testing of large random primes and safe primes.
//!
//! - `bignum`: natural numbers of any size, with arithmetic by `num_bigint`.
//! - `entropy`: the `RandomSource` trait the searches draw from, and its
//!   implementation on the operating system's generator (`rand_core::OsRng`).
//! - `sieve`: the table of small primes and trial division by it.
//! - `primality`: the Fermat and Miller-Rabin tests and the round count.
//! - `lucas`: the Jacobi symbol and the strong Lucas test.
//! - `common`: the checks and the searches for primes and safe primes.
//! - `prime`, `safe_prime`: the same with the operating system's randomness.
//! - `error`: why a search fails.

pub mod bignum;
pub mod error;
pub mod entropy;
pub mod sieve;
pub mod primality;
pub mod lucas;
pub mod common;
pub mod prime;
pub mod safe_prime;
