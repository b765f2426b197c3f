//! Errors of prime generation.
use vstd::prelude::*;

verus! {

/// Why a prime could not be generated.
#[derive(Clone, Copy, Debug, PartialEq, Eq, Structural)]
pub enum PrimeError {
    /// The requested bit length is below the minimum of 128 bits.
    InvalidBitLength(usize),
    /// The randomness source failed to supply bytes.
    RandomnessSourceFailure,
    /// The search gave up after `u64::MAX` candidates.
    SearchExhausted,
}

/// The smallest bit length that may be requested for generation.
pub const MIN_BIT_LENGTH: usize = 128;

} // verus!
