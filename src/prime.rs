//! Generates and checks probable primes, with the operating system's
//! randomness.
use vstd::prelude::*;
use crate::bignum::BigNat;
use crate::common::{bpsw_verdict, check_outcome, odd_of_bit_length};
use crate::entropy::os_rng;
use crate::error::{PrimeError, MIN_BIT_LENGTH};

pub use crate::common::{gen_prime as from_rng, is_prime as check_with, is_prime_baillie_psw as strong_check_with};

verus! {

/// A new probable prime of exactly `bit_length` bits, which must be at
/// least 128.
pub fn new(bit_length: usize) -> (r: Result<BigNat, PrimeError>)
    ensures
        (r == Err::<BigNat, PrimeError>(PrimeError::InvalidBitLength(bit_length)))
            <==> bit_length < MIN_BIT_LENGTH,
        r matches Ok(p) ==> odd_of_bit_length(p@, bit_length as nat) && check_outcome(p@, true),
        r matches Err(e) ==> e == PrimeError::InvalidBitLength(bit_length)
            || e == PrimeError::RandomnessSourceFailure || e == PrimeError::SearchExhausted,
{
    let mut rng = os_rng();
    crate::common::gen_prime(bit_length, &mut rng)
}

/// Whether `candidate` is probably prime: trial division by the small
/// primes, a Fermat test, then `floor(log2(bits)) + 5` Miller-Rabin rounds.
pub fn check(candidate: &BigNat) -> (r: bool)
    ensures
        check_outcome(candidate@, r),
{
    let mut rng = os_rng();
    crate::common::is_prime(candidate, &mut rng)
}

/// Whether `candidate` passes the Baillie-PSW test.
pub fn strong_check(candidate: &BigNat) -> (r: bool)
    ensures
        r == bpsw_verdict(candidate@),
{
    let mut rng = os_rng();
    crate::common::is_prime_baillie_psw(candidate, &mut rng)
}

} // verus!
