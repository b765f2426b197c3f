//! Generates and checks probable safe primes, with the operating system's
//! randomness.
use vstd::prelude::*;
use crate::bignum::BigNat;
use crate::common::{bpsw_verdict, check_outcome, odd_of_bit_length, safe_check_outcome};
use crate::entropy::os_rng;
use crate::error::{PrimeError, MIN_BIT_LENGTH};

pub use crate::common::{gen_safe_prime as from_rng, is_safe_prime as check_with, is_safe_prime_baillie_psw as strong_check_with};

verus! {

/// A new probable safe prime `p` of exactly `bit_length` bits, which must
/// be at least 128; `(p - 1) / 2` is a probable prime too.
pub fn new(bit_length: usize) -> (r: Result<BigNat, PrimeError>)
    ensures
        (r == Err::<BigNat, PrimeError>(PrimeError::InvalidBitLength(bit_length)))
            <==> bit_length < MIN_BIT_LENGTH,
        r matches Ok(p) ==> odd_of_bit_length(p@, bit_length as nat) && check_outcome(p@, true)
            && check_outcome(((p@ - 1) as nat) / 2, true),
        r matches Err(e) ==> e == PrimeError::InvalidBitLength(bit_length)
            || e == PrimeError::RandomnessSourceFailure || e == PrimeError::SearchExhausted,
{
    let mut rng = os_rng();
    crate::common::gen_safe_prime(bit_length, &mut rng)
}

/// Whether `candidate` is probably a safe prime.
pub fn check(candidate: &BigNat) -> (r: bool)
    ensures
        safe_check_outcome(candidate@, r),
{
    let mut rng = os_rng();
    crate::common::is_safe_prime(candidate, &mut rng)
}

/// Whether `candidate` passes the Baillie-PSW test, it and `(candidate - 1) / 2`.
pub fn strong_check(candidate: &BigNat) -> (r: bool)
    ensures
        r == (bpsw_verdict(candidate@) && bpsw_verdict(candidate@ / 2)),
{
    let mut rng = os_rng();
    crate::common::is_safe_prime_baillie_psw(candidate, &mut rng)
}

} // verus!
