use glass_pumpkin::bignum::BigNat;
use glass_pumpkin::common::{gen_prime, gen_safe_prime, is_prime, is_safe_prime, try_is_prime};
use glass_pumpkin::entropy::RandomSource;
use glass_pumpkin::error::PrimeError;

/// A source that always fails.
struct Broken;

impl RandomSource for Broken {
    fn fill_random(&mut self, _buf: &mut Vec<u8>) -> bool {
        false
    }
}

/// A fixed sequence of bytes from a simple counter-based generator.
struct Fixed {
    state: u64,
}

impl RandomSource for Fixed {
    fn fill_random(&mut self, buf: &mut Vec<u8>) -> bool {
        for b in buf.iter_mut() {
            self.state = self.state.wrapping_mul(6364136223846793005).wrapping_add(1442695040888963407);
            *b = (self.state >> 33) as u8;
        }
        true
    }
}

#[test]
fn failing_source_gives_randomness_error() {
    assert_eq!(gen_prime(128, &mut Broken).unwrap_err(), PrimeError::RandomnessSourceFailure);
    assert_eq!(gen_safe_prime(128, &mut Broken).unwrap_err(), PrimeError::RandomnessSourceFailure);
    // the bit length is checked before anything is drawn
    assert_eq!(gen_prime(64, &mut Broken).unwrap_err(), PrimeError::InvalidBitLength(64));
}

#[test]
fn failing_source_only_matters_above_the_sieve() {
    let big = BigNat::from_u64(2305843009213693951);
    assert_eq!(try_is_prime(&big, &mut Broken), Err(PrimeError::RandomnessSourceFailure));
    assert!(!is_prime(&big, &mut Broken));
    // decided by trial division alone
    assert_eq!(try_is_prime(&BigNat::from_u64(7919), &mut Broken), Ok(true));
    assert_eq!(try_is_prime(&BigNat::from_u64(7917), &mut Broken), Ok(false));
    assert!(is_safe_prime(&BigNat::from_u64(23), &mut Broken));
}

#[test]
fn fixed_source_gives_repeatable_primes() {
    let a = gen_prime(128, &mut Fixed { state: 1 }).unwrap();
    let b = gen_prime(128, &mut Fixed { state: 1 }).unwrap();
    assert_eq!(a.bytes, b.bytes);
    assert_eq!(a.bit_length(), 128);
    assert!(is_prime(&a, &mut Fixed { state: 7 }));
    let p = gen_safe_prime(128, &mut Fixed { state: 3 }).unwrap();
    assert_eq!(p.bit_length(), 128);
    assert!(is_safe_prime(&p, &mut Fixed { state: 9 }));
}
