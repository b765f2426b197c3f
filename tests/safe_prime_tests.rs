use glass_pumpkin::bignum::BigNat;
use glass_pumpkin::common::{gen_safe_prime, is_safe_prime};
use glass_pumpkin::error::PrimeError;
use glass_pumpkin::prime;
use glass_pumpkin::safe_prime::{check, new, strong_check};
use rand_core::OsRng;

fn num(v: u64) -> BigNat {
    BigNat::from_u64(v)
}

#[test]
fn safe_prime_tests() {
    for bits in &[128, 256, 384] {
        let n = new(*bits).unwrap();
        assert!(check(&n));
        assert!(strong_check(&n));
        assert!(prime::strong_check(&n));
        assert_eq!(n.bit_length(), *bits as u64);
    }
}

#[test]
fn safe_prime_rejects_short_bit_length() {
    assert_eq!(gen_safe_prime(100, &mut OsRng).unwrap_err(), PrimeError::InvalidBitLength(100));
    assert_eq!(new(0).unwrap_err(), PrimeError::InvalidBitLength(0));
}

#[test]
fn known_safe_primes() {
    for p in &[5u64, 7, 11, 23, 47, 59, 83, 107, 167, 179, 227, 263] {
        assert!(check(&num(*p)), "{}", p);
        assert!(is_safe_prime(&num(*p), &mut OsRng), "{}", p);
        assert!(strong_check(&num(*p)), "{}", p);
    }
}

#[test]
fn primes_that_are_not_safe() {
    for p in &[2u64, 3, 13, 17, 19, 29, 31, 7919] {
        assert!(!check(&num(*p)), "{}", p);
        assert!(!strong_check(&num(*p)), "{}", p);
    }
    for c in &[0u64, 1, 9, 15, 21] {
        assert!(!check(&num(*c)), "{}", c);
    }
}
