use glass_pumpkin::bignum::BigNat;
use glass_pumpkin::common::{
    base_from_bytes, candidate_from_bytes, gen_prime, is_prime, is_prime_baillie_psw, search_step,
    try_is_prime, SearchStep, MAX_ATTEMPTS,
};
use glass_pumpkin::lucas::{jacobi_symbol, lucas_test};
use glass_pumpkin::error::PrimeError;
use glass_pumpkin::primality::{fermat_test, miller_rabin_round, round_count};
use glass_pumpkin::prime::{check, new, strong_check};
use glass_pumpkin::sieve::{small_primes, trial_division, SieveVerdict};
use rand_core::OsRng;

fn num(v: u64) -> BigNat {
    BigNat::from_u64(v)
}

#[test]
fn prime_tests() {
    for bits in &[128, 256, 512, 1024] {
        let n = new(*bits).unwrap();
        assert!(check(&n));
        assert!(strong_check(&n));
        assert_eq!(n.bit_length(), *bits as u64);
        assert!(n.is_odd());
    }
}

#[test]
fn from_rng_rejects_short_bit_length() {
    assert_eq!(gen_prime(64, &mut OsRng).unwrap_err(), PrimeError::InvalidBitLength(64));
    assert_eq!(new(127).unwrap_err(), PrimeError::InvalidBitLength(127));
    assert!(new(128).is_ok());
}

#[test]
fn known_small_primes_pass() {
    for p in &[2u64, 3, 5, 7, 97, 7919] {
        assert!(check(&num(*p)), "{}", p);
        assert!(is_prime(&num(*p), &mut OsRng), "{}", p);
        assert!(strong_check(&num(*p)), "{}", p);
    }
}

#[test]
fn known_composites_fail() {
    for c in &[0u64, 1, 4, 9, 91, 1001] {
        assert!(!check(&num(*c)), "{}", c);
        assert!(!strong_check(&num(*c)), "{}", c);
    }
}

#[test]
fn large_known_prime_passes() {
    // 2^61 - 1
    assert!(check(&num(2305843009213693951)));
    // the largest prime below 2^64
    assert!(check(&num(18446744073709551557)));
    assert!(strong_check(&num(2305843009213693951)));
    assert!(is_prime_baillie_psw(&num(18446744073709551557), &mut OsRng));
}

#[test]
fn strong_pseudoprime_is_rejected() {
    // 149491 * 747451 * 34233211: a strong pseudoprime to every base up to 37
    let n = num(3825123056546413051);
    assert!(fermat_test(&n));
    assert!(miller_rabin_round(&n, &num(2)));
    assert!(!check(&n));
    assert!(!strong_check(&n));
    assert!(!lucas_test(&n));
    // 2047 = 23 * 89, a strong pseudoprime to base 2
    assert!(!check(&num(2047)));
    assert!(!strong_check(&num(2047)));
}

#[test]
fn check_twice_agrees() {
    for v in &[7919u64, 1001, 2305843009213693951, 3825123056546413051] {
        let a = is_prime(&num(*v), &mut OsRng);
        let b = is_prime(&num(*v), &mut OsRng);
        assert_eq!(a, b);
    }
}

#[test]
fn round_count_values() {
    assert_eq!(round_count(128), 12);
    assert_eq!(round_count(1024), 15);
    assert_eq!(round_count(1), 5);
    assert_eq!(round_count(255), 12);
    assert_eq!(round_count(256), 13);
}

#[test]
fn fermat_values() {
    // 341 = 11 * 31 fools the Fermat test to base 2
    assert!(fermat_test(&num(341)));
    assert!(fermat_test(&num(7919)));
    assert!(!fermat_test(&num(91)));
}

#[test]
fn miller_rabin_round_values() {
    assert!(miller_rabin_round(&num(2047), &num(2)));
    assert!(!miller_rabin_round(&num(2047), &num(3)));
    assert!(!miller_rabin_round(&num(341), &num(2)));
    assert!(miller_rabin_round(&num(97), &num(5)));
    assert!(!miller_rabin_round(&num(2), &num(1)));
    assert!(!miller_rabin_round(&num(100), &num(3)));
}

#[test]
fn small_prime_table() {
    let t = small_primes();
    assert_eq!(t.len(), 2048);
    assert_eq!(t[0], 2);
    assert_eq!(t[9], 29);
    assert_eq!(t[2047], 17863);
}

#[test]
fn trial_division_verdicts() {
    let t = small_primes();
    assert_eq!(trial_division(&num(97), &t), SieveVerdict::Prime);
    assert_eq!(trial_division(&num(17863), &t), SieveVerdict::Prime);
    assert_eq!(trial_division(&num(91), &t), SieveVerdict::Composite);
    assert_eq!(trial_division(&num(1), &t), SieveVerdict::Composite);
    // 17881 * 17891, both primes above the table
    assert_eq!(trial_division(&num(319908971), &t), SieveVerdict::Undecided);
    // 17863 * 17881, above the square of the bound, with a factor in the table
    assert_eq!(trial_division(&num(319408303), &t), SieveVerdict::Composite);
    // 17903 is prime and below the square of the bound
    assert_eq!(trial_division(&num(17903), &t), SieveVerdict::Prime);
    assert_eq!(trial_division(&num(2305843009213693951), &t), SieveVerdict::Undecided);
}

#[test]
fn bit_length_and_parity() {
    assert_eq!(num(0).bit_length(), 0);
    assert_eq!(num(1).bit_length(), 1);
    assert_eq!(num(255).bit_length(), 8);
    assert_eq!(num(256).bit_length(), 9);
    assert!(num(255).is_odd());
    assert!(!num(256).is_odd());
}

#[test]
fn jacobi_values() {
    assert_eq!(jacobi_symbol(&num(2), &num(7)), 1);
    assert_eq!(jacobi_symbol(&num(5), &num(21)), 1);
    assert_eq!(jacobi_symbol(&num(1001), &num(9907)), -1);
    assert_eq!(jacobi_symbol(&num(19), &num(45)), 1);
    assert_eq!(jacobi_symbol(&num(8), &num(21)), -1);
    assert_eq!(jacobi_symbol(&num(0), &num(1)), 1);
    assert_eq!(jacobi_symbol(&num(0), &num(9)), 0);
}

#[test]
fn lucas_values() {
    for p in &[97u64, 7919, 2305843009213693951, 18446744073709551557] {
        assert!(lucas_test(&num(*p)), "{}", p);
    }
    // squares, even numbers and numbers below 3 are rejected
    for c in &[0u64, 1, 2, 9, 25, 100, 2047, 319908971] {
        assert!(!lucas_test(&num(*c)), "{}", c);
    }
    // 5459 = 53 * 103 and 5777 = 53 * 109 are strong Lucas pseudoprimes;
    // the sieve catches them in the combined test
    for c in &[5459u64, 5777, 10877] {
        assert!(lucas_test(&num(*c)), "{}", c);
        assert!(!strong_check(&num(*c)), "{}", c);
    }
}

#[test]
fn strong_check_twice_agrees() {
    for v in &[7919u64, 1001, 2305843009213693951, 3825123056546413051] {
        assert_eq!(strong_check(&num(*v)), strong_check(&num(*v)));
    }
}

fn big(bytes: Vec<u8>) -> BigNat {
    BigNat { bytes }
}

#[test]
fn lucas_accepts_small_odd_primes() {
    // 11 divides the fourth discriminant, -11, which is passed over
    for p in &[3u64, 5, 7, 11, 13, 17, 19, 23, 29, 31, 37, 41, 43, 47, 53, 59, 61, 67, 71, 73, 1999] {
        assert!(lucas_test(&num(*p)), "{}", p);
    }
}

#[test]
fn strong_pseudoprime_to_small_bases_is_rejected() {
    // 399165290221 * 798330580441: a strong pseudoprime to every prime base up to 37
    let n = big(vec![229,183,133,252,249,23,40,233,122,67]);
    assert!(fermat_test(&n));
    assert!(miller_rabin_round(&n, &num(37)));
    assert!(!miller_rabin_round(&n, &num(41)));
    assert!(!check(&n));
    assert!(!strong_check(&n));
    assert!(!lucas_test(&n));
    assert_eq!(try_is_prime(&n, &mut OsRng), Ok(false));
}

#[test]
fn try_is_prime_values() {
    assert_eq!(try_is_prime(&num(7919), &mut OsRng), Ok(true));
    assert_eq!(try_is_prime(&num(2305843009213693951), &mut OsRng), Ok(true));
    assert_eq!(try_is_prime(&num(1001), &mut OsRng), Ok(false));
    assert_eq!(try_is_prime(&num(3825123056546413051), &mut OsRng), Ok(false));
}

#[test]
fn candidate_from_bytes_values() {
    // 2^7 + 2 * (0xff mod 2^6) + 1 = 128 + 126 + 1
    assert_eq!(candidate_from_bytes(&num(0xff), 8).bytes, vec![255]);
    // 2^7 + 2 * (0 mod 2^6) + 1
    assert_eq!(candidate_from_bytes(&num(0), 8).bytes, vec![129]);
    // 2^9 + 2 * (100 mod 2^8) + 1 = 713
    assert_eq!(candidate_from_bytes(&num(100), 10).bytes, num(713).bytes);
    let c = candidate_from_bytes(&num(123456789), 128);
    assert_eq!(c.bit_length(), 128);
    assert!(c.is_odd());
}

#[test]
fn base_from_bytes_values() {
    // 2 + 10 mod (13 - 3)
    assert_eq!(base_from_bytes(&num(10), &num(13)).bytes, vec![2]);
    assert_eq!(base_from_bytes(&num(9), &num(13)).bytes, vec![11]);
    assert_eq!(base_from_bytes(&num(0), &num(13)).bytes, vec![2]);
    assert_eq!(base_from_bytes(&num(1000), &num(101)).bytes, vec![22]);
}

#[test]
fn search_step_values() {
    match search_step(num(7), true, 0) {
        SearchStep::Found(p) => assert_eq!(p.bytes, vec![7]),
        other => panic!("{:?}", other),
    }
    assert!(matches!(search_step(num(9), false, 0), SearchStep::Retry));
    assert!(matches!(search_step(num(9), false, MAX_ATTEMPTS - 1), SearchStep::Exhausted));
    assert!(matches!(search_step(num(7), true, MAX_ATTEMPTS - 1), SearchStep::Found(_)));
}
