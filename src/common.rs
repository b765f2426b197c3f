//! Prime search and the primality checks built from the sieve and the
//! probable-prime tests.
use vstd::prelude::*;
use vstd::arithmetic::power2::{pow2, lemma_pow2_unfold, lemma_pow2_pos};
use crate::bignum::{BigNat, bit_len, from_u64_big, big_add, big_sub, rem, shl, shr, lemma_bit_len_exact};
use crate::entropy::{random_bytes, RandomSource};
use crate::error::{PrimeError, MIN_BIT_LENGTH};
use crate::lucas::{lucas_probable_prime, lucas_test};
use crate::primality::{
    decompose, fermat_passes, fermat_test, miller_rabin_round, round_count, rounds_for,
    strong_probable_prime,
    witness_round,
};
use crate::sieve::{
    SieveVerdict, prime, is_prime_table, sieve_square, sieve_verdict, small_primes,
    trial_division, SIEVE_BOUND,
};

verus! {

/// `v` is an odd number of exactly `bits` bits.
pub open spec fn odd_of_bit_length(v: nat, bits: nat) -> bool {
    bit_len(v) == bits && v % 2 == 1
}

/// `bs` holds `k` bases in `[2, n - 2]`, none a witness of `n`'s
/// compositeness.
pub open spec fn passing_bases(n: nat, bs: Seq<nat>, k: nat) -> bool {
    &&& bs.len() == k
    &&& forall|i: int| 0 <= i < bs.len() ==> 2 <= #[trigger] bs[i] < n - 1 && strong_probable_prime(n, bs[i])
}

/// What an acceptance by the multi-round check says of `n`: the verdict is
/// exact below the square of the sieve bound; a number with a small prime
/// factor is rejected; and an accepted number passed the sieve, the Fermat
/// test to base 2 and `floor(log2(bits)) + 5` Miller-Rabin rounds, one per
/// base drawn from `[2, n - 2]`.
pub open spec fn check_outcome(n: nat, r: bool) -> bool {
    &&& n < sieve_square() ==> r == prime(n)
    &&& r ==> sieve_verdict(n) != SieveVerdict::Composite
    &&& (r && n >= sieve_square()) ==> fermat_passes(n, 2)
        && exists|bs: Seq<nat>| #[trigger] passing_bases(n, bs, rounds_for(bit_len(n)))
}

/// Why the multi-round check rejected a number that the sieve left open: it
/// failed the Fermat test, or a drawn base in `[2, n - 2]` witnessed its
/// compositeness.
pub open spec fn rejection_reason(n: nat, r: bool) -> bool {
    (!r && sieve_verdict(n) == SieveVerdict::Undecided) ==> !fermat_passes(n, 2)
        || exists|a: nat| 2 <= a < n - 1 && !#[trigger] strong_probable_prime(n, a)
}

/// The odd candidate of `bits` bits that the random number `v` gives: the
/// top and bottom bits set, and `v` modulo `2^(bits - 2)` in between.
pub open spec fn candidate_value(v: nat, bits: nat) -> nat {
    pow2((bits - 1) as nat) + 2 * (v % pow2((bits - 2) as nat)) + 1
}

/// The candidate that the random number `v` gives for `bits` bits.
pub fn candidate_from_bytes(v: &BigNat, bits: usize) -> (c: BigNat)
    requires
        bits >= 2,
    ensures
        c@ == candidate_value(v@, bits as nat),
        pow2((bits - 1) as nat) <= c@ < pow2(bits as nat),
        c@ % 2 == 1,
{
    let one = from_u64_big(1);
    let low_mod = shl(&one, (bits - 2) as u64);
    let top = shl(&one, (bits - 1) as u64);
    proof {
        lemma_pow2_pos((bits - 2) as nat);
    }
    let low = rem(v, &low_mod);
    let twice = shl(&low, 1);
    let c = big_add(&top, &twice);
    let c = big_add(&c, &one);
    proof {
        let e = (bits - 1) as nat;
        lemma_pow2_unfold(e);
        lemma_pow2_unfold(e + 1);
        assert(pow2(1) == 2) by { vstd::arithmetic::power2::lemma2_to64(); }
        assert(e + 1 == bits);
        assert((e - 1) as nat == (bits - 2) as nat);
        assert(top@ == pow2(e));
        assert(twice@ == 2 * low@) by {
            assert(twice@ == low@ * pow2(1));
        }
        assert(c@ == pow2(e) + 2 * low@ + 1);
        assert(c@ % 2 == 1) by {
            assert(c@ == 2 * (pow2((e - 1) as nat) + low@) + 1);
        }
    }
    c
}

/// Draws an odd number of exactly `bits` bits, the top and bottom bits set
/// and the others uniform.
fn gen_candidate<R: RandomSource>(bits: usize, rng: &mut R) -> (r: Result<BigNat, PrimeError>)
    requires
        bits >= 2,
    ensures
        r matches Ok(c) ==> pow2((bits - 1) as nat) <= c@ < pow2(bits as nat) && c@ % 2 == 1,
        r matches Err(e) ==> e == PrimeError::RandomnessSourceFailure,
{
    match random_bytes(rng, bits / 8 + 1) {
        Some(v) => Ok(candidate_from_bytes(&v, bits)),
        None => Err(PrimeError::RandomnessSourceFailure),
    }
}

/// The Miller-Rabin base in `[2, n - 2]` that the random number `v` gives:
/// `2 + v mod (n - 3)`.
pub fn base_from_bytes(v: &BigNat, n: &BigNat) -> (a: BigNat)
    requires
        n@ >= 4,
    ensures
        a@ == 2 + v@ % ((n@ - 3) as nat),
        2 <= a@ < n@ - 1,
{
    let three = from_u64_big(3);
    let two = from_u64_big(2);
    let span = big_sub(n, &three);
    let m = rem(v, &span);
    big_add(&m, &two)
}

/// `k` rounds of Miller-Rabin on `n`, each with a base drawn from
/// `[2, n - 2]`; stops at the first witness, or when the source fails.
fn miller_rabin<R: RandomSource>(n: &BigNat, k: u64, rng: &mut R) -> (r: Result<bool, PrimeError>)
    requires
        n@ >= 5,
        n@ % 2 == 1,
    ensures
        r matches Ok(true) ==> exists|bs: Seq<nat>| #[trigger] passing_bases(n@, bs, k as nat),
        r matches Ok(false) ==> exists|a: nat| 2 <= a < n@ - 1 && !#[trigger] strong_probable_prime(n@, a),
        r matches Err(e) ==> e == PrimeError::RandomnessSourceFailure,
{
    let (nm1, d, s) = decompose(n);
    let mut i: u64 = 0;
    let ghost mut seen: Seq<nat> = Seq::empty();
    while i < k
        invariant
            n@ >= 5,
            n@ % 2 == 1,
            nm1@ == n@ - 1,
            s as nat == crate::primality::twos((n@ - 1) as nat),
            d@ == crate::primality::odd_part((n@ - 1) as nat),
            i <= k,
            passing_bases(n@, seen, i as nat),
        decreases k - i,
    {
        let len = n.bytes.len();
        let draw = if len <= usize::MAX - 8 { len + 8 } else { len };
        let v = match random_bytes(rng, draw) {
            Some(v) => v,
            None => return Err(PrimeError::RandomnessSourceFailure),
        };
        let a = base_from_bytes(&v, n);
        if !witness_round(n, &nm1, &d, s, &a) {
            return Ok(false);
        }
        proof {
            let old_seen = seen;
            seen = seen.push(a@);
            assert forall|j: int| 0 <= j < seen.len() implies 2 <= #[trigger] seen[j] < n@ - 1
                && strong_probable_prime(n@, seen[j]) by {
                if j < old_seen.len() {
                    assert(seen[j] == old_seen[j]);
                }
            }
        }
        i = i + 1;
    }
    assert(passing_bases(n@, seen, k as nat));
    Ok(true)
}

/// The check on a number with the table at hand: trial division, then the
/// Fermat test to base 2, then Miller-Rabin with a round count derived from
/// the number's bit length.
fn check_with_table<R: RandomSource>(n: &BigNat, table: &Vec<u32>, rng: &mut R) -> (r: Result<bool, PrimeError>)
    requires
        is_prime_table(table@, SIEVE_BOUND as nat),
    ensures
        r matches Ok(b) ==> check_outcome(n@, b) && rejection_reason(n@, b),
        r matches Err(e) ==> e == PrimeError::RandomnessSourceFailure
            && sieve_verdict(n@) == SieveVerdict::Undecided,
{
    match trial_division(n, table) {
        SieveVerdict::Prime => Ok(true),
        SieveVerdict::Composite => Ok(false),
        SieveVerdict::Undecided => {
            proof {
                assert(n@ >= 5) by (nonlinear_arith)
                    requires n@ >= sieve_square();
                assert(n@ % 2 == 1) by {
                    assert(prime(2nat));
                    if n@ % 2 == 0 {
                        assert(crate::sieve::has_small_factor(n@));
                    }
                }
            }
            if !fermat_test(n) {
                return Ok(false);
            }
            let k = round_count(crate::bignum::bits(n));
            miller_rabin(n, k, rng)
        },
    }
}

/// The multi-round check, reporting a failure of the randomness source as
/// an error: trial division by the primes below the sieve bound, the Fermat
/// test to base 2, then `floor(log2(bits)) + 5` rounds of Miller-Rabin with
/// random bases.
pub fn try_is_prime<R: RandomSource>(candidate: &BigNat, rng: &mut R) -> (r: Result<bool, PrimeError>)
    ensures
        r matches Ok(b) ==> check_outcome(candidate@, b) && rejection_reason(candidate@, b),
        r matches Err(e) ==> e == PrimeError::RandomnessSourceFailure
            && sieve_verdict(candidate@) == SieveVerdict::Undecided,
{
    let table = small_primes();
    check_with_table(candidate, &table, rng)
}

/// Whether `candidate` is probably prime, as `try_is_prime` finds; a number
/// is never accepted when the randomness source failed before its last
/// round.
pub fn is_prime<R: RandomSource>(candidate: &BigNat, rng: &mut R) -> (r: bool)
    ensures
        check_outcome(candidate@, r),
{
    match try_is_prime(candidate, rng) {
        Ok(b) => b,
        Err(_) => false,
    }
}

/// What a verdict of the safe-prime check says of `n`: `n` and `n / 2`,
/// which is `(n - 1) / 2` for odd `n`, both meet the check.
pub open spec fn safe_check_outcome(n: nat, r: bool) -> bool {
    &&& n < sieve_square() ==> r == (prime(n) && prime(n / 2))
    &&& r ==> check_outcome(n, true) && check_outcome(n / 2, true)
}

/// Whether `candidate` is probably a safe prime: it and `(candidate - 1) / 2`
/// both pass the multi-round check; a failure of the randomness source
/// counts as no pass.
pub fn is_safe_prime<R: RandomSource>(candidate: &BigNat, rng: &mut R) -> (r: bool)
    ensures
        safe_check_outcome(candidate@, r),
{
    let table = small_primes();
    match check_with_table(candidate, &table, rng) {
        Ok(true) => {},
        _ => return false,
    }
    let half = shr(candidate, 1);
    proof {
        assert(pow2(1) == 2) by { vstd::arithmetic::power2::lemma2_to64(); }
    }
    match check_with_table(&half, &table, rng) {
        Ok(b) => b,
        Err(_) => false,
    }
}

/// The number of candidates a search draws before it gives up.
pub const MAX_ATTEMPTS: u64 = 0xFFFF_FFFF_FFFF_FFFF;

/// What a search does after checking the candidate of attempt `attempt`
/// (counted from 0).
#[derive(Debug)]
pub enum SearchStep {
    /// The candidate passed: it is the result.
    Found(BigNat),
    /// The candidate failed and it was the last attempt allowed.
    Exhausted,
    /// The candidate failed: draw a fresh one.
    Retry,
}

/// The decision of a search after a candidate was checked: a candidate that
/// passed is returned; one that failed is discarded, and the search gives up
/// only after `MAX_ATTEMPTS` candidates.
pub fn search_step(candidate: BigNat, passed: bool, attempt: u64) -> (r: SearchStep)
    requires
        attempt < MAX_ATTEMPTS,
    ensures
        passed ==> r == SearchStep::Found(candidate),
        !passed && attempt + 1 == MAX_ATTEMPTS ==> r is Exhausted,
        !passed && attempt + 1 < MAX_ATTEMPTS ==> r is Retry,
{
    if passed {
        SearchStep::Found(candidate)
    } else if attempt + 1 == MAX_ATTEMPTS {
        SearchStep::Exhausted
    } else {
        SearchStep::Retry
    }
}

/// Generates a probable prime of exactly `bit_length` bits, drawing odd
/// candidates of that size until one passes the multi-round check.
pub fn gen_prime<R: RandomSource>(bit_length: usize, rng: &mut R) -> (r: Result<BigNat, PrimeError>)
    ensures
        (r == Err::<BigNat, PrimeError>(PrimeError::InvalidBitLength(bit_length)))
            <==> bit_length < MIN_BIT_LENGTH,
        r matches Ok(p) ==> odd_of_bit_length(p@, bit_length as nat) && check_outcome(p@, true),
        r matches Err(e) ==> e == PrimeError::InvalidBitLength(bit_length)
            || e == PrimeError::RandomnessSourceFailure || e == PrimeError::SearchExhausted,
{
    if bit_length < MIN_BIT_LENGTH {
        return Err(PrimeError::InvalidBitLength(bit_length));
    }
    let table = small_primes();
    let mut attempts: u64 = 0;
    loop
        invariant
            bit_length >= MIN_BIT_LENGTH,
            is_prime_table(table@, SIEVE_BOUND as nat),
            attempts < MAX_ATTEMPTS,
        decreases MAX_ATTEMPTS - attempts,
    {
        let c = match gen_candidate(bit_length, rng) {
            Ok(c) => c,
            Err(e) => return Err(e),
        };
        let ghost cv = c@;
        let passed = match check_with_table(&c, &table, rng) {
            Ok(b) => b,
            Err(e) => return Err(e),
        };
        match search_step(c, passed, attempts) {
            SearchStep::Found(p) => {
                proof {
                    lemma_bit_len_exact(cv, bit_length as nat);
                }
                return Ok(p);
            },
            SearchStep::Exhausted => return Err(PrimeError::SearchExhausted),
            SearchStep::Retry => {},
        }
        attempts = attempts + 1;
    }
}

/// Generates a probable safe prime `p = 2q + 1` of exactly `bit_length`
/// bits: draws `q` of `bit_length - 1` bits; when trial division finds no
/// small factor in `q` or `p`, runs the full check on `q`, and only when it
/// passes, the full check on `p`; a failing pair is discarded whole.
pub fn gen_safe_prime<R: RandomSource>(bit_length: usize, rng: &mut R) -> (r: Result<BigNat, PrimeError>)
    ensures
        (r == Err::<BigNat, PrimeError>(PrimeError::InvalidBitLength(bit_length)))
            <==> bit_length < MIN_BIT_LENGTH,
        r matches Ok(p) ==> odd_of_bit_length(p@, bit_length as nat) && check_outcome(p@, true)
            && check_outcome(((p@ - 1) as nat) / 2, true),
        r matches Err(e) ==> e == PrimeError::InvalidBitLength(bit_length)
            || e == PrimeError::RandomnessSourceFailure || e == PrimeError::SearchExhausted,
{
    if bit_length < MIN_BIT_LENGTH {
        return Err(PrimeError::InvalidBitLength(bit_length));
    }
    let table = small_primes();
    let one = from_u64_big(1);
    let mut attempts: u64 = 0;
    loop
        invariant
            bit_length >= MIN_BIT_LENGTH,
            is_prime_table(table@, SIEVE_BOUND as nat),
            one@ == 1,
            attempts < MAX_ATTEMPTS,
        decreases MAX_ATTEMPTS - attempts,
    {
        let q = match gen_candidate(bit_length - 1, rng) {
            Ok(q) => q,
            Err(e) => return Err(e),
        };
        let ghost qv = q@;
        let twice = shl(&q, 1);
        let p = big_add(&twice, &one);
        proof {
            assert(pow2(1) == 2) by { vstd::arithmetic::power2::lemma2_to64(); }
            assert(twice@ == q@ * pow2(1));
            assert(p@ == 2 * q@ + 1);
            assert(((p@ - 1) as nat) / 2 == q@);
        }
        // Trial division of both halves of the pair first: it is cheap, and a
        // pair with a small factor in either half fails whatever else is run.
        let pair_survives = trial_division(&q, &table) != SieveVerdict::Composite
            && trial_division(&p, &table) != SieveVerdict::Composite;
        let q_passed = if pair_survives {
            match check_with_table(&q, &table, rng) {
                Ok(b) => b,
                Err(e) => return Err(e),
            }
        } else {
            false
        };
        let (cand, passed) = if q_passed {
            let p_passed = match check_with_table(&p, &table, rng) {
                Ok(b) => b,
                Err(e) => return Err(e),
            };
            (p, p_passed)
        } else {
            (q, false)
        };
        let ghost pv = cand@;
        assert(passed ==> pv == 2 * qv + 1 && check_outcome(qv, true) && check_outcome(pv, true));
        match search_step(cand, passed, attempts) {
            SearchStep::Found(p) => {
                proof {
                    let b = bit_length as nat;
                    lemma_pow2_unfold((b - 1) as nat);
                    lemma_pow2_unfold(b);
                    lemma_bit_len_exact(pv, b);
                    assert(((pv - 1) as nat) / 2 == qv);
                }
                return Ok(p);
            },
            SearchStep::Exhausted => return Err(PrimeError::SearchExhausted),
            SearchStep::Retry => {},
        }
        attempts = attempts + 1;
    }
}

/// The Baillie-PSW verdict on `n`: trial division decides where it can;
/// otherwise `n` must be a strong probable prime to base 2 and a strong
/// Lucas probable prime.
pub open spec fn bpsw_verdict(n: nat) -> bool {
    match sieve_verdict(n) {
        SieveVerdict::Prime => true,
        SieveVerdict::Composite => false,
        SieveVerdict::Undecided => strong_probable_prime(n, 2) && lucas_probable_prime(n),
    }
}

fn bpsw_with_table(n: &BigNat, table: &Vec<u32>) -> (r: bool)
    requires
        is_prime_table(table@, SIEVE_BOUND as nat),
    ensures
        r == bpsw_verdict(n@),
{
    match trial_division(n, table) {
        SieveVerdict::Prime => true,
        SieveVerdict::Composite => false,
        SieveVerdict::Undecided => {
            let two = from_u64_big(2);
            miller_rabin_round(n, &two) && lucas_test(n)
        },
    }
}

/// The Baillie-PSW test: trial division, then one Miller-Rabin round to
/// base 2 and the strong Lucas test. It is deterministic: nothing is drawn
/// from the randomness source, which the signature takes as `is_prime`'s does.
pub fn is_prime_baillie_psw<R: RandomSource>(candidate: &BigNat, _rng: &mut R) -> (r: bool)
    ensures
        r == bpsw_verdict(candidate@),
{
    let table = small_primes();
    bpsw_with_table(candidate, &table)
}

/// Whether `candidate` and `candidate / 2`, which is `(candidate - 1) / 2`
/// for odd `candidate`, both pass the Baillie-PSW test.
pub fn is_safe_prime_baillie_psw<R: RandomSource>(candidate: &BigNat, _rng: &mut R) -> (r: bool)
    ensures
        r == (bpsw_verdict(candidate@) && bpsw_verdict(candidate@ / 2)),
{
    let table = small_primes();
    if !bpsw_with_table(candidate, &table) {
        return false;
    }
    let half = shr(candidate, 1);
    proof {
        assert(pow2(1) == 2) by { vstd::arithmetic::power2::lemma2_to64(); }
    }
    bpsw_with_table(&half, &table)
}

/// Below the square of the sieve bound, the multi-round check and the
/// Baillie-PSW test both answer exactly whether the number is prime.
pub proof fn lemma_checks_exact_below_sieve_square(n: nat, r: bool)
    requires
        n < sieve_square(),
        check_outcome(n, r),
    ensures
        r == prime(n),
        bpsw_verdict(n) == prime(n),
{
}

/// Two runs of the multi-round check on the same number, with whatever
/// randomness each drew, agree wherever the verdict does not rest on the
/// random bases: below the square of the sieve bound, and on every number
/// with a prime factor below the bound.
pub proof fn lemma_check_repeatable(n: nat, r1: bool, r2: bool)
    requires
        n < sieve_square() || sieve_verdict(n) == SieveVerdict::Composite,
        check_outcome(n, r1),
        check_outcome(n, r2),
    ensures
        r1 == r2,
{
}

/// Two runs of the Baillie-PSW test on the same number agree: its verdict
/// is a function of the number alone.
pub proof fn lemma_strong_check_repeatable(n: nat, r1: bool, r2: bool)
    requires
        r1 == bpsw_verdict(n),
        r2 == bpsw_verdict(n),
    ensures
        r1 == r2,
{
}

} // verus!
