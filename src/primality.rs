//! Probable-prime tests: Fermat and Miller-Rabin.
use vstd::prelude::*;
use vstd::arithmetic::power::{pow, lemma_pow_adds};
use vstd::arithmetic::power2::{pow2, lemma_pow2_unfold, lemma_pow2_pos};
use vstd::arithmetic::div_mod::{lemma_fundamental_div_mod, lemma_mul_mod_noop};
use crate::bignum::{BigNat, from_u64_big, modpow, big_sub, big_mul, rem, shr, trailing_zeros, eq};

verus! {

/// Number of factors 2 in `m` (`0` for zero).
pub open spec fn twos(m: nat) -> nat
    decreases m,
{
    if m > 0 && m % 2 == 0 {
        1 + twos(m / 2)
    } else {
        0
    }
}

/// `m` with its factors 2 taken out.
pub open spec fn odd_part(m: nat) -> nat {
    m / pow2(twos(m))
}

/// `n` passes the Fermat test to base `a`: `a^(n-1) mod n == 1`.
pub open spec fn fermat_passes(n: nat, a: nat) -> bool {
    n >= 2 && pow(a as int, (n - 1) as nat) % (n as int) == 1
}

/// The Miller-Rabin condition for `n - 1 == 2^s * d`: `a^d == 1`, or
/// `a^(2^r * d) == n - 1` for some `r < s`, all modulo `n`.
pub open spec fn witness_free(n: nat, a: nat, s: nat, d: nat) -> bool {
    pow(a as int, d) % (n as int) == 1
        || exists|r: nat| r < s && #[trigger] (pow(a as int, pow2(r) * d) % (n as int)) == n - 1
}

/// `n` is an odd number from 3 on and a strong probable prime to base `a`:
/// `a` is no Miller-Rabin witness of its compositeness.
pub open spec fn strong_probable_prime(n: nat, a: nat) -> bool {
    n >= 3 && n % 2 == 1 && witness_free(n, a, twos((n - 1) as nat), odd_part((n - 1) as nat))
}

/// `floor(log2(x))`, taken as `0` below 2.
pub open spec fn log2_floor(x: nat) -> nat
    decreases x,
{
    if x < 2 {
        0
    } else {
        1 + log2_floor(x / 2)
    }
}

/// Number of Miller-Rabin rounds for a given bit length.
pub open spec fn rounds_for(bit_length: nat) -> nat {
    log2_floor(bit_length) + 5
}

/// The number of Miller-Rabin rounds for numbers of `bit_length` bits:
/// `floor(log2(bit_length)) + 5`.
pub fn round_count(bit_length: u64) -> (r: u64)
    ensures
        r as nat == rounds_for(bit_length as nat),
{
    let mut x: u64 = bit_length;
    let mut k: u64 = 0;
    proof {
        assert(pow2(64) == 0x1_0000_0000_0000_0000) by { vstd::arithmetic::power2::lemma2_to64(); }
        lemma_log2_below(bit_length as nat, 64);
    }
    while x >= 2
        invariant
            k + log2_floor(x as nat) == log2_floor(bit_length as nat),
            log2_floor(bit_length as nat) < 64,
        decreases x,
    {
        x = x / 2;
        k = k + 1;
    }
    k + 5
}

/// The round count never falls as the bit length grows, and is at least 5.
pub proof fn lemma_rounds_monotone(a: nat, b: nat)
    requires
        a <= b,
    ensures
        5 <= rounds_for(a) <= rounds_for(b),
    decreases a,
{
    if a >= 2 {
        lemma_rounds_monotone(a / 2, b / 2);
    }
}

proof fn lemma_log2_below(x: nat, e: nat)
    requires
        x < pow2(e),
        e >= 1,
    ensures
        log2_floor(x) < e,
    decreases x,
{
    if x >= 2 {
        assert(pow2(1) == 2) by { vstd::arithmetic::power2::lemma2_to64(); }
        lemma_pow2_unfold(e);
        assert(e >= 2);
        assert(x / 2 < pow2((e - 1) as nat));
        lemma_log2_below(x / 2, (e - 1) as nat);
    }
}

pub(crate) proof fn lemma_twos(m: nat, t: nat)
    requires
        m > 0,
        m % pow2(t) == 0,
        (m / pow2(t)) % 2 == 1,
    ensures
        twos(m) == t,
    decreases t,
{
    lemma_pow2_pos(t);
    if t == 0 {
        assert(pow2(0) == 1) by { vstd::arithmetic::power2::lemma2_to64(); }
        assert(m / 1 == m);
    } else {
        lemma_pow2_unfold(t);
        let p = pow2((t - 1) as nat);
        lemma_pow2_pos((t - 1) as nat);
        lemma_fundamental_div_mod(m as int, pow2(t) as int);
        let q = m / pow2(t);
        assert(m == 2 * (p * q)) by (nonlinear_arith)
            requires m == pow2(t) * q + m % pow2(t), m % pow2(t) == 0, pow2(t) == 2 * p;
        assert(m % 2 == 0);
        assert(m / 2 == p * q);
        assert((p * q) % p == 0) by {
            vstd::arithmetic::div_mod::lemma_mod_multiples_basic(q as int, p as int);
            assert(q * p == p * q) by (nonlinear_arith);
        }
        assert((p * q) / p == q) by {
            vstd::arithmetic::div_mod::lemma_div_multiples_vanish(q as int, p as int);
        }
        lemma_twos(m / 2, (t - 1) as nat);
    }
}

/// Writes `n - 1` as `2^s * d` with `d` odd: returns `(n - 1, d, s)`.
pub(crate) fn decompose(n: &BigNat) -> (r: (BigNat, BigNat, u64))
    requires
        n@ >= 3,
        n@ % 2 == 1,
    ensures
        r.0@ == n@ - 1,
        r.2 as nat == twos((n@ - 1) as nat),
        r.1@ == odd_part((n@ - 1) as nat),
{
    let one = from_u64_big(1);
    let nm1 = big_sub(n, &one);
    let s = match trailing_zeros(&nm1) {
        Some(t) => t,
        None => 0,
    };
    let d = shr(&nm1, s);
    proof {
        lemma_twos(nm1@, s as nat);
    }
    (nm1, d, s)
}

/// One Miller-Rabin round: whether `a` is no witness for `n`, given the
/// decomposition of `n - 1` made by `decompose`.
pub(crate) fn witness_round(n: &BigNat, nm1: &BigNat, d: &BigNat, s: u64, a: &BigNat) -> (r: bool)
    requires
        n@ >= 3,
        n@ % 2 == 1,
        nm1@ == n@ - 1,
        s as nat == twos((n@ - 1) as nat),
        d@ == odd_part((n@ - 1) as nat),
    ensures
        r == strong_probable_prime(n@, a@),
{
    let ghost nn = n@ as int;
    let ghost aa = a@ as int;
    let ghost dd = d@;
    let mut x = modpow(a, d, n);
    let one = from_u64_big(1);
    if eq(&x, &one) {
        return true;
    }
    let mut i: u64 = 0;
    proof {
        lemma_pow2_pos(0);
        assert(pow2(0) == 1) by { vstd::arithmetic::power2::lemma2_to64(); }
        assert(pow2(0) * dd == dd);
    }
    while i < s
        invariant
            nn == n@ as int,
            aa == a@ as int,
            dd == d@,
            nn >= 3,
            n@ % 2 == 1,
            s as nat == twos((n@ - 1) as nat),
            d@ == odd_part((n@ - 1) as nat),
            nm1@ == n@ - 1,
            i <= s,
            x@ as int == pow(aa, pow2(i as nat) * dd) % nn,
            pow(aa, dd) % nn != 1,
            forall|r: nat| r < i ==> #[trigger] (pow(aa, pow2(r) * dd) % nn) != nn - 1,
        decreases s - i,
    {
        if eq(&x, nm1) {
            assert(pow(a@ as int, pow2(i as nat) * d@) % (n@ as int) == n@ - 1);
            assert(witness_free(n@, a@, s as nat, dd));
            return true;
        }
        let sq = big_mul(&x, &x);
        x = rem(&sq, n);
        proof {
            let e = pow2(i as nat) * dd;
            let y = pow(aa, e);
            lemma_mul_mod_noop(y, y, nn);
            lemma_pow_adds(aa, e, e);
            lemma_pow2_unfold((i + 1) as nat);
            assert(pow2((i + 1) as nat) * dd == e + e) by (nonlinear_arith)
                requires pow2((i + 1) as nat) == 2 * pow2(i as nat), e == pow2(i as nat) * dd;
        }
        i = i + 1;
    }
    false
}

/// The Fermat test to base 2.
pub fn fermat_test(n: &BigNat) -> (r: bool)
    requires
        n@ >= 2,
    ensures
        r == fermat_passes(n@, 2),
{
    let one = from_u64_big(1);
    let two = from_u64_big(2);
    let nm1 = big_sub(n, &one);
    let x = modpow(&two, &nm1, n);
    eq(&x, &one)
}

/// Whether `n` is a strong probable prime to base `a`.
pub fn miller_rabin_round(n: &BigNat, a: &BigNat) -> (r: bool)
    ensures
        r == strong_probable_prime(n@, a@),
{
    let three = from_u64_big(3);
    if crate::bignum::lt(n, &three) || !n.is_odd() {
        return false;
    }
    let (nm1, d, s) = decompose(n);
    witness_round(n, &nm1, &d, s, a)
}

} // verus!
