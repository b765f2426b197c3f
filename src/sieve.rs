//! The table of small primes and trial division by it.
use vstd::prelude::*;
use crate::bignum::{BigNat, rem_small, lt, from_u64_big};

verus! {

/// `n` is prime: at least 2, with no divisor strictly between 1 and itself.
pub open spec fn prime(n: nat) -> bool {
    n >= 2 && forall|d: nat| 2 <= d < n ==> #[trigger] (n % d) != 0
}

/// The table holds every prime below this bound, and nothing else.
pub const SIEVE_BOUND: u32 = 17864;

/// `t` holds exactly the primes below `bound`, in increasing order.
pub open spec fn is_prime_table(t: Seq<u32>, bound: nat) -> bool {
    &&& forall|i: int| 0 <= i < t.len() ==> prime(#[trigger] t[i] as nat) && (t[i] as nat) < bound
    &&& forall|i: int, j: int| 0 <= i < j < t.len() ==> #[trigger] t[i] < #[trigger] t[j]
    &&& forall|q: nat| q < bound && prime(q) ==> exists|i: int| 0 <= i < t.len() && #[trigger] t[i] as nat == q
}

proof fn lemma_mod_trans(n: nat, d: nat, p: nat)
    requires
        d > 0,
        p > 0,
        n % d == 0,
        d % p == 0,
    ensures
        n % p == 0,
{
    let a = n / d;
    let b = d / p;
    vstd::arithmetic::div_mod::lemma_fundamental_div_mod(n as int, d as int);
    vstd::arithmetic::div_mod::lemma_fundamental_div_mod(d as int, p as int);
    assert(n == (b * a) * p) by (nonlinear_arith)
        requires n == d * a, d == p * b;
    vstd::arithmetic::div_mod::lemma_mod_multiples_basic((b * a) as int, p as int);
}

/// Every number from 2 on has a prime divisor no larger than itself.
proof fn lemma_prime_divisor(n: nat)
    requires
        n >= 2,
    ensures
        exists|p: nat| prime(p) && p <= n && #[trigger] (n % p) == 0,
    decreases n,
{
    if prime(n) {
        assert(n % n == 0) by (nonlinear_arith)
            requires n >= 2;
    } else {
        let d = choose|d: nat| 2 <= d < n && #[trigger] (n % d) == 0;
        lemma_prime_divisor(d);
        let p = choose|p: nat| prime(p) && p <= d && #[trigger] (d % p) == 0;
        lemma_mod_trans(n, d, p);
    }
}

/// A number from 2 on that is not prime has a prime divisor whose square is
/// no larger than it.
proof fn lemma_small_prime_divisor(n: nat)
    requires
        n >= 2,
        !prime(n),
    ensures
        exists|p: nat| prime(p) && p * p <= n && #[trigger] (n % p) == 0,
{
    let d = choose|d: nat| 2 <= d < n && #[trigger] (n % d) == 0;
    vstd::arithmetic::div_mod::lemma_fundamental_div_mod(n as int, d as int);
    let e = n / d;
    assert(e >= 2) by (nonlinear_arith)
        requires n == d * e, d < n, d >= 2;
    assert(e < n) by (nonlinear_arith)
        requires n == d * e, d >= 2, e >= 2;
    let a: nat = if d <= e { d } else { e };
    assert(a * a <= n) by (nonlinear_arith)
        requires n == d * e, a == d || a == e, a <= d, a <= e;
    if a == e {
        assert(n == e * d) by (nonlinear_arith)
            requires n == d * e;
        vstd::arithmetic::div_mod::lemma_mod_multiples_basic(d as int, e as int);
    }
    assert(n % a == 0);
    lemma_prime_divisor(a);
    let p = choose|p: nat| prime(p) && p <= a && #[trigger] (a % p) == 0;
    lemma_mod_trans(n, a, p);
    assert(p * p <= n) by (nonlinear_arith)
        requires p <= a, a * a <= n;
}

/// Whether `p * p <= c`.
fn square_at_most(p: u32, c: u32) -> (r: bool)
    ensures
        r == ((p as nat) * (p as nat) <= c as nat),
{
    let pp = p as u64;
    assert(pp * pp <= 0xFFFF_FFFE_0000_0001u64) by (nonlinear_arith)
        requires pp <= 0xFFFF_FFFFu64;
    pp * pp <= c as u64
}

/// Lists the primes below `SIEVE_BOUND`, by trial division with the primes
/// found so far.
pub fn small_primes() -> (r: Vec<u32>)
    ensures
        is_prime_table(r@, SIEVE_BOUND as nat),
        r@.len() > 0,
        r@[0] == 2,
{
    let mut t: Vec<u32> = Vec::new();
    let mut c: u32 = 2;
    while c < SIEVE_BOUND
        invariant
            2 <= c <= SIEVE_BOUND,
            is_prime_table(t@, c as nat),
            c > 2 ==> t@.len() > 0 && t@[0] == 2,
        decreases SIEVE_BOUND - c,
    {
        let mut j: usize = 0;
        let mut found: bool = false;
        while j < t.len() && !found && square_at_most(t[j], c)
            invariant
                j <= t@.len(),
                is_prime_table(t@, c as nat),
                2 <= c < SIEVE_BOUND,
                found ==> j > 0 && (c as nat) % (t@[j - 1] as nat) == 0,
                !found ==> forall|i: int| 0 <= i < j ==> (c as nat) % (#[trigger] t@[i] as nat) != 0,
            decreases t@.len() - j, if found { 0int } else { 1int },
        {
            if c % t[j] == 0 {
                found = true;
            }
            j = j + 1;
        }
        if !found {
            assert(prime(c as nat)) by {
                if !prime(c as nat) {
                    lemma_small_prime_divisor(c as nat);
                    let p = choose|p: nat| prime(p) && p * p <= c && #[trigger] ((c as nat) % p) == 0;
                    assert(p < c) by (nonlinear_arith)
                        requires p * p <= c, p >= 2;
                    let i = choose|i: int| 0 <= i < t.len() && #[trigger] t@[i] as nat == p;
                    if i >= j {
                        assert(j < t@.len());
                        assert(t@[j as int] <= t@[i]);
                        assert((t@[j as int] as nat) * (t@[j as int] as nat) <= p * p) by (nonlinear_arith)
                            requires t@[j as int] as nat <= p;
                    }
                }
            }
            let ghost before = t@;
            t.push(c);
            assert forall|q: nat| q < c + 1 && prime(q) implies exists|i: int| 0 <= i < t@.len() && #[trigger] t@[i] as nat == q by {
                if q == c {
                    assert(t@[t@.len() - 1] as nat == q);
                } else {
                    let i = choose|i: int| 0 <= i < before.len() && #[trigger] before[i] as nat == q;
                    assert(t@[i] == before[i]);
                }
            }
        } else {
            let p = t[j - 1];
            assert(!prime(c as nat)) by {
                assert(2 <= p < c);
                assert((c as nat) % (p as nat) == 0);
            }
        }
        c = c + 1;
    }
    t
}

/// What trial division by the small primes decides of a number.
#[derive(Clone, Copy, Debug, PartialEq, Eq, Structural)]
pub enum SieveVerdict {
    /// The number is prime.
    Prime,
    /// The number is not prime.
    Composite,
    /// No prime below the bound divides the number, which is too large to
    /// be decided by that alone.
    Undecided,
}

/// Square of `SIEVE_BOUND`: below it, trial division decides primality.
pub open spec fn sieve_square() -> nat {
    (SIEVE_BOUND as nat) * (SIEVE_BOUND as nat)
}

/// `n` has a prime divisor below `SIEVE_BOUND` other than itself.
pub open spec fn has_small_factor(n: nat) -> bool {
    exists|p: nat| prime(p) && p < SIEVE_BOUND && p != n && #[trigger] (n % p) == 0
}

/// The verdict of trial division: exact below `sieve_square()`, and above it
/// a rejection exactly when a prime below the bound divides `n`.
pub open spec fn sieve_verdict(n: nat) -> SieveVerdict {
    if n < sieve_square() {
        if prime(n) { SieveVerdict::Prime } else { SieveVerdict::Composite }
    } else if has_small_factor(n) {
        SieveVerdict::Composite
    } else {
        SieveVerdict::Undecided
    }
}

/// Trial division of `n` by the table of small primes.
pub fn trial_division(n: &BigNat, table: &Vec<u32>) -> (r: SieveVerdict)
    requires
        is_prime_table(table@, SIEVE_BOUND as nat),
    ensures
        r == sieve_verdict(n@),
{
    let bound = from_u64_big(SIEVE_BOUND as u64);
    let small: Option<u32> = if lt(n, &bound) {
        Some(rem_small(n, SIEVE_BOUND))
    } else {
        None
    };
    if let Some(v) = small {
        if v < 2 {
            return SieveVerdict::Composite;
        }
    }
    let mut i: usize = 0;
    while i < table.len()
        invariant
            is_prime_table(table@, SIEVE_BOUND as nat),
            small matches Some(v) ==> v as nat == n@ && v >= 2,
            small is None ==> n@ >= SIEVE_BOUND,
            i <= table@.len(),
            forall|k: int| 0 <= k < i ==> n@ % (#[trigger] table@[k] as nat) != 0,
        decreases table@.len() - i,
    {
        let p = table[i];
        assert(prime(table@[i as int] as nat));
        if rem_small(n, p) == 0 {
            if small == Some(p) {
                proof {
                    assert(n@ < sieve_square()) by (nonlinear_arith)
                        requires n@ < SIEVE_BOUND;
                }
                return SieveVerdict::Prime;
            }
            proof {
                assert(p as nat != n@);
                let k = n@ / (p as nat);
                vstd::arithmetic::div_mod::lemma_fundamental_div_mod(n@ as int, p as int);
                assert(n@ == p * k);
                assert(k != 1) by (nonlinear_arith)
                    requires n@ == p * k, p != n@;
                assert(k != 0) by (nonlinear_arith)
                    requires n@ == p * k, n@ >= 2, p >= 2;
                assert(p < n@) by (nonlinear_arith)
                    requires n@ == p * k, k >= 2, p >= 2;
                assert(!prime(n@));
                assert(has_small_factor(n@));
            }
            return SieveVerdict::Composite;
        }
        i = i + 1;
    }
    let square = from_u64_big((SIEVE_BOUND as u64) * (SIEVE_BOUND as u64));
    proof {
        assert forall|p: nat| prime(p) && p < SIEVE_BOUND implies #[trigger] (n@ % p) != 0 by {
            let k = choose|k: int| 0 <= k < table@.len() && #[trigger] table@[k] as nat == p;
            assert(n@ % (table@[k] as nat) != 0);
        }
        assert(!has_small_factor(n@));
    }
    if lt(n, &square) {
        proof {
            assert(n@ >= 2);
            if !prime(n@) {
                lemma_small_prime_divisor(n@);
                let p = choose|p: nat| prime(p) && p * p <= n@ && #[trigger] (n@ % p) == 0;
                if p >= SIEVE_BOUND {
                    assert(p * p >= sieve_square()) by (nonlinear_arith)
                        requires p >= SIEVE_BOUND;
                }
            }
        }
        SieveVerdict::Prime
    } else {
        SieveVerdict::Undecided
    }
}

} // verus!
