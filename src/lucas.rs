//! The strong Lucas probable-prime test, with Selfridge's choice of
//! parameters, and the Jacobi symbol it needs.
use vstd::prelude::*;
use vstd::arithmetic::power2::{pow2, lemma_pow2_unfold, lemma_pow2_pos};
use crate::bignum::{
    BigNat, from_u64_big, big_add, big_sub, big_mul, rem, rem_small, shr, eq, sqrt, bit, bits,
    trailing_zeros, lemma_below_pow2_bit_len,
};
use crate::primality::{twos, odd_part, lemma_twos};

verus! {

/// Sign that a factor 2 on top brings to the Jacobi symbol over `n`.
pub open spec fn two_sign(n: nat) -> int {
    if n % 8 == 3 || n % 8 == 5 { -1 } else { 1 }
}

/// Sign that quadratic reciprocity brings when `a` and `n` trade places.
pub open spec fn reciprocity_sign(a: nat, n: nat) -> int {
    if a % 4 == 3 && n % 4 == 3 { -1 } else { 1 }
}

/// The Jacobi symbol `(a / n)` for odd `n`, by its reduction laws: `(0 / 1)`
/// is 1 and `(0 / n)` is 0 otherwise; a factor 2 of `a` is taken out with
/// `two_sign`; for odd `a`, reciprocity turns it into `(n mod a / a)`.
pub open spec fn jacobi(a: nat, n: nat) -> int
    decreases a,
{
    if a == 0 {
        if n == 1 { 1 } else { 0 }
    } else if a % 2 == 0 {
        two_sign(n) * jacobi(a / 2, n)
    } else {
        reciprocity_sign(a, n) * jacobi(n % a, a)
    }
}

/// The Jacobi symbol `(a / n)`.
pub fn jacobi_symbol(a: &BigNat, n: &BigNat) -> (r: i8)
    ensures
        r as int == jacobi(a@, n@),
{
    let zero = from_u64_big(0);
    let one = from_u64_big(1);
    let mut x = shr(a, 0);
    let mut m = shr(n, 0);
    let mut t: i8 = 1;
    proof {
        assert(pow2(0) == 1) by { vstd::arithmetic::power2::lemma2_to64(); }
    }
    loop
        invariant
            zero@ == 0,
            one@ == 1,
            t == 1 || t == -1,
            t * jacobi(x@, m@) == jacobi(a@, n@),
        decreases x@,
    {
        if eq(&x, &zero) {
            return if eq(&m, &one) { t } else { 0 };
        }
        let ghost x0 = x@;
        let ghost m0 = m@;
        let ghost t0 = t as int;
        if rem_small(&x, 2) == 0 {
            let m8 = rem_small(&m, 8);
            if m8 == 3 || m8 == 5 {
                t = -t;
            }
            proof {
                assert(pow2(1) == 2) by { vstd::arithmetic::power2::lemma2_to64(); }
            }
            x = shr(&x, 1);
            proof {
                assert(jacobi(x0, m0) == two_sign(m0) * jacobi(x@, m@));
                assert(t as int == t0 * two_sign(m0));
                assert(t * jacobi(x@, m@) == t0 * jacobi(x0, m0)) by (nonlinear_arith)
                    requires jacobi(x0, m0) == two_sign(m0) * jacobi(x@, m@),
                        t as int == t0 * two_sign(m0);
            }
        } else {
            if rem_small(&x, 4) == 3 && rem_small(&m, 4) == 3 {
                t = -t;
            }
            let next = rem(&m, &x);
            m = x;
            x = next;
            proof {
                assert(jacobi(x0, m0) == reciprocity_sign(x0, m0) * jacobi(x@, m@));
                assert(t as int == t0 * reciprocity_sign(x0, m0));
                assert(t * jacobi(x@, m@) == t0 * jacobi(x0, m0)) by (nonlinear_arith)
                    requires jacobi(x0, m0) == reciprocity_sign(x0, m0) * jacobi(x@, m@),
                        t as int == t0 * reciprocity_sign(x0, m0);
            }
        }
    }
}

/// `x / 2` modulo an odd `n`, for `x < n`.
pub open spec fn half_mod(x: nat, n: nat) -> nat {
    if x % 2 == 0 { x / 2 } else { (x + n) / 2 }
}

/// From `(U_k, V_k, Q^k)` to `(U_2k, V_2k, Q^2k)`, modulo `n`:
/// `U_2k = U_k V_k` and `V_2k = V_k^2 - 2 Q^k`.
pub open spec fn lucas_double(n: nat, t: (nat, nat, nat)) -> (nat, nat, nat) {
    ((t.0 * t.1) % n, (t.1 * t.1 + 2 * ((n - t.2) as nat)) % n, (t.2 * t.2) % n)
}

/// From `(U_k, V_k, Q^k)` to `(U_k+1, V_k+1, Q^k+1)`, modulo `n`:
/// `U_k+1 = (P U_k + V_k) / 2` and `V_k+1 = (D U_k + P V_k) / 2`.
pub open spec fn lucas_step(n: nat, p: nat, q: nat, d: nat, t: (nat, nat, nat)) -> (nat, nat, nat) {
    (half_mod((p * t.0 + t.1) % n, n), half_mod((d * t.0 + p * t.1) % n, n), (t.2 * q) % n)
}

/// `(U_k, V_k, Q^k)` modulo `n` for the Lucas sequences of parameters `P`,
/// `Q` and discriminant `D = P^2 - 4Q`, all three given modulo `n`.
pub open spec fn lucas_mod(n: nat, p: nat, q: nat, d: nat, k: nat) -> (nat, nat, nat)
    decreases k,
{
    if k == 0 {
        (0, 2nat % n, 1nat % n)
    } else if k % 2 == 0 {
        lucas_double(n, lucas_mod(n, p, q, d, k / 2))
    } else {
        lucas_step(n, p, q, d, lucas_mod(n, p, q, d, (k - 1) as nat))
    }
}

/// The strong Lucas condition: with `n + 1 = 2^s * e`, `e` odd, `U_e == 0`
/// or `V_(2^r * e) == 0` for some `r < s`, modulo `n`.
pub open spec fn strong_lucas_holds(n: nat, p: nat, q: nat, d: nat) -> bool {
    let s = twos(n + 1);
    let e = odd_part(n + 1);
    lucas_mod(n, p, q, d, e).0 == 0
        || exists|r: nat| r < s && #[trigger] lucas_mod(n, p, q, d, pow2(r) * e).1 == 0
}

fn half_mod_exec(x: BigNat, n: &BigNat) -> (r: BigNat)
    requires
        x@ < n@,
    ensures
        r@ == half_mod(x@, n@),
        r@ < n@,
{
    proof {
        assert(pow2(1) == 2) by { vstd::arithmetic::power2::lemma2_to64(); }
    }
    if rem_small(&x, 2) == 0 {
        shr(&x, 1)
    } else {
        let y = big_add(&x, n);
        shr(&y, 1)
    }
}

fn mul_mod(a: &BigNat, b: &BigNat, n: &BigNat) -> (r: BigNat)
    requires
        n@ > 0,
    ensures
        r@ == (a@ * b@) % n@,
        r@ < n@,
{
    let m = big_mul(a, b);
    rem(&m, n)
}

fn lucas_double_exec(n: &BigNat, t: (BigNat, BigNat, BigNat)) -> (r: (BigNat, BigNat, BigNat))
    requires
        n@ >= 3,
        t.2@ < n@,
    ensures
        (r.0@, r.1@, r.2@) == lucas_double(n@, (t.0@, t.1@, t.2@)),
        r.0@ < n@ && r.1@ < n@ && r.2@ < n@,
{
    let (u, v, qk) = t;
    let u2 = mul_mod(&u, &v, n);
    let vv = big_mul(&v, &v);
    let nq = big_sub(n, &qk);
    let twice = big_add(&nq, &nq);
    let sum = big_add(&vv, &twice);
    let v2 = rem(&sum, n);
    let q2 = mul_mod(&qk, &qk, n);
    (u2, v2, q2)
}

fn lucas_step_exec(n: &BigNat, p: &BigNat, q: &BigNat, d: &BigNat, t: (BigNat, BigNat, BigNat)) -> (r: (
    BigNat,
    BigNat,
    BigNat,
))
    requires
        n@ >= 3,
    ensures
        (r.0@, r.1@, r.2@) == lucas_step(n@, p@, q@, d@, (t.0@, t.1@, t.2@)),
        r.0@ < n@ && r.1@ < n@ && r.2@ < n@,
{
    let (u, v, qk) = t;
    let pu = big_mul(p, &u);
    let a = big_add(&pu, &v);
    let a = rem(&a, n);
    let u1 = half_mod_exec(a, n);
    let du = big_mul(d, &u);
    let pv = big_mul(p, &v);
    let b = big_add(&du, &pv);
    let b = rem(&b, n);
    let v1 = half_mod_exec(b, n);
    let q1 = mul_mod(&qk, q, n);
    (u1, v1, q1)
}

/// `(U_k, V_k, Q^k)` modulo `n`, by the binary ladder over the bits of `k`
/// from the top.
fn lucas_ladder(n: &BigNat, p: &BigNat, q: &BigNat, d: &BigNat, k: &BigNat) -> (r: (
    BigNat,
    BigNat,
    BigNat,
))
    requires
        n@ >= 3,
    ensures
        (r.0@, r.1@, r.2@) == lucas_mod(n@, p@, q@, d@, k@),
        r.0@ < n@ && r.1@ < n@ && r.2@ < n@,
{
    let zero = from_u64_big(0);
    let two = from_u64_big(2);
    let one = from_u64_big(1);
    let mut t = (zero, rem(&two, n), rem(&one, n));
    let mut i: u64 = bits(k);
    proof {
        lemma_below_pow2_bit_len(k@);
        lemma_pow2_pos(i as nat);
        assert(k@ / pow2(i as nat) == 0) by {
            vstd::arithmetic::div_mod::lemma_basic_div(k@ as int, pow2(i as nat) as int);
        }
    }
    while i > 0
        invariant
            n@ >= 3,
            (t.0@, t.1@, t.2@) == lucas_mod(n@, p@, q@, d@, k@ / pow2(i as nat)),
            t.0@ < n@ && t.1@ < n@ && t.2@ < n@,
        decreases i,
    {
        let ghost j = k@ / pow2(i as nat);
        let ghost j2 = k@ / pow2((i - 1) as nat);
        proof {
            lemma_pow2_unfold(i as nat);
            lemma_pow2_pos((i - 1) as nat);
            vstd::arithmetic::div_mod::lemma_div_denominator(k@ as int, pow2((i - 1) as nat) as int, 2);
            assert(pow2((i - 1) as nat) * 2 == pow2(i as nat));
            assert(j == j2 / 2);
            assert(j2 == 2 * j + j2 % 2);
        }
        let set = bit(k, i - 1);
        let ghost before = (t.0@, t.1@, t.2@);
        t = lucas_double_exec(n, t);
        proof {
            if j == 0 {
                assert(before == (0nat, 2nat, 1nat)) by {
                    assert(2nat % n@ == 2) by (nonlinear_arith) requires n@ >= 3;
                    assert(1nat % n@ == 1) by (nonlinear_arith) requires n@ >= 3;
                }
                assert(((2 * 2 + 2 * ((n@ - 1) as nat)) as nat) % n@ == 2) by {
                    vstd::arithmetic::div_mod::lemma_mod_multiples_vanish(2, 2, n@ as int);
                    vstd::arithmetic::div_mod::lemma_small_mod(2, n@);
                }
                assert(t.0@ == 0) by {
                    assert(0nat * 2nat == 0);
                    vstd::arithmetic::div_mod::lemma_small_mod(0, n@);
                }
                assert(t.1@ == 2) by {
                    assert(2nat * 2nat == 4);
                }
                assert(t.2@ == 1) by {
                    assert(1nat * 1nat == 1);
                    vstd::arithmetic::div_mod::lemma_small_mod(1, n@);
                }
                assert((t.0@, t.1@, t.2@) == before);
                assert(2 * j == 0);
            } else {
                assert((2 * j) / 2 == j);
                assert((t.0@, t.1@, t.2@) == lucas_mod(n@, p@, q@, d@, 2 * j));
            }
        }
        if set {
            t = lucas_step_exec(n, p, q, d, t);
            proof {
                assert(((2 * j + 1) - 1) as nat == 2 * j);
                assert((t.0@, t.1@, t.2@) == lucas_mod(n@, p@, q@, d@, 2 * j + 1));
            }
        }
        i = i - 1;
    }
    proof {
        assert(pow2(0) == 1) by { vstd::arithmetic::power2::lemma2_to64(); }
    }
    t
}

/// Whether the strong Lucas condition holds for `n` with parameters `P`,
/// `Q` and `D` given modulo `n`.
fn strong_lucas_with(n: &BigNat, p: &BigNat, q: &BigNat, d: &BigNat) -> (r: bool)
    requires
        n@ >= 3,
        n@ % 2 == 1,
    ensures
        r == strong_lucas_holds(n@, p@, q@, d@),
{
    let one = from_u64_big(1);
    let zero = from_u64_big(0);
    let np1 = big_add(n, &one);
    let s = match trailing_zeros(&np1) {
        Some(t) => t,
        None => 0,
    };
    let e = shr(&np1, s);
    proof {
        lemma_twos(np1@, s as nat);
        assert(twos(n@ + 1) >= 1);
        assert(pow2(0) == 1) by { vstd::arithmetic::power2::lemma2_to64(); }
        assert(pow2(0) * e@ == e@);
    }
    let ghost ee = e@;
    let mut t = lucas_ladder(n, p, q, d, &e);
    if eq(&t.0, &zero) {
        return true;
    }
    if eq(&t.1, &zero) {
        assert(lucas_mod(n@, p@, q@, d@, pow2(0) * ee).1 == 0);
        return true;
    }
    let mut i: u64 = 1;
    while i < s
        invariant
            n@ >= 3,
            zero@ == 0,
            s as nat == twos(n@ + 1),
            ee == odd_part(n@ + 1),
            ee % 2 == 1,
            1 <= i,
            lucas_mod(n@, p@, q@, d@, ee).0 != 0,
            (t.0@, t.1@, t.2@) == lucas_mod(n@, p@, q@, d@, pow2((i - 1) as nat) * ee),
            t.0@ < n@ && t.1@ < n@ && t.2@ < n@,
            forall|r: nat| r < i ==> #[trigger] lucas_mod(n@, p@, q@, d@, pow2(r) * ee).1 != 0,
        decreases s - i,
    {
        t = lucas_double_exec(n, t);
        proof {
            let k = pow2((i - 1) as nat) * ee;
            lemma_pow2_unfold(i as nat);
            lemma_pow2_pos((i - 1) as nat);
            assert(pow2(i as nat) * ee == 2 * k) by (nonlinear_arith)
                requires pow2(i as nat) == 2 * pow2((i - 1) as nat), k == pow2((i - 1) as nat) * ee;
            assert(k > 0) by (nonlinear_arith)
                requires k == pow2((i - 1) as nat) * ee, pow2((i - 1) as nat) > 0, ee % 2 == 1;
            assert((2 * k) / 2 == k);
            assert((t.0@, t.1@, t.2@) == lucas_mod(n@, p@, q@, d@, pow2(i as nat) * ee));
        }
        if eq(&t.1, &zero) {
            assert(lucas_mod(n@, p@, q@, d@, pow2(i as nat) * ee).1 == 0);
            return true;
        }
        i = i + 1;
    }
    false
}

/// `x` modulo `n`, in `[0, n)`.
pub open spec fn int_mod(x: int, n: nat) -> nat {
    (x % (n as int)) as nat
}

/// The `i`-th discriminant that Selfridge's method tries: 5, -7, 9, -11, ...
pub open spec fn selfridge_d(i: nat) -> int {
    if i % 2 == 0 { 5 + 2 * i as int } else { -(5 + 2 * i as int) }
}

/// `Q = (1 - D) / 4` for the `i`-th discriminant, with `P = 1`.
pub open spec fn selfridge_q(i: nat) -> int {
    if i % 2 == 0 { -(1 + (i / 2) as int) } else { 2 + (i / 2) as int }
}

/// How many discriminants are tried before the test gives up.
pub const MAX_DISCRIMINANTS: u64 = 1000;

/// The `j`-th discriminant is passed over: its Jacobi symbol over `n` is
/// `1`, or `n` divides it.
pub open spec fn passed_over(n: nat, j: nat) -> bool {
    jacobi(int_mod(selfridge_d(j), n), n) == 1 || int_mod(selfridge_d(j), n) == 0
}

/// The `i`-th discriminant is the first with Jacobi symbol `-1` over `n`,
/// all before it being passed over.
pub open spec fn first_discriminant(n: nat, i: nat) -> bool {
    &&& forall|j: nat| j < i ==> #[trigger] passed_over(n, j)
    &&& jacobi(int_mod(selfridge_d(i), n), n) == -1
}

/// `n` is a perfect square.
pub open spec fn is_square(n: nat) -> bool {
    exists|k: nat| #[trigger] (k * k) == n
}

/// `n` is a strong Lucas probable prime: odd, at least 3, not a square, and
/// with the first Selfridge discriminant found among the first
/// `MAX_DISCRIMINANTS`, it meets the strong Lucas condition with `P = 1`.
pub open spec fn lucas_probable_prime(n: nat) -> bool {
    &&& n >= 3 && n % 2 == 1 && !is_square(n)
    &&& exists|i: nat|
        i < MAX_DISCRIMINANTS && #[trigger] first_discriminant(n, i) && strong_lucas_holds(
            n,
            1,
            int_mod(selfridge_q(i), n),
            int_mod(selfridge_d(i), n),
        )
}

/// `x` modulo `n`, for a small signed `x`.
fn int_mod_exec(x: i64, n: &BigNat) -> (r: BigNat)
    requires
        n@ > 0,
        x > -0x4000_0000_0000_0000,
    ensures
        r@ == int_mod(x as int, n@),
{
    if x >= 0 {
        let v = from_u64_big(x as u64);
        rem(&v, n)
    } else {
        let y = (-x) as u64;
        let v = from_u64_big(y);
        let m = rem(&v, n);
        let zero = from_u64_big(0);
        proof {
            let nn = n@ as int;
            let yy = y as int;
            vstd::arithmetic::div_mod::lemma_fundamental_div_mod(yy, nn);
            let qy = yy / nn;
            if m@ > 0 {
                assert(x as int == nn * (-qy - 1) + (nn - m@)) by (nonlinear_arith)
                    requires yy == nn * qy + m@, x as int == -yy;
                vstd::arithmetic::div_mod::lemma_mod_multiples_vanish(-qy - 1, nn - m@, nn);
                vstd::arithmetic::div_mod::lemma_small_mod((nn - m@) as nat, nn as nat);
            } else {
                assert(x as int == nn * (-qy)) by (nonlinear_arith)
                    requires yy == nn * qy + m@, x as int == -yy, m@ == 0;
                vstd::arithmetic::div_mod::lemma_mod_multiples_vanish(-qy, 0, nn);
            }
        }
        if eq(&m, &zero) {
            m
        } else {
            big_sub(n, &m)
        }
    }
}

/// The strong Lucas probable-prime test with Selfridge's parameters: a
/// square is rejected; the first discriminant `D` of 5, -7, 9, -11, ... with
/// Jacobi symbol `-1` is sought, passing over those that `n` divides and
/// rejecting on a symbol `0` otherwise (a common factor below `n`) or when
/// none is found; then the strong Lucas condition is checked with `P = 1`,
/// `Q = (1 - D) / 4`.
pub fn lucas_test(n: &BigNat) -> (r: bool)
    ensures
        r == lucas_probable_prime(n@),
{
    let three = from_u64_big(3);
    if crate::bignum::lt(n, &three) || !n.is_odd() {
        return false;
    }
    let root = sqrt(n);
    let sq = big_mul(&root, &root);
    if eq(&sq, n) {
        assert(is_square(n@));
        return false;
    }
    proof {
        assert forall|k: nat| #[trigger] (k * k) != n@ by {
            let rr = root@;
            if k * k == n@ {
                if k <= rr {
                    assert(k * k <= rr * rr) by (nonlinear_arith) requires k <= rr;
                } else {
                    assert(k * k >= (rr + 1) * (rr + 1)) by (nonlinear_arith) requires k >= rr + 1;
                }
            }
        }
    }
    let one = from_u64_big(1);
    let mut i: u64 = 0;
    while i < MAX_DISCRIMINANTS
        invariant
            n@ >= 3,
            n@ % 2 == 1,
            !is_square(n@),
            one@ == 1,
            i <= MAX_DISCRIMINANTS,
            forall|j: nat| j < i ==> #[trigger] passed_over(n@, j),
        decreases MAX_DISCRIMINANTS - i,
    {
        let half = (i / 2) as i64;
        let (dv, qv): (i64, i64) = if i % 2 == 0 {
            (5 + 2 * (i as i64), -(1 + half))
        } else {
            (-(5 + 2 * (i as i64)), 2 + half)
        };
        assert(dv as int == selfridge_d(i as nat) && qv as int == selfridge_q(i as nat));
        let dm = int_mod_exec(dv, n);
        let jac = jacobi_symbol(&dm, n);
        if jac == -1 {
            let qm = int_mod_exec(qv, n);
            let res = strong_lucas_with(n, &one, &qm, &dm);
            proof {
                assert(first_discriminant(n@, i as nat));
                assert forall|i2: nat| i2 < MAX_DISCRIMINANTS && #[trigger] first_discriminant(n@, i2) implies i2 == i by {
                    if i2 < i {
                        assert(passed_over(n@, i2));
                        assert(jacobi(0, n@) == 0);
                    } else if i2 > i {
                        assert(passed_over(n@, i as nat));
                        assert(jacobi(0, n@) == 0);
                    }
                }
            }
            return res;
        }
        let zero = from_u64_big(0);
        if jac != 1 && !eq(&dm, &zero) {
            proof {
                assert(jacobi(0, n@) == 0);
                assert forall|i2: nat| !#[trigger] first_discriminant(n@, i2) by {
                    if i2 > i {
                        if first_discriminant(n@, i2) {
                            assert(passed_over(n@, i as nat));
                        }
                    } else if i2 < i {
                        assert(passed_over(n@, i2));
                    }
                }
            }
            return false;
        }
        assert(passed_over(n@, i as nat));
        i = i + 1;
    }
    proof {
        assert(jacobi(0, n@) == 0);
        assert forall|i2: nat| i2 < MAX_DISCRIMINANTS implies !#[trigger] first_discriminant(n@, i2) by {
            assert(passed_over(n@, i2));
        }
    }
    false
}

} // verus!
