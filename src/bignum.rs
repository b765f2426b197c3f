//! Arbitrary-precision natural numbers, held as little-endian bytes.
//!
//! Arithmetic is done by `num_bigint`; each operation is a small wrapper that
//! converts to `BigUint`, makes one call and converts back.
use vstd::prelude::*;
use num_bigint::BigUint;
use vstd::arithmetic::power::pow;
use vstd::arithmetic::power2::pow2;

verus! {

/// Value of a little-endian byte string.
pub open spec fn le_value(s: Seq<u8>) -> nat
    decreases s.len(),
{
    if s.len() == 0 {
        0
    } else {
        s[0] as nat + 256 * le_value(s.drop_first())
    }
}

/// A natural number of any size.
#[derive(Debug)]
pub struct BigNat {
    /// Little-endian bytes of the value.
    pub bytes: Vec<u8>,
}

impl View for BigNat {
    type V = nat;

    open spec fn view(&self) -> nat {
        le_value(self.bytes@)
    }
}


/// Number of bits of `v`: the least `k` with `v < 2^k`.
pub open spec fn bit_len(v: nat) -> nat
    decreases v,
{
    if v == 0 {
        0
    } else {
        1 + bit_len(v / 2)
    }
}

/// Relies on `BigUint::from(u64)` and `BigUint::to_bytes_le`.
#[verifier::external_body]
pub(crate) fn from_u64_big(v: u64) -> (r: BigNat)
    ensures
        r@ == v as nat,
{
    BigNat { bytes: BigUint::from(v).to_bytes_le() }
}

/// Relies on `BigUint::modpow`: `base^exp mod m`; it panics on a zero modulus.
#[verifier::external_body]
pub(crate) fn modpow(base: &BigNat, exp: &BigNat, m: &BigNat) -> (r: BigNat)
    requires
        m@ > 0,
    ensures
        r@ as int == pow(base@ as int, exp@) % (m@ as int),
{
    let b = BigUint::from_bytes_le(&base.bytes);
    let e = BigUint::from_bytes_le(&exp.bytes);
    let m = BigUint::from_bytes_le(&m.bytes);
    BigNat { bytes: b.modpow(&e, &m).to_bytes_le() }
}

impl BigNat {
    /// The number `v`.
    pub fn from_u64(v: u64) -> (r: BigNat)
        ensures
            r@ == v as nat,
    {
        from_u64_big(v)
    }

    /// Number of bits of the value (`0` for zero).
    pub fn bit_length(&self) -> (r: u64)
        ensures
            r as nat == bit_len(self@),
    {
        bits(self)
    }

    /// Whether the value is odd.
    pub fn is_odd(&self) -> (r: bool)
        ensures
            r == (self@ % 2 == 1),
    {
        rem_small(self, 2) == 1
    }
}

/// Relies on `BigUint::bits`: the number of bits needed to write the value.
#[verifier::external_body]
pub(crate) fn bits(a: &BigNat) -> (r: u64)
    ensures
        r as nat == bit_len(a@),
{
    BigUint::from_bytes_le(&a.bytes).bits()
}

/// Relies on `&BigUint + &BigUint`.
#[verifier::external_body]
pub(crate) fn big_add(a: &BigNat, b: &BigNat) -> (r: BigNat)
    ensures
        r@ == a@ + b@,
{
    let x = BigUint::from_bytes_le(&a.bytes);
    let y = BigUint::from_bytes_le(&b.bytes);
    BigNat { bytes: (&x + &y).to_bytes_le() }
}

/// Relies on `&BigUint - &BigUint`, which panics when the result would be negative.
#[verifier::external_body]
pub(crate) fn big_sub(a: &BigNat, b: &BigNat) -> (r: BigNat)
    requires
        b@ <= a@,
    ensures
        r@ == a@ - b@,
{
    let x = BigUint::from_bytes_le(&a.bytes);
    let y = BigUint::from_bytes_le(&b.bytes);
    BigNat { bytes: (&x - &y).to_bytes_le() }
}

/// Relies on `&BigUint * &BigUint`.
#[verifier::external_body]
pub(crate) fn big_mul(a: &BigNat, b: &BigNat) -> (r: BigNat)
    ensures
        r@ == a@ * b@,
{
    let x = BigUint::from_bytes_le(&a.bytes);
    let y = BigUint::from_bytes_le(&b.bytes);
    BigNat { bytes: (&x * &y).to_bytes_le() }
}

/// Relies on `&BigUint % &BigUint`, which panics on a zero divisor.
#[verifier::external_body]
pub(crate) fn rem(a: &BigNat, m: &BigNat) -> (r: BigNat)
    requires
        m@ > 0,
    ensures
        r@ == a@ % m@,
{
    let x = BigUint::from_bytes_le(&a.bytes);
    let y = BigUint::from_bytes_le(&m.bytes);
    BigNat { bytes: (&x % &y).to_bytes_le() }
}

/// `le_value` of the bytes from index `i` on.
proof fn lemma_le_value_suffix(s: Seq<u8>, i: int)
    requires
        0 <= i < s.len(),
    ensures
        le_value(s.subrange(i, s.len() as int)) == s[i] as nat + 256 * le_value(
            s.subrange(i + 1, s.len() as int),
        ),
{
    let t = s.subrange(i, s.len() as int);
    assert(t.drop_first() =~= s.subrange(i + 1, s.len() as int));
}

/// The remainder of `a` by a small divisor, by Horner's rule over the bytes
/// from the most significant one down, reducing only when the running
/// value grows past `2^40`.
pub(crate) fn rem_small(a: &BigNat, d: u32) -> (r: u32)
    requires
        d > 0,
    ensures
        r as nat == a@ % (d as nat),
{
    let s = &a.bytes;
    let mut i: usize = s.len();
    let mut r: u64 = 0;
    let dd = d as u64;
    proof {
        assert(s@.subrange(s@.len() as int, s@.len() as int) =~= Seq::<u8>::empty());
        assert(le_value(Seq::<u8>::empty()) == 0);
    }
    while i > 0
        invariant
            i <= s@.len(),
            s@ == a.bytes@,
            dd == d as u64,
            dd > 0,
            r < 0x100_0000_0000u64,
            (r as nat) % (dd as nat) == le_value(s@.subrange(i as int, s@.len() as int)) % (dd as nat),
        decreases i,
    {
        i = i - 1;
        let b = s[i];
        let next = r * 256 + b as u64;
        proof {
            lemma_le_value_suffix(s@, i as int);
            let rest = le_value(s@.subrange(i as int + 1, s@.len() as int)) as int;
            let m = dd as int;
            let ri = r as int;
            assert((b as int + 256 * rest) % m == (b as int + 256 * ri) % m) by {
                vstd::arithmetic::div_mod::lemma_mul_mod_noop_right(256, rest, m);
                vstd::arithmetic::div_mod::lemma_mul_mod_noop_right(256, ri, m);
                vstd::arithmetic::div_mod::lemma_add_mod_noop(b as int, 256 * rest, m);
                vstd::arithmetic::div_mod::lemma_add_mod_noop(b as int, 256 * ri, m);
            }
            assert(next as int == b as int + 256 * ri);
        }
        if next >= 0x100_0000_0000u64 {
            r = next % dd;
            proof {
                vstd::arithmetic::div_mod::lemma_mod_twice(next as int, dd as int);
                assert(r < dd);
            }
        } else {
            r = next;
        }
    }
    proof {
        assert(s@.subrange(0, s@.len() as int) =~= s@);
    }
    (r % dd) as u32
}

/// Relies on `&BigUint << u64`: multiplication by `2^s`.
#[verifier::external_body]
pub(crate) fn shl(a: &BigNat, s: u64) -> (r: BigNat)
    ensures
        r@ == a@ * pow2(s as nat),
{
    let x = BigUint::from_bytes_le(&a.bytes);
    BigNat { bytes: (&x << s).to_bytes_le() }
}

/// Relies on `&BigUint >> u64`: division by `2^s`, rounding down.
#[verifier::external_body]
pub(crate) fn shr(a: &BigNat, s: u64) -> (r: BigNat)
    ensures
        r@ == a@ / pow2(s as nat),
{
    let x = BigUint::from_bytes_le(&a.bytes);
    BigNat { bytes: (&x >> s).to_bytes_le() }
}

/// Relies on `BigUint::trailing_zeros`: `None` for zero, else the number of
/// low bits that are zero.
#[verifier::external_body]
pub(crate) fn trailing_zeros(a: &BigNat) -> (r: Option<u64>)
    ensures
        a@ == 0 <==> r.is_none(),
        r matches Some(t) ==> a@ % pow2(t as nat) == 0 && (a@ / pow2(t as nat)) % 2 == 1,
{
    BigUint::from_bytes_le(&a.bytes).trailing_zeros()
}

/// Relies on `BigUint::bit`: whether bit `i` of the value is set.
#[verifier::external_body]
pub(crate) fn bit(a: &BigNat, i: u64) -> (r: bool)
    ensures
        r == ((a@ / pow2(i as nat)) % 2 == 1),
{
    BigUint::from_bytes_le(&a.bytes).bit(i)
}

/// Relies on `BigUint::sqrt`: the truncated square root.
#[verifier::external_body]
pub(crate) fn sqrt(a: &BigNat) -> (r: BigNat)
    ensures
        r@ * r@ <= a@ < (r@ + 1) * (r@ + 1),
{
    BigNat { bytes: BigUint::from_bytes_le(&a.bytes).sqrt().to_bytes_le() }
}

/// Relies on `BigUint`'s `<`, which compares values.
#[verifier::external_body]
pub(crate) fn lt(a: &BigNat, b: &BigNat) -> (r: bool)
    ensures
        r == (a@ < b@),
{
    BigUint::from_bytes_le(&a.bytes) < BigUint::from_bytes_le(&b.bytes)
}

/// Relies on `BigUint`'s `==`, which compares values.
#[verifier::external_body]
pub(crate) fn eq(a: &BigNat, b: &BigNat) -> (r: bool)
    ensures
        r == (a@ == b@),
{
    BigUint::from_bytes_le(&a.bytes) == BigUint::from_bytes_le(&b.bytes)
}

/// A value is below `2` raised to its bit length.
pub proof fn lemma_below_pow2_bit_len(v: nat)
    ensures
        v < pow2(bit_len(v)),
    decreases v,
{
    if v == 0 {
        assert(pow2(0) == 1) by { vstd::arithmetic::power2::lemma2_to64(); }
    } else {
        lemma_below_pow2_bit_len(v / 2);
        vstd::arithmetic::power2::lemma_pow2_unfold(bit_len(v));
    }
}

/// A value of `b` bits, `b >= 1`, has exactly that bit length.
pub proof fn lemma_bit_len_exact(v: nat, b: nat)
    requires
        b >= 1,
        pow2((b - 1) as nat) <= v < pow2(b),
    ensures
        bit_len(v) == b,
    decreases b,
{
    vstd::arithmetic::power2::lemma_pow2_unfold(b);
    if b == 1 {
        assert(pow2(0) == 1) by { vstd::arithmetic::power2::lemma2_to64(); }
        assert(v == 1);
        assert(bit_len(0) == 0);
    } else {
        vstd::arithmetic::power2::lemma_pow2_unfold((b - 1) as nat);
        lemma_bit_len_exact(v / 2, (b - 1) as nat);
    }
}

} // verus!
