//! Randomness sources: the `RandomSource` trait, and the operating system's
//! generator through `rand_core`.
use vstd::prelude::*;
use crate::bignum::BigNat;
use rand_core::{OsRng, RngCore};

verus! {

/// `rand_core::OsRng`, carried through as an opaque value.
#[verifier::external_type_specification]
#[verifier::external_body]
pub struct ExOsRng(rand_core::OsRng);

/// `rand_core::Error`, the failure of a randomness source, carried through as
/// an opaque value.
#[verifier::external_type_specification]
#[verifier::external_body]
pub struct ExRandError(rand_core::Error);

/// Relies on `rand_core::OsRng`: a handle on the operating system's
/// generator, which holds no state of its own.
#[verifier::external_body]
pub(crate) fn os_rng() -> (r: OsRng) {
    OsRng
}

/// Relies on `RngCore::try_fill_bytes` of `OsRng`: it fills the buffer in
/// place, keeping its length, or reports that the source failed.
#[verifier::external_body]
fn try_fill(rng: &mut OsRng, buf: &mut Vec<u8>) -> (r: Result<(), rand_core::Error>)
    ensures
        final(buf)@.len() == old(buf)@.len(),
{
    rng.try_fill_bytes(buf.as_mut_slice())
}

/// A source of random bytes that the searches and checks draw from.
pub trait RandomSource {
    /// Fills `buf` with random bytes, keeping its length; returns `false`
    /// when the source failed.
    fn fill_random(&mut self, buf: &mut Vec<u8>) -> (ok: bool)
        ensures
            final(buf)@.len() == old(buf)@.len(),
    ;
}

impl RandomSource for OsRng {
    fn fill_random(&mut self, buf: &mut Vec<u8>) -> (ok: bool) {
        match try_fill(self, buf) {
            Ok(()) => true,
            Err(_) => false,
        }
    }
}

/// Draws `len` random bytes, read as a little-endian number; `None` when
/// the source failed.
pub(crate) fn random_bytes<R: RandomSource>(rng: &mut R, len: usize) -> (r: Option<BigNat>)
    ensures
        r matches Some(v) ==> v.bytes@.len() == len,
{
    let mut buf: Vec<u8> = Vec::new();
    let mut i: usize = 0;
    while i < len
        invariant
            i <= len,
            buf@.len() == i,
        decreases len - i,
    {
        buf.push(0u8);
        i = i + 1;
    }
    if rng.fill_random(&mut buf) {
        Some(BigNat { bytes: buf })
    } else {
        None
    }
}

} // verus!
