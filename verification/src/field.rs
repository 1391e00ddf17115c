//! Scalars of the BLS12-381 scalar field.
//!
//! A [`Fr`] holds the canonical little-endian byte encoding of a field
//! element, so that every element is described exactly by the integer it
//! encodes, and every field operation has an exact contract: the value of
//! the result is the value of the corresponding operation on the inputs,
//! reduced modulo the field order. The arithmetic itself is done by the
//! `bls12_381` crate behind trusted wrappers.

use vstd::prelude::*;

verus! {

/// The order of the BLS12-381 scalar field: the prime
/// `0x73eda753299d7d483339d80809a1d80553bda402fffe5bfeffffffff00000001`,
/// written as its upper and lower 128-bit halves.
pub open spec fn fr_order() -> int {
    0x73eda753299d7d483339d80809a1d805int * 0x80000000000000000000000000000000int * 2
        + 0x53bda402fffe5bfeffffffff00000001int
}

/// The integer encoded by a little-endian byte string.
pub open spec fn le_val(b: Seq<u8>) -> int
    decreases b.len(),
{
    if b.len() == 0 {
        0
    } else {
        b[0] + 256 * le_val(b.subrange(1, b.len() as int))
    }
}

/// An element of the scalar field, as its canonical little-endian encoding.
#[derive(Clone, Copy, Debug, PartialEq, Eq)]
pub struct Fr {
    pub(crate) bytes: [u8; 32],
}

impl Fr {
    /// The field element this scalar encodes, as an integer.
    pub closed spec fn val(self) -> int {
        le_val(self.bytes@)
    }

    /// The encoding is canonical: it denotes a value below the field order.
    pub open spec fn ok(self) -> bool {
        0 <= self.val() < fr_order()
    }

    /// Embeds a machine integer into the field.
    pub fn from_u64(v: u64) -> (r: Fr)
        ensures
            r.ok(),
            r.val() == v as int,
    {
        fr_from_u64(v)
    }
}

/// The additive inverse of a field value, as an integer in `[0, fr_order())`.
pub open spec fn fr_neg_val(a: int) -> int {
    (fr_order() - a) % fr_order()
}

/// Relies on `bls12_381::Scalar::from(u64)` and `Scalar::to_bytes`: the
/// scalar takes the integer value of the argument (which is far below the
/// field order), and `to_bytes` is its canonical little-endian encoding.
#[verifier::external_body]
fn fr_from_u64(v: u64) -> (r: Fr)
    ensures
        r.ok(),
        r.val() == v as int,
{
    Fr { bytes: bls12_381::Scalar::from(v).to_bytes() }
}

/// Relies on `bls12_381::Scalar::sub`: subtraction in the scalar field,
/// that is, subtraction of the encoded values modulo the field order.
/// `Scalar::from_bytes` accepts exactly the canonical encodings.
#[verifier::external_body]
pub(crate) fn fr_sub(a: &Fr, b: &Fr) -> (r: Fr)
    requires
        a.ok(),
        b.ok(),
    ensures
        r.ok(),
        r.val() == (a.val() - b.val()) % fr_order(),
{
    let x = bls12_381::Scalar::from_bytes(&a.bytes).unwrap();
    let y = bls12_381::Scalar::from_bytes(&b.bytes).unwrap();
    Fr { bytes: x.sub(&y).to_bytes() }
}

/// Relies on `bls12_381::Scalar::mul`: multiplication in the scalar field,
/// that is, multiplication of the encoded values modulo the field order.
#[verifier::external_body]
pub(crate) fn fr_mul(a: &Fr, b: &Fr) -> (r: Fr)
    requires
        a.ok(),
        b.ok(),
    ensures
        r.ok(),
        r.val() == (a.val() * b.val()) % fr_order(),
{
    let x = bls12_381::Scalar::from_bytes(&a.bytes).unwrap();
    let y = bls12_381::Scalar::from_bytes(&b.bytes).unwrap();
    Fr { bytes: x.mul(&y).to_bytes() }
}

/// Relies on `bls12_381::Scalar::neg`: the additive inverse in the scalar
/// field of the encoded value.
#[verifier::external_body]
pub(crate) fn fr_neg(a: &Fr) -> (r: Fr)
    requires
        a.ok(),
    ensures
        r.ok(),
        r.val() == fr_neg_val(a.val()),
{
    let x = bls12_381::Scalar::from_bytes(&a.bytes).unwrap();
    Fr { bytes: x.neg().to_bytes() }
}

/// Relies on `bls12_381::Scalar::invert`: the multiplicative inverse in the
/// scalar field, defined (and returned) exactly for nonzero elements.
#[verifier::external_body]
pub(crate) fn fr_invert(a: &Fr) -> (r: Fr)
    requires
        a.ok(),
        a.val() != 0,
    ensures
        r.ok(),
        (r.val() * a.val()) % fr_order() == 1,
{
    let x = bls12_381::Scalar::from_bytes(&a.bytes).unwrap();
    Fr { bytes: x.invert().unwrap().to_bytes() }
}

/// A little-endian value is never negative.
proof fn lemma_le_val_nonneg(b: Seq<u8>)
    ensures
        le_val(b) >= 0,
    decreases b.len(),
{
    if b.len() > 0 {
        lemma_le_val_nonneg(b.subrange(1, b.len() as int));
    }
}

/// A little-endian value is zero exactly when every byte is zero.
proof fn lemma_le_val_zero(b: Seq<u8>)
    ensures
        le_val(b) == 0 <==> (forall|i: int| 0 <= i < b.len() ==> b[i] == 0),
    decreases b.len(),
{
    if b.len() > 0 {
        let rest = b.subrange(1, b.len() as int);
        lemma_le_val_nonneg(rest);
        lemma_le_val_zero(rest);
        if le_val(b) == 0 {
            assert(forall|i: int| 0 <= i < b.len() ==> b[i] == 0) by {
                assert(forall|i: int| 1 <= i < b.len() ==> b[i] == rest[i - 1]);
            }
        } else {
            if forall|i: int| 0 <= i < b.len() ==> b[i] == 0 {
                assert(forall|i: int| 0 <= i < rest.len() ==> rest[i] == b[i + 1] && b[i + 1] == 0);
                assert(le_val(b) == 0);
            }
        }
    }
}

/// Tests whether a scalar is the zero element, by its canonical encoding.
pub fn fr_is_zero(a: &Fr) -> (r: bool)
    ensures
        r <==> a.val() == 0,
{
    let mut i: usize = 0;
    let mut all_zero: bool = true;
    while i < 32
        invariant
            i <= 32,
            all_zero <==> (forall|j: int| 0 <= j < i ==> a.bytes@[j] == 0),
        decreases 32 - i,
    {
        if a.bytes[i] != 0 {
            all_zero = false;
        }
        i = i + 1;
    }
    proof {
        lemma_le_val_zero(a.bytes@);
    }
    all_zero
}

} // verus!
