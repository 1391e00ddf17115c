//! Elements of the two pairing groups of BLS12-381.
//!
//! A group element is held as its canonical compressed encoding (48 bytes
//! for G1, 96 for G2). The curve arithmetic is done by the `bls12_381`
//! crate behind trusted wrappers; what each operation returns is named by
//! an uninterpreted function of the encodings, since spelling out curve
//! arithmetic here would state nothing checkable. Every wrapper decodes an
//! encoding that does not name a point as the identity, so each name is a
//! total function of its arguments; the encodings this library builds are
//! always canonical ones produced by `to_compressed`.

use vstd::prelude::*;
use crate::field::Fr;

verus! {

/// An element of G1, as its 48-byte compressed canonical encoding.
#[derive(Clone, Copy, Debug, PartialEq, Eq)]
pub struct G1Elem {
    pub(crate) bytes: [u8; 48],
}

/// An element of G2, as its 96-byte compressed canonical encoding.
#[derive(Clone, Copy, Debug, PartialEq, Eq)]
pub struct G2Elem {
    pub(crate) bytes: [u8; 96],
}

impl View for G1Elem {
    type V = Seq<u8>;

    closed spec fn view(&self) -> Seq<u8> {
        self.bytes@
    }
}

impl View for G2Elem {
    type V = Seq<u8>;

    closed spec fn view(&self) -> Seq<u8> {
        self.bytes@
    }
}

/// The compressed encoding of the G1 point encoded by `p`, multiplied by
/// the scalar of value `k`.
pub uninterp spec fn g1_mul_of(p: Seq<u8>, k: int) -> Seq<u8>;

/// The compressed encoding of the sum of the G1 points encoded by `p` and `q`.
pub uninterp spec fn g1_add_of(p: Seq<u8>, q: Seq<u8>) -> Seq<u8>;

/// The compressed encoding of the G2 point encoded by `p`, multiplied by
/// the scalar of value `k`.
pub uninterp spec fn g2_mul_of(p: Seq<u8>, k: int) -> Seq<u8>;

/// The compressed encoding of the sum of the G2 points encoded by `p` and `q`.
pub uninterp spec fn g2_add_of(p: Seq<u8>, q: Seq<u8>) -> Seq<u8>;

/// The value of the bilinear pairing on the points encoded by `p` and `q`,
/// as an abstract label of the target-group element.
pub uninterp spec fn pairing_of(p: Seq<u8>, q: Seq<u8>) -> int;

/// Relies on `bls12_381::G1Affine::generator`: the canonical generator of G1.
#[verifier::external_body]
pub(crate) fn g1_generator() -> (r: G1Elem) {
    G1Elem { bytes: bls12_381::G1Affine::generator().to_compressed() }
}

/// Relies on `bls12_381::G2Affine::generator`: the canonical generator of G2.
#[verifier::external_body]
pub(crate) fn g2_generator() -> (r: G2Elem) {
    G2Elem { bytes: bls12_381::G2Affine::generator().to_compressed() }
}

/// Relies on scalar multiplication in G1 of the `bls12_381` crate, together
/// with its canonical compression: the result depends on the encoded point
/// and the scalar value alone.
#[verifier::external_body]
pub(crate) fn g1_mul(p: &G1Elem, k: &Fr) -> (r: G1Elem)
    requires
        k.ok(),
    ensures
        r@ == g1_mul_of(p@, k.val()),
{
    let pt = bls12_381::G1Affine::from_compressed(&p.bytes)
        .unwrap_or(bls12_381::G1Affine::identity());
    let s = bls12_381::Scalar::from_bytes(&k.bytes).unwrap();
    G1Elem { bytes: bls12_381::G1Affine::from(&pt * &s).to_compressed() }
}

/// Relies on point addition in G1 of the `bls12_381` crate, together with
/// its canonical compression.
#[verifier::external_body]
pub(crate) fn g1_add(a: &G1Elem, b: &G1Elem) -> (r: G1Elem)
    ensures
        r@ == g1_add_of(a@, b@),
{
    let x = bls12_381::G1Affine::from_compressed(&a.bytes)
        .unwrap_or(bls12_381::G1Affine::identity());
    let y = bls12_381::G1Affine::from_compressed(&b.bytes)
        .unwrap_or(bls12_381::G1Affine::identity());
    let px = bls12_381::G1Projective::from(&x);
    G1Elem { bytes: bls12_381::G1Affine::from(&px + &y).to_compressed() }
}

/// Relies on scalar multiplication in G2 of the `bls12_381` crate, together
/// with its canonical compression.
#[verifier::external_body]
pub(crate) fn g2_mul(p: &G2Elem, k: &Fr) -> (r: G2Elem)
    requires
        k.ok(),
    ensures
        r@ == g2_mul_of(p@, k.val()),
{
    let pt = bls12_381::G2Affine::from_compressed(&p.bytes)
        .unwrap_or(bls12_381::G2Affine::identity());
    let s = bls12_381::Scalar::from_bytes(&k.bytes).unwrap();
    G2Elem { bytes: bls12_381::G2Affine::from(&pt * &s).to_compressed() }
}

/// Relies on point addition in G2 of the `bls12_381` crate, together with
/// its canonical compression.
#[verifier::external_body]
pub(crate) fn g2_add(a: &G2Elem, b: &G2Elem) -> (r: G2Elem)
    ensures
        r@ == g2_add_of(a@, b@),
{
    let x = bls12_381::G2Affine::from_compressed(&a.bytes)
        .unwrap_or(bls12_381::G2Affine::identity());
    let y = bls12_381::G2Affine::from_compressed(&b.bytes)
        .unwrap_or(bls12_381::G2Affine::identity());
    let px = bls12_381::G2Projective::from(&x);
    G2Elem { bytes: bls12_381::G2Affine::from(&px + &y).to_compressed() }
}

/// Relies on `bls12_381::pairing` and on equality in its target group: the
/// two pairing values are computed and compared there.
#[verifier::external_body]
pub(crate) fn pairing_check(p1: &G1Elem, q1: &G2Elem, p2: &G1Elem, q2: &G2Elem) -> (r: bool)
    ensures
        r == (pairing_of(p1@, q1@) == pairing_of(p2@, q2@)),
{
    let a1 = bls12_381::G1Affine::from_compressed(&p1.bytes)
        .unwrap_or(bls12_381::G1Affine::identity());
    let b1 = bls12_381::G2Affine::from_compressed(&q1.bytes)
        .unwrap_or(bls12_381::G2Affine::identity());
    let a2 = bls12_381::G1Affine::from_compressed(&p2.bytes)
        .unwrap_or(bls12_381::G1Affine::identity());
    let b2 = bls12_381::G2Affine::from_compressed(&q2.bytes)
        .unwrap_or(bls12_381::G2Affine::identity());
    bls12_381::pairing(&a1, &b1) == bls12_381::pairing(&a2, &b2)
}

/// Copies the encoding of a G1 element into a vector.
pub(crate) fn g1_bytes(e: &G1Elem) -> (r: Vec<u8>)
    ensures
        r@ == e@,
{
    let mut out: Vec<u8> = Vec::new();
    let mut i: usize = 0;
    while i < 48
        invariant
            i <= 48,
            out@.len() == i,
            forall|j: int| 0 <= j < i ==> out@[j] == e.bytes@[j],
        decreases 48 - i,
    {
        out.push(e.bytes[i]);
        i = i + 1;
    }
    proof {
        assert(out@ =~= e.bytes@);
    }
    out
}

/// Structural equality of two G1 elements, by their canonical encodings.
pub(crate) fn g1_eq(a: &G1Elem, b: &G1Elem) -> (r: bool)
    ensures
        r <==> a@ == b@,
{
    let mut i: usize = 0;
    let mut same: bool = true;
    while i < 48
        invariant
            i <= 48,
            same <==> (forall|j: int| 0 <= j < i ==> a.bytes@[j] == b.bytes@[j]),
        decreases 48 - i,
    {
        if a.bytes[i] != b.bytes[i] {
            same = false;
        }
        i = i + 1;
    }
    proof {
        if same {
            assert(a.bytes@ =~= b.bytes@);
        } else {
            assert(a.bytes@ != b.bytes@);
        }
    }
    same
}

} // verus!
