//! The commitment scheme: parameter setup, the prover (commitment and
//! witness engines) and the verifier.

use vstd::prelude::*;
use crate::field::{fr_neg_val, Fr};
use crate::group::{
    g1_add, g1_add_of, g1_bytes, g1_eq, g1_generator, g1_mul, g1_mul_of, g2_add, g2_add_of,
    g2_generator, g2_mul, g2_mul_of, pairing_check, pairing_of, G1Elem, G2Elem,
};
use crate::polynomial::{lemma_shift_eval, pem, quot_seq, shifted, Polynomial};
use crate::KZGError;

verus! {

/// The public commitment parameters (structured reference string): a
/// generator of each group and, for a secret trapdoor `s`, the chains
/// `gs[i] = g * s^(i+1)` and `hs[i] = h * s^(i+1)`. Their length is the
/// degree bound of the scheme: only polynomials of a strictly smaller
/// degree can be committed to.
#[derive(Clone)]
pub struct KZGParams {
    pub(crate) g: G1Elem,
    pub(crate) h: G2Elem,
    pub(crate) gs: Vec<G1Elem>,
    pub(crate) hs: Vec<G2Elem>,
}

impl KZGParams {
    /// The encoding of the G1 generator.
    pub closed spec fn g_b(&self) -> Seq<u8> {
        self.g@
    }

    /// The encoding of the G2 generator.
    pub closed spec fn h_b(&self) -> Seq<u8> {
        self.h@
    }

    /// The encodings of the G1 reference string.
    pub closed spec fn gs_b(&self) -> Seq<Seq<u8>> {
        self.gs@.map_values(|e: G1Elem| e@)
    }

    /// The encodings of the G2 reference string.
    pub closed spec fn hs_b(&self) -> Seq<Seq<u8>> {
        self.hs@.map_values(|e: G2Elem| e@)
    }

    /// Both reference strings have the same, positive length.
    pub open spec fn wf(&self) -> bool {
        self.gs_b().len() == self.hs_b().len() && self.gs_b().len() >= 1
    }

    /// The degree bound: the length of the reference strings.
    pub fn max_degree(&self) -> (r: usize)
        ensures
            r == self.gs_b().len(),
    {
        self.gs.len()
    }
}

/// The commitment to the coefficients `c` under generator `g` and
/// reference string `gs`: the fold
/// `g * c[0] + gs[0] * c[1] + ... + gs[d-1] * c[d]`.
pub open spec fn fold_g1(g: Seq<u8>, gs: Seq<Seq<u8>>, c: Seq<int>) -> Seq<u8>
    decreases c.len(),
{
    if c.len() <= 1 {
        g1_mul_of(g, if c.len() == 0 { 0int } else { c[0] })
    } else {
        g1_add_of(fold_g1(g, gs, c.drop_last()), g1_mul_of(gs[c.len() - 2], c.last()))
    }
}

/// The commitment to the coefficients `c` under the parameters `ps`.
pub open spec fn spec_commit(ps: KZGParams, c: Seq<int>) -> Seq<u8> {
    fold_g1(ps.g_b(), ps.gs_b(), c)
}

/// Whether a full opening check accepts: the commitment equals the
/// recomputed commitment of the claimed polynomial.
pub open spec fn spec_verify_poly(ps: KZGParams, c: Seq<u8>, p: Seq<int>) -> bool {
    c == spec_commit(ps, p)
}

/// Whether the pairing equation accepts: `e(w, hs[0] + h * (-x))` equals
/// `e(c + g * (-y), h)`.
pub open spec fn spec_verify_eval(ps: KZGParams, x: int, y: int, c: Seq<u8>, w: Seq<u8>) -> bool {
    pairing_of(w, g2_add_of(ps.hs_b()[0], g2_mul_of(ps.h_b(), fr_neg_val(x)))) == pairing_of(
        g1_add_of(c, g1_mul_of(ps.g_b(), fr_neg_val(y))),
        ps.h_b(),
    )
}

/// The coefficients whose commitment is the witness for an accepted claim
/// `(x, y)` against the polynomial `p`: the quotient of `p - y` by `X - x`
/// (the zero polynomial when `p` is constant).
pub open spec fn witness_coeffs(p: Seq<int>, x: int, y: int) -> Seq<int> {
    if p.len() >= 2 {
        quot_seq(shifted(p, y), x)
    } else {
        seq![0int]
    }
}

/// A commitment: a single canonical G1 element.
#[derive(Clone, Copy, Debug, PartialEq, Eq)]
pub struct KZGCommitment(pub(crate) G1Elem);

/// An evaluation-proof witness: a single canonical G1 element.
#[derive(Clone, Copy, Debug, PartialEq, Eq)]
pub struct KZGWitness(pub(crate) G1Elem);

impl View for KZGCommitment {
    type V = Seq<u8>;

    closed spec fn view(&self) -> Seq<u8> {
        self.0@
    }
}

impl View for KZGWitness {
    type V = Seq<u8>;

    closed spec fn view(&self) -> Seq<u8> {
        self.0@
    }
}

impl KZGCommitment {
    /// The canonical compressed encoding of the commitment.
    pub fn to_bytes(&self) -> (r: Vec<u8>)
        ensures
            r@ == self@,
    {
        g1_bytes(&self.0)
    }
}

impl KZGWitness {
    /// The canonical compressed encoding of the witness.
    pub fn to_bytes(&self) -> (r: Vec<u8>)
        ensures
            r@ == self@,
    {
        g1_bytes(&self.0)
    }
}

/// Folds a polynomial against the G1 reference string: the shared
/// accumulation of the commitment engine, the witness engine and the
/// full-opening check.
fn commit_fold(ps: &KZGParams, p: &Polynomial) -> (r: G1Elem)
    requires
        ps.wf(),
        p.wf(),
        p.deg() < ps.gs_b().len(),
    ensures
        r@ == fold_g1(ps.g_b(), ps.gs_b(), p@),
{
    proof {
        p.lemma_wf_facts();
    }
    let mut acc: G1Elem = g1_mul(&ps.g, &p.coeff(0));
    proof {
        assert(p@.take(1) =~= seq![p@[0]]);
        assert(acc@ == fold_g1(ps.g_b(), ps.gs_b(), p@.take(1)));
    }
    let deg: usize = p.degree();
    let n: usize = ps.max_degree();
    let mut i: usize = 1;
    while i <= deg
        invariant
            ps.wf(),
            p.wf(),
            p.deg() < ps.gs_b().len(),
            deg == p.deg(),
            n == ps.gs_b().len(),
            deg < n,
            1 <= i <= deg + 1,
            acc@ == fold_g1(ps.g_b(), ps.gs_b(), p@.take(i as int)),
        decreases deg + 1 - i,
    {
        proof {
            p.lemma_wf_facts();
            assert(ps.gs_b()[i - 1] == ps.gs@[i - 1]@);
        }
        let term: G1Elem = g1_mul(&ps.gs[i - 1], &p.coeff(i));
        acc = g1_add(&acc, &term);
        proof {
            let t = p@.take(i as int + 1);
            assert(t.drop_last() =~= p@.take(i as int));
            assert(t.last() == p@[i as int]);
            assert(acc@ == fold_g1(ps.g_b(), ps.gs_b(), t));
        }
        i = i + 1;
    }
    proof {
        p.lemma_wf_facts();
        assert(p@.take(deg as int + 1) =~= p@);
    }
    acc
}

/// Derives the public parameters from the secret trapdoor `s`: each chain
/// starts at the group's generator and multiplies the previous element by
/// `s`. The trapdoor must be discarded by the caller after use.
pub fn setup(s: Fr, max_degree: usize) -> (r: KZGParams)
    requires
        s.ok(),
        1 <= max_degree,
    ensures
        r.wf(),
        r.gs_b().len() == max_degree,
        r.hs_b().len() == max_degree,
        forall|i: int|
            0 <= i < max_degree ==> #[trigger] r.gs_b()[i] == g1_mul_of(
                if i == 0 {
                    r.g_b()
                } else {
                    r.gs_b()[i - 1]
                },
                s.val(),
            ),
        forall|i: int|
            0 <= i < max_degree ==> #[trigger] r.hs_b()[i] == g2_mul_of(
                if i == 0 {
                    r.h_b()
                } else {
                    r.hs_b()[i - 1]
                },
                s.val(),
            ),
{
    let g = g1_generator();
    let h = g2_generator();
    let mut gs: Vec<G1Elem> = Vec::new();
    let mut curr_g: G1Elem = g;
    while gs.len() < max_degree
        invariant
            s.ok(),
            gs@.len() <= max_degree,
            gs@.len() == 0 ==> curr_g == g,
            gs@.len() >= 1 ==> curr_g == gs@[gs@.len() - 1],
            forall|i: int|
                0 <= i < gs@.len() ==> (#[trigger] gs@[i])@ == g1_mul_of(
                    if i == 0 {
                        g@
                    } else {
                        gs@[i - 1]@
                    },
                    s.val(),
                ),
        decreases max_degree - gs.len(),
    {
        let next = g1_mul(&curr_g, &s);
        gs.push(next);
        curr_g = next;
    }
    let mut hs: Vec<G2Elem> = Vec::new();
    let mut curr_h: G2Elem = h;
    while hs.len() < max_degree
        invariant
            s.ok(),
            hs@.len() <= max_degree,
            hs@.len() == 0 ==> curr_h == h,
            hs@.len() >= 1 ==> curr_h == hs@[hs@.len() - 1],
            forall|i: int|
                0 <= i < hs@.len() ==> (#[trigger] hs@[i])@ == g2_mul_of(
                    if i == 0 {
                        h@
                    } else {
                        hs@[i - 1]@
                    },
                    s.val(),
                ),
        decreases max_degree - hs.len(),
    {
        let next = g2_mul(&curr_h, &s);
        hs.push(next);
        curr_h = next;
    }
    let r = KZGParams { g, h, gs, hs };
    proof {
        assert forall|i: int| 0 <= i < max_degree implies #[trigger] r.gs_b()[i] == g1_mul_of(
            if i == 0 {
                r.g_b()
            } else {
                r.gs_b()[i - 1]
            },
            s.val(),
        ) by {
            assert(r.gs_b()[i] == r.gs@[i]@);
        }
        assert forall|i: int| 0 <= i < max_degree implies #[trigger] r.hs_b()[i] == g2_mul_of(
            if i == 0 {
                r.h_b()
            } else {
                r.hs_b()[i - 1]
            },
            s.val(),
        ) by {
            assert(r.hs_b()[i] == r.hs@[i]@);
        }
    }
    r
}

/// Relies on `rand::random`: a machine integer from the thread-local
/// cryptographically secure generator; nothing is promised of the outcome.
#[verifier::external_body]
fn random_u64() -> (r: u64) {
    rand::random::<u64>()
}

/// Derives parameters from an internally drawn random trapdoor, which is
/// discarded after use. This is a single-party convenience path: the
/// process that runs it momentarily knows the trapdoor, so it is unsuitable
/// wherever a multi-party or verifiable setup is required; real deployments
/// should feed [`setup`] from a trusted-setup ceremony.
pub fn csprng_setup(max_degree: usize) -> (r: KZGParams)
    requires
        1 <= max_degree,
    ensures
        r.wf(),
        r.gs_b().len() == max_degree,
        r.hs_b().len() == max_degree,
{
    let seed = random_u64();
    let s = Fr::from_u64(seed);
    setup(s, max_degree)
}

/// The prover: holds the parameters and at most one committed polynomial
/// at a time. The batch-witness fields are reserved storage for batched
/// opening proofs; no operation populates or reads them.
pub struct KZGProver {
    pub(crate) parameters: KZGParams,
    pub(crate) polynomial: Option<Polynomial>,
    pub(crate) commitment: Option<KZGCommitment>,
    pub(crate) batch_witness: Option<G1Elem>,
    pub(crate) witnesses: Vec<Option<G1Elem>>,
}

impl KZGProver {
    /// The prover's parameters.
    pub closed spec fn params(&self) -> KZGParams {
        self.parameters
    }

    /// The currently committed polynomial, as its coefficient values.
    pub closed spec fn committed(&self) -> Option<Seq<int>> {
        match self.polynomial {
            Option::None => Option::None,
            Option::Some(p) => Option::Some(p@),
        }
    }

    /// The parameters are well formed, and so is any committed polynomial,
    /// whose degree respects their bound.
    pub closed spec fn wf(&self) -> bool {
        &&& self.parameters.wf()
        &&& (self.polynomial matches Some(p) ==> p.wf() && p.deg() < self.parameters.gs_b().len())
    }

    /// A fresh prover over the given parameters, with nothing committed.
    pub fn new(parameters: KZGParams) -> (r: KZGProver)
        requires
            parameters.wf(),
        ensures
            r.wf(),
            r.params() == parameters,
            r.committed() is None,
    {
        let n = parameters.max_degree();
        let mut witnesses: Vec<Option<G1Elem>> = Vec::new();
        while witnesses.len() < n
            invariant
                witnesses@.len() <= n,
            decreases n - witnesses.len(),
        {
            witnesses.push(Option::None);
        }
        KZGProver {
            parameters,
            polynomial: Option::None,
            commitment: Option::None,
            batch_witness: Option::None,
            witnesses,
        }
    }

    /// Commits to a polynomial: folds its coefficients against the G1
    /// reference string and retains the polynomial as the current one,
    /// overwriting any previous commitment.
    pub fn commit(&mut self, polynomial: Polynomial) -> (r: KZGCommitment)
        requires
            old(self).wf(),
            polynomial.wf(),
            polynomial.deg() < old(self).params().gs_b().len(),
        ensures
            final(self).wf(),
            final(self).params() == old(self).params(),
            final(self).committed() == Some(polynomial@),
            r@ == spec_commit(old(self).params(), polynomial@),
    {
        let c = commit_fold(&self.parameters, &polynomial);
        self.polynomial = Option::Some(polynomial);
        KZGCommitment(c)
    }

    /// Returns the currently committed polynomial, or `NoPolynomial` when
    /// nothing has been committed yet.
    pub fn open(&self) -> (r: Result<Polynomial, KZGError>)
        requires
            self.wf(),
        ensures
            r is Ok <==> self.committed() is Some,
            (r matches Ok(p) ==> p.wf() && self.committed() == Some(p@)),
            (r matches Err(e) ==> e == KZGError::NoPolynomial),
    {
        match &self.polynomial {
            Option::None => Result::Err(KZGError::NoPolynomial),
            Option::Some(p) => Result::Ok(p.duplicate()),
        }
    }

    /// Builds the evaluation-proof witness for the claim that the committed
    /// polynomial takes value `y` at `x`: divides `P - y` by `X - x` and
    /// commits to the quotient. By the polynomial remainder theorem the
    /// division is exact precisely when `P(x) = y` in the field, so the
    /// call succeeds exactly on true claims; a false claim is answered with
    /// `PointNotOnPolynomial`, and a prover with nothing committed with
    /// `NoPolynomial`.
    pub fn create_witness(&mut self, point: (Fr, Fr)) -> (r: Result<KZGWitness, KZGError>)
        requires
            old(self).wf(),
            point.0.ok(),
            point.1.ok(),
        ensures
            final(self).wf(),
            *final(self) == *old(self),
            old(self).committed() is None ==> r == Result::<KZGWitness, KZGError>::Err(
                KZGError::NoPolynomial,
            ),
            (old(self).committed() matches Some(p) ==> (r is Ok <==> pem(p, point.0.val())
                == point.1.val())),
            (old(self).committed() matches Some(p) ==> (r matches Ok(w) ==> w@ == spec_commit(
                old(self).params(),
                witness_coeffs(p, point.0.val(), point.1.val()),
            ))),
            (old(self).committed() is Some && r is Err) ==> r == Result::<
                KZGWitness,
                KZGError,
            >::Err(KZGError::PointNotOnPolynomial),
    {
        let (x, y) = point;
        match &self.polynomial {
            Option::None => Result::Err(KZGError::NoPolynomial),
            Option::Some(polynomial) => {
                let ghost p = polynomial@;
                let dividend = polynomial.shift_const(&y);
                let divisor = Polynomial::monic_linear(&x);
                proof {
                    polynomial.lemma_wf_facts();
                    dividend.lemma_wf_facts();
                    lemma_shift_eval(p, x.val(), y.val());
                }
                match dividend.long_division(&divisor) {
                    (_, Option::Some(_)) => Result::Err(KZGError::PointNotOnPolynomial),
                    (psi, Option::None) => {
                        proof {
                            if polynomial.deg() >= 1 {
                                assert(psi@ == witness_coeffs(p, x.val(), y.val()));
                            } else {
                                assert(psi@ =~= witness_coeffs(p, x.val(), y.val()));
                            }
                        }
                        let w = commit_fold(&self.parameters, &psi);
                        Result::Ok(KZGWitness(w))
                    },
                }
            },
        }
    }
}

/// The verifier: holds only the parameters.
pub struct KZGVerifier {
    pub(crate) parameters: KZGParams,
}

impl KZGVerifier {
    /// The verifier's parameters.
    pub closed spec fn params(&self) -> KZGParams {
        self.parameters
    }

    /// A verifier over the given parameters.
    pub fn new(parameters: KZGParams) -> (r: KZGVerifier)
        requires
            parameters.wf(),
        ensures
            r.params() == parameters,
            r.params().wf(),
    {
        KZGVerifier { parameters }
    }

    /// The full-opening check: recomputes the commitment of `polynomial`
    /// and compares it, by structural equality of the canonical group
    /// element, with `commitment`.
    pub fn verify_poly(&self, commitment: &KZGCommitment, polynomial: &Polynomial) -> (r: bool)
        requires
            self.params().wf(),
            polynomial.wf(),
            polynomial.deg() < self.params().gs_b().len(),
        ensures
            r == spec_verify_poly(self.params(), commitment@, polynomial@),
    {
        let check = commit_fold(&self.parameters, polynomial);
        g1_eq(&check, &commitment.0)
    }

    /// The single-point evaluation check: accepts exactly when the pairing
    /// equation `e(witness, hs[0] + h * (-x)) = e(commitment + g * (-y), h)`
    /// holds.
    pub fn verify_eval(
        &self,
        point: (Fr, Fr),
        commitment: &KZGCommitment,
        witness: &KZGWitness,
    ) -> (r: bool)
        requires
            self.params().wf(),
            point.0.ok(),
            point.1.ok(),
        ensures
            r == spec_verify_eval(
                self.params(),
                point.0.val(),
                point.1.val(),
                commitment@,
                witness@,
            ),
    {
        let (x, y) = point;
        let nx = crate::field::fr_neg(&x);
        let hx = g2_mul(&self.parameters.h, &nx);
        proof {
            assert(self.params().hs_b()[0] == self.parameters.hs@[0]@);
        }
        let sx = g2_add(&self.parameters.hs[0], &hx);
        let ny = crate::field::fr_neg(&y);
        let gy = g1_mul(&self.parameters.g, &ny);
        let cy = g1_add(&commitment.0, &gy);
        pairing_check(&witness.0, &sx, &cy, &self.parameters.h)
    }
}

/// Commitment soundness: the full-opening check accepts the commitment of
/// a polynomial against that same polynomial.
pub proof fn lemma_commit_soundness(ps: KZGParams, p: Seq<int>)
    ensures
        spec_verify_poly(ps, spec_commit(ps, p), p),
{
}

/// Commitment determinism: commitments computed from the same polynomial
/// under the same parameters are identical.
pub proof fn lemma_commit_deterministic(ps: KZGParams, p: Seq<int>, c1: Seq<u8>, c2: Seq<u8>)
    requires
        c1 == spec_commit(ps, p),
        c2 == spec_commit(ps, p),
    ensures
        c1 == c2,
{
}

} // verus!
