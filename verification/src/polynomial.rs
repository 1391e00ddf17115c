//! Polynomials over the scalar field: exact representation, and schoolbook
//! long division by leading-coefficient elimination.
//!
//! A polynomial is a vector of coefficients (constant term first) together
//! with an explicit `degree` recording the highest meaningful index; the
//! coefficients beyond `degree` are zero. Its mathematical view is the
//! sequence of the coefficient values up to the degree.

use vstd::prelude::*;
use vstd::arithmetic::div_mod::{
    lemma_add_mod_noop, lemma_add_mod_noop_right, lemma_fundamental_div_mod, lemma_mod_equivalence,
    lemma_mod_multiples_vanish, lemma_mod_self_0, lemma_mul_mod_noop_left,
    lemma_mul_mod_noop_right, lemma_small_mod, lemma_sub_mod_noop, lemma_sub_mod_noop_right,
};
use vstd::arithmetic::mul::{
    lemma_mul_is_associative, lemma_mul_is_commutative, lemma_mul_is_distributive_add,
    lemma_mul_is_distributive_add_other_way, lemma_mul_unary_negation,
};
use vstd::arithmetic::power::{lemma_pow_adds, pow};
use crate::field::{fr_invert, fr_is_zero, fr_mul, fr_neg, fr_neg_val, fr_order, fr_sub, Fr};

verus! {

/// The value of a coefficient sequence (constant term first) at `x`, over
/// the plain integers (no reduction).
pub open spec fn pe(s: Seq<int>, x: int) -> int
    decreases s.len(),
{
    if s.len() == 0 {
        0
    } else {
        s[0] + x * pe(s.subrange(1, s.len() as int), x)
    }
}

/// Evaluation in the field: the value at `x` reduced modulo the field order.
pub open spec fn pem(s: Seq<int>, x: int) -> int {
    pe(s, x) % fr_order()
}

/// Every entry is a canonical field value.
pub open spec fn reduced(s: Seq<int>) -> bool {
    forall|i: int| 0 <= i < s.len() ==> 0 <= #[trigger] s[i] < fr_order()
}

/// Coefficient `k` of the quotient of `s` by a monic linear divisor with
/// root `x`: the field evaluation of the coefficients above `k`.
pub open spec fn quot_at(s: Seq<int>, x: int, k: int) -> int {
    pem(s.subrange(k + 1, s.len() as int), x)
}

/// The quotient of `s` by a monic linear divisor with root `x`.
pub open spec fn quot_seq(s: Seq<int>, x: int) -> Seq<int> {
    Seq::new((s.len() - 1) as nat, |k: int| quot_at(s, x, k))
}

/// A monic polynomial of degree one: `X + c`.
pub open spec fn is_monic_linear(d: Seq<int>) -> bool {
    d.len() == 2 && d[1] == 1
}

/// The root of the monic linear polynomial `X + c`: the field value `-c`.
pub open spec fn lin_root(d: Seq<int>) -> int {
    fr_neg_val(d[0])
}

/// A polynomial over the scalar field.
#[derive(Clone, Debug, PartialEq, Eq)]
pub struct Polynomial {
    pub(crate) coeffs: Vec<Fr>,
    pub(crate) degree: usize,
}

impl View for Polynomial {
    type V = Seq<int>;

    closed spec fn view(&self) -> Seq<int> {
        self.coeffs@.take(self.degree as int + 1).map_values(|f: Fr| f.val())
    }
}

impl Polynomial {
    /// The coefficients are canonical field values, the degree lies within
    /// them, and every coefficient beyond the degree is zero.
    pub closed spec fn wf(&self) -> bool {
        &&& self.degree < self.coeffs.len()
        &&& forall|i: int| 0 <= i < self.coeffs@.len() ==> (#[trigger] self.coeffs@[i]).ok()
        &&& forall|i: int|
            self.degree < i < self.coeffs@.len() ==> (#[trigger] self.coeffs@[i]).val() == 0
    }

    /// The degree, as a mathematical integer.
    pub closed spec fn deg(&self) -> int {
        self.degree as int
    }

    /// A well-formed polynomial has one coefficient per index up to its
    /// degree, each a canonical field value.
    pub proof fn lemma_wf_facts(&self)
        requires
            self.wf(),
        ensures
            self@.len() == self.deg() + 1,
            reduced(self@),
            self.deg() >= 0,
    {
        assert forall|i: int| 0 <= i < self@.len() implies 0 <= #[trigger] self@[i] < fr_order() by {
            assert(self@[i] == self.coeffs@[i].val());
            assert(self.coeffs@[i].ok());
        }
    }

    /// Constructs a polynomial from its coefficients. The caller owes the
    /// representation invariant: the degree lies within the coefficients and
    /// everything beyond it is zero.
    pub fn new_from_coeffs(coeffs: Vec<Fr>, degree: usize) -> (r: Polynomial)
        requires
            degree < coeffs.len(),
            forall|i: int| 0 <= i < coeffs@.len() ==> (#[trigger] coeffs@[i]).ok(),
            forall|i: int| degree < i < coeffs@.len() ==> (#[trigger] coeffs@[i]).val() == 0,
        ensures
            r.wf(),
            r.deg() == degree,
            r@.len() == degree as int + 1,
            forall|i: int| 0 <= i <= degree ==> r@[i] == (#[trigger] coeffs@[i]).val(),
    {
        let r = Polynomial { coeffs, degree };
        proof {
            assert(forall|i: int| 0 <= i <= degree ==> r@[i] == (#[trigger] r.coeffs@[i]).val());
        }
        r
    }

    /// The degree of the polynomial.
    pub fn degree(&self) -> (r: usize)
        ensures
            r as int == self.deg(),
    {
        self.degree
    }

    /// The coefficient at index `i`, for `i` up to the degree.
    pub fn coeff(&self, i: usize) -> (r: Fr)
        requires
            self.wf(),
            i as int <= self.deg(),
        ensures
            r.ok(),
            r.val() == self@[i as int],
    {
        self.coeffs[i]
    }

    /// Long division: computes `(quotient, remainder)` with
    /// `self = quotient * divisor + remainder` and the remainder of degree
    /// below the divisor's; the remainder is `None` exactly when the
    /// division is exact. For a monic linear divisor `X - x` the contract
    /// is exact: the quotient is the synthetic-division quotient and the
    /// remainder is the field evaluation of `self` at `x` (the polynomial
    /// remainder theorem turns the exactness check into an evaluation
    /// check).
    #[verifier::rlimit(50)]
    pub fn long_division(&self, divisor: &Polynomial) -> (r: (Polynomial, Option<Polynomial>))
        requires
            self.wf(),
            divisor.wf(),
            divisor@[divisor.deg()] != 0,
        ensures
            r.0.wf(),
            r.0.deg() <= self.deg(),
            (r.1 matches Some(rp) ==> rp.wf() && rp.deg() < divisor.deg() && rp@[rp.deg()] != 0),
            divisor.deg() == 0 ==> r.1 is None,
            is_monic_linear(divisor@) ==> ((r.1 is None) <==> pem(self@, lin_root(divisor@)) == 0),
            is_monic_linear(divisor@) ==> (r.1 matches Some(rp) ==> rp@ =~= seq![
                pem(self@, lin_root(divisor@)),
            ]),
            (is_monic_linear(divisor@) && self.deg() >= 1) ==> (r.0@ =~= quot_seq(
                self@,
                lin_root(divisor@),
            ) && r.0.deg() == self.deg() - 1),
            (is_monic_linear(divisor@) && self.deg() == 0) ==> r.0@ =~= seq![0int],
            forall|z: int| #![trigger pe(r.0@, z)]
                (pe(r.0@, z) * pe(divisor@, z) + pe(rem_val(r.1), z)) % fr_order() == pem(self@, z),
    {
        let ghost s = self@;
        let ghost sf = vals(self.coeffs@);
        let ghost ds = divisor@;
        let ghost m = fr_order();
        let ghost x = lin_root(ds);
        let sd: usize = self.degree;
        let dd: usize = divisor.degree;
        proof {
            self.lemma_wf_facts();
            divisor.lemma_wf_facts();
            assert(sf.take(sd as int + 1) =~= s);
            if is_monic_linear(ds) {
                lemma_lin_root(ds[0]);
            }
        }
        if dd > sd {
            // The divisor's degree exceeds the dividend's: the quotient is
            // zero and the dividend itself is the remainder (unless zero).
            let mut qc: Vec<Fr> = Vec::new();
            qc.push(Fr::from_u64(0));
            let q = Polynomial { coeffs: qc, degree: 0 };
            match top_nonzero(&self.coeffs, sd + 1) {
                Option::None => {
                    proof {
                        if is_monic_linear(ds) {
                            assert(s.len() == 1);
                            lemma_pe_singleton(s, x);
                            assert(s[0] == self.coeffs@[0].val() == 0);
                            lemma_small_mod(0nat, m as nat);
                        }
                        assert(q@ =~= seq![0int]);
                        assert forall|i: int| 0 <= i < s.len() implies #[trigger] s[i] == 0 by {
                            assert(s[i] == self.coeffs@[i].val());
                        }
                        assert forall|z: int|
                            (pe(q@, z) * pe(ds, z) + pe(
                                rem_val(Option::<Polynomial>::None),
                                z,
                            )) % m == pem(s, z) by {
                            assert(seq![0int].subrange(1, 1) =~= Seq::<int>::empty());
                            assert(pe(Seq::<int>::empty(), z) == 0);
                            assert(pe(seq![0int], z) == 0);
                            assert(pe(q@, z) == 0);
                            assert(pe(q@, z) * pe(ds, z) == 0);
                            assert(rem_val(Option::<Polynomial>::None) == Seq::<int>::empty());
                            lemma_pe_zero(s, z);
                        }
                    }
                    (q, Option::None)
                },
                Option::Some(t) => {
                    let rc = copy_coeffs(&self.coeffs);
                    let rp = Polynomial { coeffs: rc, degree: t };
                    proof {
                        if is_monic_linear(ds) {
                            assert(s.len() == 1);
                            assert(t == 0);
                            lemma_pe_singleton(s, x);
                            assert(0 <= s[0] < m);
                            lemma_small_mod(s[0] as nat, m as nat);
                            assert(rp@ =~= seq![pem(s, x)]);
                        }
                        assert(q@ =~= seq![0int]);
                        assert(vals(rp.coeffs@) == sf);
                        assert(rp@ =~= sf.take(t as int + 1));
                        assert forall|z: int|
                            (pe(q@, z) * pe(ds, z) + pe(
                                rem_val(Option::Some(rp)),
                                z,
                            )) % m == pem(s, z) by {
                            assert(seq![0int].subrange(1, 1) =~= Seq::<int>::empty());
                            assert(pe(Seq::<int>::empty(), z) == 0);
                            assert(pe(q@, z) == 0);
                            assert forall|i: int|
                                t + 1 <= i < sf.len() implies #[trigger] sf[i] == 0 by {
                                assert(sf[i] == self.coeffs@[i].val());
                            }
                            lemma_pe_trailing(sf, t as int + 1, z);
                            lemma_pe_trailing(sf, sd as int + 1, z);
                        }
                    }
                    (q, Option::Some(rp))
                },
            }
        } else {
            let dlead: Fr = divisor.coeffs[dd];
            let dinv: Fr = fr_invert(&dlead);
            let ghost iv = dinv.val();
            proof {
                if is_monic_linear(ds) {
                    // the divisor is monic, so the inverse of its leading
                    // coefficient is one
                    assert(ds[1] == divisor.coeffs@[1].val());
                    assert((iv * 1) % m == 1);
                    lemma_small_mod(iv as nat, m as nat);
                    assert(iv == 1);
                }
            }
            let mut rem: Vec<Fr> = copy_coeffs(&self.coeffs);
            let qlen: usize = sd - dd + 1;
            let mut qc: Vec<Fr> = Vec::new();
            while qc.len() < qlen
                invariant
                    qc@.len() <= qlen,
                    forall|i: int| 0 <= i < qc@.len() ==> (#[trigger] qc@[i]).ok(),
                    forall|i: int| 0 <= i < qc@.len() ==> (#[trigger] qc@[i]).val() == 0,
                decreases qlen - qc.len(),
            {
                qc.push(Fr::from_u64(0));
            }
            proof {
                assert forall|z: int|
                    (pe(vals(qc@), z) * pe(ds, z) + pe(vals(rem@), z) - pe(sf, z)) % m
                        == 0 by {
                    lemma_pe_zero(vals(qc@), z);
                    lemma_small_mod(0nat, m as nat);
                }
                if is_monic_linear(ds) {
                    // the top working coefficient already is the reduced
                    // Horner value of the one-coefficient tail
                    let t = s.subrange(sd as int, s.len() as int);
                    assert(t.len() == 1);
                    assert(t[0] == s[sd as int]);
                    lemma_pe_singleton(t, x);
                    lemma_small_mod(s[sd as int] as nat, m as nat);
                    assert(rem@[sd as int].val() == s[sd as int]);
                }
            }
            let mut k: usize = qlen;
            while k > 0
                invariant
                    self.wf(),
                    divisor.wf(),
                    s == self@,
                    ds == divisor@,
                    m == fr_order(),
                    x == lin_root(ds),
                    dd == divisor.degree,
                    sd == self.degree,
                    dd <= sd,
                    qlen == sd - dd + 1,
                    k <= qlen,
                    rem@.len() == self.coeffs@.len(),
                    sd < rem@.len(),
                    qc@.len() == qlen,
                    sf == vals(self.coeffs@),
                    s.len() == sd + 1,
                    forall|i: int| 0 <= i < k ==> (#[trigger] qc@[i]).val() == 0,
                    forall|z: int| #![trigger pe(vals(qc@), z)]
                        (pe(vals(qc@), z) * pe(ds, z) + pe(vals(rem@), z) - pe(sf, z)) % m == 0,
                    ds.len() == dd + 1,
                    reduced(s),
                    reduced(ds),
                    is_monic_linear(ds) ==> 0 <= x < m,
                    is_monic_linear(ds) ==> (ds[0] + x) % m == 0,
                    dinv.ok(),
                    dinv.val() == iv,
                    (iv * ds[dd as int]) % m == 1,
                    0 <= iv < m,
                    is_monic_linear(ds) ==> iv == 1,
                    forall|i: int| 0 <= i < rem@.len() ==> (#[trigger] rem@[i]).ok(),
                    forall|i: int| 0 <= i < qc@.len() ==> (#[trigger] qc@[i]).ok(),
                    forall|i: int|
                        k + dd <= i < rem@.len() ==> (#[trigger] rem@[i]).val() == 0,
                    forall|i: int| 0 <= i < k ==> (#[trigger] rem@[i]).val() == s[i],
                    is_monic_linear(ds) ==> (forall|i: int|
                        k <= i < qlen ==> (#[trigger] qc@[i]).val() == quot_at(s, x, i)),
                    is_monic_linear(ds) && k <= sd ==> rem@[k as int].val() == pem(
                        s.subrange(k as int, s.len() as int),
                        x,
                    ),
                decreases k,
            {
                k = k - 1;
                let ghost qv0 = vals(qc@);
                let ghost rv0 = vals(rem@);
                let f: Fr = fr_mul(&rem[k + dd], &dinv);
                proof {
                    if is_monic_linear(ds) {
                        // monic: the factor is the current leading value,
                        // which by the invariant is the Horner value above k
                        let a = rem@[k + dd].val();
                        assert(a == pem(s.subrange(k + 1, s.len() as int), x));
                        lemma_small_mod(a as nat, m as nat);
                        assert(f.val() == a);
                        assert(f.val() == quot_at(s, x, k as int));
                    }
                }
                qc[k] = f;
                proof {
                    assert(vals(qc@) =~= qv0.update(k as int, f.val()));
                }
                let ghost entry_rem = rem@;
                proof {
                    assert forall|z: int|
                        (pe(vals(rem@), z) - pe(vals(entry_rem), z) + (f.val() * pow(z, k as nat))
                            * pe(ds.take(0), z)) % m == 0 by {
                        assert(ds.take(0) =~= Seq::<int>::empty());
                        assert(pe(Seq::<int>::empty(), z) == 0);
                        lemma_small_mod(0nat, m as nat);
                    }
                }
                let mut j: usize = 0;
                while j <= dd
                    invariant
                        divisor.wf(),
                        ds == divisor@,
                        m == fr_order(),
                        dd == divisor.degree,
                        k + dd <= sd,
                        sd < rem@.len(),
                        j <= dd + 1,
                        f.ok(),
                        rem@.len() == entry_rem.len(),
                        forall|i: int| 0 <= i < rem@.len() ==> (#[trigger] rem@[i]).ok(),
                        forall|i: int| 0 <= i < entry_rem.len() ==> (#[trigger] entry_rem[i]).ok(),
                        forall|i: int|
                            k + j <= i < rem@.len() ==> (#[trigger] rem@[i]) == entry_rem[i],
                        forall|i: int| 0 <= i < k ==> (#[trigger] rem@[i]) == entry_rem[i],
                        forall|i: int|
                            k <= i < k + j ==> (#[trigger] rem@[i]).val() == (entry_rem[i].val() - (
                            f.val() * ds[i - k]) % m) % m,
                        ds.len() == dd + 1,
                        reduced(ds),
                        forall|z: int| #![trigger pe(vals(rem@), z)]
                            (pe(vals(rem@), z) - pe(vals(entry_rem), z) + (f.val() * pow(
                                z,
                                k as nat,
                            )) * pe(ds.take(j as int), z)) % m == 0,
                    decreases dd + 1 - j,
                {
                    let sub: Fr = fr_mul(&f, &divisor.coeffs[j]);
                    let ghost rvp = vals(rem@);
                    let newv: Fr = fr_sub(&rem[k + j], &sub);
                    rem[k + j] = newv;
                    proof {
                        let idx = (k + j) as int;
                        let fv = f.val();
                        let dsj = ds[j as int];
                        let ov = rvp[idx];
                        let nv = newv.val();
                        assert(dsj == divisor.coeffs@[j as int].val());
                        assert(ov == entry_rem[idx].val() && 0 <= ov < m);
                        assert(nv == (ov - (fv * dsj) % m) % m);
                        lemma_sub_mod_noop_right(ov, fv * dsj, m);
                        lemma_cong_reduce(ov - fv * dsj, m);
                        assert((nv - ov + fv * dsj) % m == 0);
                        assert forall|z: int|
                            (pe(vals(rem@), z) - pe(vals(entry_rem), z) + (f.val() * pow(
                                z,
                                k as nat,
                            )) * pe(ds.take(j as int + 1), z)) % m == 0 by {
                            let pwk = pow(z, k as nat);
                            let pwj = pow(z, j as nat);
                            let pwi = pow(z, idx as nat);
                            assert(vals(rem@) =~= rvp.update(idx, nv));
                            lemma_pe_update(rvp, idx, nv, z);
                            lemma_pe_take_succ(ds, j as int, z);
                            assert((pe(rvp, z) - pe(vals(entry_rem), z) + (fv * pwk) * pe(
                                ds.take(j as int),
                                z,
                            )) % m == 0);
                            lemma_pow_adds(z, k as nat, j as nat);
                            assert(pwk * pwj == pwi);
                            assert((fv * pwk) * (dsj * pwj) == (fv * dsj) * pwi)
                                by (nonlinear_arith)
                                requires
                                    pwk * pwj == pwi,
                            ;
                            assert((fv * pwk) * pe(ds.take(j as int + 1), z) == (fv * pwk) * pe(
                                ds.take(j as int),
                                z,
                            ) + (fv * pwk) * (dsj * pwj)) by {
                                lemma_mul_is_distributive_add(
                                    fv * pwk,
                                    pe(ds.take(j as int), z),
                                    dsj * pwj,
                                );
                            }
                            lemma_cong_scale(nv - ov + fv * dsj, pwi, m);
                            assert((nv - ov + fv * dsj) * pwi == (nv - ov) * pwi + (fv * dsj)
                                * pwi) by {
                                lemma_mul_is_distributive_add_other_way(pwi, nv - ov, fv * dsj);
                            }
                            lemma_cong_add(
                                pe(rvp, z) - pe(vals(entry_rem), z) + (fv * pwk) * pe(
                                    ds.take(j as int),
                                    z,
                                ),
                                (nv - ov + fv * dsj) * pwi,
                                m,
                            );
                        }
                    }
                    j = j + 1;
                }
                proof {
                    // the leading coefficient of the working remainder is
                    // eliminated exactly
                    let a = entry_rem[k + dd].val();
                    assert(f.val() == (a * iv) % m);
                    lemma_cancel_inverse(a, iv, ds[dd as int], m);
                    assert(rem@[k + dd].val() == 0);
                    if is_monic_linear(ds) {
                        // monic: the new low entry continues the Horner chain
                        let sk = entry_rem[k as int].val();
                        assert(sk == s[k as int]);
                        assert(rem@[k as int].val() == (sk - (f.val() * ds[0]) % m) % m);
                        lemma_monic_step(sk, f.val(), ds[0], x, m);
                        lemma_tail_step(s, x, k as int, m);
                        assert(rem@[k as int].val() == pem(
                            s.subrange(k as int, s.len() as int),
                            x,
                        ));
                    }
                    // the division identity is preserved: the new quotient
                    // term accounts exactly for what was subtracted from
                    // the working remainder
                    assert(ds.take(dd as int + 1) =~= ds);
                    assert(vals(entry_rem) == rv0);
                    let qv1 = vals(qc@);
                    let rv1 = vals(rem@);
                    assert forall|z: int|
                        (pe(vals(qc@), z) * pe(ds, z) + pe(vals(rem@), z) - pe(sf, z)) % m
                            == 0 by {
                        let fv = f.val();
                        let pwk = pow(z, k as nat);
                        lemma_pe_update(qv0, k as int, fv, z);
                        assert(qv0[k as int] == 0);
                        assert(pe(qv1, z) == pe(qv0, z) + fv * pwk);
                        assert((pe(qv0, z) * pe(ds, z) + pe(rv0, z) - pe(sf, z)) % m == 0);
                        assert((pe(rv1, z) - pe(rv0, z) + (fv * pwk) * pe(ds, z)) % m == 0);
                        assert(pe(qv1, z) * pe(ds, z) == pe(qv0, z) * pe(ds, z) + (fv * pwk)
                            * pe(ds, z)) by {
                            lemma_mul_is_distributive_add_other_way(
                                pe(ds, z),
                                pe(qv0, z),
                                fv * pwk,
                            );
                        }
                        lemma_cong_add(
                            pe(qv0, z) * pe(ds, z) + pe(rv0, z) - pe(sf, z),
                            pe(rv1, z) - pe(rv0, z) + (fv * pwk) * pe(ds, z),
                            m,
                        );
                    }
                }
            }
            let q = Polynomial { coeffs: qc, degree: sd - dd };
            proof {
                assert(q.wf());
                if is_monic_linear(ds) && sd >= 1 {
                    assert(q@.len() == qlen == quot_seq(s, x).len());
                    assert forall|i: int| 0 <= i < qlen implies q@[i] == quot_seq(s, x)[i] by {
                        assert(q@[i] == q.coeffs@[i].val());
                    }
                    assert(q@ =~= quot_seq(s, x));
                }
                if is_monic_linear(ds) {
                    assert(s.subrange(0, s.len() as int) =~= s);
                }
            }
            match top_nonzero(&rem, dd) {
                Option::None => {
                    proof {
                        if is_monic_linear(ds) {
                            assert(rem@[0].val() == pem(s, x));
                            assert(pem(s, x) == 0);
                        }
                        assert(q@ =~= vals(q.coeffs@));
                        assert forall|i: int| 0 <= i < vals(rem@).len() implies #[trigger] vals(
                            rem@,
                        )[i] == 0 by {
                            assert(vals(rem@)[i] == rem@[i].val());
                        }
                        assert forall|z: int|
                            (pe(q@, z) * pe(ds, z) + pe(
                                rem_val(Option::<Polynomial>::None),
                                z,
                            )) % m == pem(s, z) by {
                            lemma_pe_zero(vals(rem@), z);
                            assert(pe(Seq::<int>::empty(), z) == 0);
                            assert((pe(vals(q.coeffs@), z) * pe(ds, z) + pe(vals(rem@), z) - pe(
                                sf,
                                z,
                            )) % m == 0);
                            lemma_pe_trailing(sf, sd as int + 1, z);
                            lemma_mod_equivalence(pe(q@, z) * pe(ds, z) + 0, pe(sf, z), m);
                        }
                    }
                    (q, Option::None)
                },
                Option::Some(t) => {
                    let rp = Polynomial { coeffs: rem, degree: t };
                    proof {
                        assert(rp.wf());
                        if is_monic_linear(ds) {
                            assert(t == 0);
                            assert(rp@ =~= seq![pem(s, x)]);
                        }
                        assert(q@ =~= vals(q.coeffs@));
                        assert(rp@ =~= vals(rp.coeffs@).take(t as int + 1));
                        assert forall|z: int|
                            (pe(q@, z) * pe(ds, z) + pe(
                                rem_val(Option::Some(rp)),
                                z,
                            )) % m == pem(s, z) by {
                            assert forall|i: int|
                                t + 1 <= i < vals(rp.coeffs@).len() implies #[trigger] vals(
                                rp.coeffs@,
                            )[i] == 0 by {
                                assert(vals(rp.coeffs@)[i] == rp.coeffs@[i].val());
                            }
                            lemma_pe_trailing(vals(rp.coeffs@), t as int + 1, z);
                            assert((pe(vals(q.coeffs@), z) * pe(ds, z) + pe(
                                vals(rp.coeffs@),
                                z,
                            ) - pe(sf, z)) % m == 0);
                            lemma_pe_trailing(sf, sd as int + 1, z);
                            lemma_mod_equivalence(
                                pe(q@, z) * pe(ds, z) + pe(rp@, z),
                                pe(sf, z),
                                m,
                            );
                        }
                    }
                    (q, Option::Some(rp))
                },
            }
        }
    }
}

/// The coefficients of `p` with `y` subtracted from the constant term, in
/// the field.
pub open spec fn shifted(p: Seq<int>, y: int) -> Seq<int> {
    p.update(0, (p[0] - y) % fr_order())
}

impl Polynomial {
    /// An identical copy of the polynomial.
    pub fn duplicate(&self) -> (r: Polynomial)
        requires
            self.wf(),
        ensures
            r.wf(),
            r.deg() == self.deg(),
            r@ == self@,
    {
        let r = Polynomial { coeffs: copy_coeffs(&self.coeffs), degree: self.degree };
        proof {
            assert(r@ =~= self@);
        }
        r
    }

    /// The polynomial `self - y`: the constant term is decremented by `y`
    /// in the field, every other coefficient is unchanged.
    pub fn shift_const(&self, y: &Fr) -> (r: Polynomial)
        requires
            self.wf(),
            y.ok(),
        ensures
            r.wf(),
            r.deg() == self.deg(),
            r@ == shifted(self@, y.val()),
    {
        let mut r = self.duplicate();
        let c0 = fr_sub(&r.coeffs[0], y);
        r.coeffs[0] = c0;
        proof {
            assert(r@ =~= shifted(self@, y.val()));
        }
        r
    }

    /// The monic linear polynomial `X - x`, as the coefficients
    /// `[-x, 1]` over the field.
    pub fn monic_linear(x: &Fr) -> (r: Polynomial)
        requires
            x.ok(),
        ensures
            r.wf(),
            r.deg() == 1,
            is_monic_linear(r@),
            r@[1] == 1,
            r@[0] == fr_neg_val(x.val()),
            lin_root(r@) == x.val(),
    {
        let mut coeffs: Vec<Fr> = Vec::new();
        coeffs.push(fr_neg(x));
        coeffs.push(Fr::from_u64(1));
        let r = Polynomial { coeffs, degree: 1 };
        proof {
            lemma_neg_neg(x.val());
        }
        r
    }
}

/// Negating twice in the field gives the value back.
proof fn lemma_neg_neg(a: int)
    requires
        0 <= a < fr_order(),
    ensures
        fr_neg_val(fr_neg_val(a)) == a,
{
    let m = fr_order();
    lemma_mod_self_0(m);
    if a == 0 {
        assert(fr_neg_val(0) == m % m);
    } else {
        lemma_small_mod((m - a) as nat, m as nat);
        assert(fr_neg_val(a) == m - a);
        lemma_small_mod(a as nat, m as nat);
    }
}

/// Subtracting `y` from the constant term shifts the field evaluation by
/// `y`: the shifted polynomial evaluates to zero at `x` exactly when the
/// original evaluates to `y` there.
pub proof fn lemma_shift_eval(p: Seq<int>, x: int, y: int)
    requires
        p.len() >= 1,
        reduced(p),
        0 <= y < fr_order(),
    ensures
        pem(shifted(p, y), x) == 0 <==> pem(p, x) == y,
{
    let m = fr_order();
    let sp = shifted(p, y);
    let t = pe(p.subrange(1, p.len() as int), x);
    assert(sp.subrange(1, sp.len() as int) =~= p.subrange(1, p.len() as int));
    assert(pe(sp, x) == (p[0] - y) % m + x * t);
    assert(pe(p, x) == p[0] + x * t);
    lemma_add_mod_noop_right(x * t, p[0] - y, m);
    assert((x * t + (p[0] - y) % m) % m == (x * t + (p[0] - y)) % m);
    assert(pem(sp, x) == (pe(p, x) - y) % m);
    lemma_mod_equivalence(pe(p, x), y, m);
    lemma_small_mod(y as nat, m as nat);
}

/// Copies a coefficient vector.
pub(crate) fn copy_coeffs(v: &Vec<Fr>) -> (r: Vec<Fr>)
    ensures
        r@ == v@,
{
    let mut out: Vec<Fr> = Vec::new();
    let mut i: usize = 0;
    while i < v.len()
        invariant
            i <= v@.len(),
            out@.len() == i,
            forall|j: int| 0 <= j < i ==> out@[j] == v@[j],
        decreases v@.len() - i,
    {
        out.push(v[i]);
        i = i + 1;
    }
    proof {
        assert(out@ =~= v@);
    }
    out
}

/// The highest index below `bound` holding a nonzero coefficient, if any.
fn top_nonzero(v: &Vec<Fr>, bound: usize) -> (r: Option<usize>)
    requires
        bound <= v@.len(),
    ensures
        (r matches Some(t) ==> t < bound && v@[t as int].val() != 0 && (forall|i: int|
            t < i < bound ==> (#[trigger] v@[i]).val() == 0)),
        r is None ==> (forall|i: int| 0 <= i < bound ==> (#[trigger] v@[i]).val() == 0),
    {
    let mut i: usize = bound;
    while i > 0
        invariant
            i <= bound <= v@.len(),
            forall|j: int| i <= j < bound ==> (#[trigger] v@[j]).val() == 0,
        decreases i,
    {
        i = i - 1;
        if !fr_is_zero(&v[i]) {
            return Option::Some(i);
        }
    }
    Option::None
}

/// The root of `X + c` is a canonical field value and cancels `c`.
proof fn lemma_lin_root(c: int)
    requires
        0 <= c < fr_order(),
    ensures
        0 <= fr_neg_val(c) < fr_order(),
        (c + fr_neg_val(c)) % fr_order() == 0,
{
    let m = fr_order();
    if c == 0 {
        assert(m % m == 0) by {
            lemma_fundamental_div_mod(m, m);
            lemma_mod_multiples_vanish(1, 0, m);
            lemma_small_mod(0nat, m as nat);
        }
        assert(fr_neg_val(0) == m % m);
        lemma_small_mod(0nat, m as nat);
    } else {
        lemma_small_mod((m - c) as nat, m as nat);
        assert(fr_neg_val(c) == m - c);
        lemma_mod_multiples_vanish(1, 0, m);
        lemma_small_mod(0nat, m as nat);
        assert((c + (m - c)) % m == 0);
    }
}

/// Eliminating a value against its own leading factor leaves zero: with
/// `i` the inverse of `d`, the value `a - ((a * i) % m) * d` is a multiple
/// of `m`.
proof fn lemma_cancel_inverse(a: int, i: int, d: int, m: int)
    requires
        m == fr_order(),
        0 <= a < m,
        (i * d) % m == 1,
    ensures
        (a - (((a * i) % m) * d) % m) % m == 0,
{
    lemma_mul_mod_noop_left(a * i, d, m);
    lemma_mul_is_associative(a, i, d);
    lemma_mul_mod_noop_right(a, i * d, m);
    assert((a * ((i * d) % m)) % m == (a * 1) % m);
    lemma_small_mod(a as nat, m as nat);
    assert((((a * i) % m) * d) % m == a);
    lemma_small_mod(0nat, m as nat);
}

/// One subtraction step against a monic linear divisor `X + c` is one
/// Horner step at the root `x`.
proof fn lemma_monic_step(sk: int, f: int, c: int, x: int, m: int)
    requires
        m == fr_order(),
        0 <= sk < m,
        0 <= f < m,
        0 <= c < m,
        0 <= x < m,
        (c + x) % m == 0,
    ensures
        (sk - (f * c) % m) % m == (sk + x * f) % m,
{
    lemma_sub_mod_noop(sk, f * c, m);
    lemma_small_mod(sk as nat, m as nat);
    assert((sk - (f * c) % m) % m == (sk - f * c) % m);
    lemma_fundamental_div_mod(c + x, m);
    let qq = (c + x) / m;
    assert(c + x == m * qq);
    assert(f * (c + x) == f * c + f * x) by {
        lemma_mul_is_distributive_add(f, c, x);
    }
    assert(f * (m * qq) == m * (f * qq)) by {
        lemma_mul_is_associative(f, m, qq);
        lemma_mul_is_commutative(f, m);
        lemma_mul_is_associative(m, f, qq);
    }
    assert(sk + x * f == m * (f * qq) + (sk - f * c)) by {
        assert(f * c + f * x == m * (f * qq));
        lemma_mul_is_commutative(x, f);
    }
    lemma_mod_multiples_vanish(f * qq, sk - f * c, m);
}

/// Extending a Horner chain by one coefficient: the reduced tail value at
/// index `k` is `s[k] + x *` the reduced tail value at `k + 1`.
proof fn lemma_tail_step(s: Seq<int>, x: int, k: int, m: int)
    requires
        m == fr_order(),
        0 <= k < s.len(),
        reduced(s),
    ensures
        (s[k] + x * (pe(s.subrange(k + 1, s.len() as int), x) % m)) % m == pe(
            s.subrange(k, s.len() as int),
            x,
        ) % m,
{
    let p = pe(s.subrange(k + 1, s.len() as int), x);
    lemma_pe_pop(s, x, k);
    lemma_mul_mod_noop_right(x, p, m);
    lemma_add_mod_noop_right(s[k], x * (p % m), m);
    lemma_add_mod_noop_right(s[k], x * p, m);
    assert((x * (p % m)) % m == (x * p) % m);
}

/// The coefficient values of a vector of scalars.
pub open spec fn vals(v: Seq<Fr>) -> Seq<int> {
    v.map_values(|f: Fr| f.val())
}

/// The coefficient sequence of an optional remainder: empty when the
/// division was exact.
pub open spec fn rem_val(r: Option<Polynomial>) -> Seq<int> {
    match r {
        Option::None => Seq::empty(),
        Option::Some(p) => p@,
    }
}

/// A sequence of zeros evaluates to zero.
proof fn lemma_pe_zero(s: Seq<int>, x: int)
    requires
        forall|i: int| 0 <= i < s.len() ==> #[trigger] s[i] == 0,
    ensures
        pe(s, x) == 0,
    decreases s.len(),
{
    if s.len() > 0 {
        lemma_pe_zero(s.subrange(1, s.len() as int), x);
    }
}

/// Trailing zeros do not change the value of a polynomial.
proof fn lemma_pe_trailing(s: Seq<int>, n: int, x: int)
    requires
        0 <= n <= s.len(),
        forall|i: int| n <= i < s.len() ==> #[trigger] s[i] == 0,
    ensures
        pe(s, x) == pe(s.take(n), x),
    decreases s.len(),
{
    if n == 0 {
        lemma_pe_zero(s, x);
        assert(s.take(0) =~= Seq::<int>::empty());
    } else {
        let rest = s.subrange(1, s.len() as int);
        lemma_pe_trailing(rest, n - 1, x);
        assert(s.take(n).subrange(1, n) =~= rest.take(n - 1));
        assert(s.take(n)[0] == s[0]);
    }
}

/// Changing one coefficient changes the value by the difference, scaled by
/// the matching power of the point.
proof fn lemma_pe_update(s: Seq<int>, i: int, v: int, x: int)
    requires
        0 <= i < s.len(),
    ensures
        pe(s.update(i, v), x) == pe(s, x) + (v - s[i]) * vstd::arithmetic::power::pow(
            x,
            i as nat,
        ),
    decreases i,
{
    reveal(vstd::arithmetic::power::pow);
    let rest = s.subrange(1, s.len() as int);
    if i == 0 {
        assert(s.update(0, v).subrange(1, s.len() as int) =~= rest);
        assert(vstd::arithmetic::power::pow(x, 0) == 1);
    } else {
        assert(s.update(i, v).subrange(1, s.len() as int) =~= rest.update(i - 1, v));
        lemma_pe_update(rest, i - 1, v, x);
        let d = v - s[i];
        let pw = vstd::arithmetic::power::pow(x, (i - 1) as nat);
        assert(rest[i - 1] == s[i]);
        assert(pe(s.update(i, v), x) == s[0] + x * (pe(rest, x) + d * pw));
        assert(x * (pe(rest, x) + d * pw) == x * pe(rest, x) + x * (d * pw)) by {
            lemma_mul_is_distributive_add(x, pe(rest, x), d * pw);
        }
        assert(x * (d * pw) == d * (x * pw)) by {
            lemma_mul_is_associative(x, d, pw);
            lemma_mul_is_commutative(x, d);
            lemma_mul_is_associative(d, x, pw);
        }
        assert(vstd::arithmetic::power::pow(x, i as nat) == x * pw);
    }
}

/// Taking one more coefficient adds that coefficient, scaled by the
/// matching power of the point.
proof fn lemma_pe_take_succ(s: Seq<int>, j: int, x: int)
    requires
        0 <= j < s.len(),
    ensures
        pe(s.take(j + 1), x) == pe(s.take(j), x) + s[j] * vstd::arithmetic::power::pow(
            x,
            j as nat,
        ),
    decreases j,
{
    reveal(vstd::arithmetic::power::pow);
    let rest = s.subrange(1, s.len() as int);
    if j == 0 {
        assert(s.take(0) =~= Seq::<int>::empty());
        assert(s.take(1).subrange(1, 1) =~= Seq::<int>::empty());
        assert(pe(Seq::<int>::empty(), x) == 0);
        assert(s.take(1)[0] == s[0]);
        assert(vstd::arithmetic::power::pow(x, 0) == 1);
    } else {
        lemma_pe_take_succ(rest, j - 1, x);
        assert(s.take(j + 1).subrange(1, j + 1) =~= rest.take(j));
        assert(s.take(j).subrange(1, j) =~= rest.take(j - 1));
        assert(s.take(j + 1)[0] == s[0]);
        assert(s.take(j)[0] == s[0]);
        let pw = vstd::arithmetic::power::pow(x, (j - 1) as nat);
        assert(rest[j - 1] == s[j]);
        assert(pe(s.take(j + 1), x) == s[0] + x * (pe(rest.take(j - 1), x) + s[j] * pw));
        assert(x * (pe(rest.take(j - 1), x) + s[j] * pw) == x * pe(rest.take(j - 1), x) + x * (
        s[j] * pw)) by {
            lemma_mul_is_distributive_add(x, pe(rest.take(j - 1), x), s[j] * pw);
        }
        assert(x * (s[j] * pw) == s[j] * (x * pw)) by {
            lemma_mul_is_associative(x, s[j], pw);
            lemma_mul_is_commutative(x, s[j]);
            lemma_mul_is_associative(s[j], x, pw);
        }
        assert(vstd::arithmetic::power::pow(x, j as nat) == x * pw);
    }
}

/// A multiple of the order stays one after scaling.
proof fn lemma_cong_scale(a: int, c: int, m: int)
    requires
        m == fr_order(),
        a % m == 0,
    ensures
        (a * c) % m == 0,
{
    lemma_fundamental_div_mod(a, m);
    let t = a / m;
    assert(a == m * t);
    assert((m * t) * c == m * (t * c)) by {
        lemma_mul_is_associative(m, t, c);
    }
    lemma_mod_multiples_vanish(t * c, 0, m);
    lemma_small_mod(0nat, m as nat);
}

/// Multiples of the order are closed under addition.
proof fn lemma_cong_add(a: int, b: int, m: int)
    requires
        m == fr_order(),
        a % m == 0,
        b % m == 0,
    ensures
        (a + b) % m == 0,
{
    lemma_add_mod_noop(a, b, m);
    lemma_small_mod(0nat, m as nat);
}

/// Reducing a value modulo the order changes it by a multiple of the order.
proof fn lemma_cong_reduce(a: int, m: int)
    requires
        m == fr_order(),
    ensures
        (a % m - a) % m == 0,
{
    lemma_fundamental_div_mod(a, m);
    let t = a / m;
    assert(a % m - a == m * (-t)) by {
        lemma_mul_is_commutative(m, t);
        lemma_mul_unary_negation(m, t);
    }
    lemma_mod_multiples_vanish(-t, 0, m);
    lemma_small_mod(0nat, m as nat);
}

/// A single-coefficient polynomial evaluates to that coefficient.
proof fn lemma_pe_singleton(s: Seq<int>, x: int)
    requires
        s.len() == 1,
    ensures
        pe(s, x) == s[0],
{
    assert(s.subrange(1, 1) =~= Seq::<int>::empty());
    assert(pe(s, x) == s[0] + x * pe(s.subrange(1, s.len() as int), x));
    assert(pe(Seq::<int>::empty(), x) == 0);
}

/// Splitting off the head of a coefficient tail.
proof fn lemma_pe_pop(s: Seq<int>, x: int, k: int)
    requires
        0 <= k < s.len(),
    ensures
        pe(s.subrange(k, s.len() as int), x) == s[k] + x * pe(
            s.subrange(k + 1, s.len() as int),
            x,
        ),
{
    let t = s.subrange(k, s.len() as int);
    assert(t.subrange(1, t.len() as int) =~= s.subrange(k + 1, s.len() as int));
    assert(t[0] == s[k]);
}

} // verus!
