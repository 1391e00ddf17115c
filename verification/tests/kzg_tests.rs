//! End-to-end tests of the commitment scheme against the real curve.

use kzg::field::Fr;
use kzg::polynomial::Polynomial;
use kzg::{setup, csprng_setup, KZGError, KZGParams, KZGProver, KZGVerifier};
use rand::rngs::SmallRng;
use rand::{Rng, SeedableRng};

const RNG_SEED_0: [u8; 32] = [42; 32];
const RNG_SEED_1: [u8; 32] = [79; 32];

fn test_setup(rng: &mut SmallRng, max_degree: usize) -> KZGParams {
    let s = Fr::from_u64(rng.gen::<u64>());
    setup(s, max_degree)
}

// never returns the zero polynomial
fn random_polynomial(rng: &mut SmallRng, max_degree: usize) -> Polynomial {
    let degree = rng.gen_range(1..max_degree);
    let mut coeffs = vec![Fr::from_u64(0); max_degree];
    for i in 0..degree {
        coeffs[i] = Fr::from_u64(rng.gen::<u64>());
    }
    Polynomial::new_from_coeffs(coeffs, degree)
}

fn poly_from_u64(coeffs: &[u64], degree: usize) -> Polynomial {
    let v: Vec<Fr> = coeffs.iter().map(|c| Fr::from_u64(*c)).collect();
    Polynomial::new_from_coeffs(v, degree)
}

#[test]
fn test_basic() {
    let mut rng0 = SmallRng::from_seed(RNG_SEED_0);
    let mut rng1 = SmallRng::from_seed(RNG_SEED_1);
    let params = test_setup(&mut rng0, 10);
    let mut prover = KZGProver::new(params.clone());
    let verifier = KZGVerifier::new(params);

    let polynomial = random_polynomial(&mut rng1, 10);
    let commitment = prover.commit(polynomial.clone());

    assert!(
        verifier.verify_poly(&commitment, &polynomial),
        "verify_poly failed for commitment {:#?} and polynomial {:#?}",
        commitment,
        polynomial
    );
    assert!(
        !verifier.verify_poly(&commitment, &random_polynomial(&mut rng1, 10)),
        "expected verify_poly to fail for commitment {:#?} and polynomial {:#?}",
        commitment,
        polynomial
    );
}

#[test]
fn commit_matches_reference_string_fold() {
    // toy trapdoor s = 7, P(X) = 3 + 5X: the commitment must be
    // g * 3 + gs[0] * 5, computed here directly with bls12_381
    let params = setup(Fr::from_u64(7), 10);
    let mut prover = KZGProver::new(params);
    let p = poly_from_u64(&[3, 5], 1);
    let c = prover.commit(p);

    let g = bls12_381::G1Affine::generator();
    let gs0 = bls12_381::G1Affine::from(&g * &bls12_381::Scalar::from(7u64));
    let term0 = &g * &bls12_381::Scalar::from(3u64);
    let term1 = &gs0 * &bls12_381::Scalar::from(5u64);
    let expected = bls12_381::G1Affine::from(&term0 + &term1).to_compressed();
    assert_eq!(c.to_bytes(), expected.to_vec());
}

#[test]
fn witness_is_quotient_commitment() {
    // P(X) = 3 + 5X, claim (x = 2, y = 13): since 3 + 5 * 2 = 13, the
    // witness is the commitment of the constant quotient 5, that is g * 5
    let params = setup(Fr::from_u64(7), 10);
    let mut prover = KZGProver::new(params.clone());
    let verifier = KZGVerifier::new(params);
    let p = poly_from_u64(&[3, 5], 1);
    let c = prover.commit(p);

    let w = prover
        .create_witness((Fr::from_u64(2), Fr::from_u64(13)))
        .expect("3 + 5 * 2 = 13 lies on the polynomial");
    let g = bls12_381::G1Affine::generator();
    let expected = bls12_381::G1Affine::from(&g * &bls12_381::Scalar::from(5u64)).to_compressed();
    assert_eq!(w.to_bytes(), expected.to_vec());

    assert!(verifier.verify_eval((Fr::from_u64(2), Fr::from_u64(13)), &c, &w));
}

#[test]
fn false_claim_is_rejected() {
    // P(X) = 3 + 5X but the claim (x = 2, y = 0) is false
    let params = setup(Fr::from_u64(7), 10);
    let mut prover = KZGProver::new(params);
    let p = poly_from_u64(&[3, 5], 1);
    let _ = prover.commit(p);
    match prover.create_witness((Fr::from_u64(2), Fr::from_u64(0))) {
        Err(KZGError::PointNotOnPolynomial) => {}
        other => panic!("expected PointNotOnPolynomial, got {:?}", other),
    }
}

#[test]
fn evaluation_proof_roundtrip() {
    // P(X) = 1 + 2X + 3X^2 at x = 5: y = 1 + 10 + 75 = 86
    let params = setup(Fr::from_u64(11), 10);
    let mut prover = KZGProver::new(params.clone());
    let verifier = KZGVerifier::new(params);
    let p = poly_from_u64(&[1, 2, 3], 2);
    let c = prover.commit(p);
    let x = Fr::from_u64(5);
    let y = Fr::from_u64(86);
    let w = prover.create_witness((x, y)).expect("the claim is true");
    assert!(verifier.verify_eval((x, y), &c, &w));
    // the same witness must not prove a different value
    assert!(!verifier.verify_eval((x, Fr::from_u64(87)), &c, &w));
}

#[test]
fn witness_fails_against_other_commitment() {
    // a witness made for P must not verify against the commitment of Q
    let params = setup(Fr::from_u64(13), 10);
    let mut prover_p = KZGProver::new(params.clone());
    let mut prover_q = KZGProver::new(params.clone());
    let verifier = KZGVerifier::new(params);
    let p = poly_from_u64(&[3, 5], 1);
    let q = poly_from_u64(&[4, 5], 1);
    let _cp = prover_p.commit(p);
    let cq = prover_q.commit(q);
    let x = Fr::from_u64(2);
    let y = Fr::from_u64(13);
    let w = prover_p.create_witness((x, y)).expect("true claim for P");
    assert!(!verifier.verify_eval((x, y), &cq, &w));
}

#[test]
fn errors_before_commit() {
    let params = setup(Fr::from_u64(9), 4);
    let mut prover = KZGProver::new(params);
    assert!(matches!(prover.open(), Err(KZGError::NoPolynomial)));
    assert!(matches!(
        prover.create_witness((Fr::from_u64(1), Fr::from_u64(1))),
        Err(KZGError::NoPolynomial)
    ));
}

#[test]
fn commit_is_deterministic() {
    let params = setup(Fr::from_u64(21), 6);
    let mut prover1 = KZGProver::new(params.clone());
    let mut prover2 = KZGProver::new(params);
    let p = poly_from_u64(&[9, 8, 7, 6], 3);
    let c1 = prover1.commit(p.clone());
    let c2 = prover2.commit(p);
    assert_eq!(c1, c2);
    assert_eq!(c1.to_bytes(), c2.to_bytes());
}

#[test]
fn open_returns_committed_polynomial() {
    let params = setup(Fr::from_u64(5), 8);
    let mut prover = KZGProver::new(params);
    let p = poly_from_u64(&[2, 0, 4], 2);
    let _ = prover.commit(p.clone());
    let opened = prover.open().expect("a polynomial is committed");
    assert_eq!(opened, p);
}

#[test]
fn long_division_exact_monic() {
    // (X^2 + 3X + 2) / (X + 1) = X + 2 exactly
    let dividend = poly_from_u64(&[2, 3, 1], 2);
    let divisor = poly_from_u64(&[1, 1], 1);
    let (q, r) = dividend.long_division(&divisor);
    assert!(r.is_none());
    assert_eq!(q.degree(), 1);
    assert_eq!(q.coeff(0), Fr::from_u64(2));
    assert_eq!(q.coeff(1), Fr::from_u64(1));
}

#[test]
fn long_division_with_remainder() {
    // (X^2 + 1) / (X + 1) = (X - 1) with remainder 2
    let dividend = poly_from_u64(&[1, 0, 1], 2);
    let divisor = poly_from_u64(&[1, 1], 1);
    let (q, r) = dividend.long_division(&divisor);
    assert_eq!(q.degree(), 1);
    assert_eq!(q.coeff(1), Fr::from_u64(1));
    let rem = r.expect("the division is not exact");
    assert_eq!(rem.degree(), 0);
    assert_eq!(rem.coeff(0), Fr::from_u64(2));
}

#[test]
fn long_division_constant_divisor() {
    // (2X + 2) / 2 = X + 1, never a remainder for a constant divisor
    let dividend = poly_from_u64(&[2, 2], 1);
    let divisor = poly_from_u64(&[2], 0);
    let (q, r) = dividend.long_division(&divisor);
    assert!(r.is_none());
    assert_eq!(q.degree(), 1);
    assert_eq!(q.coeff(0), Fr::from_u64(1));
    assert_eq!(q.coeff(1), Fr::from_u64(1));
}

#[test]
fn long_division_small_dividend() {
    // (X + 1) / (X^2 + 1): zero quotient, the dividend is the remainder
    let dividend = poly_from_u64(&[1, 1], 1);
    let divisor = poly_from_u64(&[1, 0, 1], 2);
    let (q, r) = dividend.long_division(&divisor);
    assert_eq!(q.degree(), 0);
    assert_eq!(q.coeff(0), Fr::from_u64(0));
    let rem = r.expect("the divisor cannot divide a smaller dividend");
    assert_eq!(rem.degree(), 1);
    assert_eq!(rem.coeff(0), Fr::from_u64(1));
    assert_eq!(rem.coeff(1), Fr::from_u64(1));
}

#[test]
fn csprng_setup_is_usable() {
    let params = csprng_setup(5);
    let mut prover = KZGProver::new(params.clone());
    let verifier = KZGVerifier::new(params);
    let p = poly_from_u64(&[1, 2, 3, 4], 3);
    let c = prover.commit(p.clone());
    assert!(verifier.verify_poly(&c, &p));
    let x = Fr::from_u64(1);
    let y = Fr::from_u64(10);
    let w = prover.create_witness((x, y)).expect("1 + 2 + 3 + 4 = 10");
    assert!(verifier.verify_eval((x, y), &c, &w));
}
