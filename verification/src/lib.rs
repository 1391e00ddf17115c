//! A KZG-style polynomial commitment scheme: a prover commits to a
//! polynomial with a single group element and can later prove a claimed
//! point evaluation with a single-element witness, checked through a
//! bilinear pairing.

pub mod field;
pub mod group;
pub mod kzg;
pub mod polynomial;

pub use crate::kzg::{
    csprng_setup, setup, KZGCommitment, KZGParams, KZGProver, KZGVerifier, KZGWitness,
};

use vstd::prelude::*;

verus! {

/// The two recoverable failures of the scheme.
#[derive(Debug, Clone, Copy, PartialEq, Eq, Structural)]
pub enum KZGError {
    /// `open` or `create_witness` was called before any polynomial was committed.
    NoPolynomial,
    /// The claimed evaluation point does not lie on the committed polynomial.
    PointNotOnPolynomial,
}

} // verus!
