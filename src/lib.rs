//! Folding-based polynomial commitment schemes (FRI, Basefold, Deepfold)
//! over prime fields, with verified field arithmetic, evaluation domains,
//! Merkle commitments and prover/verifier state machines.
use vstd::prelude::*;

pub mod field;
pub mod algebra;
pub mod domain;
pub mod merkle;
pub mod query_result;
pub mod interpolation;
pub mod polynomial;
pub mod random_oracle;
pub mod deepfold;
pub mod indices;
pub mod folding;
pub mod deepfold_prover;
pub mod deepfold_verifier;
pub mod fri_prover;
pub mod fri_verifier;
pub mod basefold_verifier;
pub mod goldilocks64;
pub mod goldilocks64ext;
pub mod goldilocks_prime;
pub mod fermat;
mod rng;

verus! {

/// Logarithm of the blow-up factor of the Reed-Solomon code.
pub const CODE_RATE: usize = 3;

/// Target security level in bits.
pub const SECURITY_BITS: usize = 100;

} // verus!
