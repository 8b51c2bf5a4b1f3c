//! A Groth16 proof service over the BN254 scalar field.
//!
//! The crate models an arithmetic circuit as a rank-1 constraint system,
//! builds witnesses from named input signals, and produces and checks
//! succinct proofs through the arkworks pairing libraries.

pub mod errors;
pub mod field;
pub mod r1cs;
pub mod witness;
pub mod loader;
pub mod engine;
pub mod greeting;
