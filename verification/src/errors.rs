//! The error taxonomy of the proof service.

use vstd::prelude::*;

verus! {

/// Everything that can go wrong while loading a circuit, building a
/// witness, proving, or verifying. A proof that fails to check out is a
/// normal `false` result of verification, never one of these.
#[derive(Debug, Clone, PartialEq, Eq)]
pub enum ServiceError {
    /// An artifact could not be read from disk.
    IOError,
    /// An artifact's header, version tag or structure is unrecognized.
    MalformedCircuit,
    /// The caller supplied no value for the named input signal.
    MissingInput(String),
    /// The witness does not satisfy the constraint with this index.
    UnsatisfiedConstraint(usize),
    /// The number of public inputs disagrees with the verification key.
    InputLengthMismatch,
}

} // verus!
