//! Errors of the zero-knowledge helpers.

use vstd::prelude::*;

verus! {

/// Why a proof, key, input or Merkle operation was refused.
#[derive(Clone, Copy, Debug, PartialEq, Eq, Structural)]
pub enum ZKError {
    InvalidProof,
    InvalidPoint,
    InvalidScalar,
    VerificationFailed,
    InvalidInput,
    InvalidVerificationKey,
    CircuitMismatch,
    InvalidPublicInput,
    EmptyTree,
    LeafOutOfBounds,
    InvalidProofLength,
    MerkleVerificationFailed,
    MaxDepthExceeded,
    InvalidLeaf,
}

} // verus!
