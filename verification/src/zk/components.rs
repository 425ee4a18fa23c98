//! Components that attach zero-knowledge state to entities.

use vstd::prelude::*;
use crate::ids::Address;
use crate::symbol::Symbol;
use super::types::{Groth16Proof, Scalar};

verus! {

/// A commitment (hash) to private state, and its owner.
#[derive(Clone, Copy, Debug)]
pub struct HiddenState {
    pub commitment: [u8; 32],
    pub owner: Address,
}

/// A proof waiting to be verified before its deadline.
#[derive(Clone, Debug)]
pub struct ProofSubmission {
    pub proof: Groth16Proof,
    pub public_inputs: Vec<Scalar>,
    pub submitted_at: u64,
    pub deadline: u64,
    pub verified: bool,
}

/// Marks an entity whose proof was verified.
#[derive(Clone, Copy, Debug)]
pub struct VerifiedMarker {
    pub verified_at: u64,
    pub proof_type: Symbol,
}

/// A commitment to an action, to be revealed before a deadline.
#[derive(Clone, Copy, Debug)]
pub struct CommitReveal {
    pub commitment: [u8; 32],
    pub reveal_deadline: u64,
    pub revealed: bool,
}

/// Component type of `HiddenState`.
pub const HIDDEN_STATE_TYPE: &'static str = "zk_hidden";

/// Component type of `ProofSubmission`.
pub const PROOF_SUBMISSION_TYPE: &'static str = "zk_proof";

/// Component type of `VerifiedMarker`.
pub const VERIFIED_MARKER_TYPE: &'static str = "zk_veri";

/// Component type of `CommitReveal`.
pub const COMMIT_REVEAL_TYPE: &'static str = "zk_cr";

} // verus!
