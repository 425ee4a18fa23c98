//! Zero-knowledge helpers: proof and key types, circuit inputs, proof
//! components and Merkle inclusion checks.

pub mod circuits;
pub mod components;
pub mod error;
pub mod merkle;
pub mod types;

pub use circuits::{CombatCircuit, InventoryCircuit, MovementCircuit, TurnSequenceCircuit};
pub use components::{CommitReveal, HiddenState, ProofSubmission, VerifiedMarker};
pub use error::ZKError;
pub use merkle::{to_on_chain_proof, verify_inclusion, MerkleProof, OnChainMerkleProof};
pub use types::{G1Point, G2Point, Groth16Proof, Scalar, VerificationKey};
