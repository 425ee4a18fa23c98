use cougr_core::ids::{Address, Bytes32};
use cougr_core::simple_world::SimpleWorld;
use cougr_core::symbol::Symbol;
use cougr_core::zk::circuits::{CombatCircuit, InventoryCircuit, MovementCircuit, TurnSequenceCircuit};
use cougr_core::zk::components::{CommitReveal, HiddenState, ProofSubmission, VerifiedMarker, HIDDEN_STATE_TYPE};
use cougr_core::zk::error::ZKError;
use cougr_core::zk::merkle::{to_on_chain_proof, verify_inclusion, MerkleProof, OnChainMerkleProof};
use cougr_core::zk::types::{G1Point, G2Point, Groth16Proof, Scalar, VerificationKey};
use soroban_sdk::{Bytes, Env};

fn make_vk(ic_count: u32) -> VerificationKey {
    let g1 = G1Point { bytes: [0u8; 64] };
    let g2 = G2Point { bytes: [0u8; 128] };
    let mut ic = Vec::new();
    for _ in 0..ic_count {
        ic.push(g1.clone());
    }
    VerificationKey { alpha: g1, beta: g2.clone(), gamma: g2.clone(), delta: g2, ic }
}

fn sha256(env: &Env, data: &[u8]) -> [u8; 32] {
    env.crypto().sha256(&Bytes::from_slice(env, data)).to_array()
}

fn leaf_hash(env: &Env, leaf: &[u8; 32]) -> [u8; 32] {
    let mut input = vec![0u8];
    input.extend_from_slice(leaf);
    sha256(env, &input)
}

fn node_hash(env: &Env, left: &[u8; 32], right: &[u8; 32]) -> [u8; 32] {
    let mut input = vec![1u8];
    input.extend_from_slice(left);
    input.extend_from_slice(right);
    sha256(env, &input)
}

/// A complete binary tree over the hashed leaves: its levels, leaves first.
fn build_levels(env: &Env, leaves: &[[u8; 32]]) -> Vec<Vec<[u8; 32]>> {
    let mut levels = vec![leaves.iter().map(|l| leaf_hash(env, l)).collect::<Vec<_>>()];
    while levels.last().unwrap().len() > 1 {
        let prev = levels.last().unwrap();
        let next = prev.chunks(2).map(|p| node_hash(env, &p[0], &p[1])).collect();
        levels.push(next);
    }
    levels
}

fn root_of(levels: &[Vec<[u8; 32]>]) -> [u8; 32] {
    levels.last().unwrap()[0]
}

fn proof_for(levels: &[Vec<[u8; 32]>], index: u32) -> MerkleProof {
    let mut siblings = Vec::new();
    let mut path_indices = Vec::new();
    let mut i = index as usize;
    for level in &levels[..levels.len() - 1] {
        siblings.push(level[i ^ 1]);
        path_indices.push(i % 2 == 1);
        i /= 2;
    }
    MerkleProof { siblings, path_indices, leaf: levels[0][index as usize], leaf_index: index }
}

#[test]
fn test_movement_circuit_creation() {
    let vk = make_vk(6);
    let circuit = MovementCircuit::new(vk, 10);
    assert_eq!(circuit.max_distance, 10);
}

#[test]
fn test_combat_circuit_creation() {
    let vk = make_vk(4);
    let circuit = CombatCircuit::new(vk);
    assert_eq!(circuit.vk.ic.len(), 4);
}

#[test]
fn test_inventory_circuit_creation() {
    let vk = make_vk(3);
    let circuit = InventoryCircuit::new(vk);
    assert_eq!(circuit.vk.ic.len(), 3);
}

#[test]
fn test_turn_sequence_circuit_creation() {
    let vk = make_vk(4);
    let circuit = TurnSequenceCircuit::new(vk);
    assert_eq!(circuit.vk.ic.len(), 4);
}

#[test]
fn test_scalar_encoding_u32() {
    let env = Env::default();
    let scalar = MovementCircuit::u32_to_scalar(&env, 42);
    assert_eq!(scalar.bytes.len(), 32);
}

#[test]
fn test_scalar_encoding_i32() {
    let env = Env::default();
    let scalar = MovementCircuit::i32_to_scalar(&env, -1);
    assert_eq!(scalar.bytes.len(), 32);
}

#[test]
fn scalar_encoding_is_little_endian() {
    let env = Env::default();
    let s = MovementCircuit::u32_to_scalar(&env, 0x0102_0304);
    assert_eq!(&s.bytes[..4], &[4, 3, 2, 1]);
    assert!(s.bytes[4..].iter().all(|b| *b == 0));
    let m = MovementCircuit::i32_to_scalar(&env, -1);
    assert_eq!(&m.bytes[..4], &[0xFF; 4]);
    assert!(m.bytes[4..].iter().all(|b| *b == 0));
}

#[test]
fn movement_inputs_in_order() {
    let env = Env::default();
    let circuit = MovementCircuit::new(make_vk(6), 7);
    let inputs = circuit.encode_inputs(&env, 1, 2, 3, -4);
    assert_eq!(inputs.len(), 5);
    assert_eq!(inputs[0].bytes[0], 1);
    assert_eq!(inputs[1].bytes[0], 2);
    assert_eq!(inputs[2].bytes[0], 3);
    assert_eq!(&inputs[3].bytes[..4], &(-4i32).to_le_bytes());
    assert_eq!(inputs[4].bytes[0], 7);
}

#[test]
fn combat_inventory_turn_inputs() {
    let c = CombatCircuit::encode_inputs(&[1u8; 32], &[2u8; 32], 300);
    assert_eq!(c.len(), 3);
    assert_eq!(c[0].bytes, [1u8; 32]);
    assert_eq!(c[1].bytes, [2u8; 32]);
    assert_eq!(&c[2].bytes[..4], &300u32.to_le_bytes());
    let i = InventoryCircuit::encode_inputs(&[9u8; 32], 5);
    assert_eq!(i.len(), 2);
    assert_eq!(i[0].bytes, [9u8; 32]);
    assert_eq!(i[1].bytes[0], 5);
    let t = TurnSequenceCircuit::encode_inputs(&[3u8; 32], &[4u8; 32], 12);
    assert_eq!(t.len(), 3);
    assert_eq!(t[1].bytes, [4u8; 32]);
    assert_eq!(t[2].bytes[0], 12);
}

#[test]
fn test_hidden_state_creation() {
    let state = HiddenState {
        commitment: [0xABu8; 32],
        owner: Address::account(Bytes32::from_array(&[7u8; 32])),
    };
    assert_eq!(state.commitment.len(), 32);
}

#[test]
fn test_proof_submission_creation() {
    let g1 = G1Point { bytes: [0u8; 64] };
    let g2 = G2Point { bytes: [0u8; 128] };
    let proof = Groth16Proof { a: g1.clone(), b: g2, c: g1 };
    let public_inputs: Vec<Scalar> = Vec::new();
    let submission = ProofSubmission { proof, public_inputs, submitted_at: 100, deadline: 200, verified: false };
    assert!(!submission.verified);
    assert_eq!(submission.submitted_at, 100);
}

#[test]
fn test_verified_marker() {
    let marker = VerifiedMarker { verified_at: 150, proof_type: Symbol::new("movement") };
    assert_eq!(marker.verified_at, 150);
}

#[test]
fn test_commit_reveal() {
    let cr = CommitReveal { commitment: [0xCDu8; 32], reveal_deadline: 500, revealed: false };
    assert!(!cr.revealed);
    assert_eq!(cr.reveal_deadline, 500);
}

#[test]
fn test_to_on_chain_proof_and_verify() {
    let env = Env::default();
    let leaves = [[1u8; 32], [2u8; 32], [3u8; 32], [4u8; 32]];
    let levels = build_levels(&env, &leaves);
    let root = root_of(&levels);

    for i in 0..4u32 {
        let proof = proof_for(&levels, i);
        let on_chain = to_on_chain_proof(&proof, &env);
        let result = verify_inclusion(&env, &on_chain, &root).unwrap();
        assert!(result, "Proof verification failed for leaf {}", i);
    }
}

#[test]
fn test_verify_inclusion_wrong_root() {
    let env = Env::default();
    let leaves = [[1u8; 32], [2u8; 32]];
    let levels = build_levels(&env, &leaves);

    let proof = proof_for(&levels, 0);
    let on_chain = to_on_chain_proof(&proof, &env);

    let wrong_root = [0xFFu8; 32];
    let result = verify_inclusion(&env, &on_chain, &wrong_root).unwrap();
    assert!(!result);
}

#[test]
fn test_verify_inclusion_invalid_depth() {
    let env = Env::default();
    let proof = OnChainMerkleProof {
        siblings: Vec::new(),
        path_bits: 0,
        leaf: [1u8; 32],
        leaf_index: 0,
        depth: 5,
    };
    let root = [0u8; 32];
    let result = verify_inclusion(&env, &proof, &root);
    assert_eq!(result.unwrap_err(), ZKError::InvalidProofLength);
}

#[test]
fn test_on_chain_proof_path_bits_packing() {
    let env = Env::default();
    let leaves = [[1u8; 32], [2u8; 32], [3u8; 32], [4u8; 32]];
    let levels = build_levels(&env, &leaves);

    let p0 = to_on_chain_proof(&proof_for(&levels, 0), &env);
    assert_eq!(p0.path_bits, 0);
    let p1 = to_on_chain_proof(&proof_for(&levels, 1), &env);
    assert_eq!(p1.path_bits, 1);
    let p2 = to_on_chain_proof(&proof_for(&levels, 2), &env);
    assert_eq!(p2.path_bits, 2);
    let p3 = to_on_chain_proof(&proof_for(&levels, 3), &env);
    assert_eq!(p3.path_bits, 3);
}

#[test]
fn on_chain_proof_keeps_siblings_and_depth() {
    let env = Env::default();
    let leaves = [[1u8; 32], [2u8; 32], [3u8; 32], [4u8; 32]];
    let levels = build_levels(&env, &leaves);
    let proof = proof_for(&levels, 2);
    let p = to_on_chain_proof(&proof, &env);
    assert_eq!(p.siblings, proof.siblings);
    assert_eq!(p.depth, 2);
    assert_eq!(p.leaf, proof.leaf);
    assert_eq!(p.leaf_index, 2);
}

#[test]
fn verify_inclusion_rejects_swapped_side() {
    let env = Env::default();
    let leaves = [[1u8; 32], [2u8; 32], [3u8; 32], [4u8; 32]];
    let levels = build_levels(&env, &leaves);
    let root = root_of(&levels);
    let mut on_chain = to_on_chain_proof(&proof_for(&levels, 1), &env);
    on_chain.path_bits ^= 1;
    assert_eq!(verify_inclusion(&env, &on_chain, &root), Ok(false));
}

#[test]
fn verify_inclusion_depth_zero_compares_leaf() {
    let env = Env::default();
    let proof = OnChainMerkleProof { siblings: Vec::new(), path_bits: 0, leaf: [5u8; 32], leaf_index: 0, depth: 0 };
    assert_eq!(verify_inclusion(&env, &proof, &[5u8; 32]), Ok(true));
    assert_eq!(verify_inclusion(&env, &proof, &[6u8; 32]), Ok(false));
}

#[test]
fn test_hidden_state_component_lifecycle() {
    let env = Env::default();
    let mut world = SimpleWorld::new(&env);

    let e1 = world.spawn_entity();
    let hidden_sym = Symbol::new(HIDDEN_STATE_TYPE);

    let commitment_bytes = vec![0xABu8; 32];
    world.add_component(e1, hidden_sym, commitment_bytes.clone());

    assert!(world.has_component(e1, &hidden_sym));
    let stored = world.get_component(e1, &hidden_sym).unwrap();
    assert_eq!(stored, commitment_bytes);

    world.remove_component(e1, &hidden_sym);
    assert!(!world.has_component(e1, &hidden_sym));
}
