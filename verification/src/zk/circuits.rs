//! Circuit descriptions: the verification key of each game circuit and
//! the public inputs its proofs are checked against.

use vstd::prelude::*;
use super::types::{Scalar, VerificationKey, scalar_from_u32, u32_scalar_bytes};

verus! {

/// The movement circuit: proves a move stays within `max_distance`.
/// Public inputs: `[from_x, from_y, to_x, to_y, max_distance]`.
pub struct MovementCircuit {
    pub vk: VerificationKey,
    pub max_distance: u32,
}

impl MovementCircuit {
    /// A movement circuit with this key and distance bound.
    pub fn new(vk: VerificationKey, max_distance: u32) -> (c: MovementCircuit)
        ensures
            c.vk == vk,
            c.max_distance == max_distance,
    {
        MovementCircuit { vk, max_distance }
    }

    /// The scalar encoding `val` (its two's-complement bytes, little-endian).
    pub fn i32_to_scalar(env: &soroban_sdk::Env, val: i32) -> (s: Scalar)
        ensures
            s.bytes@ == u32_scalar_bytes(val as u32),
    {
        scalar_from_u32(val as u32)
    }

    /// The scalar encoding `val` (little-endian).
    pub fn u32_to_scalar(env: &soroban_sdk::Env, val: u32) -> (s: Scalar)
        ensures
            s.bytes@ == u32_scalar_bytes(val),
    {
        scalar_from_u32(val)
    }

    /// The public inputs of a move from `(from_x, from_y)` to `(to_x, to_y)`
    /// under this circuit's distance bound.
    pub fn encode_inputs(&self, env: &soroban_sdk::Env, from_x: i32, from_y: i32, to_x: i32, to_y: i32) -> (v: Vec<Scalar>)
        ensures
            v@.len() == 5,
            v@[0].bytes@ == u32_scalar_bytes(from_x as u32),
            v@[1].bytes@ == u32_scalar_bytes(from_y as u32),
            v@[2].bytes@ == u32_scalar_bytes(to_x as u32),
            v@[3].bytes@ == u32_scalar_bytes(to_y as u32),
            v@[4].bytes@ == u32_scalar_bytes(self.max_distance),
    {
        let mut v: Vec<Scalar> = Vec::new();
        v.push(Self::i32_to_scalar(env, from_x));
        v.push(Self::i32_to_scalar(env, from_y));
        v.push(Self::i32_to_scalar(env, to_x));
        v.push(Self::i32_to_scalar(env, to_y));
        v.push(Self::u32_to_scalar(env, self.max_distance));
        v
    }
}

/// The combat circuit: proves a damage result from hidden stats.
/// Public inputs: `[attacker_commitment, defender_commitment, damage_result]`.
pub struct CombatCircuit {
    pub vk: VerificationKey,
}

impl CombatCircuit {
    /// A combat circuit with this key.
    pub fn new(vk: VerificationKey) -> (c: CombatCircuit)
        ensures
            c.vk == vk,
    {
        CombatCircuit { vk }
    }

    /// The public inputs of a damage claim.
    pub fn encode_inputs(attacker_commitment: &[u8; 32], defender_commitment: &[u8; 32], damage_result: u32) -> (v: Vec<Scalar>)
        ensures
            v@.len() == 3,
            v@[0].bytes@ == attacker_commitment@,
            v@[1].bytes@ == defender_commitment@,
            v@[2].bytes@ == u32_scalar_bytes(damage_result),
    {
        let mut v: Vec<Scalar> = Vec::new();
        v.push(Scalar { bytes: *attacker_commitment });
        v.push(Scalar { bytes: *defender_commitment });
        v.push(scalar_from_u32(damage_result));
        v
    }
}

/// The inventory circuit: proves an item is in an inventory.
/// Public inputs: `[inventory_root, item_id]`.
pub struct InventoryCircuit {
    pub vk: VerificationKey,
}

impl InventoryCircuit {
    /// An inventory circuit with this key.
    pub fn new(vk: VerificationKey) -> (c: InventoryCircuit)
        ensures
            c.vk == vk,
    {
        InventoryCircuit { vk }
    }

    /// The public inputs of an item-ownership claim.
    pub fn encode_inputs(inventory_root: &[u8; 32], item_id: u32) -> (v: Vec<Scalar>)
        ensures
            v@.len() == 2,
            v@[0].bytes@ == inventory_root@,
            v@[1].bytes@ == u32_scalar_bytes(item_id),
    {
        let mut v: Vec<Scalar> = Vec::new();
        v.push(Scalar { bytes: *inventory_root });
        v.push(scalar_from_u32(item_id));
        v
    }
}

/// The turn-sequence circuit: proves a run of actions was valid.
/// Public inputs: `[initial_state_hash, final_state_hash, action_count]`.
pub struct TurnSequenceCircuit {
    pub vk: VerificationKey,
}

impl TurnSequenceCircuit {
    /// A turn-sequence circuit with this key.
    pub fn new(vk: VerificationKey) -> (c: TurnSequenceCircuit)
        ensures
            c.vk == vk,
    {
        TurnSequenceCircuit { vk }
    }

    /// The public inputs of a turn-sequence claim.
    pub fn encode_inputs(initial_state: &[u8; 32], final_state: &[u8; 32], action_count: u32) -> (v: Vec<Scalar>)
        ensures
            v@.len() == 3,
            v@[0].bytes@ == initial_state@,
            v@[1].bytes@ == final_state@,
            v@[2].bytes@ == u32_scalar_bytes(action_count),
    {
        let mut v: Vec<Scalar> = Vec::new();
        v.push(Scalar { bytes: *initial_state });
        v.push(Scalar { bytes: *final_state });
        v.push(scalar_from_u32(action_count));
        v
    }
}

} // verus!
