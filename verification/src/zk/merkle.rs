//! Merkle inclusion proofs over SHA-256, checked on chain.
//!
//! An internal node is SHA-256(0x01 || left || right).

use vstd::prelude::*;
use crate::bytes::bytes_eq;
use crate::host;
use super::error::ZKError;

verus! {

/// An inclusion proof as produced off chain: the sibling at each level and
/// whether the path node at that level is a right child.
#[derive(Clone, Debug)]
pub struct MerkleProof {
    pub siblings: Vec<[u8; 32]>,
    pub path_indices: Vec<bool>,
    pub leaf: [u8; 32],
    pub leaf_index: u32,
}

/// An inclusion proof in the form contracts receive: bit `i` of
/// `path_bits` is set when the path node at level `i` is a right child.
#[derive(Clone, Debug)]
pub struct OnChainMerkleProof {
    pub siblings: Vec<[u8; 32]>,
    pub path_bits: u32,
    pub leaf: [u8; 32],
    pub leaf_index: u32,
    pub depth: u32,
}

/// The hash of an internal node with these children.
pub open spec fn node_hash(left: Seq<u8>, right: Seq<u8>) -> Seq<u8> {
    host::spec_sha256(seq![1u8] + left + right)
}

/// Whether bit `i` of `bits` is set.
pub open spec fn bit_set(bits: u32, i: u32) -> bool {
    (bits >> i) & 1u32 == 1u32
}

/// The node reached from `leaf` after `n` levels of the path.
pub open spec fn path_node(leaf: Seq<u8>, siblings: Seq<[u8; 32]>, bits: u32, n: nat) -> Seq<u8>
    decreases n,
{
    if n == 0 {
        leaf
    } else {
        let cur = path_node(leaf, siblings, bits, (n - 1) as nat);
        let s = siblings[n - 1]@;
        if bit_set(bits, (n - 1) as u32) {
            node_hash(s, cur)
        } else {
            node_hash(cur, s)
        }
    }
}

/// The path bits of the first `n` levels of `right`.
pub open spec fn pack_bits(right: Seq<bool>, n: nat) -> u32
    decreases n,
{
    if n == 0 {
        0
    } else if right[n - 1] {
        pack_bits(right, (n - 1) as nat) | (1u32 << ((n - 1) as u32))
    } else {
        pack_bits(right, (n - 1) as nat)
    }
}

/// The hash of an internal node with these children (through
/// `host::sha256`).
fn hash_pair_raw(env: &soroban_sdk::Env, left: &Vec<u8>, right: &Vec<u8>) -> (h: Vec<u8>)
    ensures
        h@ == node_hash(left@, right@),
        h@.len() == 32,
{
    let mut input: Vec<u8> = Vec::new();
    input.push(1u8);
    let mut i: usize = 0;
    while i < left.len()
        invariant
            i <= left@.len(),
            input@ == seq![1u8] + left@.take(i as int),
        decreases left@.len() - i,
    {
        input.push(left[i]);
        i = i + 1;
        assert(input@ =~= seq![1u8] + left@.take(i as int));
    }
    let mut j: usize = 0;
    while j < right.len()
        invariant
            j <= right@.len(),
            input@ == seq![1u8] + left@ + right@.take(j as int),
        decreases right@.len() - j,
    {
        proof {
            assert(left@.take(left@.len() as int) =~= left@);
        }
        input.push(right[j]);
        j = j + 1;
        assert(input@ =~= seq![1u8] + left@ + right@.take(j as int));
    }
    proof {
        assert(left@.take(left@.len() as int) =~= left@);
        assert(right@.take(right@.len() as int) =~= right@);
        assert(input@ =~= seq![1u8] + left@ + right@);
    }
    host::sha256(env, &input)
}

/// The bytes of a 32-byte array.
fn array_bytes(a: &[u8; 32]) -> (v: Vec<u8>)
    ensures
        v@ == a@,
{
    let mut v: Vec<u8> = Vec::new();
    let mut i: usize = 0;
    while i < 32
        invariant
            i <= 32,
            v@ == a@.take(i as int),
        decreases 32 - i,
    {
        v.push(a[i]);
        i = i + 1;
        assert(v@ =~= a@.take(i as int));
    }
    assert(v@ =~= a@);
    v
}

/// Checks `proof` against `expected_root`: hashes up from the leaf, level
/// by level, with each sibling on the side the path bit gives, and
/// compares with the root. A proof whose sibling count differs from its
/// depth is refused with `InvalidProofLength`.
pub fn verify_inclusion(env: &soroban_sdk::Env, proof: &OnChainMerkleProof, expected_root: &[u8; 32]) -> (r: Result<bool, ZKError>)
    requires
        proof.siblings@.len() == proof.depth ==> proof.depth <= 32,
    ensures
        proof.siblings@.len() != proof.depth ==> r == Err::<bool, ZKError>(ZKError::InvalidProofLength),
        proof.siblings@.len() == proof.depth ==> r == Ok::<bool, ZKError>(
            path_node(proof.leaf@, proof.siblings@, proof.path_bits, proof.depth as nat) == expected_root@),
{
    if proof.siblings.len() != proof.depth as usize {
        return Err(ZKError::InvalidProofLength);
    }
    let mut current = array_bytes(&proof.leaf);
    let mut i: u32 = 0;
    while i < proof.depth
        invariant
            proof.siblings@.len() == proof.depth,
            proof.depth <= 32,
            i <= proof.depth,
            current@ == path_node(proof.leaf@, proof.siblings@, proof.path_bits, i as nat),
        decreases proof.depth - i,
    {
        let sibling = array_bytes(&proof.siblings[i as usize]);
        let is_right = (proof.path_bits >> i) & 1 == 1;
        if is_right {
            current = hash_pair_raw(env, &sibling, &current);
        } else {
            current = hash_pair_raw(env, &current, &sibling);
        }
        i = i + 1;
    }
    let root = array_bytes(expected_root);
    Ok(bytes_eq(current.as_slice(), root.as_slice()))
}

/// The on-chain form of `proof`: the same siblings, the path packed into
/// bits, the depth being the number of siblings (modulo 2^32).
pub fn to_on_chain_proof(proof: &MerkleProof, env: &soroban_sdk::Env) -> (p: OnChainMerkleProof)
    requires
        proof.path_indices@.len() >= proof.siblings@.len(),
        forall|i: int| 0 <= i < proof.siblings@.len() && #[trigger] proof.path_indices@[i] ==> i < 32,
    ensures
        p.siblings@ == proof.siblings@,
        p.path_bits == pack_bits(proof.path_indices@, proof.siblings@.len()),
        p.leaf == proof.leaf,
        p.leaf_index == proof.leaf_index,
        p.depth == proof.siblings@.len() as u32,
{
    let mut siblings: Vec<[u8; 32]> = Vec::new();
    let mut path_bits: u32 = 0;
    let mut i: usize = 0;
    while i < proof.siblings.len()
        invariant
            proof.path_indices@.len() >= proof.siblings@.len(),
            forall|k: int| 0 <= k < proof.siblings@.len() && #[trigger] proof.path_indices@[k] ==> k < 32,
            i <= proof.siblings@.len(),
            siblings@ == proof.siblings@.take(i as int),
            path_bits == pack_bits(proof.path_indices@, i as nat),
        decreases proof.siblings@.len() - i,
    {
        siblings.push(proof.siblings[i]);
        if proof.path_indices[i] {
            assert(i < 32);
            path_bits = path_bits | (1u32 << (i as u32));
        }
        i = i + 1;
        assert(siblings@ =~= proof.siblings@.take(i as int));
    }
    assert(siblings@ =~= proof.siblings@);
    OnChainMerkleProof {
        siblings,
        path_bits,
        leaf: proof.leaf,
        leaf_index: proof.leaf_index,
        depth: proof.siblings.len() as u32,
    }
}

/// The node reached from `leaf` after `n` levels, the side of each level
/// given directly (true: the path node is a right child).
pub open spec fn path_node_dirs(leaf: Seq<u8>, siblings: Seq<[u8; 32]>, right: Seq<bool>, n: nat) -> Seq<u8>
    decreases n,
{
    if n == 0 {
        leaf
    } else {
        let cur = path_node_dirs(leaf, siblings, right, (n - 1) as nat);
        let s = siblings[n - 1]@;
        if right[n - 1] {
            node_hash(s, cur)
        } else {
            node_hash(cur, s)
        }
    }
}

proof fn lemma_bit_or(x: u32, k: u32, i: u32)
    by (bit_vector)
    requires
        k < 32,
        i < 32,
    ensures
        ((x | (1u32 << k)) >> i) & 1u32 == 1u32 <==> ((x >> i) & 1u32 == 1u32 || i == k),
{
}

proof fn lemma_bit_zero(i: u32)
    by (bit_vector)
    requires
        i < 32,
    ensures
        (0u32 >> i) & 1u32 != 1u32,
{
}

/// Packing directions into bits keeps each direction as its bit, and
/// leaves the higher bits clear.
pub proof fn law_pack_bits(right: Seq<bool>, n: nat)
    requires
        n <= 32,
        right.len() >= n,
    ensures
        forall|i: u32| i < n ==> #[trigger] bit_set(pack_bits(right, n), i) == right[i as int],
        forall|i: u32| n <= i < 32 ==> !#[trigger] bit_set(pack_bits(right, n), i),
    decreases n,
{
    if n == 0 {
        assert forall|i: u32| n <= i < 32 implies !#[trigger] bit_set(pack_bits(right, n), i) by {
            lemma_bit_zero(i);
        }
    } else {
        let m = (n - 1) as nat;
        law_pack_bits(right, m);
        let x = pack_bits(right, m);
        assert forall|i: u32| i < 32 implies #[trigger] bit_set(pack_bits(right, n), i)
            == (bit_set(x, i) || (right[m as int] && i == m as u32)) by {
            if right[m as int] {
                lemma_bit_or(x, m as u32, i);
            }
        }
    }
}

/// Verifying the on-chain form of a proof hashes along the proof's own
/// path: the packed bits give back each level's side.
pub proof fn law_on_chain_path(leaf: Seq<u8>, siblings: Seq<[u8; 32]>, right: Seq<bool>, n: nat)
    requires
        n <= 32,
        right.len() >= n,
        siblings.len() >= n,
    ensures
        path_node(leaf, siblings, pack_bits(right, n), n) == path_node_dirs(leaf, siblings, right, n),
{
    law_pack_bits(right, n);
    lemma_path_same(leaf, siblings, right, pack_bits(right, n), n, n);
}

proof fn lemma_path_same(leaf: Seq<u8>, siblings: Seq<[u8; 32]>, right: Seq<bool>, bits: u32, total: nat, k: nat)
    requires
        k <= total,
        total <= 32,
        right.len() >= total,
        forall|i: u32| i < total ==> #[trigger] bit_set(bits, i) == right[i as int],
    ensures
        path_node(leaf, siblings, bits, k) == path_node_dirs(leaf, siblings, right, k),
    decreases k,
{
    if k > 0 {
        lemma_path_same(leaf, siblings, right, bits, total, (k - 1) as nat);
        assert(bit_set(bits, (k - 1) as u32) == right[(k - 1) as int]);
    }
}

} // verus!
