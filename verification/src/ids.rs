//! Fixed-size identifiers: 32-byte keys and account addresses.
//!
//! Both are kept as two 128-bit words holding the 32 bytes big-endian, so
//! that equality of values is equality of the underlying bytes.

use vstd::prelude::*;
use crate::symbol;

verus! {

/// A 32-byte value (a key id, a hash).
#[derive(Clone, Copy, Debug, PartialEq, Eq, Structural, Hash)]
pub struct Bytes32 {
    pub hi: u128,
    pub lo: u128,
}

/// The 32-byte value whose bytes are `s`.
pub open spec fn bytes32_of(s: Seq<u8>) -> Bytes32 {
    Bytes32 { hi: symbol::pack_word(s, 0, 16) as u128, lo: symbol::pack_word(s, 16, 16) as u128 }
}

impl Bytes32 {
    /// The value made of exactly these 32 bytes.
    pub fn from_array(bytes: &[u8; 32]) -> (r: Bytes32)
        ensures
            r == bytes32_of(bytes@),
    {
        let s = bytes.as_slice();
        Bytes32 { hi: symbol::pack_from(s, 0), lo: symbol::pack_from(s, 16) }
    }

    /// The 32 bytes of the value: the one byte string of length 32 that
    /// makes it.
    pub fn to_bytes(&self) -> (r: Vec<u8>)
        ensures
            r@.len() == 32,
            bytes32_of(r@) == *self,
            forall|s: Seq<u8>| s.len() == 32 && #[trigger] bytes32_of(s) == *self ==> r@ == s,
    {
        let r = symbol::unpack_pair(self.hi, self.lo);
        proof {
            assert forall|s: Seq<u8>| s.len() == 32 && #[trigger] bytes32_of(s) == *self implies r@ == s by {
                symbol::lemma_pack_word_bound(s, 0, 16);
                symbol::lemma_pack_word_bound(s, 16, 16);
                symbol::lemma_word_bound_16();
                symbol::lemma_pack_injective(s, 0, r@, 0, 16);
                symbol::lemma_pack_injective(s, 16, r@, 16, 16);
                assert forall|k: int| 0 <= k < 32 implies s[k] == r@[k] by {
                    if k < 16 {
                        assert(symbol::bytes_agree(s, 0, r@, 0, k));
                    } else {
                        assert(symbol::bytes_agree(s, 16, r@, 16, k - 16));
                    }
                }
                assert(s =~= r@);
            }
        }
        r
    }

    /// The value made of these bytes, or `None` unless there are exactly 32.
    pub fn from_slice(bytes: &[u8]) -> (r: Option<Bytes32>)
        ensures
            r is Some <==> bytes@.len() == 32,
            r matches Some(v) ==> v == bytes32_of(bytes@),
    {
        if bytes.len() != 32 {
            return None;
        }
        Some(Bytes32 { hi: symbol::pack_from(bytes, 0), lo: symbol::pack_from(bytes, 16) })
    }
}

/// A ledger address: an account (ed25519 key) or a contract (contract id),
/// identified by its 32-byte payload.
#[derive(Clone, Copy, Debug, PartialEq, Eq, Structural, Hash)]
pub struct Address {
    pub is_contract: bool,
    pub key: Bytes32,
}

impl Address {
    /// The account address of this public key.
    pub fn account(key: Bytes32) -> (a: Address)
        ensures
            a == (Address { is_contract: false, key }),
    {
        Address { is_contract: false, key }
    }

    /// The address of the contract with this id.
    pub fn contract(key: Bytes32) -> (a: Address)
        ensures
            a == (Address { is_contract: true, key }),
    {
        Address { is_contract: true, key }
    }
}

} // verus!
