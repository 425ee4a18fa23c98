//! Passkey (secp256r1) public keys registered to an account, kept in
//! contract storage as one list per account and identified by label.
//! Reading and writing the list, and checking signatures, is the caller's.

use vstd::prelude::*;
use crate::host;
use crate::ids::Address;
use crate::symbol::symbol_from_text;
use crate::symbol::Symbol;
use super::storage::ListWrite;

verus! {

/// A registered passkey.
#[derive(Clone, Copy, Debug)]
pub struct Secp256r1Key {
    /// The SEC1 uncompressed public key (65 bytes).
    pub public_key: [u8; 65],
    pub label: Symbol,
    pub registered_at: u64,
}

/// "Has another label".
pub open spec fn other_label(label: Symbol) -> spec_fn(Secp256r1Key) -> bool {
    |k: Secp256r1Key| k.label != label
}

/// An account's passkeys in contract storage.
pub struct Secp256r1Storage;

/// The keys with another label, in order.
fn without_label(keys: &Vec<Secp256r1Key>, label: Symbol) -> (r: Vec<Secp256r1Key>)
    ensures
        r@ == keys@.filter(other_label(label)),
{
    let mut r: Vec<Secp256r1Key> = Vec::new();
    let mut i: usize = 0;
    while i < keys.len()
        invariant
            i <= keys@.len(),
            r@ == keys@.take(i as int).filter(other_label(label)),
        decreases keys@.len() - i,
    {
        proof {
            keys@.lemma_take_succ_push(i as int);
            keys@.take(i as int).lemma_filter_push(keys@[i as int], other_label(label));
        }
        if keys[i].label != label {
            r.push(keys[i]);
        }
        i = i + 1;
    }
    proof {
        assert(keys@.take(keys@.len() as int) =~= keys@);
    }
    r
}

impl Secp256r1Storage {
    /// The storage key of an account's passkeys: `(p256_keys, account)`.
    pub fn storage_key(account: &Address) -> (k: (Symbol, Address))
        ensures
            k == (crate::symbol::symbol_of(seq![112u8, 50, 53, 54, 95, 107, 101, 121, 115]), *account),
    {
        let text: [u8; 9] = [112, 50, 53, 54, 95, 107, 101, 121, 115];
        assert(text@ == seq![112u8, 50, 53, 54, 95, 107, 101, 121, 115]);
        (symbol_from_text(&text), *account)
    }

    /// The list after storing `key`: keys with its label are replaced by
    /// it, at the end.
    pub fn store(keys: &Vec<Secp256r1Key>, key: &Secp256r1Key) -> (r: Vec<Secp256r1Key>)
        ensures
            r@ == keys@.filter(other_label(key.label)).push(*key),
    {
        let mut r = without_label(keys, key.label);
        r.push(*key);
        r
    }

    /// Removes the keys labelled `label`; returns whether there was one and
    /// the write to make.
    pub fn remove(keys: &Vec<Secp256r1Key>, label: &Symbol) -> (r: (bool, ListWrite<Secp256r1Key>))
        ensures
            r.0 == exists|i: int| 0 <= i < keys@.len() && (#[trigger] keys@[i]).label == *label,
            !r.0 ==> r.1 is Unchanged,
            r.0 && keys@.filter(other_label(*label)).len() == 0 ==> r.1 is Delete,
            r.0 && keys@.filter(other_label(*label)).len() > 0
                ==> (r.1 matches ListWrite::Write(v) && v@ == keys@.filter(other_label(*label))),
    {
        let kept = without_label(keys, *label);
        let found = kept.len() < keys.len();
        proof {
            let p = other_label(*label);
            keys@.lemma_filter_len(p);
            if exists|i: int| 0 <= i < keys@.len() && (#[trigger] keys@[i]).label == *label {
                let i = choose|i: int| 0 <= i < keys@.len() && (#[trigger] keys@[i]).label == *label;
                super::storage::lemma_filter_drops(keys@, p, i);
            } else {
                assert forall|j: int| 0 <= j < keys@.len() implies p(#[trigger] keys@[j]) by {}
                crate::seq_util::lemma_filter_all(keys@, p);
            }
        }
        if !found {
            return (false, ListWrite::Unchanged);
        }
        if kept.len() == 0 {
            (true, ListWrite::Delete)
        } else {
            (true, ListWrite::Write(kept))
        }
    }

    /// The first key labelled `label`, if any.
    pub fn find_by_label(keys: &Vec<Secp256r1Key>, label: &Symbol) -> (r: Option<Secp256r1Key>)
        ensures
            r is None ==> forall|i: int| 0 <= i < keys@.len() ==> (#[trigger] keys@[i]).label != *label,
            r matches Some(k) ==> exists|i: int| 0 <= i < keys@.len() && #[trigger] keys@[i] == k
                && k.label == *label && forall|j: int| 0 <= j < i ==> keys@[j].label != *label,
    {
        let mut i: usize = 0;
        while i < keys.len()
            invariant
                i <= keys@.len(),
                forall|j: int| 0 <= j < i ==> (#[trigger] keys@[j]).label != *label,
            decreases keys@.len() - i,
        {
            if keys[i].label == *label {
                return Some(keys[i]);
            }
            i = i + 1;
        }
        None
    }
}

/// Storing a key and then looking up its label finds that key: in the
/// stored list it is the only key with its label.
pub proof fn law_store_then_find(keys: Seq<Secp256r1Key>, k: Secp256r1Key)
    ensures
        ({
            let stored = keys.filter(other_label(k.label)).push(k);
            &&& stored.last() == k
            &&& forall|i: int| 0 <= i < stored.len() - 1 ==> (#[trigger] stored[i]).label != k.label
        }),
{
    let f = keys.filter(other_label(k.label));
    let stored = f.push(k);
    assert forall|i: int| 0 <= i < stored.len() - 1 implies (#[trigger] stored[i]).label != k.label by {
        assert(stored[i] == f[i]);
        keys.lemma_filter_pred(other_label(k.label), i);
    }
}

/// After removing a label, no key with that label is left.
pub proof fn law_remove_then_absent(keys: Seq<Secp256r1Key>, label: Symbol)
    ensures
        forall|i: int| 0 <= i < keys.filter(other_label(label)).len()
            ==> (#[trigger] keys.filter(other_label(label))[i]).label != label,
{
    assert forall|i: int| 0 <= i < keys.filter(other_label(label)).len()
        implies (#[trigger] keys.filter(other_label(label))[i]).label != label by {
        keys.lemma_filter_pred(other_label(label), i);
    }
}

/// The digest a passkey signs for `message`: its SHA-256, 32 bytes.
pub fn passkey_digest(env: &soroban_sdk::Env, message: &Vec<u8>) -> (d: Vec<u8>)
    ensures
        d@ == host::spec_sha256(message@),
        d@.len() == 32,
{
    host::sha256(env, message)
}

} // verus!
