//! Session keys kept in contract storage, as one list per account: what
//! storing, loading, removing, using and expiring keys does to the list.
//! Reading the list from storage and writing it back is the caller's.

use vstd::prelude::*;
use crate::ids::Address;
use crate::symbol::{self, symbol_from_text, Symbol};
use crate::ids::Bytes32;
use super::error::AccountError;
use super::types::{SessionKey, SessionKeyView};

verus! {

/// What to do with a stored list after a change.
pub enum ListWrite<T> {
    /// Nothing changed: write nothing.
    Unchanged,
    /// The list became empty: delete its entry.
    Delete,
    /// Write this list.
    Write(Vec<T>),
}

/// The keys of a list as values.
pub open spec fn keys_view(s: Seq<SessionKey>) -> Seq<SessionKeyView> {
    s.map_values(|k: SessionKey| k@)
}

/// "Has another key id".
pub open spec fn other_id(id: Bytes32) -> spec_fn(SessionKeyView) -> bool {
    |k: SessionKeyView| k.key_id != id
}

/// The first key with id `id`, if any.
pub open spec fn find_key(keys: Seq<SessionKeyView>, id: Bytes32) -> Option<SessionKeyView> {
    let i = crate::seq_util::first_pos(keys, has_id(id));
    if i >= 0 {
        Some(keys[i])
    } else {
        None
    }
}

/// "Has key id `id`".
pub open spec fn has_id(id: Bytes32) -> spec_fn(SessionKeyView) -> bool {
    |k: SessionKeyView| k.key_id == id
}

/// "Has not expired at `now`".
pub open spec fn live_at(now: u64) -> spec_fn(SessionKeyView) -> bool {
    |k: SessionKeyView| now < k.expires_at
}

/// The key with its use count one higher when its id is `id`.
pub open spec fn used_once(k: SessionKeyView, id: Bytes32) -> SessionKeyView {
    if k.key_id == id {
        SessionKeyView { operations_used: (k.operations_used + 1) as u32, ..k }
    } else {
        k
    }
}

/// "Counts one more use when its id is `id`".
pub open spec fn bump(id: Bytes32) -> spec_fn(SessionKeyView) -> SessionKeyView {
    |k: SessionKeyView| used_once(k, id)
}

/// The write that leaves `kept` in storage after removing some keys.
pub open spec fn write_of(changed: bool, kept: Seq<SessionKeyView>, w: ListWrite<SessionKey>) -> bool {
    if !changed {
        w is Unchanged
    } else if kept.len() == 0 {
        w is Delete
    } else {
        w matches ListWrite::Write(v) && keys_view(v@) == kept
    }
}

/// An account's session keys in contract storage.
pub struct SessionStorage;

/// The keys of `keys` that `keep` keeps, in order, as copies.
fn keep_keys(keys: &Vec<SessionKey>, id: Bytes32, drop_expired: bool, now: u64) -> (r: Vec<SessionKey>)
    ensures
        !drop_expired ==> keys_view(r@) == keys_view(keys@).filter(other_id(id)),
        drop_expired ==> keys_view(r@) == keys_view(keys@).filter(live_at(now)),
{
    let ghost kv = keys_view(keys@);
    let ghost p = if drop_expired { live_at(now) } else { other_id(id) };
    let mut r: Vec<SessionKey> = Vec::new();
    let mut i: usize = 0;
    while i < keys.len()
        invariant
            kv == keys_view(keys@),
            p == if drop_expired { live_at(now) } else { other_id(id) },
            i <= keys@.len(),
            keys_view(r@) == kv.take(i as int).filter(p),
        decreases keys@.len() - i,
    {
        proof {
            kv.lemma_take_succ_push(i as int);
            kv.take(i as int).lemma_filter_push(kv[i as int], p);
        }
        let keep = if drop_expired {
            now < keys[i].scope.expires_at
        } else {
            keys[i].key_id != id
        };
        if keep {
            let ghost before = r@;
            r.push(keys[i].duplicate());
            proof {
                assert(keys_view(r@) =~= keys_view(before).push(kv[i as int]));
            }
        }
        i = i + 1;
    }
    proof {
        assert(kv.take(kv.len() as int) =~= kv);
    }
    r
}

impl SessionStorage {
    /// The storage key of an account's session keys: `(sess_keys, account)`.
    pub fn storage_key(account: &Address) -> (k: (Symbol, Address))
        ensures
            k == (symbol::symbol_of(seq![115u8, 101, 115, 115, 95, 107, 101, 121, 115]), *account),
    {
        let text: [u8; 9] = [115, 101, 115, 115, 95, 107, 101, 121, 115];
        assert(text@ == seq![115u8, 101, 115, 115, 95, 107, 101, 121, 115]);
        (symbol_from_text(&text), *account)
    }

    /// The list after storing `key`: keys with its id are replaced by it,
    /// at the end.
    pub fn store(keys: &Vec<SessionKey>, key: &SessionKey) -> (r: Vec<SessionKey>)
        ensures
            keys_view(r@) == keys_view(keys@).filter(other_id(key.key_id)).push(key@),
    {
        let mut r = keep_keys(keys, key.key_id, false, 0);
        let ghost before = r@;
        r.push(key.duplicate());
        proof {
            assert(keys_view(r@) =~= keys_view(before).push(key@));
        }
        r
    }

    /// The first key with id `key_id`, if any.
    pub fn load(keys: &Vec<SessionKey>, key_id: &Bytes32) -> (r: Option<SessionKey>)
        ensures
            r is None ==> forall|i: int| 0 <= i < keys@.len() ==> (#[trigger] keys@[i]).key_id != *key_id,
            r matches Some(k) ==> exists|i: int| 0 <= i < keys@.len() && (#[trigger] keys@[i]).key_id == *key_id
                && k@ == keys@[i]@ && forall|j: int| 0 <= j < i ==> keys@[j].key_id != *key_id,
            r matches Some(k) ==> find_key(keys_view(keys@), *key_id) == Some(k@),
            r is None ==> find_key(keys_view(keys@), *key_id) is None,
    {
        let mut i: usize = 0;
        while i < keys.len()
            invariant
                i <= keys@.len(),
                forall|j: int| 0 <= j < i ==> (#[trigger] keys@[j]).key_id != *key_id,
            decreases keys@.len() - i,
        {
            if keys[i].key_id == *key_id {
                proof {
                    let v = keys_view(keys@);
                    crate::seq_util::lemma_first_pos(v, has_id(*key_id));
                    let f = crate::seq_util::first_pos(v, has_id(*key_id));
                    assert(v[i as int] == keys@[i as int]@);
                    assert(has_id(*key_id)(v[i as int]));
                    if 0 <= f < i {
                        assert(v[f] == keys@[f]@);
                    }
                    assert(f == i);
                }
                return Some(keys[i].duplicate());
            }
            i = i + 1;
        }
        proof {
            let v = keys_view(keys@);
            crate::seq_util::lemma_first_pos(v, has_id(*key_id));
            let f = crate::seq_util::first_pos(v, has_id(*key_id));
            if f >= 0 {
                assert(v[f] == keys@[f]@);
            }
        }
        None
    }

    /// Removes the keys with id `key_id`; returns whether there was one and
    /// the write to make.
    pub fn remove(keys: &Vec<SessionKey>, key_id: &Bytes32) -> (r: (bool, ListWrite<SessionKey>))
        ensures
            r.0 == exists|i: int| 0 <= i < keys@.len() && (#[trigger] keys@[i]).key_id == *key_id,
            write_of(r.0, keys_view(keys@).filter(other_id(*key_id)), r.1),
    {
        let kept = keep_keys(keys, *key_id, false, 0);
        let found = kept.len() < keys.len();
        proof {
            let kv = keys_view(keys@);
            let p = other_id(*key_id);
            kv.lemma_filter_len(p);
            if exists|i: int| 0 <= i < keys@.len() && (#[trigger] keys@[i]).key_id == *key_id {
                let i = choose|i: int| 0 <= i < keys@.len() && (#[trigger] keys@[i]).key_id == *key_id;
                assert(kv[i].key_id == *key_id);
                lemma_filter_drops(kv, p, i);
            } else {
                assert forall|j: int| 0 <= j < kv.len() implies p(#[trigger] kv[j]) by {
                    assert(keys@[j].key_id != *key_id);
                }
                crate::seq_util::lemma_filter_all(kv, p);
            }
        }
        if !found {
            return (false, ListWrite::Unchanged);
        }
        if kept.len() == 0 {
            (true, ListWrite::Delete)
        } else {
            (true, ListWrite::Write(kept))
        }
    }

    /// Counts one more use of every key with id `key_id`; refused with
    /// `InvalidScope` when there is none.
    pub fn increment_usage(keys: &Vec<SessionKey>, key_id: &Bytes32) -> (r: Result<Vec<SessionKey>, AccountError>)
        requires
            forall|i: int| 0 <= i < keys@.len() && (#[trigger] keys@[i]).key_id == *key_id
                ==> keys@[i].operations_used < u32::MAX,
        ensures
            (exists|i: int| 0 <= i < keys@.len() && (#[trigger] keys@[i]).key_id == *key_id) ==> {
                &&& r matches Ok(v)
                &&& keys_view(v@) == keys_view(keys@).map_values(bump(*key_id))
            },
            !(exists|i: int| 0 <= i < keys@.len() && (#[trigger] keys@[i]).key_id == *key_id)
                ==> (r matches Err(e) && e == AccountError::InvalidScope),
    {
        let mut r: Vec<SessionKey> = Vec::new();
        let mut found = false;
        let mut i: usize = 0;
        while i < keys.len()
            invariant
                forall|j: int| 0 <= j < keys@.len() && (#[trigger] keys@[j]).key_id == *key_id
                    ==> keys@[j].operations_used < u32::MAX,
                i <= keys@.len(),
                keys_view(r@) == keys_view(keys@).take(i as int).map_values(bump(*key_id)),
                found <==> exists|j: int| 0 <= j < i && (#[trigger] keys@[j]).key_id == *key_id,
            decreases keys@.len() - i,
        {
            let ghost before = r@;
            let mut k = keys[i].duplicate();
            if k.key_id == *key_id {
                found = true;
                k.operations_used = k.operations_used + 1;
            }
            assert(k@ == used_once(keys@[i as int]@, *key_id));
            r.push(k);
            proof {
                assert(keys_view(r@) =~= keys_view(before).push(k@));
                assert(keys_view(keys@).take(i as int + 1) =~= keys_view(keys@).take(i as int).push(keys@[i as int]@));
                assert(keys_view(r@) =~= keys_view(keys@).take(i as int + 1).map_values(bump(*key_id)));
            }
            i = i + 1;
        }
        proof {
            assert(keys_view(keys@).take(keys@.len() as int) =~= keys_view(keys@));
        }
        if !found {
            return Err(AccountError::InvalidScope);
        }
        Ok(r)
    }

    /// Removes the keys expired at `now` (those with `now >= expires_at`);
    /// returns how many and the write to make.
    pub fn cleanup_expired(keys: &Vec<SessionKey>, now: u64) -> (r: (u32, ListWrite<SessionKey>))
        requires
            keys@.len() <= u32::MAX,
        ensures
            r.0 == keys@.len() - keys_view(keys@).filter(live_at(now)).len(),
            write_of(r.0 > 0, keys_view(keys@).filter(live_at(now)), r.1),
    {
        let kept = keep_keys(keys, Bytes32 { hi: 0, lo: 0 }, true, now);
        proof {
            keys_view(keys@).lemma_filter_len(live_at(now));
        }
        let removed = (keys.len() - kept.len()) as u32;
        if removed == 0 {
            return (0, ListWrite::Unchanged);
        }
        if kept.len() == 0 {
            (removed, ListWrite::Delete)
        } else {
            (removed, ListWrite::Write(kept))
        }
    }
}

/// Filtering out an element that the predicate rejects shortens the
/// sequence.
pub proof fn lemma_filter_drops<A>(s: Seq<A>, p: spec_fn(A) -> bool, k: int)
    requires
        0 <= k < s.len(),
        !p(s[k]),
    ensures
        s.filter(p).len() < s.len(),
    decreases s.len(),
{
    let q = s.drop_last();
    assert(s =~= q.push(s.last()));
    q.lemma_filter_len_push(p, s.last());
    q.lemma_filter_len(p);
    if k < s.len() - 1 {
        assert(q[k] == s[k]);
        lemma_filter_drops(q, p, k);
    }
}

/// Storing a key and then loading its id gives back that key: in the
/// stored list it is the only key with its id, and it is the one found.
pub proof fn law_store_then_load(keys: Seq<SessionKeyView>, k: SessionKeyView)
    ensures
        ({
            let stored = keys.filter(other_id(k.key_id)).push(k);
            &&& stored.last() == k
            &&& forall|i: int| 0 <= i < stored.len() - 1 ==> (#[trigger] stored[i]).key_id != k.key_id
            &&& find_key(stored, k.key_id) == Some(k)
        }),
{
    let f = keys.filter(other_id(k.key_id));
    let stored = f.push(k);
    assert forall|i: int| 0 <= i < stored.len() - 1 implies (#[trigger] stored[i]).key_id != k.key_id by {
        assert(stored[i] == f[i]);
        keys.lemma_filter_pred(other_id(k.key_id), i);
    }
    crate::seq_util::lemma_first_pos(f, has_id(k.key_id));
    assert forall|j: int| 0 <= j < f.len() implies !has_id(k.key_id)(#[trigger] f[j]) by {
        keys.lemma_filter_pred(other_id(k.key_id), j);
    }
    crate::seq_util::lemma_first_pos_push(f, k, has_id(k.key_id));
    assert(stored[f.len() as int] == k);
}

/// After removing an id, no key with that id is left.
pub proof fn law_remove_then_absent(keys: Seq<SessionKeyView>, id: Bytes32)
    ensures
        forall|i: int| 0 <= i < keys.filter(other_id(id)).len() ==> (#[trigger] keys.filter(other_id(id))[i]).key_id != id,
{
    assert forall|i: int| 0 <= i < keys.filter(other_id(id)).len() implies (#[trigger] keys.filter(other_id(id))[i]).key_id != id by {
        keys.lemma_filter_pred(other_id(id), i);
    }
}

} // verus!
