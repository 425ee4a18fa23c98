//! An ordered map keyed by 32-bit identifiers.
//!
//! Entries are kept sorted by key, so walking the map by position visits
//! the keys in increasing order, as the ledger's own maps do.

use vstd::prelude::*;

verus! {

/// A map from `u32` keys to values, kept sorted by key.
pub struct IdMap<V> {
    keys: Vec<u32>,
    vals: Vec<V>,
    contents: Ghost<Map<u32, V>>,
}

impl<V> View for IdMap<V> {
    type V = Map<u32, V>;

    closed spec fn view(&self) -> Map<u32, V> {
        self.contents@
    }
}

impl<V> IdMap<V> {
    /// The internal consistency of the map.
    pub closed spec fn inv(&self) -> bool {
        &&& self.keys@.len() == self.vals@.len()
        &&& forall|i: int, j: int|
            0 <= i < j < self.keys@.len() ==> #[trigger] self.keys@[i] < #[trigger] self.keys@[j]
        &&& forall|i: int|
            0 <= i < self.keys@.len() ==> {
                &&& self.contents@.contains_key(#[trigger] self.keys@[i])
                &&& self.contents@[self.keys@[i]] == self.vals@[i]
            }
        &&& forall|k: u32| #[trigger] self.contents@.contains_key(k) ==> self.keys@.contains(k)
    }

    /// The keys, in increasing order.
    pub closed spec fn key_seq(&self) -> Seq<u32> {
        self.keys@
    }

    /// The values, in the order of their keys.
    pub closed spec fn val_seq(&self) -> Seq<V> {
        self.vals@
    }

    /// What the ordering of a consistent map gives its users: the key
    /// sequence is strictly increasing, lists exactly the keys of the map,
    /// and the value at each position is the map's value for that key.
    pub proof fn lemma_order(&self)
        requires
            self.inv(),
        ensures
            self.key_seq().len() == self.val_seq().len(),
            forall|i: int, j: int|
                0 <= i < j < self.key_seq().len() ==> #[trigger] self.key_seq()[i]
                    < #[trigger] self.key_seq()[j],
            forall|i: int|
                0 <= i < self.key_seq().len() ==> {
                    &&& self@.contains_key(#[trigger] self.key_seq()[i])
                    &&& self@[self.key_seq()[i]] == self.val_seq()[i]
                },
            forall|k: u32| #[trigger] self@.contains_key(k) <==> self.key_seq().contains(k),
            self.key_seq().no_duplicates(),
            self@.dom().finite(),
            self@.dom().len() == self.key_seq().len(),
    {
        assert forall|k: u32| #[trigger] self@.contains_key(k) <==> self.key_seq().contains(k) by {
            if self.key_seq().contains(k) {
                let i = choose|i: int| 0 <= i < self.keys@.len() && self.keys@[i] == k;
                assert(self.contents@.contains_key(self.keys@[i]));
            }
        }
        assert(self.key_seq().no_duplicates()) by {
            assert forall|i: int, j: int|
                0 <= i < self.key_seq().len() && 0 <= j < self.key_seq().len() && i != j implies
                self.key_seq()[i] != self.key_seq()[j] by {
                if i < j {
                    assert(self.keys@[i] < self.keys@[j]);
                } else {
                    assert(self.keys@[j] < self.keys@[i]);
                }
            }
        }
        assert(self@.dom() =~= self.key_seq().to_set());
        self.key_seq().unique_seq_to_set();
    }

    /// An empty map.
    pub fn new() -> (m: Self)
        ensures
            m.inv(),
            m@ == Map::<u32, V>::empty(),
            m.key_seq().len() == 0,
    {
        IdMap { keys: Vec::new(), vals: Vec::new(), contents: Ghost(Map::empty()) }
    }

    /// The number of entries.
    pub fn len(&self) -> (n: usize)
        requires
            self.inv(),
        ensures
            n == self.key_seq().len(),
            n == self@.dom().len(),
    {
        proof {
            self.lemma_order();
        }
        self.keys.len()
    }

    /// The key at position `i` (keys are in increasing order).
    pub fn key_at(&self, i: usize) -> (k: u32)
        requires
            self.inv(),
            i < self.key_seq().len(),
        ensures
            k == self.key_seq()[i as int],
            self@.contains_key(k),
    {
        self.keys[i]
    }

    /// The value at position `i`.
    pub fn value_at(&self, i: usize) -> (v: &V)
        requires
            self.inv(),
            i < self.key_seq().len(),
        ensures
            *v == self.val_seq()[i as int],
            *v == self@[self.key_seq()[i as int]],
    {
        &self.vals[i]
    }

    /// The position of `k`, or where it would be inserted.
    fn search(&self, k: u32) -> (r: (usize, bool))
        requires
            self.inv(),
        ensures
            r.0 <= self.keys@.len(),
            r.1 ==> r.0 < self.keys@.len() && self.keys@[r.0 as int] == k,
            !r.1 ==> forall|i: int| 0 <= i < self.keys@.len() ==> self.keys@[i] != k,
            forall|i: int| 0 <= i < r.0 ==> self.keys@[i] < k,
            !r.1 ==> forall|i: int| r.0 <= i < self.keys@.len() ==> self.keys@[i] > k,
    {
        let mut i: usize = 0;
        while i < self.keys.len()
            invariant
                self.inv(),
                i <= self.keys@.len(),
                forall|j: int| 0 <= j < i ==> self.keys@[j] < k,
            decreases self.keys@.len() - i,
        {
            let ki = self.keys[i];
            if ki == k {
                return (i, true);
            }
            if ki > k {
                assert forall|j: int| i <= j < self.keys@.len() implies self.keys@[j] > k by {
                    if j > i {
                        assert(self.keys@[i as int] < self.keys@[j]);
                    }
                }
                return (i, false);
            }
            i = i + 1;
        }
        (i, false)
    }

    /// Whether `k` has an entry.
    pub fn contains_key(&self, k: u32) -> (r: bool)
        requires
            self.inv(),
        ensures
            r == self@.contains_key(k),
    {
        proof {
            self.lemma_order();
        }
        let (_, found) = self.search(k);
        found
    }

    /// The value for `k`, if any.
    pub fn get(&self, k: u32) -> (r: Option<&V>)
        requires
            self.inv(),
        ensures
            r is Some <==> self@.contains_key(k),
            r matches Some(v) ==> *v == self@[k],
    {
        proof {
            self.lemma_order();
        }
        let (i, found) = self.search(k);
        if found {
            Some(&self.vals[i])
        } else {
            None
        }
    }

    /// Sets the value for `k`, replacing any previous one.
    pub fn set(&mut self, k: u32, v: V)
        requires
            old(self).inv(),
        ensures
            final(self).inv(),
            final(self)@ == old(self)@.insert(k, v),
    {
        proof {
            self.lemma_order();
        }
        let (i, found) = self.search(k);
        let ghost new_map = self.contents@.insert(k, v);
        if found {
            self.vals.set(i, v);
        } else {
            self.keys.insert(i, k);
            self.vals.insert(i, v);
        }
        self.contents = Ghost(new_map);
        proof {
            let keys = self.keys@;
            let vals = self.vals@;
            assert forall|a: int, b: int| 0 <= a < b < keys.len() implies #[trigger] keys[a]
                < #[trigger] keys[b] by {
                if !found {
                    let ok = old(self).keys@;
                    if a < i && b < i {
                        assert(ok[a] < ok[b]);
                    } else if a < i && b == i {
                    } else if a < i && b > i {
                        assert(keys[b] == ok[b - 1]);
                    } else if a == i {
                        assert(keys[b] == ok[b - 1]);
                    } else {
                        assert(keys[a] == ok[a - 1]);
                        assert(keys[b] == ok[b - 1]);
                        assert(ok[a - 1] < ok[b - 1]);
                    }
                } else {
                    assert(old(self).keys@[a] < old(self).keys@[b]);
                }
            }
            assert forall|a: int| 0 <= a < keys.len() implies {
                &&& self.contents@.contains_key(#[trigger] keys[a])
                &&& self.contents@[keys[a]] == vals[a]
            } by {
                if !found {
                    if a > i {
                        assert(keys[a] == old(self).keys@[a - 1]);
                        assert(old(self).contents@.contains_key(old(self).keys@[a - 1]));
                    } else if a < i {
                        assert(old(self).contents@.contains_key(old(self).keys@[a]));
                    }
                } else if a != i {
                    assert(old(self).contents@.contains_key(old(self).keys@[a]));
                    assert(old(self).keys@[a] != k);
                }
            }
            assert forall|kk: u32| #[trigger] self.contents@.contains_key(kk) implies keys.contains(
                kk,
            ) by {
                if kk == k {
                    assert(keys[i as int] == k);
                } else {
                    assert(old(self).contents@.contains_key(kk));
                    let j = choose|j: int|
                        0 <= j < old(self).keys@.len() && old(self).keys@[j] == kk;
                    if !found && j >= i {
                        assert(keys[j + 1] == kk);
                    } else {
                        assert(keys[j] == kk);
                    }
                }
            }
        }
    }

    /// Removes the entry for `k`, returning its value if there was one.
    pub fn remove(&mut self, k: u32) -> (r: Option<V>)
        requires
            old(self).inv(),
        ensures
            final(self).inv(),
            final(self)@ == old(self)@.remove(k),
            r is Some <==> old(self)@.contains_key(k),
            r matches Some(v) ==> v == old(self)@[k],
    {
        proof {
            self.lemma_order();
        }
        let (i, found) = self.search(k);
        if !found {
            assert(self.contents@ =~= self.contents@.remove(k));
            return None;
        }
        let ghost new_map = self.contents@.remove(k);
        self.keys.remove(i);
        let v = self.vals.remove(i);
        self.contents = Ghost(new_map);
        proof {
            let keys = self.keys@;
            let ok = old(self).keys@;
            assert forall|a: int, b: int| 0 <= a < b < keys.len() implies #[trigger] keys[a]
                < #[trigger] keys[b] by {
                if a < i && b < i {
                    assert(ok[a] < ok[b]);
                } else if a < i {
                    assert(keys[b] == ok[b + 1]);
                    assert(ok[a] < ok[b + 1]);
                } else {
                    assert(keys[a] == ok[a + 1]);
                    assert(keys[b] == ok[b + 1]);
                    assert(ok[a + 1] < ok[b + 1]);
                }
            }
            assert forall|a: int| 0 <= a < keys.len() implies {
                &&& self.contents@.contains_key(#[trigger] keys[a])
                &&& self.contents@[keys[a]] == self.vals@[a]
            } by {
                if a < i {
                    assert(old(self).contents@.contains_key(ok[a]));
                    assert(ok[a] < ok[i as int]);
                } else {
                    assert(keys[a] == ok[a + 1]);
                    assert(old(self).contents@.contains_key(ok[a + 1]));
                    assert(ok[i as int] < ok[a + 1]);
                }
            }
            assert forall|kk: u32| #[trigger] self.contents@.contains_key(kk) implies keys.contains(
                kk,
            ) by {
                assert(old(self).contents@.contains_key(kk));
                let j = choose|j: int| 0 <= j < ok.len() && ok[j] == kk;
                assert(j != i);
                if j > i {
                    assert(keys[j - 1] == kk);
                } else {
                    assert(keys[j] == kk);
                }
            }
        }
        Some(v)
    }
}

} // verus!
