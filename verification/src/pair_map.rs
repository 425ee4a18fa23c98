//! A map keyed by (entity, component type) pairs.

use vstd::prelude::*;
use crate::symbol::Symbol;

verus! {

/// A key made of an entity id and a component type.
pub type PairKey = (u32, Symbol);

/// A map from (entity, component type) pairs to values; each key occurs once.
pub struct PairMap<V> {
    keys: Vec<PairKey>,
    vals: Vec<V>,
    contents: Ghost<Map<PairKey, V>>,
}

impl<V> View for PairMap<V> {
    type V = Map<PairKey, V>;

    closed spec fn view(&self) -> Map<PairKey, V> {
        self.contents@
    }
}

impl<V> PairMap<V> {
    /// The internal consistency of the map.
    pub closed spec fn inv(&self) -> bool {
        &&& self.keys@.len() == self.vals@.len()
        &&& forall|i: int, j: int|
            0 <= i < self.keys@.len() && 0 <= j < self.keys@.len() && i != j ==> #[trigger] self.keys@[i]
                != #[trigger] self.keys@[j]
        &&& forall|i: int|
            0 <= i < self.keys@.len() ==> {
                &&& self.contents@.contains_key(#[trigger] self.keys@[i])
                &&& self.contents@[self.keys@[i]] == self.vals@[i]
            }
        &&& forall|k: PairKey| #[trigger] self.contents@.contains_key(k) ==> self.keys@.contains(k)
    }

    /// The number of keys is the size of the domain, and the domain is finite.
    proof fn lemma_finite(&self)
        requires
            self.inv(),
        ensures
            self@.dom().finite(),
            self@.dom().len() == self.keys@.len(),
    {
        assert(self@.dom() =~= self.keys@.to_set());
        assert(self.keys@.no_duplicates());
        self.keys@.unique_seq_to_set();
    }

    /// An empty map.
    pub fn new() -> (m: Self)
        ensures
            m.inv(),
            m@ == Map::<PairKey, V>::empty(),
    {
        PairMap { keys: Vec::new(), vals: Vec::new(), contents: Ghost(Map::empty()) }
    }

    /// The number of entries.
    pub fn len(&self) -> (n: usize)
        requires
            self.inv(),
        ensures
            n == self@.dom().len(),
            self@.dom().finite(),
    {
        proof {
            self.lemma_finite();
        }
        self.keys.len()
    }

    fn find(&self, e: u32, t: Symbol) -> (r: Option<usize>)
        requires
            self.inv(),
        ensures
            r matches Some(i) ==> i < self.keys@.len() && self.keys@[i as int] == (e, t),
            r is None ==> !self@.contains_key((e, t)),
    {
        let mut i: usize = 0;
        while i < self.keys.len()
            invariant
                self.inv(),
                i <= self.keys@.len(),
                forall|j: int| 0 <= j < i ==> self.keys@[j] != (e, t),
            decreases self.keys@.len() - i,
        {
            let k = self.keys[i];
            if k.0 == e && k.1 == t {
                return Some(i);
            }
            i = i + 1;
        }
        None
    }

    /// Whether the key has an entry.
    pub fn contains_key(&self, e: u32, t: Symbol) -> (r: bool)
        requires
            self.inv(),
        ensures
            r == self@.contains_key((e, t)),
    {
        self.find(e, t).is_some()
    }

    /// The value for the key, if any.
    pub fn get(&self, e: u32, t: Symbol) -> (r: Option<&V>)
        requires
            self.inv(),
        ensures
            r is Some <==> self@.contains_key((e, t)),
            r matches Some(v) ==> *v == self@[(e, t)],
    {
        match self.find(e, t) {
            Some(i) => Some(&self.vals[i]),
            None => None,
        }
    }

    /// Sets the value for the key.
    pub fn set(&mut self, e: u32, t: Symbol, v: V)
        requires
            old(self).inv(),
        ensures
            final(self).inv(),
            final(self)@ == old(self)@.insert((e, t), v),
    {
        let ghost new_map = self.contents@.insert((e, t), v);
        match self.find(e, t) {
            Some(i) => {
                self.vals.set(i, v);
                self.contents = Ghost(new_map);
                proof {
                    assert forall|a: int| 0 <= a < self.keys@.len() implies {
                        &&& self.contents@.contains_key(#[trigger] self.keys@[a])
                        &&& self.contents@[self.keys@[a]] == self.vals@[a]
                    } by {
                        if a != i {
                            assert(old(self).contents@.contains_key(old(self).keys@[a]));
                        }
                    }
                }
            },
            None => {
                self.keys.push((e, t));
                self.vals.push(v);
                self.contents = Ghost(new_map);
                proof {
                    let n = old(self).keys@.len();
                    assert forall|a: int, b: int|
                        0 <= a < self.keys@.len() && 0 <= b < self.keys@.len() && a != b implies #[trigger] self.keys@[a]
                        != #[trigger] self.keys@[b] by {
                        if a == n {
                            assert(old(self).contents@.contains_key(old(self).keys@[b]));
                        } else if b == n {
                            assert(old(self).contents@.contains_key(old(self).keys@[a]));
                        }
                    }
                    assert forall|a: int| 0 <= a < self.keys@.len() implies {
                        &&& self.contents@.contains_key(#[trigger] self.keys@[a])
                        &&& self.contents@[self.keys@[a]] == self.vals@[a]
                    } by {
                        if a < n {
                            assert(old(self).contents@.contains_key(old(self).keys@[a]));
                        }
                    }
                    assert forall|k: PairKey| #[trigger] self.contents@.contains_key(k) implies self.keys@.contains(k) by {
                        if k == (e, t) {
                            assert(self.keys@[n as int] == k);
                        } else {
                            let j = choose|j: int| 0 <= j < n && old(self).keys@[j] == k;
                            assert(self.keys@[j] == k);
                        }
                    }
                }
            },
        }
    }

    /// Removes the entry for the key, returning its value if there was one.
    pub fn remove(&mut self, e: u32, t: Symbol) -> (r: Option<V>)
        requires
            old(self).inv(),
        ensures
            final(self).inv(),
            final(self)@ == old(self)@.remove((e, t)),
            r is Some <==> old(self)@.contains_key((e, t)),
            r matches Some(v) ==> v == old(self)@[(e, t)],
    {
        match self.find(e, t) {
            None => {
                assert(self.contents@ =~= self.contents@.remove((e, t)));
                None
            },
            Some(i) => {
                let ghost new_map = self.contents@.remove((e, t));
                self.keys.remove(i);
                let v = self.vals.remove(i);
                self.contents = Ghost(new_map);
                proof {
                    let ok = old(self).keys@;
                    let keys = self.keys@;
                    assert forall|a: int, b: int|
                        0 <= a < keys.len() && 0 <= b < keys.len() && a != b implies #[trigger] keys[a]
                        != #[trigger] keys[b] by {
                        let oa = if a < i { a } else { a + 1 };
                        let ob = if b < i { b } else { b + 1 };
                        assert(keys[a] == ok[oa]);
                        assert(keys[b] == ok[ob]);
                    }
                    assert forall|a: int| 0 <= a < keys.len() implies {
                        &&& self.contents@.contains_key(#[trigger] keys[a])
                        &&& self.contents@[keys[a]] == self.vals@[a]
                    } by {
                        let oa = if a < i { a } else { a + 1 };
                        assert(keys[a] == ok[oa]);
                        assert(old(self).contents@.contains_key(ok[oa]));
                        assert(ok[oa] != ok[i as int]);
                    }
                    assert forall|k: PairKey| #[trigger] self.contents@.contains_key(k) implies keys.contains(k) by {
                        let j = choose|j: int| 0 <= j < ok.len() && ok[j] == k;
                        assert(j != i);
                        if j > i {
                            assert(keys[j - 1] == k);
                        } else {
                            assert(keys[j] == k);
                        }
                    }
                }
                Some(v)
            },
        }
    }
}

} // verus!
