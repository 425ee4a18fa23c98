//! The archetype world: each entity lives in the archetype of its exact
//! set of component types; adding or removing a component moves the
//! entity, with its data, to another archetype.

use vstd::prelude::*;
use crate::id_map::IdMap;
use crate::pair_map::PairKey;
use crate::seq_util;
use crate::simple_world::{EntityId, SimpleWorld};
use crate::symbol::{self, Symbol, syms_eq, syms_insert_sorted, syms_without};
use super::archetype::{self, Archetype, ArchetypeId};

verus! {

/// A world that groups entities by archetype.
pub struct ArchetypeWorld {
    /// Next entity id to assign.
    pub next_entity_id: EntityId,
    /// Next archetype id to assign.
    pub next_archetype_id: ArchetypeId,
    /// All archetypes, keyed by id.
    pub archetypes: IdMap<Archetype>,
    /// Maps a sorted component type list to the archetype of those types.
    pub archetype_index: Vec<(Vec<Symbol>, ArchetypeId)>,
    /// Maps each entity that has components to its archetype.
    pub entity_archetype: IdMap<ArchetypeId>,
    /// Version counter for cache invalidation.
    pub version: u64,
}

/// What each archetype of a consistent world satisfies.
pub open spec fn arch_ok(arch: Archetype, a: ArchetypeId, next: ArchetypeId) -> bool {
    &&& arch.wf()
    &&& arch.id == a
    &&& a < next
    &&& symbol::syms_sorted(arch.component_types@)
    &&& arch.component_types@.len() > 0
    &&& arch.entities@.no_duplicates()
    &&& forall|k: PairKey| #[trigger] arch.data@.contains_key(k)
        <==> (arch.entities@.contains(k.0) && arch.component_types@.contains(k.1))
}

/// Whether the index has an entry for these types.
pub open spec fn indexed(index: Seq<(Vec<Symbol>, ArchetypeId)>, ts: Seq<Symbol>) -> bool {
    exists|i: int| 0 <= i < index.len() && #[trigger] index[i].0@ == ts
}

/// Whether the index has an entry for the types `ts` together with `t`.
pub open spec fn indexed_with(index: Seq<(Vec<Symbol>, ArchetypeId)>, ts: Seq<Symbol>, t: Symbol) -> bool {
    exists|i: int| 0 <= i < index.len() && #[trigger] same_types_with(index[i].0@, ts, t)
}

/// Whether `entry` holds exactly the types of `ts` and `t`.
pub open spec fn same_types_with(entry: Seq<Symbol>, ts: Seq<Symbol>, t: Symbol) -> bool {
    forall|x: Symbol| #[trigger] entry.contains(x) <==> (ts.contains(x) || x == t)
}

/// When the index has an entry for the types `ts` together with `t`, the
/// sorted sequence of those types is indexed.
proof fn lemma_indexed_with(w: ArchetypeWorld, sorted: Seq<Symbol>, ts: Seq<Symbol>, t: Symbol)
    requires
        w.wf(),
        indexed_with(w.archetype_index@, ts, t),
        symbol::syms_sorted(sorted),
        forall|x: Symbol| #[trigger] sorted.contains(x) <==> (ts.contains(x) || x == t),
    ensures
        indexed(w.archetype_index@, sorted),
{
    let idx = w.archetype_index@;
    let i = choose|i: int| 0 <= i < idx.len() && #[trigger] same_types_with(idx[i].0@, ts, t);
    let a = idx[i].1;
    assert(w.archetypes@.contains_key(a));
    assert(arch_ok(w.archetypes@[a], a, w.next_archetype_id));
    assert(w.arch(a).component_types@ == idx[i].0@);
    assert forall|x: Symbol| idx[i].0@.contains(x) <==> sorted.contains(x) by {
        assert(same_types_with(idx[i].0@, ts, t));
    }
    symbol::lemma_sorted_same_symbols(idx[i].0@, sorted);
}

/// No two archetypes have the same component types, and the types of
/// every archetype are in the index.
pub open spec fn archetypes_distinct(archs: Map<ArchetypeId, Archetype>, index: Seq<(Vec<Symbol>, ArchetypeId)>) -> bool {
    &&& forall|a: ArchetypeId, b: ArchetypeId| archs.contains_key(a) && archs.contains_key(b) && a != b
        ==> #[trigger] archs[a].component_types@ != #[trigger] archs[b].component_types@
    &&& forall|a: ArchetypeId| #[trigger] archs.contains_key(a) ==> indexed(index, archs[a].component_types@)
}

/// When an entity has data for every type, the extracted pairs list every
/// type in order with its data.
pub proof fn lemma_extracted_full(types: Seq<Symbol>, data: Map<PairKey, Vec<u8>>, e: EntityId)
    requires
        forall|i: int| 0 <= i < types.len() ==> data.contains_key((e, #[trigger] types[i])),
    ensures
        archetype::extracted_of(types, data, e).len() == types.len(),
        forall|i: int| 0 <= i < types.len() ==> #[trigger] archetype::extracted_of(types, data, e)[i] == (types[i], data[(e, types[i])]@),
    decreases types.len(),
{
    if types.len() > 0 {
        let p = types.drop_last();
        assert forall|i: int| 0 <= i < p.len() implies data.contains_key((e, #[trigger] p[i])) by {
            assert(types[i] == p[i]);
        }
        lemma_extracted_full(p, data, e);
        assert(data.contains_key((e, types[types.len() - 1])));
    }
}

/// The entities of the archetypes of `archs` that have every required
/// type, archetype by archetype, in their order.
pub open spec fn query_seq(archs: Seq<Archetype>, required: Seq<Symbol>) -> Seq<EntityId>
    decreases archs.len(),
{
    if archs.len() == 0 {
        Seq::empty()
    } else {
        let rest = query_seq(archs.drop_last(), required);
        let a = archs.last();
        if archetype::types_match(a.component_types@, required) {
            rest + a.entities@
        } else {
            rest
        }
    }
}

impl ArchetypeWorld {
    /// Two worlds that differ only in their counters of entities and
    /// versions have the same components.
    proof fn lemma_same_contents(a: ArchetypeWorld, b: ArchetypeWorld)
        requires
            a.archetypes == b.archetypes,
            a.entity_archetype == b.entity_archetype,
            a.archetype_index == b.archetype_index,
            a.next_archetype_id == b.next_archetype_id,
        ensures
            a.wf() ==> b.wf(),
            forall|e: EntityId, t: Symbol| #[trigger] b.spec_get(e, t) == a.spec_get(e, t),
            forall|e: EntityId, t: Symbol| #[trigger] b.spec_has(e, t) == a.spec_has(e, t),
            forall|e: EntityId| #[trigger] b.types_of(e) == a.types_of(e),
    {
        if a.wf() {
            assert forall|x: ArchetypeId| #[trigger] b.archetypes@.contains_key(x)
                implies arch_ok(b.archetypes@[x], x, b.next_archetype_id) by {
                assert(a.archetypes@.contains_key(x));
            }
            assert forall|e: EntityId| #[trigger] b.entity_archetype@.contains_key(e) implies {
                &&& b.archetypes@.contains_key(b.entity_archetype@[e])
                &&& b.arch(b.entity_archetype@[e]).entities@.contains(e)
            } by {
                assert(a.entity_archetype@.contains_key(e));
            }
            assert forall|x: ArchetypeId, e: EntityId| b.archetypes@.contains_key(x)
                && #[trigger] b.arch(x).entities@.contains(e) implies {
                &&& b.entity_archetype@.contains_key(e)
                &&& b.entity_archetype@[e] == x
            } by {
                assert(a.arch(x).entities@.contains(e));
            }
            assert forall|j: int| 0 <= j < b.archetype_index@.len() implies {
                &&& b.archetypes@.contains_key(#[trigger] b.archetype_index@[j].1)
                &&& b.arch(b.archetype_index@[j].1).component_types@ == b.archetype_index@[j].0@
            } by {
                assert(a.archetypes@.contains_key(a.archetype_index@[j].1));
            }
        }
    }

    /// The archetype with id `a`.
    pub open spec fn arch(&self, a: ArchetypeId) -> Archetype {
        self.archetypes@[a]
    }

    /// Whether the entity has a component of this type.
    pub open spec fn spec_has(&self, e: EntityId, t: Symbol) -> bool {
        &&& self.entity_archetype@.contains_key(e)
        &&& self.arch(self.entity_archetype@[e]).component_types@.contains(t)
    }

    /// The entity's data for this type, if it has a component of it.
    pub open spec fn spec_get(&self, e: EntityId, t: Symbol) -> Option<Seq<u8>> {
        if self.entity_archetype@.contains_key(e) && self.archetypes@.contains_key(self.entity_archetype@[e])
            && self.arch(self.entity_archetype@[e]).data@.contains_key((e, t)) {
            Some(self.arch(self.entity_archetype@[e]).data@[(e, t)]@)
        } else {
            None
        }
    }

    /// The component types of the entity (empty when it has none).
    pub open spec fn types_of(&self, e: EntityId) -> Seq<Symbol> {
        if self.entity_archetype@.contains_key(e) {
            self.arch(self.entity_archetype@[e]).component_types@
        } else {
            Seq::empty()
        }
    }

    /// The consistency of the world.
    pub open spec fn wf(&self) -> bool {
        &&& self.archetypes.inv()
        &&& self.entity_archetype.inv()
        &&& forall|a: ArchetypeId| #[trigger] self.archetypes@.contains_key(a)
            ==> arch_ok(self.archetypes@[a], a, self.next_archetype_id)
        &&& forall|e: EntityId| #[trigger] self.entity_archetype@.contains_key(e) ==> {
            &&& self.archetypes@.contains_key(self.entity_archetype@[e])
            &&& self.arch(self.entity_archetype@[e]).entities@.contains(e)
        }
        &&& forall|a: ArchetypeId, e: EntityId| self.archetypes@.contains_key(a)
            && #[trigger] self.arch(a).entities@.contains(e) ==> {
            &&& self.entity_archetype@.contains_key(e)
            &&& self.entity_archetype@[e] == a
        }
        &&& forall|i: int| 0 <= i < self.archetype_index@.len() ==> {
            &&& self.archetypes@.contains_key(#[trigger] self.archetype_index@[i].1)
            &&& self.arch(self.archetype_index@[i].1).component_types@ == self.archetype_index@[i].0@
        }
        &&& archetypes_distinct(self.archetypes@, self.archetype_index@)
    }

    /// In a consistent world, having a type and having data for it agree.
    pub proof fn lemma_has_get(&self, e: EntityId, t: Symbol)
        requires
            self.wf(),
        ensures
            self.spec_has(e, t) <==> self.spec_get(e, t) is Some,
            self.spec_has(e, t) <==> self.types_of(e).contains(t),
    {
        if self.entity_archetype@.contains_key(e) {
            let a = self.entity_archetype@[e];
            assert(self.archetypes@.contains_key(a));
            assert(self.arch(a).data@.contains_key((e, t)) <==> (self.arch(a).entities@.contains(e)
                && self.arch(a).component_types@.contains(t)));
        }
    }

    /// An empty world whose first entity will be 1.
    pub fn new(env: &soroban_sdk::Env) -> (w: ArchetypeWorld)
        ensures
            w.wf(),
            w.next_entity_id == 1,
            w.next_archetype_id == 0,
            w.version == 0,
            w.archetypes@ == Map::<ArchetypeId, Archetype>::empty(),
            w.entity_archetype@ == Map::<EntityId, ArchetypeId>::empty(),
            w.archetype_index@.len() == 0,
    {
        ArchetypeWorld {
            next_entity_id: 1,
            next_archetype_id: 0,
            archetypes: IdMap::new(),
            archetype_index: Vec::new(),
            entity_archetype: IdMap::new(),
            version: 0,
        }
    }

    /// Hands out the next entity id (the entity has no components yet).
    pub fn spawn_entity(&mut self) -> (id: EntityId)
        requires
            old(self).next_entity_id < u32::MAX,
        ensures
            id == old(self).next_entity_id,
            final(self).next_entity_id == old(self).next_entity_id + 1,
            final(self).next_archetype_id == old(self).next_archetype_id,
            final(self).version == old(self).version,
            final(self).archetypes == old(self).archetypes,
            final(self).archetype_index == old(self).archetype_index,
            final(self).entity_archetype == old(self).entity_archetype,
    {
        let id = self.next_entity_id;
        self.next_entity_id = self.next_entity_id + 1;
        id
    }

    /// The current version.
    pub fn version(&self) -> (v: u64)
        ensures
            v == self.version,
    {
        self.version
    }

    /// The entity's data for this type, if it has a component of it.
    pub fn get_component(&self, entity_id: EntityId, component_type: &Symbol) -> (r: Option<Vec<u8>>)
        requires
            self.wf(),
        ensures
            r matches Some(d) ==> self.spec_get(entity_id, *component_type) == Some(d@),
            r is None ==> self.spec_get(entity_id, *component_type) is None,
    {
        let arch_id = match self.entity_archetype.get(entity_id) {
            Some(a) => *a,
            None => return None,
        };
        let arch = match self.archetypes.get(arch_id) {
            Some(a) => a,
            None => return None,
        };
        proof {
            assert(self.archetypes@.contains_key(arch_id));
        }
        arch.get_component(entity_id, component_type)
    }

    /// Whether the entity has a component of this type.
    pub fn has_component(&self, entity_id: EntityId, component_type: &Symbol) -> (r: bool)
        requires
            self.wf(),
        ensures
            r == self.spec_has(entity_id, *component_type),
    {
        if let Some(a) = self.entity_archetype.get(entity_id) {
            let arch_id = *a;
            if let Some(arch) = self.archetypes.get(arch_id) {
                return arch.has_component_type(component_type);
            }
        }
        false
    }

    /// Finds the archetype of these component types, creating it if needed.
    fn get_or_create_archetype(&mut self, component_types: Vec<Symbol>, env: &soroban_sdk::Env) -> (id: ArchetypeId)
        requires
            old(self).wf(),
            symbol::syms_sorted(component_types@),
            component_types@.len() > 0,
            old(self).next_archetype_id < u32::MAX || indexed(old(self).archetype_index@, component_types@),
        ensures
            final(self).wf(),
            final(self).archetypes@.contains_key(id),
            final(self).arch(id).component_types@ == component_types@,
            final(self).entity_archetype == old(self).entity_archetype,
            final(self).version == old(self).version,
            final(self).next_entity_id == old(self).next_entity_id,
            final(self).next_archetype_id <= old(self).next_archetype_id + 1,
            old(self).archetypes@.contains_key(id) ==> final(self).archetypes@ == old(self).archetypes@,
            !old(self).archetypes@.contains_key(id) ==> {
                &&& final(self).arch(id).entities@.len() == 0
                &&& final(self).arch(id).data@ == Map::<PairKey, Vec<u8>>::empty()
                &&& final(self).archetypes@ == old(self).archetypes@.insert(id, final(self).arch(id))
            },
    {
        let mut i: usize = 0;
        while i < self.archetype_index.len()
            invariant
                i <= self.archetype_index@.len(),
                self == old(self),
                self.wf(),
                forall|j: int| 0 <= j < i ==> #[trigger] self.archetype_index@[j].0@ != component_types@,
            decreases self.archetype_index@.len() - i,
        {
            if syms_eq(&self.archetype_index[i].0, &component_types) {
                let id = self.archetype_index[i].1;
                proof {
                    assert(self.archetypes@.contains_key(self.archetype_index@[i as int].1));
                }
                return id;
            }
            i = i + 1;
        }
        let id = self.next_archetype_id;
        let ghost types = component_types@;
        proof {
            if self.archetypes@.contains_key(id) {
                assert(arch_ok(self.archetypes@[id], id, self.next_archetype_id));
            }
            assert(!indexed(self.archetype_index@, types));
        }
        self.next_archetype_id = self.next_archetype_id + 1;
        let index_types = crate::symbol::copy_syms(&component_types);
        let arch = Archetype::new(env, id, component_types);
        proof {
            symbol::lemma_sorted_no_dup(arch.component_types@);
        }
        self.archetypes.set(id, arch);
        self.archetype_index.push((index_types, id));
        proof {
            let n = old(self).archetype_index@.len();
            assert forall|a: ArchetypeId| #[trigger] self.archetypes@.contains_key(a)
                implies arch_ok(self.archetypes@[a], a, self.next_archetype_id) by {
                if a != id {
                    assert(old(self).archetypes@.contains_key(a));
                }
            }
            assert forall|e: EntityId| #[trigger] self.entity_archetype@.contains_key(e) implies {
                &&& self.archetypes@.contains_key(self.entity_archetype@[e])
                &&& self.arch(self.entity_archetype@[e]).entities@.contains(e)
            } by {
                assert(old(self).archetypes@.contains_key(old(self).entity_archetype@[e]));
            }
            assert forall|a: ArchetypeId, e: EntityId| self.archetypes@.contains_key(a)
                && #[trigger] self.arch(a).entities@.contains(e) implies {
                &&& self.entity_archetype@.contains_key(e)
                &&& self.entity_archetype@[e] == a
            } by {
                if a == id {
                    assert(self.arch(a).entities@.len() == 0);
                } else {
                    assert(old(self).arch(a) == self.arch(a));
                    assert(old(self).archetypes@.contains_key(a));
                    assert(old(self).arch(a).entities@.contains(e));
                }
            }
            assert forall|j: int| 0 <= j < self.archetype_index@.len() implies {
                &&& self.archetypes@.contains_key(#[trigger] self.archetype_index@[j].1)
                &&& self.arch(self.archetype_index@[j].1).component_types@ == self.archetype_index@[j].0@
            } by {
                if j < n {
                    assert(old(self).archetype_index@[j] == self.archetype_index@[j]);
                    assert(old(self).archetypes@.contains_key(old(self).archetype_index@[j].1));
                }
            }
            let oa = old(self).archetypes@;
            let idx = self.archetype_index@;
            assert(idx[n as int].0@ == types);
            assert forall|a: ArchetypeId, b: ArchetypeId| self.archetypes@.contains_key(a) && self.archetypes@.contains_key(b) && a != b
                implies #[trigger] self.archetypes@[a].component_types@ != #[trigger] self.archetypes@[b].component_types@ by {
                if a == id {
                    assert(oa.contains_key(b));
                    assert(indexed(old(self).archetype_index@, oa[b].component_types@));
                } else if b == id {
                    assert(oa.contains_key(a));
                    assert(indexed(old(self).archetype_index@, oa[a].component_types@));
                } else {
                    assert(oa.contains_key(a) && oa.contains_key(b));
                }
            }
            assert forall|a: ArchetypeId| #[trigger] self.archetypes@.contains_key(a)
                implies indexed(idx, self.archetypes@[a].component_types@) by {
                if a == id {
                    assert(idx[n as int].0@ == self.archetypes@[a].component_types@);
                } else {
                    assert(oa.contains_key(a));
                    assert(indexed(old(self).archetype_index@, oa[a].component_types@));
                    let k = choose|k: int| 0 <= k < old(self).archetype_index@.len()
                        && #[trigger] old(self).archetype_index@[k].0@ == oa[a].component_types@;
                    assert(idx[k] == old(self).archetype_index@[k]);
                }
            }
        }
        id
    }

    /// Takes the entity out of its archetype (and out of the entity map),
    /// returning its (type, data) pairs in the order of its types.
    fn detach_entity(&mut self, entity_id: EntityId, env: &soroban_sdk::Env) -> (pairs: Vec<(Symbol, Vec<u8>)>)
        requires
            old(self).wf(),
        ensures
            final(self).wf(),
            !final(self).entity_archetype@.contains_key(entity_id),
            final(self).entity_archetype@ == old(self).entity_archetype@.remove(entity_id),
            final(self).archetypes@.dom() == old(self).archetypes@.dom(),
            forall|a: ArchetypeId| #[trigger] final(self).archetypes@.contains_key(a)
                ==> final(self).arch(a).component_types == old(self).arch(a).component_types,
            final(self).archetype_index == old(self).archetype_index,
            final(self).next_archetype_id == old(self).next_archetype_id,
            final(self).next_entity_id == old(self).next_entity_id,
            final(self).version == old(self).version,
            forall|e: EntityId, t: Symbol| e != entity_id
                ==> #[trigger] final(self).spec_get(e, t) == old(self).spec_get(e, t),
            forall|e: EntityId| e != entity_id ==> #[trigger] final(self).types_of(e) == old(self).types_of(e),
            archetype::pair_keys(pairs@) == old(self).types_of(entity_id),
            forall|i: int| 0 <= i < pairs@.len() ==> old(self).spec_get(entity_id, #[trigger] pairs@[i].0) == Some(pairs@[i].1@),
    {
        let a = match self.entity_archetype.get(entity_id) {
            Some(a) => *a,
            None => {
                let empty: Vec<(Symbol, Vec<u8>)> = Vec::new();
                proof {
                    assert(self.entity_archetype@ =~= old(self).entity_archetype@.remove(entity_id));
                    assert(archetype::pair_keys(empty@) =~= old(self).types_of(entity_id));
                }
                return empty;
            },
        };
        proof {
            assert(self.archetypes@.contains_key(a));
            assert(arch_ok(self.archetypes@[a], a, self.next_archetype_id));
        }
        let ghost old_arch = self.arch(a);
        let mut arch = match self.archetypes.remove(a) {
            Some(arch) => arch,
            None => {
                return Vec::new();
            },
        };
        let pairs = arch.remove_entity(entity_id, env);
        let ghost new_arch = arch;
        self.archetypes.set(a, arch);
        self.entity_archetype.remove(entity_id);
        proof {
            let types = old_arch.component_types@;
            assert(old_arch.entities@.contains(entity_id));
            assert forall|i: int| 0 <= i < types.len() implies old_arch.data@.contains_key((entity_id, #[trigger] types[i])) by {
                assert(types.contains(types[i]));
            }
            lemma_extracted_full(types, old_arch.data@, entity_id);
            let ex = archetype::extracted_of(types, old_arch.data@, entity_id);
            assert(archetype::pairs_view(pairs@) == ex);
            assert forall|i: int| 0 <= i < pairs@.len() implies #[trigger] pairs@[i].0 == types[i]
                && pairs@[i].1@ == old_arch.data@[(entity_id, types[i])]@ by {
                assert(archetype::pairs_view(pairs@)[i] == ex[i]);
            }
            assert(archetype::pair_keys(pairs@) =~= types);
            seq_util::lemma_without(old_arch.entities@, entity_id);
            assert(self.archetypes@.dom() =~= old(self).archetypes@.dom());
            assert(arch_ok(new_arch, a, self.next_archetype_id)) by {
                assert forall|k: PairKey| #[trigger] new_arch.data@.contains_key(k)
                    <==> (new_arch.entities@.contains(k.0) && new_arch.component_types@.contains(k.1)) by {
                    assert(old_arch.data@.contains_key(k)
                        <==> (old_arch.entities@.contains(k.0) && old_arch.component_types@.contains(k.1)));
                }
            }
            assert forall|b: ArchetypeId| #[trigger] self.archetypes@.contains_key(b)
                implies arch_ok(self.archetypes@[b], b, self.next_archetype_id) by {
                if b != a {
                    assert(old(self).archetypes@.contains_key(b));
                }
            }
            assert forall|e: EntityId| #[trigger] self.entity_archetype@.contains_key(e) implies {
                &&& self.archetypes@.contains_key(self.entity_archetype@[e])
                &&& self.arch(self.entity_archetype@[e]).entities@.contains(e)
            } by {
                assert(old(self).entity_archetype@.contains_key(e));
                assert(old(self).archetypes@.contains_key(old(self).entity_archetype@[e]));
                if old(self).entity_archetype@[e] == a {
                    assert(seq_util::without(old_arch.entities@, entity_id).contains(e));
                }
            }
            assert forall|b: ArchetypeId, e: EntityId| self.archetypes@.contains_key(b)
                && #[trigger] self.arch(b).entities@.contains(e) implies {
                &&& self.entity_archetype@.contains_key(e)
                &&& self.entity_archetype@[e] == b
            } by {
                if b == a {
                    assert(old_arch.entities@.contains(e));
                    assert(e != entity_id);
                } else {
                    assert(old(self).arch(b) == self.arch(b));
                    assert(old(self).arch(b).entities@.contains(e));
                }
                assert(old(self).archetypes@.contains_key(b));
            }
            assert forall|j: int| 0 <= j < self.archetype_index@.len() implies {
                &&& self.archetypes@.contains_key(#[trigger] self.archetype_index@[j].1)
                &&& self.arch(self.archetype_index@[j].1).component_types@ == self.archetype_index@[j].0@
            } by {
                assert(old(self).archetypes@.contains_key(old(self).archetype_index@[j].1));
            }
            assert forall|e: EntityId, t: Symbol| e != entity_id
                implies #[trigger] self.spec_get(e, t) == old(self).spec_get(e, t) by {
                if old(self).entity_archetype@.contains_key(e) {
                    assert(old(self).archetypes@.contains_key(old(self).entity_archetype@[e]));
                }
            }
            assert forall|i: int| 0 <= i < pairs@.len() implies old(self).spec_get(entity_id, #[trigger] pairs@[i].0) == Some(pairs@[i].1@) by {
                assert(pairs@[i].0 == types[i]);
            }
        }
        pairs
    }

    /// Puts an entity that has no archetype into the archetype of `types`
    /// (creating it if needed), with the given (type, data) pairs, which
    /// name each of `types` exactly once.
    fn attach_entity(
        &mut self,
        entity_id: EntityId,
        types: Vec<Symbol>,
        pairs: &Vec<(Symbol, Vec<u8>)>,
        env: &soroban_sdk::Env,
    )
        requires
            old(self).wf(),
            !old(self).entity_archetype@.contains_key(entity_id),
            symbol::syms_sorted(types@),
            types@.len() > 0,
            old(self).next_archetype_id < u32::MAX || indexed(old(self).archetype_index@, types@),
            archetype::pair_keys(pairs@).no_duplicates(),
            forall|x: Symbol| #[trigger] archetype::pair_keys(pairs@).contains(x)
                <==> types@.contains(x),
        ensures
            final(self).wf(),
            final(self).entity_archetype@.contains_key(entity_id),
            final(self).types_of(entity_id) == types@,
            forall|i: int| 0 <= i < pairs@.len() ==> final(self).spec_get(entity_id, #[trigger] pairs@[i].0) == Some(pairs@[i].1@),
            forall|e: EntityId, t: Symbol| e != entity_id
                ==> #[trigger] final(self).spec_get(e, t) == old(self).spec_get(e, t),
            forall|e: EntityId| e != entity_id ==> #[trigger] final(self).types_of(e) == old(self).types_of(e),
            final(self).next_entity_id == old(self).next_entity_id,
            final(self).version == old(self).version,
            final(self).next_archetype_id <= old(self).next_archetype_id + 1,
    {
        let ghost keys = archetype::pair_keys(pairs@);
        let ghost types_v = types@;
        let target_id = self.get_or_create_archetype(types, env);
        let ghost mid = *self;
        proof {
            assert(self.archetypes@.contains_key(target_id));
            assert(arch_ok(self.arch(target_id), target_id, self.next_archetype_id));
            assert(!self.arch(target_id).entities@.contains(entity_id));
        }
        let mut target = match self.archetypes.remove(target_id) {
            Some(t) => t,
            None => {
                return;
            },
        };
        let ghost old_target = target;
        target.add_entity(entity_id);
        let mut i: usize = 0;
        while i < pairs.len()
            invariant
                i <= pairs@.len(),
                keys == archetype::pair_keys(pairs@),
                keys.no_duplicates(),
                target.data.inv(),
                target.id == old_target.id,
                target.component_types == old_target.component_types,
                target.entities@ == old_target.entities@.push(entity_id),
                forall|k: PairKey| #[trigger] old_target.data@.contains_key(k) ==> k.0 != entity_id,
                forall|k: PairKey| #[trigger] target.data@.contains_key(k) <==> (old_target.data@.contains_key(k)
                    || (k.0 == entity_id && keys.subrange(0, i as int).contains(k.1))),
                forall|k: PairKey| k.0 != entity_id && #[trigger] target.data@.contains_key(k)
                    ==> target.data@[k] == old_target.data@[k],
                forall|j: int| 0 <= j < i ==> #[trigger] target.data@[(entity_id, pairs@[j].0)]@ == pairs@[j].1@,
            decreases pairs@.len() - i,
        {
            let t = pairs[i].0;
            let d = crate::bytes::copy_bytes(&pairs[i].1);
            target.set_component(entity_id, t, d);
            i = i + 1;
            proof {
                assert(keys[i - 1] == t);
                assert forall|k: PairKey| #[trigger] target.data@.contains_key(k) <==> (old_target.data@.contains_key(k)
                    || (k.0 == entity_id && keys.subrange(0, i as int).contains(k.1))) by {
                    if k.0 == entity_id && keys.subrange(0, i as int).contains(k.1) && k.1 != t {
                        let j = choose|j: int| 0 <= j < i && #[trigger] keys.subrange(0, i as int)[j] == k.1;
                        assert(keys.subrange(0, i - 1)[j] == k.1);
                    }
                    if k.0 == entity_id && keys.subrange(0, i - 1).contains(k.1) {
                        let j = choose|j: int| 0 <= j < i - 1 && #[trigger] keys.subrange(0, i - 1)[j] == k.1;
                        assert(keys.subrange(0, i as int)[j] == k.1);
                    }
                    if k.0 == entity_id && k.1 == t {
                        assert(keys.subrange(0, i as int)[i - 1] == t);
                    }
                }
                assert forall|j: int| 0 <= j < i implies #[trigger] target.data@[(entity_id, pairs@[j].0)]@ == pairs@[j].1@ by {
                    if j < i - 1 {
                        assert(keys[j] != keys[i - 1]);
                    }
                }
            }
        }
        let ghost new_target = target;
        self.archetypes.set(target_id, target);
        self.entity_archetype.set(entity_id, target_id);
        proof {
            assert(keys.subrange(0, pairs@.len() as int) =~= keys);
            symbol::lemma_sorted_no_dup(types@);
            assert(new_target.entities@.no_duplicates()) by {
                assert forall|a: int, b: int| 0 <= a < new_target.entities@.len() && 0 <= b < new_target.entities@.len() && a != b
                    implies new_target.entities@[a] != new_target.entities@[b] by {
                    let n = old_target.entities@.len() as int;
                    if a == n {
                        assert(old_target.entities@.contains(old_target.entities@[b]));
                    } else if b == n {
                        assert(old_target.entities@.contains(old_target.entities@[a]));
                    }
                }
            }
            assert(arch_ok(new_target, target_id, self.next_archetype_id)) by {
                assert forall|k: PairKey| #[trigger] new_target.data@.contains_key(k)
                    <==> (new_target.entities@.contains(k.0) && new_target.component_types@.contains(k.1)) by {
                    assert(old_target.data@.contains_key(k)
                        <==> (old_target.entities@.contains(k.0) && old_target.component_types@.contains(k.1)));
                    if k.0 == entity_id {
                        assert(old_target.component_types@ == types_v);
                        assert(keys.contains(k.1) <==> types_v.contains(k.1));
                        assert(new_target.entities@[old_target.entities@.len() as int] == entity_id);
                    } else {
                        if new_target.entities@.contains(k.0) {
                            let j = choose|j: int| 0 <= j < new_target.entities@.len() && new_target.entities@[j] == k.0;
                            assert(old_target.entities@[j] == k.0);
                        }
                        if old_target.entities@.contains(k.0) {
                            let j = choose|j: int| 0 <= j < old_target.entities@.len() && old_target.entities@[j] == k.0;
                            assert(new_target.entities@[j] == k.0);
                        }
                    }
                }
            }
            assert forall|b: ArchetypeId| #[trigger] self.archetypes@.contains_key(b)
                implies arch_ok(self.archetypes@[b], b, self.next_archetype_id) by {
                if b != target_id {
                    assert(mid.archetypes@.contains_key(b));
                }
            }
            assert forall|e: EntityId| #[trigger] self.entity_archetype@.contains_key(e) implies {
                &&& self.archetypes@.contains_key(self.entity_archetype@[e])
                &&& self.arch(self.entity_archetype@[e]).entities@.contains(e)
            } by {
                if e == entity_id {
                    assert(new_target.entities@[old_target.entities@.len() as int] == entity_id);
                } else {
                    assert(mid.entity_archetype@.contains_key(e));
                    assert(mid.archetypes@.contains_key(mid.entity_archetype@[e]));
                    if mid.entity_archetype@[e] == target_id {
                        let j = choose|j: int| 0 <= j < old_target.entities@.len() && old_target.entities@[j] == e;
                        assert(new_target.entities@[j] == e);
                    }
                }
            }
            assert forall|b: ArchetypeId, e: EntityId| self.archetypes@.contains_key(b)
                && #[trigger] self.arch(b).entities@.contains(e) implies {
                &&& self.entity_archetype@.contains_key(e)
                &&& self.entity_archetype@[e] == b
            } by {
                assert(mid.archetypes@.contains_key(b));
                if b == target_id {
                    if e != entity_id {
                        let j = choose|j: int| 0 <= j < new_target.entities@.len() && new_target.entities@[j] == e;
                        assert(old_target.entities@[j] == e);
                        assert(mid.arch(b).entities@.contains(e));
                    }
                } else {
                    assert(mid.arch(b) == self.arch(b));
                    assert(mid.arch(b).entities@.contains(e));
                    if e == entity_id {
                        assert(!mid.entity_archetype@.contains_key(entity_id));
                    }
                }
            }
            assert forall|j: int| 0 <= j < self.archetype_index@.len() implies {
                &&& self.archetypes@.contains_key(#[trigger] self.archetype_index@[j].1)
                &&& self.arch(self.archetype_index@[j].1).component_types@ == self.archetype_index@[j].0@
            } by {
                assert(mid.archetypes@.contains_key(mid.archetype_index@[j].1));
            }
            assert forall|e: EntityId, t: Symbol| e != entity_id
                implies #[trigger] self.spec_get(e, t) == old(self).spec_get(e, t) by {
                if old(self).entity_archetype@.contains_key(e) {
                    assert(old(self).archetypes@.contains_key(old(self).entity_archetype@[e]));
                    assert(mid.spec_get(e, t) == old(self).spec_get(e, t));
                }
            }
            assert forall|e: EntityId| e != entity_id implies #[trigger] self.types_of(e) == old(self).types_of(e) by {
                if old(self).entity_archetype@.contains_key(e) {
                    assert(old(self).archetypes@.contains_key(old(self).entity_archetype@[e]));
                }
            }
            assert forall|i: int| 0 <= i < pairs@.len() implies self.spec_get(entity_id, #[trigger] pairs@[i].0) == Some(pairs@[i].1@) by {
                assert(keys[i] == pairs@[i].0);
                assert(keys.contains(pairs@[i].0));
                assert(new_target.data@.contains_key((entity_id, pairs@[i].0)));
            }
        }
    }

    /// Adds (or replaces) a component, moving the entity to the archetype
    /// of its new set of types when the type is new to it.
    pub fn add_component(&mut self, entity_id: EntityId, component_type: Symbol, data: Vec<u8>, env: &soroban_sdk::Env)
        requires
            old(self).wf(),
            old(self).version < u64::MAX,
            old(self).next_archetype_id < u32::MAX || old(self).types_of(entity_id).contains(component_type)
                || indexed_with(old(self).archetype_index@, old(self).types_of(entity_id), component_type),
        ensures
            final(self).wf(),
            final(self).version == old(self).version + 1,
            final(self).next_entity_id == old(self).next_entity_id,
            final(self).spec_get(entity_id, component_type) == Some(data@),
            forall|e: EntityId, t: Symbol| (e, t) != (entity_id, component_type)
                ==> #[trigger] final(self).spec_get(e, t) == old(self).spec_get(e, t),
            forall|x: Symbol| #[trigger] final(self).types_of(entity_id).contains(x)
                <==> (old(self).types_of(entity_id).contains(x) || x == component_type),
            symbol::syms_sorted(final(self).types_of(entity_id)),
            forall|e: EntityId| e != entity_id ==> #[trigger] final(self).types_of(e) == old(self).types_of(e),
            final(self).next_archetype_id <= old(self).next_archetype_id + 1,
    {
        let found = match self.entity_archetype.get(entity_id) {
            Some(a) => Some(*a),
            None => None,
        };
        let t = component_type;
        match found {
            Some(a) => {
                proof {
                    assert(self.archetypes@.contains_key(a));
                    assert(arch_ok(self.arch(a), a, self.next_archetype_id));
                }
                let (present, old_types) = match self.archetypes.get(a) {
                    Some(arch) => (arch.has_component_type(&t), crate::symbol::copy_syms(&arch.component_types)),
                    None => {
                        return;
                    },
                };
                if present {
                    let ghost old_arch = self.arch(a);
                    let mut arch = match self.archetypes.remove(a) {
                        Some(x) => x,
                        None => {
                            return;
                        },
                    };
                    arch.set_component(entity_id, t, data);
                    let ghost new_arch = arch;
                    self.archetypes.set(a, arch);
                    self.version = self.version + 1;
                    proof {
                        assert(old_arch.entities@.contains(entity_id));
                        assert(arch_ok(new_arch, a, self.next_archetype_id)) by {
                            assert forall|k: PairKey| #[trigger] new_arch.data@.contains_key(k)
                                <==> (new_arch.entities@.contains(k.0) && new_arch.component_types@.contains(k.1)) by {
                                assert(old_arch.data@.contains_key(k)
                                    <==> (old_arch.entities@.contains(k.0) && old_arch.component_types@.contains(k.1)));
                            }
                        }
                        assert forall|b: ArchetypeId| #[trigger] self.archetypes@.contains_key(b)
                            implies arch_ok(self.archetypes@[b], b, self.next_archetype_id) by {
                            if b != a {
                                assert(old(self).archetypes@.contains_key(b));
                            }
                        }
                        assert forall|e: EntityId| #[trigger] self.entity_archetype@.contains_key(e) implies {
                            &&& self.archetypes@.contains_key(self.entity_archetype@[e])
                            &&& self.arch(self.entity_archetype@[e]).entities@.contains(e)
                        } by {
                            assert(old(self).archetypes@.contains_key(old(self).entity_archetype@[e]));
                        }
                        assert forall|b: ArchetypeId, e: EntityId| self.archetypes@.contains_key(b)
                            && #[trigger] self.arch(b).entities@.contains(e) implies {
                            &&& self.entity_archetype@.contains_key(e)
                            &&& self.entity_archetype@[e] == b
                        } by {
                            assert(old(self).archetypes@.contains_key(b));
                            assert(old(self).arch(b).entities@.contains(e));
                        }
                        assert forall|j: int| 0 <= j < self.archetype_index@.len() implies {
                            &&& self.archetypes@.contains_key(#[trigger] self.archetype_index@[j].1)
                            &&& self.arch(self.archetype_index@[j].1).component_types@ == self.archetype_index@[j].0@
                        } by {
                            assert(old(self).archetypes@.contains_key(old(self).archetype_index@[j].1));
                        }
                        assert forall|e: EntityId, t2: Symbol| (e, t2) != (entity_id, t)
                            implies #[trigger] self.spec_get(e, t2) == old(self).spec_get(e, t2) by {
                            if old(self).entity_archetype@.contains_key(e) {
                                assert(old(self).archetypes@.contains_key(old(self).entity_archetype@[e]));
                            }
                        }
                        assert forall|e: EntityId| e != entity_id implies #[trigger] self.types_of(e) == old(self).types_of(e) by {
                            if old(self).entity_archetype@.contains_key(e) {
                                assert(old(self).archetypes@.contains_key(old(self).entity_archetype@[e]));
                            }
                        }
                    }
                    return;
                }
                let ghost mid0 = *self;
                let mut pairs = self.detach_entity(entity_id, env);
                let new_types = syms_insert_sorted(&old_types, t);
                let ghost old_pairs = pairs@;
                pairs.push((t, data));
                proof {
                    assert(archetype::pair_keys(pairs@) =~= archetype::pair_keys(old_pairs).push(t));
                    assert(archetype::pair_keys(old_pairs) == old_types@);
                    symbol::lemma_sorted_no_dup(old_types@);
                    assert(archetype::pair_keys(pairs@).no_duplicates()) by {
                        let ks = archetype::pair_keys(pairs@);
                        assert forall|x: int, y: int| 0 <= x < ks.len() && 0 <= y < ks.len() && x != y implies ks[x] != ks[y] by {
                            if x == ks.len() - 1 {
                                assert(old_types@.contains(ks[y]));
                            } else if y == ks.len() - 1 {
                                assert(old_types@.contains(ks[x]));
                            }
                        }
                    }
                    assert forall|x: Symbol| #[trigger] archetype::pair_keys(pairs@).contains(x) <==> new_types@.contains(x) by {
                        let ks = archetype::pair_keys(pairs@);
                        if ks.contains(x) {
                            let j = choose|j: int| 0 <= j < ks.len() && ks[j] == x;
                            if j < ks.len() - 1 {
                                assert(old_types@[j] == x);
                            }
                        }
                        if old_types@.contains(x) {
                            let j = choose|j: int| 0 <= j < old_types@.len() && old_types@[j] == x;
                            assert(ks[j] == x);
                        }
                        if x == t {
                            assert(ks[ks.len() - 1] == t);
                        }
                    }
                }
                let ghost mid = *self;
                proof {
                    if !(self.next_archetype_id < u32::MAX) {
                        lemma_indexed_with(*self, new_types@, old(self).types_of(entity_id), t);
                    }
                }
                self.attach_entity(entity_id, new_types, &pairs, env);
                proof {
                    assert(pairs@[pairs@.len() - 1].0 == t);
                    assert(self.spec_get(entity_id, t) == Some(data@));
                    assert forall|e: EntityId, t2: Symbol| (e, t2) != (entity_id, t)
                        implies #[trigger] self.spec_get(e, t2) == old(self).spec_get(e, t2) by {
                        if e == entity_id {
                            old(self).lemma_has_get(e, t2);
                            self.lemma_has_get(e, t2);
                            if old_types@.contains(t2) {
                                let j = choose|j: int| 0 <= j < old_types@.len() && old_types@[j] == t2;
                                assert(archetype::pair_keys(old_pairs)[j] == t2);
                                assert(pairs@[j] == old_pairs[j]);
                                assert(self.spec_get(entity_id, pairs@[j].0) == Some(pairs@[j].1@));
                                assert(old(self).spec_get(entity_id, old_pairs[j].0) == Some(old_pairs[j].1@));
                            }
                        } else {
                            assert(mid.spec_get(e, t2) == old(self).spec_get(e, t2));
                        }
                    }
                    assert forall|e: EntityId| e != entity_id implies #[trigger] self.types_of(e) == old(self).types_of(e) by {
                        assert(mid.types_of(e) == old(self).types_of(e));
                    }
                }
                let ghost after = *self;
                self.version = self.version + 1;
                proof {
                    Self::lemma_same_contents(after, *self);
                }
            },
            None => {
                let mut types: Vec<Symbol> = Vec::new();
                types.push(t);
                let mut pairs: Vec<(Symbol, Vec<u8>)> = Vec::new();
                pairs.push((t, data));
                proof {
                    assert(archetype::pair_keys(pairs@) =~= seq![t]);
                    assert(types@ =~= seq![t]);
                    assert(archetype::pair_keys(pairs@).no_duplicates());
                    assert forall|x: Symbol| #[trigger] archetype::pair_keys(pairs@).contains(x) <==> types@.contains(x) by {
                        if types@.contains(x) {
                            assert(types@[0] == x);
                            assert(archetype::pair_keys(pairs@)[0] == x);
                        }
                        if archetype::pair_keys(pairs@).contains(x) {
                            assert(types@[0] == x);
                        }
                    }
                    if !(self.next_archetype_id < u32::MAX) {
                        assert forall|x: Symbol| #[trigger] types@.contains(x)
                            <==> (old(self).types_of(entity_id).contains(x) || x == t) by {
                            if types@.contains(x) {
                                assert(types@[0] == x);
                            }
                            if x == t {
                                assert(types@[0] == t);
                            }
                        }
                        lemma_indexed_with(*self, types@, old(self).types_of(entity_id), t);
                    }
                }
                self.attach_entity(entity_id, types, &pairs, env);
                proof {
                    assert(pairs@[0].0 == t);
                    assert forall|e: EntityId, t2: Symbol| (e, t2) != (entity_id, t)
                        implies #[trigger] self.spec_get(e, t2) == old(self).spec_get(e, t2) by {
                        if e == entity_id {
                            self.lemma_has_get(e, t2);
                            assert(!types@.contains(t2)) by {
                                if types@.contains(t2) {
                                    assert(types@[0] == t2);
                                }
                            }
                        }
                    }
                    assert forall|x: Symbol| #[trigger] self.types_of(entity_id).contains(x)
                        <==> (old(self).types_of(entity_id).contains(x) || x == t) by {
                        if x == t {
                            assert(types@[0] == x);
                        }
                        if types@.contains(x) {
                            assert(types@[0] == x);
                        }
                    }
                }
                let ghost after = *self;
                self.version = self.version + 1;
                proof {
                    Self::lemma_same_contents(after, *self);
                }
            },
        }
        proof {
            if self.entity_archetype@.contains_key(entity_id) {
                assert(self.archetypes@.contains_key(self.entity_archetype@[entity_id]));
            }
        }
    }

    /// Removes a component, moving the entity to the archetype of its
    /// remaining types (or out of every archetype when none remain).
    /// Returns whether the entity had a component of this type.
    pub fn remove_component(&mut self, entity_id: EntityId, component_type: &Symbol, env: &soroban_sdk::Env) -> (removed: bool)
        requires
            old(self).wf(),
            old(self).version < u64::MAX,
            old(self).next_archetype_id < u32::MAX
                || symbol::without_sym(old(self).types_of(entity_id), *component_type).len() == 0
                || indexed(old(self).archetype_index@, symbol::without_sym(old(self).types_of(entity_id), *component_type)),
        ensures
            final(self).wf(),
            removed == old(self).spec_has(entity_id, *component_type),
            final(self).version == (if removed { old(self).version + 1 } else { old(self).version as int }),
            !removed ==> *final(self) == *old(self),
            final(self).next_entity_id == old(self).next_entity_id,
            !final(self).spec_has(entity_id, *component_type),
            forall|e: EntityId, t: Symbol| (e, t) != (entity_id, *component_type)
                ==> #[trigger] final(self).spec_get(e, t) == old(self).spec_get(e, t),
            final(self).types_of(entity_id) == symbol::without_sym(old(self).types_of(entity_id), *component_type),
            forall|e: EntityId| e != entity_id ==> #[trigger] final(self).types_of(e) == old(self).types_of(e),
    {
        let t = *component_type;
        let a = match self.entity_archetype.get(entity_id) {
            Some(a) => *a,
            None => {
                proof {
                    symbol::lemma_without_sym(old(self).types_of(entity_id), t);
                }
                return false;
            },
        };
        proof {
            assert(self.archetypes@.contains_key(a));
            assert(arch_ok(self.arch(a), a, self.next_archetype_id));
        }
        let (present, new_types) = match self.archetypes.get(a) {
            Some(arch) => (arch.has_component_type(&t), syms_without(&arch.component_types, t)),
            None => {
                return false;
            },
        };
        if !present {
            proof {
                symbol::lemma_without_sym(old(self).types_of(entity_id), t);
            }
            return false;
        }
        let ghost old_types = old(self).types_of(entity_id);
        let pairs = self.detach_entity(entity_id, env);
        let rest = super::archetype::pairs_without(&pairs, t);
        proof {
            symbol::lemma_without_sym(old_types, t);
            symbol::lemma_without_sorted(old_types, t);
            symbol::lemma_sorted_no_dup(old_types);
            assert(archetype::pair_keys(pairs@) == old_types);
        }
        if new_types.len() > 0 {
            let ghost mid = *self;
            self.attach_entity(entity_id, new_types, &rest, env);
            proof {
                assert forall|e: EntityId, t2: Symbol| (e, t2) != (entity_id, t)
                    implies #[trigger] self.spec_get(e, t2) == old(self).spec_get(e, t2) by {
                    if e == entity_id {
                        old(self).lemma_has_get(e, t2);
                        self.lemma_has_get(e, t2);
                        if self.types_of(entity_id).contains(t2) {
                            let ks = archetype::pair_keys(rest@);
                            let i = choose|i: int| 0 <= i < ks.len() && ks[i] == t2;
                            assert(rest@[i].0 == t2);
                            assert(super::archetype::comes_from(rest@[i], pairs@));
                            let j = choose|j: int| 0 <= j < pairs@.len()
                                && pairs@[j].0 == rest@[i].0 && pairs@[j].1@ == rest@[i].1@;
                            assert(old(self).spec_get(entity_id, pairs@[j].0) == Some(pairs@[j].1@));
                            assert(self.spec_get(entity_id, rest@[i].0) == Some(rest@[i].1@));
                        }
                    } else {
                        assert(mid.spec_get(e, t2) == old(self).spec_get(e, t2));
                    }
                }
                assert forall|e: EntityId| e != entity_id implies #[trigger] self.types_of(e) == old(self).types_of(e) by {
                    assert(mid.types_of(e) == old(self).types_of(e));
                }
                self.lemma_has_get(entity_id, t);
            }
        } else {
            proof {
                assert(self.types_of(entity_id) =~= symbol::without_sym(old_types, t));
                assert forall|e: EntityId, t2: Symbol| (e, t2) != (entity_id, t)
                    implies #[trigger] self.spec_get(e, t2) == old(self).spec_get(e, t2) by {
                    if e == entity_id {
                        old(self).lemma_has_get(e, t2);
                        assert(!symbol::without_sym(old_types, t).contains(t2));
                    }
                }
            }
        }
        let ghost after = *self;
        self.version = self.version + 1;
        proof {
            Self::lemma_same_contents(after, *self);
        }
        true
    }

    /// Removes the entity from its archetype, dropping all its components.
    pub fn despawn_entity(&mut self, entity_id: EntityId, env: &soroban_sdk::Env)
        requires
            old(self).wf(),
            old(self).version < u64::MAX,
        ensures
            final(self).wf(),
            final(self).version == old(self).version + 1,
            final(self).next_entity_id == old(self).next_entity_id,
            !final(self).entity_archetype@.contains_key(entity_id),
            forall|t: Symbol| #[trigger] final(self).spec_get(entity_id, t) is None,
            forall|e: EntityId, t: Symbol| e != entity_id
                ==> #[trigger] final(self).spec_get(e, t) == old(self).spec_get(e, t),
            forall|e: EntityId| e != entity_id ==> #[trigger] final(self).types_of(e) == old(self).types_of(e),
    {
        self.detach_entity(entity_id, env);
        let ghost mid = *self;
        self.version = self.version + 1;
        proof {
            assert forall|e: EntityId, t: Symbol| e != entity_id
                implies #[trigger] self.spec_get(e, t) == old(self).spec_get(e, t) by {
                assert(mid.spec_get(e, t) == old(self).spec_get(e, t));
            }
            assert forall|t: Symbol| #[trigger] self.spec_get(entity_id, t) is None by {
                assert(mid.spec_get(entity_id, t) is None);
            }
            assert forall|e: EntityId| e != entity_id implies #[trigger] self.types_of(e) == old(self).types_of(e) by {
                assert(mid.types_of(e) == old(self).types_of(e));
            }
        }
    }

    /// What a query over the first `n` archetypes (in id order) holds:
    /// each entity of a matching archetype among them, once.
    proof fn lemma_query_prefix(&self, required: Seq<Symbol>, n: int)
        requires
            self.wf(),
            0 <= n <= self.archetypes.val_seq().len(),
        ensures
            query_seq(self.archetypes.val_seq().subrange(0, n), required).no_duplicates(),
            forall|e: EntityId| #[trigger] query_seq(self.archetypes.val_seq().subrange(0, n), required).contains(e)
                <==> (self.entity_archetype@.contains_key(e) && archetype::types_match(self.types_of(e), required)
                    && exists|i: int| 0 <= i < n && self.archetypes.key_seq()[i] == self.entity_archetype@[e]),
        decreases n,
    {
        self.archetypes.lemma_order();
        let vals = self.archetypes.val_seq();
        let keys = self.archetypes.key_seq();
        let q = query_seq(vals.subrange(0, n), required);
        if n == 0 {
            assert(q =~= Seq::<EntityId>::empty());
        } else {
            self.lemma_query_prefix(required, n - 1);
            let p = query_seq(vals.subrange(0, n - 1), required);
            assert(vals.subrange(0, n).drop_last() =~= vals.subrange(0, n - 1));
            let last = vals[n - 1];
            let k = keys[n - 1];
            assert(vals.subrange(0, n).last() == last);
            assert(self.archetypes@.contains_key(k));
            assert(self.arch(k) == last);
            assert(arch_ok(last, k, self.next_archetype_id));
            let m = archetype::types_match(last.component_types@, required);
            assert(q == if m { p + last.entities@ } else { p });
            assert forall|e: EntityId| #[trigger] last.entities@.contains(e) <==> (self.entity_archetype@.contains_key(e)
                && self.entity_archetype@[e] == k) by {
                if self.entity_archetype@.contains_key(e) && self.entity_archetype@[e] == k {
                    assert(self.arch(self.entity_archetype@[e]).entities@.contains(e));
                }
            }
            assert forall|e: EntityId| #[trigger] q.contains(e)
                <==> (self.entity_archetype@.contains_key(e) && archetype::types_match(self.types_of(e), required)
                    && exists|i: int| 0 <= i < n && keys[i] == self.entity_archetype@[e]) by {
                if q.contains(e) {
                    if p.contains(e) {
                        let i = choose|i: int| 0 <= i < n - 1 && keys[i] == self.entity_archetype@[e];
                        assert(0 <= i < n && keys[i] == self.entity_archetype@[e]);
                    } else {
                        assert(m);
                        let j = choose|j: int| 0 <= j < q.len() && q[j] == e;
                        assert(j >= p.len());
                        assert(last.entities@[j - p.len()] == e);
                        assert(last.entities@.contains(e));
                        assert(keys[n - 1] == self.entity_archetype@[e]);
                    }
                }
                if self.entity_archetype@.contains_key(e) && archetype::types_match(self.types_of(e), required)
                    && exists|i: int| 0 <= i < n && keys[i] == self.entity_archetype@[e] {
                    let i = choose|i: int| 0 <= i < n && keys[i] == self.entity_archetype@[e];
                    if i < n - 1 {
                        assert(p.contains(e));
                        let j = choose|j: int| 0 <= j < p.len() && p[j] == e;
                        if m {
                            assert(q[j] == e);
                        }
                    } else {
                        assert(self.entity_archetype@[e] == k);
                        assert(last.entities@.contains(e));
                        let j = choose|j: int| 0 <= j < last.entities@.len() && last.entities@[j] == e;
                        assert(q[p.len() + j] == e);
                    }
                }
            }
            if m {
                assert forall|a: int, b: int| 0 <= a < q.len() && 0 <= b < q.len() && a != b implies q[a] != q[b] by {
                    let pl = p.len() as int;
                    if a < pl && b >= pl {
                        let e = q[a];
                        assert(p.contains(e));
                        assert(last.entities@.contains(last.entities@[b - pl]));
                        if q[a] == q[b] {
                            let i = choose|i: int| 0 <= i < n - 1 && keys[i] == self.entity_archetype@[e];
                            assert(keys[i] < keys[n - 1]);
                        }
                    } else if a >= pl && b < pl {
                        let e = q[b];
                        assert(p.contains(e));
                        assert(last.entities@.contains(last.entities@[a - pl]));
                        if q[a] == q[b] {
                            let i = choose|i: int| 0 <= i < n - 1 && keys[i] == self.entity_archetype@[e];
                            assert(keys[i] < keys[n - 1]);
                        }
                    } else if a >= pl && b >= pl {
                        assert(last.entities@[a - pl] != last.entities@[b - pl]);
                    }
                }
            }
        }
    }

    /// The entities that have every required component type.
    pub fn query(&self, required_components: &[Symbol], env: &soroban_sdk::Env) -> (results: Vec<EntityId>)
        requires
            self.wf(),
        ensures
            results@ == query_seq(self.archetypes.val_seq(), required_components@),
            results@.no_duplicates(),
            forall|e: EntityId| #[trigger] results@.contains(e)
                <==> (self.entity_archetype@.contains_key(e) && archetype::types_match(self.types_of(e), required_components@)),
    {
        let ghost vals = self.archetypes.val_seq();
        let mut results: Vec<EntityId> = Vec::new();
        let n = self.archetypes.len();
        proof {
            self.archetypes.lemma_order();
        }
        let mut i: usize = 0;
        while i < n
            invariant
                self.wf(),
                n == vals.len(),
                n == self.archetypes.key_seq().len(),
                vals == self.archetypes.val_seq(),
                i <= n,
                results@ == query_seq(vals.subrange(0, i as int), required_components@),
            decreases n - i,
        {
            let arch = self.archetypes.value_at(i);
            proof {
                assert(vals.subrange(0, i + 1).drop_last() =~= vals.subrange(0, i as int));
                assert(vals.subrange(0, i + 1).last() == *arch);
            }
            if arch.matches(required_components) {
                let mut j: usize = 0;
                let ghost base = results@;
                while j < arch.entities.len()
                    invariant
                        j <= arch.entities@.len(),
                        results@ == base + arch.entities@.subrange(0, j as int),
                    decreases arch.entities@.len() - j,
                {
                    results.push(arch.entities[j]);
                    j = j + 1;
                    assert(results@ =~= base + arch.entities@.subrange(0, j as int));
                }
                assert(arch.entities@.subrange(0, arch.entities@.len() as int) =~= arch.entities@);
            }
            i = i + 1;
        }
        proof {
            assert(vals.subrange(0, n as int) =~= vals);
            self.lemma_query_prefix(required_components@, n as int);
            self.archetypes.lemma_order();
            assert forall|e: EntityId| #[trigger] results@.contains(e)
                <==> (self.entity_archetype@.contains_key(e) && archetype::types_match(self.types_of(e), required_components@)) by {
                if self.entity_archetype@.contains_key(e) {
                    let a = self.entity_archetype@[e];
                    assert(self.archetypes@.contains_key(a));
                    assert(self.archetypes.key_seq().contains(a));
                }
            }
        }
        results
    }

    /// An archetype world holding the components of `simple`, with the
    /// same next id and version; each entity's types end up sorted.
    pub fn from_simple_world(simple: &SimpleWorld, env: &soroban_sdk::Env) -> (w: ArchetypeWorld)
        requires
            simple.wf(),
            crate::debug::metrics::flatten(crate::debug::metrics::type_lists(*simple)).len() < u32::MAX,
        ensures
            w.wf(),
            w.next_entity_id == simple.next_entity_id,
            w.version == simple.version,
            forall|e: EntityId, t: Symbol| #[trigger] w.spec_get(e, t) == simple.spec_get(e, t),
            forall|e: EntityId, x: Symbol| #[trigger] w.types_of(e).contains(x) <==> simple.types_of(e).contains(x),
    {
        let ghost keys = simple.entity_components.key_seq();
        let ghost lists = crate::debug::metrics::type_lists(*simple);
        proof {
            simple.entity_components.lemma_order();
        }
        let mut world = ArchetypeWorld::new(env);
        world.next_entity_id = simple.next_entity_id;
        let ghost mut adds: nat = 0;
        let n = simple.entity_components.len();
        let mut i: usize = 0;
        while i < n
            invariant
                simple.wf(),
                keys == simple.entity_components.key_seq(),
                lists == crate::debug::metrics::type_lists(*simple),
                crate::debug::metrics::flatten(lists).len() < u32::MAX,
                n == keys.len(),
                n == lists.len(),
                forall|a: int| 0 <= a < keys.len() ==> simple.entity_components@.contains_key(#[trigger] keys[a])
                    && lists[a] == simple.entity_components@[keys[a]]@,
                forall|e: EntityId| simple.entity_components@.contains_key(e) ==> keys.contains(e),
                forall|a: int, b: int| 0 <= a < b < keys.len() ==> #[trigger] keys[a] < #[trigger] keys[b],
                i <= n,
                world.wf(),
                world.next_entity_id == simple.next_entity_id,
                world.version == adds,
                world.next_archetype_id <= adds,
                adds <= crate::debug::metrics::flatten(lists.take(i as int)).len(),
                forall|e: EntityId, t: Symbol| #[trigger] world.spec_get(e, t)
                    == if keys.take(i as int).contains(e) { simple.spec_get(e, t) } else { None::<Seq<u8>> },
                forall|e: EntityId, x: Symbol| #[trigger] world.types_of(e).contains(x)
                    <==> keys.take(i as int).contains(e) && simple.types_of(e).contains(x),
            decreases n - i,
        {
            let eid = simple.entity_components.key_at(i);
            let types = simple.entity_components.value_at(i);
            assert(simple.types_of(eid) == types@);
            assert(lists[i as int] == types@);
            proof {
                lemma_flatten_prefix(lists, i as int + 1);
                assert(lists.take(i as int + 1).drop_last() =~= lists.take(i as int));
                assert(!keys.take(i as int).contains(eid)) by {
                    if keys.take(i as int).contains(eid) {
                        let q = choose|q: int| 0 <= q < i && #[trigger] keys.take(i as int)[q] == eid;
                        assert(keys[q] < keys[i as int]);
                    }
                }
            }
            let ghost base = crate::debug::metrics::flatten(lists.take(i as int)).len();
            let mut j: usize = 0;
            while j < types.len()
                invariant
                    simple.wf(),
                    i < n,
                    eid == keys[i as int],
                    simple.types_of(eid) == types@,
                    !keys.take(i as int).contains(eid),
                    base + types@.len() <= crate::debug::metrics::flatten(lists).len(),
                    crate::debug::metrics::flatten(lists).len() < u32::MAX,
                    j <= types@.len(),
                    world.wf(),
                    world.next_entity_id == simple.next_entity_id,
                    world.version == adds,
                    world.next_archetype_id <= adds,
                    adds <= base + j,
                    forall|e: EntityId, t: Symbol| #[trigger] world.spec_get(e, t)
                        == if keys.take(i as int).contains(e) || (e == eid && types@.take(j as int).contains(t)) {
                            simple.spec_get(e, t)
                        } else {
                            None::<Seq<u8>>
                        },
                    forall|e: EntityId, x: Symbol| #[trigger] world.types_of(e).contains(x)
                        <==> (keys.take(i as int).contains(e) && simple.types_of(e).contains(x))
                            || (e == eid && types@.take(j as int).contains(x)),
                decreases types@.len() - j,
            {
                let ct = types[j];
                proof {
                    assert(types@.take(j as int + 1) =~= types@.take(j as int).push(ct));
                    assert(simple.spec_has(eid, ct));
                }
                let ghost wold = world;
                match simple.get_component(eid, &ct) {
                    Some(data) => {
                        world.add_component(eid, ct, data, env);
                        proof {
                            adds = adds + 1;
                        }
                    },
                    None => {},
                }
                proof {
                    assert forall|e: EntityId, t: Symbol| #[trigger] world.spec_get(e, t)
                        == if keys.take(i as int).contains(e) || (e == eid && types@.take(j as int + 1).contains(t)) {
                            simple.spec_get(e, t)
                        } else {
                            None::<Seq<u8>>
                        } by {
                        if (e, t) != (eid, ct) {
                            assert(world.spec_get(e, t) == wold.spec_get(e, t));
                        } else {
                            assert(types@.take(j as int + 1)[j as int] == ct);
                        }
                        if e == eid && types@.take(j as int + 1).contains(t) && t != ct {
                            let q = choose|q: int| 0 <= q < j + 1 && #[trigger] types@.take(j as int + 1)[q] == t;
                            assert(types@.take(j as int)[q] == t);
                        }
                        if e == eid && types@.take(j as int).contains(t) {
                            let q = choose|q: int| 0 <= q < j && #[trigger] types@.take(j as int)[q] == t;
                            assert(types@.take(j as int + 1)[q] == t);
                        }
                    }
                    assert forall|e: EntityId, x: Symbol| #[trigger] world.types_of(e).contains(x)
                        <==> (keys.take(i as int).contains(e) && simple.types_of(e).contains(x))
                            || (e == eid && types@.take(j as int + 1).contains(x)) by {
                        if e == eid && types@.take(j as int + 1).contains(x) && x != ct {
                            let q = choose|q: int| 0 <= q < j + 1 && #[trigger] types@.take(j as int + 1)[q] == x;
                            assert(types@.take(j as int)[q] == x);
                        }
                        if e == eid && types@.take(j as int).contains(x) {
                            let q = choose|q: int| 0 <= q < j && #[trigger] types@.take(j as int)[q] == x;
                            assert(types@.take(j as int + 1)[q] == x);
                        }
                        if e == eid && x == ct {
                            assert(types@.take(j as int + 1)[j as int] == ct);
                        }
                    }
                }
                j = j + 1;
            }
            proof {
                assert(types@.take(types@.len() as int) =~= types@);
                assert(keys.take(i as int + 1) =~= keys.take(i as int).push(eid));
                assert forall|e: EntityId, t: Symbol| #[trigger] world.spec_get(e, t)
                    == if keys.take(i as int + 1).contains(e) { simple.spec_get(e, t) } else { None::<Seq<u8>> } by {
                    if e == eid {
                        assert(keys.take(i as int + 1)[i as int] == eid);
                        if !types@.contains(t) {
                            assert(!simple.spec_has(eid, t));
                        }
                    } else {
                        if keys.take(i as int + 1).contains(e) {
                            let q = choose|q: int| 0 <= q < i + 1 && #[trigger] keys.take(i as int + 1)[q] == e;
                            assert(keys.take(i as int)[q] == e);
                        }
                        if keys.take(i as int).contains(e) {
                            let q = choose|q: int| 0 <= q < i && #[trigger] keys.take(i as int)[q] == e;
                            assert(keys.take(i as int + 1)[q] == e);
                        }
                    }
                }
                assert forall|e: EntityId, x: Symbol| #[trigger] world.types_of(e).contains(x)
                    <==> keys.take(i as int + 1).contains(e) && simple.types_of(e).contains(x) by {
                    if e == eid {
                        assert(keys.take(i as int + 1)[i as int] == eid);
                    } else {
                        if keys.take(i as int + 1).contains(e) {
                            let q = choose|q: int| 0 <= q < i + 1 && #[trigger] keys.take(i as int + 1)[q] == e;
                            assert(keys.take(i as int)[q] == e);
                        }
                        if keys.take(i as int).contains(e) {
                            let q = choose|q: int| 0 <= q < i && #[trigger] keys.take(i as int)[q] == e;
                            assert(keys.take(i as int + 1)[q] == e);
                        }
                    }
                }
            }
            i = i + 1;
        }
        proof {
            assert(keys.take(n as int) =~= keys);
            assert forall|e: EntityId, t: Symbol| #[trigger] world.spec_get(e, t) == simple.spec_get(e, t) by {
                if !keys.contains(e) {
                    assert(!simple.entity_components@.contains_key(e));
                    assert(!simple.spec_has(e, t));
                }
            }
            assert forall|e: EntityId, x: Symbol| #[trigger] world.types_of(e).contains(x) <==> simple.types_of(e).contains(x) by {
                if !keys.contains(e) {
                    assert(!simple.entity_components@.contains_key(e));
                }
            }
        }
        let ghost before = world;
        world.version = simple.version;
        proof {
            ArchetypeWorld::lemma_same_contents(before, world);
        }
        world
    }

    /// The components as a map-backed world, with the same next id and
    /// version: each entity gets its components, its types in the
    /// archetype's (sorted) order.
    pub fn to_simple_world(&self, env: &soroban_sdk::Env) -> (w: SimpleWorld)
        requires
            self.wf(),
        ensures
            w.wf(),
            w.next_entity_id == self.next_entity_id,
            w.version == self.version,
            forall|e: EntityId, t: Symbol| #[trigger] w.spec_get(e, t) == self.spec_get(e, t),
            forall|e: EntityId| #[trigger] w.types_of(e) == self.types_of(e),
    {
        let ghost keys = self.archetypes.key_seq();
        proof {
            self.archetypes.lemma_order();
        }
        let mut world = SimpleWorld::new(env);
        world.next_entity_id = self.next_entity_id;
        let n = self.archetypes.len();
        let mut a: usize = 0;
        while a < n
            invariant
                self.wf(),
                keys == self.archetypes.key_seq(),
                n == keys.len(),
                forall|p: int| 0 <= p < keys.len() ==> self.archetypes@.contains_key(#[trigger] keys[p]),
                forall|x: ArchetypeId| self.archetypes@.contains_key(x) ==> keys.contains(x),
                forall|p: int, q: int| 0 <= p < q < keys.len() ==> #[trigger] keys[p] < #[trigger] keys[q],
                a <= n,
                world.wf(),
                world.next_entity_id == self.next_entity_id,
                forall|e: EntityId, t: Symbol| #[trigger] world.spec_get(e, t)
                    == if done_in(*self, keys, a as int, 0, e) { self.spec_get(e, t) } else { None::<Seq<u8>> },
                forall|e: EntityId| #[trigger] world.types_of(e)
                    == if done_in(*self, keys, a as int, 0, e) { self.types_of(e) } else { Seq::<Symbol>::empty() },
            decreases n - a,
        {
            let x = self.archetypes.key_at(a);
            let arch = self.archetypes.value_at(a);
            proof {
                assert(arch_ok(self.arch(x), x, self.next_archetype_id));
                assert(*arch == self.arch(x));
                assert(keys.take(a as int + 1) =~= keys.take(a as int).push(x));
                assert(!keys.take(a as int).contains(x)) by {
                    if keys.take(a as int).contains(x) {
                        let q = choose|q: int| 0 <= q < a && #[trigger] keys.take(a as int)[q] == x;
                        assert(keys[q] < keys[a as int]);
                    }
                }
                assert forall|e: EntityId| done_in(*self, keys, a as int, 0, e) == done_in(*self, keys, a as int, 0, e) by {}
            }
            let mut k: usize = 0;
            while k < arch.entities.len()
                invariant
                    self.wf(),
                    keys == self.archetypes.key_seq(),
                    a < n,
                    n == keys.len(),
                    x == keys[a as int],
                    *arch == self.arch(x),
                    self.archetypes@.contains_key(x),
                    arch_ok(*arch, x, self.next_archetype_id),
                    !keys.take(a as int).contains(x),
                    k <= arch.entities@.len(),
                    world.wf(),
                    world.next_entity_id == self.next_entity_id,
                    forall|e: EntityId, t: Symbol| #[trigger] world.spec_get(e, t)
                        == if done_in(*self, keys, a as int, k as int, e) { self.spec_get(e, t) } else { None::<Seq<u8>> },
                    forall|e: EntityId| #[trigger] world.types_of(e)
                        == if done_in(*self, keys, a as int, k as int, e) { self.types_of(e) } else { Seq::<Symbol>::empty() },
                decreases arch.entities@.len() - k,
            {
                let eid = arch.entities[k];
                proof {
                    assert(arch.entities@.take(k as int + 1) =~= arch.entities@.take(k as int).push(eid));
                    assert(self.arch(x).entities@.contains(eid));
                    assert(self.entity_archetype@.contains_key(eid) && self.entity_archetype@[eid] == x);
                    assert(!arch.entities@.take(k as int).contains(eid)) by {
                        if arch.entities@.take(k as int).contains(eid) {
                            let q = choose|q: int| 0 <= q < k && #[trigger] arch.entities@.take(k as int)[q] == eid;
                            assert(arch.entities@[q] == arch.entities@[k as int]);
                        }
                    }
                    assert(!done_in(*self, keys, a as int, k as int, eid));
                    assert(self.types_of(eid) == arch.component_types@);
                }
                let mut j: usize = 0;
                while j < arch.component_types.len()
                    invariant
                        self.wf(),
                        a < n,
                        n == keys.len(),
                        x == keys[a as int],
                        *arch == self.arch(x),
                        arch_ok(*arch, x, self.next_archetype_id),
                        k < arch.entities@.len(),
                        eid == arch.entities@[k as int],
                        self.entity_archetype@.contains_key(eid) && self.entity_archetype@[eid] == x,
                        !done_in(*self, keys, a as int, k as int, eid),
                        self.types_of(eid) == arch.component_types@,
                        j <= arch.component_types@.len(),
                        world.wf(),
                        world.next_entity_id == self.next_entity_id,
                        forall|e: EntityId, t: Symbol| #[trigger] world.spec_get(e, t)
                            == if done_in(*self, keys, a as int, k as int, e) || (e == eid && arch.component_types@.take(j as int).contains(t)) {
                                self.spec_get(e, t)
                            } else {
                                None::<Seq<u8>>
                            },
                        forall|e: EntityId| #[trigger] world.types_of(e)
                            == if done_in(*self, keys, a as int, k as int, e) {
                                self.types_of(e)
                            } else if e == eid {
                                arch.component_types@.take(j as int)
                            } else {
                                Seq::<Symbol>::empty()
                            },
                    decreases arch.component_types@.len() - j,
                {
                    let ct = arch.component_types[j];
                    proof {
                        let ts = arch.component_types@;
                        assert(ts.take(j as int + 1) =~= ts.take(j as int).push(ct));
                        assert(!ts.take(j as int).contains(ct)) by {
                            if ts.take(j as int).contains(ct) {
                                let q = choose|q: int| 0 <= q < j && #[trigger] ts.take(j as int)[q] == ct;
                                assert(ts[q] == ts[j as int]);
                            }
                        }
                        assert(arch.data@.contains_key((eid, ct)));
                    }
                    let ghost wold = world;
                    match arch.get_component(eid, &ct) {
                        Some(data) => {
                            world.set_version(0);
                            world.add_component(eid, ct, data);
                        },
                        None => {},
                    }
                    proof {
                        let ts = arch.component_types@;
                        assert forall|e: EntityId, t: Symbol| #[trigger] world.spec_get(e, t)
                            == if done_in(*self, keys, a as int, k as int, e) || (e == eid && ts.take(j as int + 1).contains(t)) {
                                self.spec_get(e, t)
                            } else {
                                None::<Seq<u8>>
                            } by {
                            if (e, t) != (eid, ct) {
                                assert(world.spec_get(e, t) == wold.spec_get(e, t));
                                if e == eid && ts.take(j as int + 1).contains(t) {
                                    let q = choose|q: int| 0 <= q < j + 1 && #[trigger] ts.take(j as int + 1)[q] == t;
                                    assert(ts.take(j as int)[q] == t);
                                }
                                if e == eid && ts.take(j as int).contains(t) {
                                    let q = choose|q: int| 0 <= q < j && #[trigger] ts.take(j as int)[q] == t;
                                    assert(ts.take(j as int + 1)[q] == t);
                                }
                            } else {
                                assert(ts.take(j as int + 1)[j as int] == ct);
                            }
                        }
                        assert forall|e: EntityId| #[trigger] world.types_of(e)
                            == if done_in(*self, keys, a as int, k as int, e) {
                                self.types_of(e)
                            } else if e == eid {
                                ts.take(j as int + 1)
                            } else {
                                Seq::<Symbol>::empty()
                            } by {
                            if e != eid {
                                assert(world.types_of(e) == wold.types_of(e));
                            } else {
                                assert(wold.types_of(eid) == ts.take(j as int));
                                assert(world.types_of(eid) == ts.take(j as int).push(ct));
                            }
                        }
                    }
                    j = j + 1;
                }
                proof {
                    let ts = arch.component_types@;
                    assert(ts.take(ts.len() as int) =~= ts);
                    assert forall|e: EntityId| done_in(*self, keys, a as int, k as int + 1, e)
                        == (done_in(*self, keys, a as int, k as int, e) || e == eid) by {
                        if e != eid && self.entity_archetype@.contains_key(e) && self.entity_archetype@[e] == x {
                            if arch.entities@.take(k as int + 1).contains(e) {
                                let q = choose|q: int| 0 <= q < k + 1 && #[trigger] arch.entities@.take(k as int + 1)[q] == e;
                                assert(arch.entities@.take(k as int)[q] == e);
                            }
                            if arch.entities@.take(k as int).contains(e) {
                                let q = choose|q: int| 0 <= q < k && #[trigger] arch.entities@.take(k as int)[q] == e;
                                assert(arch.entities@.take(k as int + 1)[q] == e);
                            }
                        }
                        if e == eid {
                            assert(arch.entities@.take(k as int + 1)[k as int] == eid);
                        }
                    }
                    assert forall|e: EntityId, t: Symbol| #[trigger] world.spec_get(e, t)
                        == if done_in(*self, keys, a as int, k as int + 1, e) { self.spec_get(e, t) } else { None::<Seq<u8>> } by {
                        if e == eid {
                            self.lemma_has_get(e, t);
                        }
                    }
                    assert forall|e: EntityId| #[trigger] world.types_of(e)
                        == if done_in(*self, keys, a as int, k as int + 1, e) { self.types_of(e) } else { Seq::<Symbol>::empty() } by {}
                }
                k = k + 1;
            }
            proof {
                assert forall|e: EntityId| done_in(*self, keys, a as int + 1, 0, e)
                    == done_in(*self, keys, a as int, arch.entities@.len() as int, e) by {
                    if self.entity_archetype@.contains_key(e) {
                        let y = self.entity_archetype@[e];
                        assert(arch.entities@.take(arch.entities@.len() as int) =~= arch.entities@);
                        if y == x {
                            assert(keys.take(a as int + 1)[a as int] == x);
                            assert(self.arch(x).entities@.contains(e));
                        } else {
                            if keys.take(a as int + 1).contains(y) {
                                let q = choose|q: int| 0 <= q < a + 1 && #[trigger] keys.take(a as int + 1)[q] == y;
                                assert(keys.take(a as int)[q] == y);
                            }
                            if keys.take(a as int).contains(y) {
                                let q = choose|q: int| 0 <= q < a && #[trigger] keys.take(a as int)[q] == y;
                                assert(keys.take(a as int + 1)[q] == y);
                            }
                        }
                    }
                }
                assert forall|e: EntityId, t: Symbol| #[trigger] world.spec_get(e, t)
                    == if done_in(*self, keys, a as int + 1, 0, e) { self.spec_get(e, t) } else { None::<Seq<u8>> } by {}
                assert forall|e: EntityId| #[trigger] world.types_of(e)
                    == if done_in(*self, keys, a as int + 1, 0, e) { self.types_of(e) } else { Seq::<Symbol>::empty() } by {}
            }
            a = a + 1;
        }
        let ghost before = world;
        world.set_version(self.version);
        proof {
            assert(keys.take(n as int) =~= keys);
            assert forall|e: EntityId, t: Symbol| #[trigger] world.spec_get(e, t) == self.spec_get(e, t) by {
                assert(world.spec_get(e, t) == before.spec_get(e, t));
                if self.entity_archetype@.contains_key(e) {
                    assert(keys.contains(self.entity_archetype@[e]));
                }
            }
            assert forall|e: EntityId| #[trigger] world.types_of(e) == self.types_of(e) by {
                assert(world.types_of(e) == before.types_of(e));
                if self.entity_archetype@.contains_key(e) {
                    assert(keys.contains(self.entity_archetype@[e]));
                }
            }
        }
        world
    }
}

/// Whether entity `e` of `w` lies in one of the first `a` archetypes of
/// `keys`, or among the first `k` entities of archetype `keys[a]`.
pub open spec fn done_in(w: ArchetypeWorld, keys: Seq<ArchetypeId>, a: int, k: int, e: EntityId) -> bool {
    &&& w.entity_archetype@.contains_key(e)
    &&& {
        let x = w.entity_archetype@[e];
        ||| keys.take(a).contains(x)
        ||| (a < keys.len() && x == keys[a] && w.arch(keys[a]).entities@.take(k).contains(e))
    }
}

/// The concatenation of a prefix of lists is no longer than that of all,
/// and one list longer than that of one list less.
proof fn lemma_flatten_prefix(lists: Seq<Seq<Symbol>>, i: int)
    requires
        0 < i <= lists.len(),
    ensures
        crate::debug::metrics::flatten(lists.take(i)).len() <= crate::debug::metrics::flatten(lists).len(),
        crate::debug::metrics::flatten(lists.take(i)).len() == crate::debug::metrics::flatten(lists.take(i - 1)).len() + lists[i - 1].len(),
    decreases lists.len(),
{
    assert(lists.take(i).drop_last() =~= lists.take(i - 1));
    if i < lists.len() {
        assert(lists.drop_last().take(i) =~= lists.take(i));
        lemma_flatten_prefix(lists.drop_last(), i);
    } else {
        assert(lists.take(i) =~= lists);
    }
}

/// Converting an archetype world to a map-backed world and back keeps
/// every component and each entity's set of types, the next id and the
/// version.
pub proof fn law_round_trip(a: ArchetypeWorld, s: SimpleWorld, b: ArchetypeWorld)
    requires
        s.next_entity_id == a.next_entity_id,
        s.version == a.version,
        forall|e: EntityId, t: Symbol| #[trigger] s.spec_get(e, t) == a.spec_get(e, t),
        forall|e: EntityId| #[trigger] s.types_of(e) == a.types_of(e),
        b.next_entity_id == s.next_entity_id,
        b.version == s.version,
        forall|e: EntityId, t: Symbol| #[trigger] b.spec_get(e, t) == s.spec_get(e, t),
        forall|e: EntityId, x: Symbol| #[trigger] b.types_of(e).contains(x) <==> s.types_of(e).contains(x),
    ensures
        b.next_entity_id == a.next_entity_id,
        b.version == a.version,
        forall|e: EntityId, t: Symbol| #[trigger] b.spec_get(e, t) == a.spec_get(e, t),
        forall|e: EntityId, x: Symbol| #[trigger] b.types_of(e).contains(x) <==> a.types_of(e).contains(x),
{
    assert forall|e: EntityId, x: Symbol| #[trigger] b.types_of(e).contains(x) <==> a.types_of(e).contains(x) by {
        assert(s.types_of(e) == a.types_of(e));
    }
}

/// Entities with the same component set share an archetype.
pub proof fn law_same_types_same_archetype(w: ArchetypeWorld, e1: EntityId, e2: EntityId)
    requires
        w.wf(),
        w.entity_archetype@.contains_key(e1),
        w.entity_archetype@.contains_key(e2),
        w.types_of(e1) == w.types_of(e2),
    ensures
        w.entity_archetype@[e1] == w.entity_archetype@[e2],
{
    let a = w.entity_archetype@[e1];
    let b = w.entity_archetype@[e2];
    assert(w.archetypes@.contains_key(a) && w.archetypes@.contains_key(b));
    if a != b {
        assert(w.archetypes@[a].component_types@ != w.archetypes@[b].component_types@);
    }
}

} // verus!
