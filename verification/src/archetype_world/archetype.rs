//! Archetype definition and entity storage.

use vstd::prelude::*;
use crate::bytes::copy_bytes;
use crate::pair_map::{PairKey, PairMap};
use crate::seq_util::{self, ids_contain, ids_without};
use crate::simple_world::EntityId;
use crate::symbol::{Symbol, syms_contain};

verus! {

/// Unique identifier for an archetype.
pub type ArchetypeId = u32;

/// The entities that share one exact set of component types, and their data.
pub struct Archetype {
    /// Unique archetype identifier.
    pub id: ArchetypeId,
    /// The component types of this archetype.
    pub component_types: Vec<Symbol>,
    /// The entities of this archetype, in the order they joined.
    pub entities: Vec<EntityId>,
    /// Component data keyed by (entity, component type).
    pub data: PairMap<Vec<u8>>,
}

/// A list of (component type, data) pairs seen as values.
pub open spec fn pairs_view(v: Seq<(Symbol, Vec<u8>)>) -> Seq<(Symbol, Seq<u8>)> {
    v.map_values(|p: (Symbol, Vec<u8>)| (p.0, p.1@))
}

/// The component types of a list of (type, data) pairs.
pub open spec fn pair_keys(v: Seq<(Symbol, Vec<u8>)>) -> Seq<Symbol> {
    v.map_values(|p: (Symbol, Vec<u8>)| p.0)
}

/// The (type, data) pairs that `data` holds for entity `e`, for the types
/// of `types` in their order.
pub open spec fn extracted_of(types: Seq<Symbol>, data: Map<PairKey, Vec<u8>>, e: EntityId) -> Seq<(Symbol, Seq<u8>)>
    decreases types.len(),
{
    if types.len() == 0 {
        Seq::empty()
    } else {
        let rest = extracted_of(types.drop_last(), data, e);
        let t = types.last();
        if data.contains_key((e, t)) {
            rest.push((t, data[(e, t)]@))
        } else {
            rest
        }
    }
}

/// Whether every required type occurs in `types`.
pub open spec fn types_match(types: Seq<Symbol>, required: Seq<Symbol>) -> bool {
    forall|i: int| 0 <= i < required.len() ==> types.contains(#[trigger] required[i])
}

impl Archetype {
    /// The consistency an archetype needs: its data map is consistent and
    /// no component type is listed twice.
    pub open spec fn wf(&self) -> bool {
        &&& self.data.inv()
        &&& self.component_types@.no_duplicates()
    }

    /// Creates an empty archetype with the given component types.
    pub fn new(env: &soroban_sdk::Env, id: ArchetypeId, component_types: Vec<Symbol>) -> (a: Archetype)
        ensures
            a.id == id,
            a.component_types@ == component_types@,
            a.entities@.len() == 0,
            a.data.inv(),
            a.data@ == Map::<PairKey, Vec<u8>>::empty(),
    {
        Archetype { id, component_types, entities: Vec::new(), data: PairMap::new() }
    }

    /// Whether this archetype has every required component type.
    pub fn matches(&self, required: &[Symbol]) -> (r: bool)
        ensures
            r == types_match(self.component_types@, required@),
    {
        let mut i: usize = 0;
        while i < required.len()
            invariant
                i <= required@.len(),
                forall|j: int| 0 <= j < i ==> self.component_types@.contains(#[trigger] required@[j]),
            decreases required@.len() - i,
        {
            if !self.has_component_type(&required[i]) {
                return false;
            }
            i = i + 1;
        }
        true
    }

    /// Whether this archetype has the component type.
    pub fn has_component_type(&self, component_type: &Symbol) -> (r: bool)
        ensures
            r == self.component_types@.contains(*component_type),
    {
        syms_contain(&self.component_types, *component_type)
    }

    /// Appends an entity to this archetype.
    pub fn add_entity(&mut self, entity_id: EntityId)
        ensures
            final(self).entities@ == old(self).entities@.push(entity_id),
            final(self).id == old(self).id,
            final(self).component_types == old(self).component_types,
            final(self).data == old(self).data,
    {
        self.entities.push(entity_id);
    }

    /// Removes an entity from this archetype and takes out its data, one
    /// (type, data) pair for each of the archetype's types that it has,
    /// in the order of the archetype's types.
    pub fn remove_entity(&mut self, entity_id: EntityId, env: &soroban_sdk::Env) -> (extracted: Vec<(Symbol, Vec<u8>)>)
        requires
            old(self).wf(),
        ensures
            final(self).wf(),
            final(self).id == old(self).id,
            final(self).component_types == old(self).component_types,
            final(self).entities@ == seq_util::without(old(self).entities@, entity_id),
            pairs_view(extracted@) == extracted_of(old(self).component_types@, old(self).data@, entity_id),
            forall|k: PairKey| #[trigger] final(self).data@.contains_key(k) <==> (old(self).data@.contains_key(k)
                && !(k.0 == entity_id && old(self).component_types@.contains(k.1))),
            forall|k: PairKey| #[trigger] final(self).data@.contains_key(k) ==> final(self).data@[k] == old(self).data@[k],
    {
        self.entities = ids_without(&self.entities, entity_id);
        let mut extracted: Vec<(Symbol, Vec<u8>)> = Vec::new();
        let ghost types = self.component_types@;
        let mut i: usize = 0;
        while i < self.component_types.len()
            invariant
                i <= types.len(),
                types == old(self).component_types@,
                self.component_types == old(self).component_types,
                self.id == old(self).id,
                self.entities@ == seq_util::without(old(self).entities@, entity_id),
                types.no_duplicates(),
                self.data.inv(),
                pairs_view(extracted@) == extracted_of(types.subrange(0, i as int), old(self).data@, entity_id),
                forall|k: PairKey| #[trigger] self.data@.contains_key(k) <==> (old(self).data@.contains_key(k)
                    && !(k.0 == entity_id && types.subrange(0, i as int).contains(k.1))),
                forall|k: PairKey| #[trigger] self.data@.contains_key(k) ==> self.data@[k] == old(self).data@[k],
            decreases types.len() - i,
        {
            let ct = self.component_types[i];
            let ghost before = self.data@;
            let ghost ex_before = extracted@;
            proof {
                assert(!types.subrange(0, i as int).contains(ct)) by {
                    if types.subrange(0, i as int).contains(ct) {
                        let j = choose|j: int| 0 <= j < i && #[trigger] types.subrange(0, i as int)[j] == ct;
                        assert(types[j] == types[i as int]);
                    }
                }
                assert(types.subrange(0, i + 1).drop_last() =~= types.subrange(0, i as int));
                assert(types.subrange(0, i + 1).last() == ct);
            }
            match self.data.remove(entity_id, ct) {
                Some(d) => {
                    extracted.push((ct, d));
                    proof {
                        assert(pairs_view(extracted@) =~= pairs_view(ex_before).push((ct, d@)));
                    }
                },
                None => {},
            }
            i = i + 1;
            proof {
                assert forall|k: PairKey| #[trigger] self.data@.contains_key(k) <==> (old(self).data@.contains_key(k)
                    && !(k.0 == entity_id && types.subrange(0, i as int).contains(k.1))) by {
                    if k.0 == entity_id && types.subrange(0, i as int).contains(k.1) && k.1 != ct {
                        let j = choose|j: int| 0 <= j < i && #[trigger] types.subrange(0, i as int)[j] == k.1;
                        assert(types.subrange(0, i - 1)[j] == k.1);
                    }
                    if k.0 == entity_id && types.subrange(0, i - 1).contains(k.1) {
                        let j = choose|j: int| 0 <= j < i - 1 && #[trigger] types.subrange(0, i - 1)[j] == k.1;
                        assert(types.subrange(0, i as int)[j] == k.1);
                    }
                    if k.1 == ct {
                        assert(types.subrange(0, i as int)[i - 1] == ct);
                    }
                }
            }
        }
        proof {
            assert(types.subrange(0, types.len() as int) =~= types);
        }
        extracted
    }

    /// The entity's data for this type, if any.
    pub fn get_component(&self, entity_id: EntityId, component_type: &Symbol) -> (r: Option<Vec<u8>>)
        requires
            self.data.inv(),
        ensures
            r is Some <==> self.data@.contains_key((entity_id, *component_type)),
            r matches Some(d) ==> d@ == self.data@[(entity_id, *component_type)]@,
    {
        match self.data.get(entity_id, *component_type) {
            Some(d) => Some(copy_bytes(d)),
            None => None,
        }
    }

    /// Sets the entity's data for this type.
    pub fn set_component(&mut self, entity_id: EntityId, component_type: Symbol, data: Vec<u8>)
        requires
            old(self).data.inv(),
        ensures
            final(self).data.inv(),
            final(self).data@ == old(self).data@.insert((entity_id, component_type), data),
            final(self).id == old(self).id,
            final(self).component_types == old(self).component_types,
            final(self).entities == old(self).entities,
    {
        self.data.set(entity_id, component_type, data);
    }

    /// The number of entities in this archetype.
    pub fn entity_count(&self) -> (n: u32)
        requires
            self.entities@.len() <= u32::MAX,
        ensures
            n == self.entities@.len(),
    {
        self.entities.len() as u32
    }

    /// Whether the entity is in this archetype.
    pub fn contains_entity(&self, entity_id: EntityId) -> (r: bool)
        ensures
            r == self.entities@.contains(entity_id),
    {
        ids_contain(&self.entities, entity_id)
    }
}

/// Whether `pairs` holds a pair with the type and data of `p`.
pub open spec fn comes_from(p: (Symbol, Vec<u8>), pairs: Seq<(Symbol, Vec<u8>)>) -> bool {
    exists|j: int| 0 <= j < pairs.len() && pairs[j].0 == p.0 && pairs[j].1@ == p.1@
}

/// The pairs of `pairs` whose type is not `t`, in their order.
pub fn pairs_without(pairs: &Vec<(Symbol, Vec<u8>)>, t: Symbol) -> (r: Vec<(Symbol, Vec<u8>)>)
    ensures
        pair_keys(r@) == crate::symbol::without_sym(pair_keys(pairs@), t),
        forall|i: int| 0 <= i < r@.len() ==> comes_from(#[trigger] r@[i], pairs@),
{
    let mut r: Vec<(Symbol, Vec<u8>)> = Vec::new();
    let mut i: usize = 0;
    while i < pairs.len()
        invariant
            i <= pairs@.len(),
            pair_keys(r@) == crate::symbol::without_sym(pair_keys(pairs@.subrange(0, i as int)), t),
            forall|a: int| 0 <= a < r@.len() ==> comes_from(#[trigger] r@[a], pairs@),
        decreases pairs@.len() - i,
    {
        let k = pairs[i].0;
        proof {
            assert(pair_keys(pairs@.subrange(0, i + 1)) =~= pair_keys(pairs@.subrange(0, i as int)).push(k));
            pair_keys(pairs@.subrange(0, i as int)).lemma_filter_push(k, crate::symbol::differs_from(t));
        }
        if k != t {
            let ghost before = r@;
            r.push((k, copy_bytes(&pairs[i].1)));
            proof {
                assert(pair_keys(r@) =~= pair_keys(before).push(k));
                assert forall|a: int| 0 <= a < r@.len() implies comes_from(#[trigger] r@[a], pairs@) by {
                    if a < before.len() {
                        assert(r@[a] == before[a]);
                        assert(comes_from(before[a], pairs@));
                    } else {
                        assert(r@[a].0 == pairs@[i as int].0);
                        assert(r@[a].1@ == pairs@[i as int].1@);
                    }
                }
            }
        }
        i = i + 1;
    }
    assert(pairs@.subrange(0, pairs@.len() as int) =~= pairs@);
    r
}

} // verus!
