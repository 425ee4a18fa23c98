//! The map-backed world: every component lives in one of two maps keyed by
//! (entity, component type), and each entity's list of component types is
//! kept beside them.

use vstd::prelude::*;
use crate::bytes::copy_bytes;
use crate::component::ComponentStorage;
use crate::id_map::IdMap;
use crate::pair_map::PairMap;
use crate::symbol::{self, Symbol, syms_contain, syms_without};
use crate::commands::{step, CommandView};

verus! {

/// Identifier of an entity.
pub type EntityId = u32;

/// A world seen as values: next id, version, the table and sparse
/// component data, and each entity's type list (empty for none).
#[verifier::ext_equal]
pub struct WorldModel {
    pub next: EntityId,
    pub version: u64,
    pub table: Map<(EntityId, Symbol), Seq<u8>>,
    pub sparse: Map<(EntityId, Symbol), Seq<u8>>,
    pub types: spec_fn(EntityId) -> Seq<Symbol>,
}

/// A world that keeps all component data in two maps.
pub struct SimpleWorld {
    /// The id the next spawned entity receives.
    pub next_entity_id: EntityId,
    /// Counts structural changes.
    pub version: u64,
    /// Table-stored component data.
    pub components: PairMap<Vec<u8>>,
    /// Sparse-stored component data.
    pub sparse_components: PairMap<Vec<u8>>,
    /// The component types of each entity that has any, in the order added.
    pub entity_components: IdMap<Vec<Symbol>>,
}

/// Whether entity `e` has a component of type `t` in `store`.
pub open spec fn stored_in(store: Map<(EntityId, Symbol), Vec<u8>>, t: Symbol) -> spec_fn(EntityId) -> bool {
    |e: EntityId| store.contains_key((e, t))
}

impl SimpleWorld {
    /// Whether the entity has a component of this type.
    pub open spec fn spec_has(&self, e: EntityId, t: Symbol) -> bool {
        self.components@.contains_key((e, t)) || self.sparse_components@.contains_key((e, t))
    }

    /// The entity's data for this component type, if it has one.
    pub open spec fn spec_get(&self, e: EntityId, t: Symbol) -> Option<Seq<u8>> {
        if self.components@.contains_key((e, t)) {
            Some(self.components@[(e, t)]@)
        } else if self.sparse_components@.contains_key((e, t)) {
            Some(self.sparse_components@[(e, t)]@)
        } else {
            None
        }
    }

    /// The component types of an entity, in the order they were added.
    pub open spec fn types_of(&self, e: EntityId) -> Seq<Symbol> {
        if self.entity_components@.contains_key(e) {
            self.entity_components@[e]@
        } else {
            Seq::empty()
        }
    }

    /// The world as values.
    pub open spec fn model(&self) -> WorldModel {
        WorldModel {
            next: self.next_entity_id,
            version: self.version,
            table: self.components@.map_values(|v: Vec<u8>| v@),
            sparse: self.sparse_components@.map_values(|v: Vec<u8>| v@),
            types: |e: EntityId| self.types_of(e),
        }
    }

    /// The consistency of the world's maps.
    pub open spec fn wf(&self) -> bool {
        &&& self.components.inv()
        &&& self.sparse_components.inv()
        &&& self.entity_components.inv()
        &&& forall|k: (EntityId, Symbol)| #[trigger] self.components@.contains_key(k)
            ==> !self.sparse_components@.contains_key(k)
        &&& forall|e: EntityId, t: Symbol| #[trigger] self.spec_has(e, t)
            <==> self.types_of(e).contains(t)
        &&& forall|e: EntityId| #[trigger] self.entity_components@.contains_key(e) ==> {
            &&& self.entity_components@[e]@.no_duplicates()
            &&& self.entity_components@[e]@.len() > 0
        }
    }

    /// An empty world whose first entity will be 1.
    pub fn new(env: &soroban_sdk::Env) -> (w: SimpleWorld)
        ensures
            w.wf(),
            w.next_entity_id == 1,
            w.version == 0,
            forall|e: EntityId, t: Symbol| !w.spec_has(e, t),
            w.entity_components@ == Map::<EntityId, Vec<Symbol>>::empty(),
            w.components@ == Map::<(EntityId, Symbol), Vec<u8>>::empty(),
            w.sparse_components@ == Map::<(EntityId, Symbol), Vec<u8>>::empty(),
    {
        SimpleWorld {
            next_entity_id: 1,
            version: 0,
            components: PairMap::new(),
            sparse_components: PairMap::new(),
            entity_components: IdMap::new(),
        }
    }

    /// Hands out the next entity id.
    pub fn spawn_entity(&mut self) -> (id: EntityId)
        requires
            old(self).next_entity_id < u32::MAX,
        ensures
            id == old(self).next_entity_id,
            final(self).next_entity_id == old(self).next_entity_id + 1,
            final(self).version == old(self).version,
            final(self).components == old(self).components,
            final(self).sparse_components == old(self).sparse_components,
            final(self).entity_components == old(self).entity_components,
            old(self).wf() ==> final(self).wf(),
            final(self).model() =~= step(old(self).model(), CommandView::Spawn),
    {
        let id = self.next_entity_id;
        self.next_entity_id = self.next_entity_id + 1;
        proof {
            if old(self).wf() {
                assert forall|e: EntityId, t: Symbol| #[trigger] self.spec_has(e, t)
                    <==> self.types_of(e).contains(t) by {
                    assert(old(self).spec_has(e, t) <==> old(self).types_of(e).contains(t));
                }
                assert forall|k: (EntityId, Symbol)| #[trigger] self.components@.contains_key(k)
                    implies !self.sparse_components@.contains_key(k) by {
                    assert(old(self).components@.contains_key(k));
                }
                assert forall|e: EntityId| #[trigger] self.entity_components@.contains_key(e) implies {
                    &&& self.entity_components@[e]@.no_duplicates()
                    &&& self.entity_components@[e]@.len() > 0
                } by {
                    assert(old(self).entity_components@.contains_key(e));
                }
            }
        }
        id
    }

    /// Sets the version counter; nothing else changes.
    pub(crate) fn set_version(&mut self, v: u64)
        ensures
            *final(self) == (SimpleWorld { version: v, ..*old(self) }),
            old(self).wf() ==> final(self).wf(),
    {
        self.version = v;
        proof {
            if old(self).wf() {
                assert forall|e: EntityId, t: Symbol| #[trigger] self.spec_has(e, t)
                    <==> self.types_of(e).contains(t) by {
                    assert(old(self).spec_has(e, t) <==> old(self).types_of(e).contains(t));
                }
                assert forall|k: (EntityId, Symbol)| #[trigger] self.components@.contains_key(k)
                    implies !self.sparse_components@.contains_key(k) by {
                    assert(old(self).components@.contains_key(k));
                }
                assert forall|e: EntityId| #[trigger] self.entity_components@.contains_key(e) implies {
                    &&& self.entity_components@[e]@.no_duplicates()
                    &&& self.entity_components@[e]@.len() > 0
                } by {
                    assert(old(self).entity_components@.contains_key(e));
                }
            }
        }
    }

    /// The world's version counter.
    pub fn version(&self) -> (v: u64)
        ensures
            v == self.version,
    {
        self.version
    }

    /// Adds (or replaces) a table-stored component.
    pub fn add_component(&mut self, entity_id: EntityId, component_type: Symbol, data: Vec<u8>)
        requires
            old(self).wf(),
            old(self).version < u64::MAX,
        ensures
            final(self).wf(),
            final(self).version == old(self).version + 1,
            final(self).next_entity_id == old(self).next_entity_id,
            final(self).components@ == old(self).components@.insert((entity_id, component_type), data),
            final(self).sparse_components@ == old(self).sparse_components@.remove((entity_id, component_type)),
            final(self).spec_get(entity_id, component_type) == Some(data@),
            forall|e: EntityId, t: Symbol| (e, t) != (entity_id, component_type)
                ==> #[trigger] final(self).spec_get(e, t) == old(self).spec_get(e, t),
            final(self).types_of(entity_id) == if old(self).types_of(entity_id).contains(component_type) {
                old(self).types_of(entity_id)
            } else {
                old(self).types_of(entity_id).push(component_type)
            },
            forall|e: EntityId| e != entity_id ==> #[trigger] final(self).types_of(e) == old(self).types_of(e),
    {
        self.add_component_with_storage(entity_id, component_type, data, ComponentStorage::Table)
    }

    /// Adds (or replaces) a component in the given storage; a component of
    /// the same type held in the other storage is dropped.
    pub fn add_component_with_storage(
        &mut self,
        entity_id: EntityId,
        component_type: Symbol,
        data: Vec<u8>,
        storage: ComponentStorage,
    )
        requires
            old(self).wf(),
            old(self).version < u64::MAX,
        ensures
            final(self).wf(),
            final(self).version == old(self).version + 1,
            final(self).next_entity_id == old(self).next_entity_id,
            storage == ComponentStorage::Table ==> {
                &&& final(self).components@ == old(self).components@.insert((entity_id, component_type), data)
                &&& final(self).sparse_components@ == old(self).sparse_components@.remove((entity_id, component_type))
            },
            storage == ComponentStorage::Sparse ==> {
                &&& final(self).sparse_components@ == old(self).sparse_components@.insert((entity_id, component_type), data)
                &&& final(self).components@ == old(self).components@.remove((entity_id, component_type))
            },
            final(self).spec_get(entity_id, component_type) == Some(data@),
            forall|e: EntityId, t: Symbol| (e, t) != (entity_id, component_type)
                ==> #[trigger] final(self).spec_get(e, t) == old(self).spec_get(e, t),
            final(self).types_of(entity_id) == if old(self).types_of(entity_id).contains(component_type) {
                old(self).types_of(entity_id)
            } else {
                old(self).types_of(entity_id).push(component_type)
            },
            forall|e: EntityId| e != entity_id ==> #[trigger] final(self).types_of(e) == old(self).types_of(e),
            final(self).model() =~= step(old(self).model(), CommandView::Add(entity_id, component_type, data@, storage)),
    {
        self.version = self.version + 1;
        match storage {
            ComponentStorage::Table => {
                self.sparse_components.remove(entity_id, component_type);
                self.components.set(entity_id, component_type, data);
            },
            ComponentStorage::Sparse => {
                self.components.remove(entity_id, component_type);
                self.sparse_components.set(entity_id, component_type, data);
            },
        }
        let ghost old_types = old(self).types_of(entity_id);
        match self.entity_components.remove(entity_id) {
            Some(mut list) => {
                if !syms_contain(&list, component_type) {
                    list.push(component_type);
                }
                self.entity_components.set(entity_id, list);
            },
            None => {
                let mut list: Vec<Symbol> = Vec::new();
                list.push(component_type);
                self.entity_components.set(entity_id, list);
            },
        }
        proof {
            assert(self.types_of(entity_id) =~= if old_types.contains(component_type) {
                old_types
            } else {
                old_types.push(component_type)
            });
            assert forall|e: EntityId| e != entity_id implies #[trigger] self.types_of(e) == old(self).types_of(e) by {
            }
            assert forall|e: EntityId, t: Symbol| #[trigger] self.spec_has(e, t)
                <==> self.types_of(e).contains(t) by {
                if e == entity_id {
                    assert(old(self).spec_has(e, t) <==> old_types.contains(t));
                    if t != component_type && old_types.push(component_type).contains(t) {
                        let i = choose|i: int| 0 <= i < old_types.len() + 1 && old_types.push(component_type)[i] == t;
                        assert(old_types[i] == t);
                    }
                    if old_types.contains(t) && !old_types.contains(component_type) {
                        let i = choose|i: int| 0 <= i < old_types.len() && old_types[i] == t;
                        assert(old_types.push(component_type)[i] == t);
                    }
                    if t == component_type && !old_types.contains(component_type) {
                        assert(old_types.push(component_type)[old_types.len() as int] == t);
                    }
                } else {
                    assert(old(self).spec_has(e, t) <==> old(self).types_of(e).contains(t));
                }
            }
            assert forall|e: EntityId| #[trigger] self.entity_components@.contains_key(e) implies {
                &&& self.entity_components@[e]@.no_duplicates()
                &&& self.entity_components@[e]@.len() > 0
            } by {
                if e != entity_id {
                    assert(old(self).entity_components@.contains_key(e));
                }
            }
        }
    }

    /// Removes a component; returns whether the entity had one of this type.
    pub fn remove_component(&mut self, entity_id: EntityId, component_type: &Symbol) -> (removed: bool)
        requires
            old(self).wf(),
            old(self).version < u64::MAX,
        ensures
            final(self).wf(),
            removed == old(self).spec_has(entity_id, *component_type),
            final(self).version == (if removed { old(self).version + 1 } else { old(self).version as int }),
            final(self).next_entity_id == old(self).next_entity_id,
            final(self).components@ == old(self).components@.remove((entity_id, *component_type)),
            final(self).sparse_components@ == old(self).sparse_components@.remove((entity_id, *component_type)),
            !final(self).spec_has(entity_id, *component_type),
            forall|e: EntityId, t: Symbol| (e, t) != (entity_id, *component_type)
                ==> #[trigger] final(self).spec_get(e, t) == old(self).spec_get(e, t),
            final(self).types_of(entity_id) == symbol::without_sym(old(self).types_of(entity_id), *component_type),
            forall|e: EntityId| e != entity_id ==> #[trigger] final(self).types_of(e) == old(self).types_of(e),
            final(self).model() =~= step(old(self).model(), CommandView::Remove(entity_id, *component_type)),
    {
        let t = *component_type;
        let ghost old_types = old(self).types_of(entity_id);
        proof {
            symbol::lemma_without_sym(old_types, t);
        }
        proof {
            assert(old(self).spec_has(entity_id, t) <==> old_types.contains(t));
        }
        let a = self.components.remove(entity_id, t);
        let b = self.sparse_components.remove(entity_id, t);
        if a.is_none() && b.is_none() {
            proof {
                assert(!old_types.contains(t));
                assert(self.components@ =~= old(self).components@);
                assert(self.sparse_components@ =~= old(self).sparse_components@);
                assert forall|e: EntityId, t2: Symbol| #[trigger] self.spec_has(e, t2)
                    <==> self.types_of(e).contains(t2) by {
                    assert(old(self).spec_has(e, t2) <==> old(self).types_of(e).contains(t2));
                }
            }
            return false;
        }
        self.version = self.version + 1;
        match self.entity_components.remove(entity_id) {
            Some(list) => {
                let rest = syms_without(&list, t);
                if rest.len() > 0 {
                    self.entity_components.set(entity_id, rest);
                }
            },
            None => {},
        }
        proof {
            assert forall|k: (EntityId, Symbol)| #[trigger] self.components@.contains_key(k)
                implies !self.sparse_components@.contains_key(k) by {
                assert(old(self).components@.contains_key(k));
            }
            assert(self.types_of(entity_id) =~= symbol::without_sym(old_types, t));
            if symbol::without_sym(old_types, t).len() == 0 {
                assert(self.types_of(entity_id) =~= symbol::without_sym(old_types, t));
            }
            assert forall|e: EntityId, t2: Symbol| #[trigger] self.spec_has(e, t2)
                <==> self.types_of(e).contains(t2) by {
                assert(old(self).spec_has(e, t2) <==> old(self).types_of(e).contains(t2));
                if e == entity_id {
                    assert(symbol::without_sym(old_types, t).contains(t2) <==> (old_types.contains(t2) && t2 != t));
                }
            }
            assert forall|e: EntityId| #[trigger] self.entity_components@.contains_key(e) implies {
                &&& self.entity_components@[e]@.no_duplicates()
                &&& self.entity_components@[e]@.len() > 0
            } by {
                assert(old(self).entity_components@.contains_key(e));
            }
        }
        true
    }

    /// The entity's data for this component type, if it has one.
    pub fn get_component(&self, entity_id: EntityId, component_type: &Symbol) -> (r: Option<Vec<u8>>)
        requires
            self.wf(),
        ensures
            r matches Some(d) ==> self.spec_get(entity_id, *component_type) == Some(d@),
            r is None ==> self.spec_get(entity_id, *component_type) is None,
    {
        match self.components.get(entity_id, *component_type) {
            Some(d) => Some(copy_bytes(d)),
            None => match self.sparse_components.get(entity_id, *component_type) {
                Some(d) => Some(copy_bytes(d)),
                None => None,
            },
        }
    }

    /// Whether the entity has a component of this type.
    pub fn has_component(&self, entity_id: EntityId, component_type: &Symbol) -> (r: bool)
        requires
            self.wf(),
        ensures
            r == self.spec_has(entity_id, *component_type),
    {
        self.components.contains_key(entity_id, *component_type)
            || self.sparse_components.contains_key(entity_id, *component_type)
    }

    /// Removes the entity and all its components.
    pub fn despawn_entity(&mut self, entity_id: EntityId)
        requires
            old(self).wf(),
            old(self).version < u64::MAX,
        ensures
            final(self).wf(),
            final(self).version == old(self).version + 1,
            final(self).next_entity_id == old(self).next_entity_id,
            forall|t: Symbol| !#[trigger] final(self).spec_has(entity_id, t),
            forall|e: EntityId, t: Symbol| e != entity_id
                ==> #[trigger] final(self).spec_get(e, t) == old(self).spec_get(e, t),
            !final(self).entity_components@.contains_key(entity_id),
            forall|e: EntityId| e != entity_id ==> #[trigger] final(self).types_of(e) == old(self).types_of(e),
            forall|k: (EntityId, Symbol)| #[trigger] final(self).components@.contains_key(k)
                <==> old(self).components@.contains_key(k) && k.0 != entity_id,
            forall|k: (EntityId, Symbol)| #[trigger] final(self).components@.contains_key(k)
                ==> final(self).components@[k] == old(self).components@[k],
            forall|k: (EntityId, Symbol)| #[trigger] final(self).sparse_components@.contains_key(k)
                <==> old(self).sparse_components@.contains_key(k) && k.0 != entity_id,
            forall|k: (EntityId, Symbol)| #[trigger] final(self).sparse_components@.contains_key(k)
                ==> final(self).sparse_components@[k] == old(self).sparse_components@[k],
            final(self).model() =~= step(old(self).model(), CommandView::Despawn(entity_id)),
    {
        self.version = self.version + 1;
        match self.entity_components.remove(entity_id) {
            Some(list) => {
                proof {
                    assert(list@.subrange(0, list@.len() as int) =~= list@);
                    assert forall|t: Symbol| #[trigger] self.spec_has(entity_id, t)
                        implies list@.subrange(0, list@.len() as int).contains(t) by {
                        assert(old(self).spec_has(entity_id, t) <==> old(self).types_of(entity_id).contains(t));
                    }
                }
                let mut i: usize = 0;
                while i < list.len()
                    invariant
                        i <= list@.len(),
                        self.version == old(self).version + 1,
                        self.next_entity_id == old(self).next_entity_id,
                        list@ == old(self).types_of(entity_id),
                        self.components.inv(),
                        self.sparse_components.inv(),
                        self.entity_components.inv(),
                        self.entity_components@ == old(self).entity_components@.remove(entity_id),
                        forall|k: (EntityId, Symbol)| #[trigger] self.components@.contains_key(k)
                            ==> old(self).components@.contains_key(k) && self.components@[k] == old(self).components@[k],
                        forall|k: (EntityId, Symbol)| #[trigger] self.sparse_components@.contains_key(k)
                            ==> old(self).sparse_components@.contains_key(k) && self.sparse_components@[k] == old(self).sparse_components@[k],
                        forall|k: (EntityId, Symbol)| k.0 != entity_id && #[trigger] old(self).components@.contains_key(k)
                            ==> self.components@.contains_key(k),
                        forall|k: (EntityId, Symbol)| k.0 != entity_id && #[trigger] old(self).sparse_components@.contains_key(k)
                            ==> self.sparse_components@.contains_key(k),
                        forall|e: EntityId, t: Symbol| e != entity_id
                            ==> #[trigger] self.spec_get(e, t) == old(self).spec_get(e, t),
                        forall|e: EntityId, t: Symbol| e != entity_id
                            ==> (#[trigger] self.spec_has(e, t) == old(self).spec_has(e, t)),
                        forall|t: Symbol| #[trigger] self.spec_has(entity_id, t)
                            ==> list@.subrange(i as int, list@.len() as int).contains(t),
                    decreases list@.len() - i,
                {
                    let t = list[i];
                    let ghost before = *self;
                    let ghost sub_old = list@.subrange(i as int, list@.len() as int);
                    self.components.remove(entity_id, t);
                    self.sparse_components.remove(entity_id, t);
                    i = i + 1;
                    proof {
                        let sub_new = list@.subrange(i as int, list@.len() as int);
                        assert forall|e: EntityId, t2: Symbol| e != entity_id implies
                            #[trigger] self.spec_get(e, t2) == old(self).spec_get(e, t2) by {
                            assert(before.spec_get(e, t2) == old(self).spec_get(e, t2));
                            assert((e, t2) != (entity_id, t));
                        }
                        assert forall|e: EntityId, t2: Symbol| e != entity_id implies
                            #[trigger] self.spec_has(e, t2) == old(self).spec_has(e, t2) by {
                            assert(before.spec_has(e, t2) == old(self).spec_has(e, t2));
                            assert((e, t2) != (entity_id, t));
                        }
                        assert forall|t2: Symbol| #[trigger] self.spec_has(entity_id, t2)
                            implies sub_new.contains(t2) by {
                            assert(before.spec_has(entity_id, t2));
                            assert(sub_old.contains(t2));
                            let k = choose|k: int| 0 <= k < sub_old.len() && sub_old[k] == t2;
                            assert(sub_old[0] == t);
                            assert(k != 0);
                            assert(sub_new[k - 1] == t2);
                        }
                    }
                }
                proof {
                    assert forall|t: Symbol| !#[trigger] self.spec_has(entity_id, t) by {
                        if self.spec_has(entity_id, t) {
                            assert(list@.subrange(i as int, list@.len() as int).len() == 0);
                        }
                    }
                    assert forall|k: (EntityId, Symbol)| #[trigger] self.components@.contains_key(k) implies k.0 != entity_id by {
                        if k.0 == entity_id {
                            assert(self.spec_has(entity_id, k.1));
                        }
                    }
                    assert forall|k: (EntityId, Symbol)| #[trigger] self.sparse_components@.contains_key(k) implies k.0 != entity_id by {
                        if k.0 == entity_id {
                            assert(self.spec_has(entity_id, k.1));
                        }
                    }
                }
            },
            None => {
                proof {
                    assert forall|t: Symbol| !#[trigger] self.spec_has(entity_id, t) by {
                        assert(old(self).spec_has(entity_id, t) <==> old(self).types_of(entity_id).contains(t));
                    }
                    assert forall|k: (EntityId, Symbol)| #[trigger] self.components@.contains_key(k) implies k.0 != entity_id by {
                        if k.0 == entity_id {
                            assert(self.spec_has(entity_id, k.1));
                        }
                    }
                    assert forall|k: (EntityId, Symbol)| #[trigger] self.sparse_components@.contains_key(k) implies k.0 != entity_id by {
                        if k.0 == entity_id {
                            assert(self.spec_has(entity_id, k.1));
                        }
                    }
                }
            },
        }
        proof {
            assert forall|k: (EntityId, Symbol)| #[trigger] self.components@.contains_key(k)
                implies !self.sparse_components@.contains_key(k) by {
                assert(old(self).components@.contains_key(k));
            }
            assert forall|e: EntityId, t: Symbol| #[trigger] self.spec_has(e, t)
                <==> self.types_of(e).contains(t) by {
                if e != entity_id {
                    assert(old(self).spec_has(e, t) <==> old(self).types_of(e).contains(t));
                }
            }
            assert forall|e: EntityId| #[trigger] self.entity_components@.contains_key(e) implies {
                &&& self.entity_components@[e]@.no_duplicates()
                &&& self.entity_components@[e]@.len() > 0
            } by {
                assert(old(self).entity_components@.contains_key(e));
            }
        }
    }

    /// The entities with a table-stored component of type `t`, by id.
    pub open spec fn table_entities(&self, t: Symbol) -> Seq<EntityId> {
        self.entity_components.key_seq().filter(stored_in(self.components@, t))
    }

    /// The entities with a sparse-stored component of type `t`, by id.
    pub open spec fn sparse_entities(&self, t: Symbol) -> Seq<EntityId> {
        self.entity_components.key_seq().filter(stored_in(self.sparse_components@, t))
    }

    /// The entities whose component of type `t` is in `store` (one of the
    /// world's two maps, `sparse` telling which), by id.
    fn entities_in(&self, t: Symbol, sparse: bool) -> (r: Vec<EntityId>)
        requires
            self.wf(),
        ensures
            r@ == (if sparse { self.sparse_entities(t) } else { self.table_entities(t) }),
    {
        let ghost keys = self.entity_components.key_seq();
        let ghost p = if sparse { stored_in(self.sparse_components@, t) } else { stored_in(self.components@, t) };
        let mut out: Vec<EntityId> = Vec::new();
        let n = self.entity_components.len();
        let mut i: usize = 0;
        while i < n
            invariant
                self.wf(),
                keys == self.entity_components.key_seq(),
                p == (if sparse { stored_in(self.sparse_components@, t) } else { stored_in(self.components@, t) }),
                n == keys.len(),
                i <= n,
                out@ == keys.take(i as int).filter(p),
            decreases n - i,
        {
            let e = self.entity_components.key_at(i);
            proof {
                assert(keys.take(i + 1) =~= keys.take(i as int).push(e));
                keys.take(i as int).lemma_filter_push(e, p);
            }
            let found = if sparse {
                self.sparse_components.contains_key(e, t)
            } else {
                self.components.contains_key(e, t)
            };
            if found {
                out.push(e);
            }
            i = i + 1;
        }
        assert(keys.take(n as int) =~= keys);
        out
    }

    /// Which entities the table query finds: exactly those with a
    /// table-stored component of the type.
    proof fn lemma_table_entities(&self, t: Symbol)
        requires
            self.wf(),
        ensures
            forall|e: EntityId| #[trigger] self.table_entities(t).contains(e)
                <==> self.components@.contains_key((e, t)),
            forall|e: EntityId| #[trigger] self.sparse_entities(t).contains(e)
                <==> self.sparse_components@.contains_key((e, t)),
    {
        self.entity_components.lemma_order();
        let keys = self.entity_components.key_seq();
        keys.filter_lemma(stored_in(self.components@, t));
        keys.filter_lemma(stored_in(self.sparse_components@, t));
        assert forall|e: EntityId| #[trigger] self.table_entities(t).contains(e)
            <==> self.components@.contains_key((e, t)) by {
            if self.components@.contains_key((e, t)) {
                assert(self.spec_has(e, t));
                assert(self.types_of(e).contains(t));
                assert(self.entity_components@.contains_key(e));
                let j = choose|j: int| 0 <= j < keys.len() && keys[j] == e;
                assert(stored_in(self.components@, t)(keys[j]));
            }
            if self.table_entities(t).contains(e) {
                let j = choose|j: int| 0 <= j < self.table_entities(t).len() && self.table_entities(t)[j] == e;
                assert(stored_in(self.components@, t)(self.table_entities(t)[j]));
            }
        }
        assert forall|e: EntityId| #[trigger] self.sparse_entities(t).contains(e)
            <==> self.sparse_components@.contains_key((e, t)) by {
            if self.sparse_components@.contains_key((e, t)) {
                assert(self.spec_has(e, t));
                assert(self.types_of(e).contains(t));
                assert(self.entity_components@.contains_key(e));
                let j = choose|j: int| 0 <= j < keys.len() && keys[j] == e;
                assert(stored_in(self.sparse_components@, t)(keys[j]));
            }
            if self.sparse_entities(t).contains(e) {
                let j = choose|j: int| 0 <= j < self.sparse_entities(t).len() && self.sparse_entities(t)[j] == e;
                assert(stored_in(self.sparse_components@, t)(self.sparse_entities(t)[j]));
            }
        }
    }

    /// The entities with a table-stored component of this type, in
    /// increasing id order.
    pub fn get_table_entities_with_component(&self, component_type: &Symbol, env: &soroban_sdk::Env) -> (r: Vec<EntityId>)
        requires
            self.wf(),
        ensures
            r@ == self.table_entities(*component_type),
            forall|e: EntityId| #[trigger] r@.contains(e) <==> self.components@.contains_key((e, *component_type)),
    {
        proof {
            self.lemma_table_entities(*component_type);
        }
        self.entities_in(*component_type, false)
    }

    /// The entities with a component of this type in table storage (the
    /// default storage), in increasing id order.
    pub fn get_entities_with_component(&self, component_type: &Symbol, env: &soroban_sdk::Env) -> (r: Vec<EntityId>)
        requires
            self.wf(),
        ensures
            r@ == self.table_entities(*component_type),
            forall|e: EntityId| #[trigger] r@.contains(e) <==> self.components@.contains_key((e, *component_type)),
    {
        self.get_table_entities_with_component(component_type, env)
    }

    /// The entities with a component of this type in either storage: the
    /// table-stored ones, then the sparse-stored ones, each in increasing
    /// id order.
    pub fn get_all_entities_with_component(&self, component_type: &Symbol, env: &soroban_sdk::Env) -> (r: Vec<EntityId>)
        requires
            self.wf(),
        ensures
            r@ == self.table_entities(*component_type) + self.sparse_entities(*component_type),
            forall|e: EntityId| #[trigger] r@.contains(e) <==> self.spec_has(e, *component_type),
    {
        proof {
            self.lemma_table_entities(*component_type);
        }
        let mut r = self.entities_in(*component_type, false);
        let mut s = self.entities_in(*component_type, true);
        let ghost a = r@;
        let ghost b = s@;
        r.append(&mut s);
        proof {
            assert(r@ == a + b);
            assert forall|e: EntityId| #[trigger] r@.contains(e) <==> self.spec_has(e, *component_type) by {
                if r@.contains(e) {
                    let j = choose|j: int| 0 <= j < r@.len() && r@[j] == e;
                    if j < a.len() {
                        assert(a[j] == e);
                        assert(a.contains(e));
                    } else {
                        assert(b[j - a.len()] == e);
                        assert(b.contains(e));
                    }
                }
                if self.components@.contains_key((e, *component_type)) {
                    assert(self.table_entities(*component_type).contains(e));
                    let j = choose|j: int| 0 <= j < a.len() && a[j] == e;
                    assert(r@[j] == e);
                } else if self.sparse_components@.contains_key((e, *component_type)) {
                    assert(self.sparse_entities(*component_type).contains(e));
                    let j = choose|j: int| 0 <= j < b.len() && b[j] == e;
                    assert(r@[a.len() + j] == e);
                }
            }
        }
        r
    }
}

} // verus!
