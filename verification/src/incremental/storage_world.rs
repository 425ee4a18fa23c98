//! A world kept in persistent storage one entry per entity and per
//! component. Entities are loaded on demand; changes are recorded and only
//! the changed entries are written back on a flush.
//!
//! The storage itself is read and written by the caller: this type decides
//! what to load from what storage returned, and which writes a flush makes.

use vstd::prelude::*;
use crate::bytes::copy_bytes;
use crate::error::CougrError;
use crate::seq_util::{self, copy_ids};
use crate::simple_world::{EntityId, SimpleWorld};
use crate::symbol::{Symbol, copy_syms, syms_contain};
use super::dirty_tracker::{self, DirtyTracker};
use super::persisted::{self, StoreView, in_step, read_from, lists_cover};

verus! {

/// The world's bookkeeping, stored as one entry.
#[derive(Clone, Debug)]
pub struct WorldMetadata {
    /// The id the next spawned entity receives.
    pub next_entity_id: EntityId,
    /// Counts changes, for cache invalidation.
    pub version: u64,
    /// The number of live entities.
    pub entity_count: u32,
    /// The live entities.
    pub entity_ids: Vec<EntityId>,
}

/// An entity's component types, as loaded.
struct LoadedEntity {
    entity_id: EntityId,
    component_types: Vec<Symbol>,
}

/// One component's data, as loaded.
struct LoadedComponent {
    entity_id: EntityId,
    component_type: Symbol,
    data: Vec<u8>,
}

/// A loaded entity: its id and component types.
pub type EntView = (EntityId, Seq<Symbol>);

/// A loaded component: entity, type and data.
pub type CompView = (EntityId, Symbol, Seq<u8>);

/// "Is the entry of entity `e`".
pub open spec fn ent_is(e: EntityId) -> spec_fn(EntView) -> bool {
    |x: EntView| x.0 == e
}

/// "Is the entry of component `t` of entity `e`".
pub open spec fn comp_is(e: EntityId, t: Symbol) -> spec_fn(CompView) -> bool {
    |x: CompView| x.0 == e && x.1 == t
}

/// The position of the first entry of entity `e`, or -1.
pub open spec fn ent_pos(s: Seq<EntView>, e: EntityId) -> int {
    seq_util::first_pos(s, ent_is(e))
}

/// The position of the first entry of component `t` of entity `e`, or -1.
pub open spec fn comp_pos(s: Seq<CompView>, e: EntityId, t: Symbol) -> int {
    seq_util::first_pos(s, comp_is(e, t))
}

/// "Is not the entry of component `t` of entity `e`".
pub open spec fn keeps_comp(e: EntityId, t: Symbol) -> spec_fn(CompView) -> bool {
    |x: CompView| !(x.0 == e && x.1 == t)
}

/// "Does not belong to entity `e`" (for components).
pub open spec fn comp_not_of(e: EntityId) -> spec_fn(CompView) -> bool {
    |x: CompView| x.0 != e
}

/// "Does not belong to entity `e`" (for entities).
pub open spec fn ent_not_of(e: EntityId) -> spec_fn(EntView) -> bool {
    |x: EntView| x.0 != e
}

/// The data of an optional stored value.
pub open spec fn opt_bytes(o: Option<Vec<u8>>) -> Option<Seq<u8>> {
    match o {
        Some(v) => Some(v@),
        None => None,
    }
}

/// The components loaded for entity `e` from its stored types `ts` and
/// the stored data `ds` of each: one per type whose data is stored, in
/// the order of the types.
pub open spec fn loaded_pairs(e: EntityId, ts: Seq<Symbol>, ds: Seq<Option<Seq<u8>>>) -> Seq<CompView>
    decreases ts.len(),
{
    if ts.len() == 0 || ds.len() == 0 {
        Seq::empty()
    } else {
        let rest = loaded_pairs(e, ts.drop_last(), ds.drop_last());
        match ds.last() {
            Some(d) => rest.push((e, ts.last(), d)),
            None => rest,
        }
    }
}

/// A storage write, as a value.
pub enum OpView {
    WriteMeta,
    WriteEntity(EntityId, Seq<Symbol>),
    WriteComponent(EntityId, Symbol, Seq<u8>),
    RemoveEntity(EntityId),
}

/// A write to persistent storage that a flush asks for.
pub enum StorageOp {
    /// Write the world metadata.
    WriteMeta,
    /// Write an entity's component type list.
    WriteEntity { entity_id: EntityId, component_types: Vec<Symbol> },
    /// Write one component's data.
    WriteComponent { entity_id: EntityId, component_type: Symbol, data: Vec<u8> },
    /// Remove the entity's type list and the data of every type stored in it.
    RemoveEntity { entity_id: EntityId },
}

impl View for StorageOp {
    type V = OpView;

    open spec fn view(&self) -> OpView {
        match self {
            StorageOp::WriteMeta => OpView::WriteMeta,
            StorageOp::WriteEntity { entity_id, component_types } => OpView::WriteEntity(*entity_id, component_types@),
            StorageOp::WriteComponent { entity_id, component_type, data } => OpView::WriteComponent(*entity_id, *component_type, data@),
            StorageOp::RemoveEntity { entity_id } => OpView::RemoveEntity(*entity_id),
        }
    }
}

/// The writes of a list of operations.
pub open spec fn op_views(ops: Seq<StorageOp>) -> Seq<OpView> {
    ops.map_values(|o: StorageOp| o@)
}

/// The type-list writes of the dirty entities that are loaded, in order.
pub open spec fn entity_writes(dirty: Seq<EntityId>, ents: Seq<EntView>) -> Seq<OpView>
    decreases dirty.len(),
{
    if dirty.len() == 0 {
        Seq::empty()
    } else {
        let rest = entity_writes(dirty.drop_last(), ents);
        let i = ent_pos(ents, dirty.last());
        if i >= 0 {
            rest.push(OpView::WriteEntity(dirty.last(), ents[i].1))
        } else {
            rest
        }
    }
}

/// The data writes of the dirty components that are loaded and whose
/// entity is not despawned, in order.
pub open spec fn component_writes(dirty: Seq<(EntityId, Symbol)>, despawned: Seq<EntityId>, comps: Seq<CompView>) -> Seq<OpView>
    decreases dirty.len(),
{
    if dirty.len() == 0 {
        Seq::empty()
    } else {
        let rest = component_writes(dirty.drop_last(), despawned, comps);
        let (e, t) = dirty.last();
        let k = comp_pos(comps, e, t);
        if !despawned.contains(e) && k >= 0 {
            rest.push(OpView::WriteComponent(e, t, comps[k].2))
        } else {
            rest
        }
    }
}

/// The removals of the despawned entities, in order.
pub open spec fn removals(despawned: Seq<EntityId>) -> Seq<OpView> {
    despawned.map_values(|e: EntityId| OpView::RemoveEntity(e))
}

/// The components taken from entity `e` of world `w` for the types `ts`:
/// one per type the world holds data for, in the order of the types.
pub open spec fn entity_comps(w: SimpleWorld, e: EntityId, ts: Seq<Symbol>) -> Seq<CompView>
    decreases ts.len(),
{
    if ts.len() == 0 {
        Seq::empty()
    } else {
        let rest = entity_comps(w, e, ts.drop_last());
        match w.spec_get(e, ts.last()) {
            Some(d) => rest.push((e, ts.last(), d)),
            None => rest,
        }
    }
}

/// The components taken from the entities `keys` of world `w`, entity by
/// entity in the order of `keys`.
pub open spec fn world_comps(w: SimpleWorld, keys: Seq<EntityId>) -> Seq<CompView>
    decreases keys.len(),
{
    if keys.len() == 0 {
        Seq::empty()
    } else {
        world_comps(w, keys.drop_last()) + entity_comps(w, keys.last(), w.types_of(keys.last()))
    }
}

/// The (entity, type) pairs of a list of components.
pub open spec fn comp_keys(s: Seq<CompView>) -> Seq<(EntityId, Symbol)> {
    s.map_values(|c: CompView| (c.0, c.1))
}

/// The types listed for entity `e` by any of its entries.
pub open spec fn listed_types(ents: Seq<EntView>, e: EntityId) -> Set<Symbol>
    decreases ents.len(),
{
    if ents.len() == 0 {
        Set::empty()
    } else {
        let rest = listed_types(ents.drop_last(), e);
        if ents.last().0 == e {
            rest + ents.last().1.to_set()
        } else {
            rest
        }
    }
}

/// The types of the last entry of entity `e`, if it has one.
pub open spec fn last_types(ents: Seq<EntView>, e: EntityId) -> Option<Seq<Symbol>>
    decreases ents.len(),
{
    if ents.len() == 0 {
        None
    } else if ents.last().0 == e {
        Some(ents.last().1)
    } else {
        last_types(ents.drop_last(), e)
    }
}

/// The metadata of a world that has never been stored.
pub open spec fn is_fresh_metadata(m: WorldMetadata) -> bool {
    m.next_entity_id == 1 && m.version == 0 && m.entity_count == 0 && m.entity_ids@.len() == 0
}

/// A world held as per-entity storage entries, of which some are loaded.
pub struct StorageWorld {
    metadata: WorldMetadata,
    loaded_entities: Vec<LoadedEntity>,
    loaded_components: Vec<LoadedComponent>,
    dirty: DirtyTracker,
}

impl StorageWorld {
    /// The world's metadata.
    pub closed spec fn meta(&self) -> WorldMetadata {
        self.metadata
    }

    /// The loaded entities, in loading order.
    pub closed spec fn ents(&self) -> Seq<EntView> {
        self.loaded_entities@.map_values(|le: LoadedEntity| (le.entity_id, le.component_types@))
    }

    /// The loaded components, in loading order.
    pub closed spec fn comps(&self) -> Seq<CompView> {
        self.loaded_components@.map_values(|lc: LoadedComponent| (lc.entity_id, lc.component_type, lc.data@))
    }

    /// What the next flush must write.
    pub closed spec fn tracker(&self) -> DirtyTracker {
        self.dirty
    }

    /// The loaded data of component `t` of entity `e` (its first entry).
    pub open spec fn spec_get(&self, e: EntityId, t: Symbol) -> Option<Seq<u8>> {
        let k = comp_pos(self.comps(), e, t);
        if k < 0 {
            None
        } else {
            Some(self.comps()[k].2)
        }
    }

    /// The metadata of a world that has never been stored.
    pub fn fresh_metadata() -> (m: WorldMetadata)
        ensures
            is_fresh_metadata(m),
    {
        WorldMetadata { next_entity_id: 1, version: 0, entity_count: 0, entity_ids: Vec::new() }
    }

    /// A world over the stored metadata (a fresh world when none is
    /// stored), with nothing loaded and nothing to write.
    pub fn from_metadata(stored: Option<WorldMetadata>) -> (w: StorageWorld)
        ensures
            stored matches Some(m) ==> w.meta() == m,
            stored is None ==> is_fresh_metadata(w.meta()),
            w.ents().len() == 0,
            w.comps().len() == 0,
            w.tracker().entities().len() == 0,
            w.tracker().components().len() == 0,
            w.tracker().despawned_ids().len() == 0,
            w.tracker().new_ids().len() == 0,
            !w.tracker().meta(),
            w.tracker().wf(),
            forall|s: StoreView| s.meta == stored ==> #[trigger] in_step(w, s),
            lists_cover(w),
    {
        let metadata = match stored {
            Some(m) => m,
            None => Self::fresh_metadata(),
        };
        let w = StorageWorld {
            metadata,
            loaded_entities: Vec::new(),
            loaded_components: Vec::new(),
            dirty: DirtyTracker::new(),
        };
        proof {
            assert(w.ents() =~= Seq::<EntView>::empty());
            assert(w.comps() =~= Seq::<CompView>::empty());
        }
        w
    }

    /// The position of the first loaded entry of entity `e`, if any.
    fn find_entity(&self, entity_id: EntityId) -> (r: Option<usize>)
        ensures
            r is None ==> ent_pos(self.ents(), entity_id) == -1,
            r matches Some(i) ==> i == ent_pos(self.ents(), entity_id) && i < self.ents().len()
                && self.ents()[i as int].0 == entity_id,
    {
        proof {
            seq_util::lemma_first_pos(self.ents(), ent_is(entity_id));
        }
        let mut i: usize = 0;
        while i < self.loaded_entities.len()
            invariant
                i <= self.loaded_entities@.len(),
                forall|j: int| 0 <= j < i ==> !ent_is(entity_id)(#[trigger] self.ents()[j]),
                -1 <= ent_pos(self.ents(), entity_id) < self.ents().len(),
                ent_pos(self.ents(), entity_id) == -1 <==> forall|j: int| 0 <= j < self.ents().len() ==> !ent_is(entity_id)(#[trigger] self.ents()[j]),
                ent_pos(self.ents(), entity_id) >= 0 ==> ent_is(entity_id)(self.ents()[ent_pos(self.ents(), entity_id)]),
                forall|j: int| 0 <= j < ent_pos(self.ents(), entity_id) ==> !ent_is(entity_id)(#[trigger] self.ents()[j]),
            decreases self.loaded_entities@.len() - i,
        {
            assert(self.ents()[i as int].0 == self.loaded_entities@[i as int].entity_id);
            if self.loaded_entities[i].entity_id == entity_id {
                return Some(i);
            }
            i = i + 1;
        }
        None
    }

    /// The position of the first loaded entry of component `t` of entity `e`, if any.
    fn find_component(&self, entity_id: EntityId, component_type: Symbol) -> (r: Option<usize>)
        ensures
            r is None ==> comp_pos(self.comps(), entity_id, component_type) == -1,
            r matches Some(i) ==> i == comp_pos(self.comps(), entity_id, component_type) && i < self.comps().len()
                && self.comps()[i as int].0 == entity_id && self.comps()[i as int].1 == component_type,
    {
        let ghost p = comp_is(entity_id, component_type);
        proof {
            seq_util::lemma_first_pos(self.comps(), p);
        }
        let mut i: usize = 0;
        while i < self.loaded_components.len()
            invariant
                i <= self.loaded_components@.len(),
                p == comp_is(entity_id, component_type),
                forall|j: int| 0 <= j < i ==> !p(#[trigger] self.comps()[j]),
                -1 <= seq_util::first_pos(self.comps(), p) < self.comps().len(),
                seq_util::first_pos(self.comps(), p) == -1 <==> forall|j: int| 0 <= j < self.comps().len() ==> !p(#[trigger] self.comps()[j]),
                seq_util::first_pos(self.comps(), p) >= 0 ==> p(self.comps()[seq_util::first_pos(self.comps(), p)]),
                forall|j: int| 0 <= j < seq_util::first_pos(self.comps(), p) ==> !p(#[trigger] self.comps()[j]),
            decreases self.loaded_components@.len() - i,
        {
            assert(self.comps()[i as int].0 == self.loaded_components@[i as int].entity_id);
            assert(self.comps()[i as int].1 == self.loaded_components@[i as int].component_type);
            if self.loaded_components[i].entity_id == entity_id && self.loaded_components[i].component_type == component_type {
                return Some(i);
            }
            i = i + 1;
        }
        None
    }

    /// The loaded data of a component.
    pub fn get_component(&self, entity_id: EntityId, component_type: &Symbol) -> (r: Option<Vec<u8>>)
        ensures
            r is None <==> self.spec_get(entity_id, *component_type) is None,
            r matches Some(d) ==> self.spec_get(entity_id, *component_type) == Some(d@),
    {
        match self.find_component(entity_id, *component_type) {
            Some(i) => {
                assert(self.comps()[i as int].2 == self.loaded_components@[i as int].data@);
                Some(copy_bytes(&self.loaded_components[i].data))
            },
            None => None,
        }
    }

    /// Whether a component of this type is loaded for the entity.
    pub fn has_component(&self, entity_id: EntityId, component_type: &Symbol) -> (r: bool)
        ensures
            r == self.spec_get(entity_id, *component_type) is Some,
    {
        self.find_component(entity_id, *component_type).is_some()
    }

    /// Spawns an entity with the next id: it is counted and listed in the
    /// metadata and loaded without components; nothing is written yet.
    pub fn spawn_entity(&mut self, env: &soroban_sdk::Env) -> (id: EntityId)
        requires
            old(self).meta().next_entity_id < u32::MAX,
            old(self).meta().entity_count < u32::MAX,
        ensures
            id == old(self).meta().next_entity_id,
            final(self).meta().next_entity_id == old(self).meta().next_entity_id + 1,
            final(self).meta().entity_count == old(self).meta().entity_count + 1,
            final(self).meta().entity_ids@ == old(self).meta().entity_ids@.push(id),
            final(self).meta().version == old(self).meta().version,
            final(self).ents() == old(self).ents().push((id, Seq::<Symbol>::empty())),
            final(self).comps() == old(self).comps(),
            final(self).tracker().new_ids() == dirty_tracker::push_new(old(self).tracker().new_ids(), id),
            final(self).tracker().entities() == dirty_tracker::push_new(old(self).tracker().entities(), id),
            final(self).tracker().components() == old(self).tracker().components(),
            final(self).tracker().despawned_ids() == old(self).tracker().despawned_ids(),
            final(self).tracker().meta(),
            old(self).tracker().wf() ==> final(self).tracker().wf(),
            forall|s: StoreView| #[trigger] in_step(*old(self), s) ==> in_step(*final(self), s),
            lists_cover(*old(self)) ==> lists_cover(*final(self)),
    {
        let id = self.metadata.next_entity_id;
        self.metadata.next_entity_id = self.metadata.next_entity_id + 1;
        self.metadata.entity_count = self.metadata.entity_count + 1;
        self.metadata.entity_ids.push(id);
        self.loaded_entities.push(LoadedEntity { entity_id: id, component_types: Vec::new() });
        self.dirty.mark_new_entity(id);
        self.dirty.mark_entity_dirty(id);
        proof {
            assert(self.ents() =~= old(self).ents().push((id, Seq::<Symbol>::empty())));
            persisted::lemma_spawn_in_step(*old(self), *self, id);
            persisted::lemma_spawn_covers(*old(self), *self, id);
        }
        id
    }

    /// Adds (or overwrites) a component of a loaded entity; an entity not
    /// loaded yet is loaded with this one type. The version advances and
    /// the entity, the component and the metadata are marked for writing.
    pub fn add_component(&mut self, env: &soroban_sdk::Env, entity_id: EntityId, component_type: Symbol, data: Vec<u8>)
        requires
            old(self).meta().version < u64::MAX,
        ensures
            final(self).ents() == ({
                let i = ent_pos(old(self).ents(), entity_id);
                if i >= 0 {
                    old(self).ents().update(i, (entity_id, dirty_tracker::push_new(old(self).ents()[i].1, component_type)))
                } else {
                    old(self).ents().push((entity_id, seq![component_type]))
                }
            }),
            final(self).comps() == ({
                let k = comp_pos(old(self).comps(), entity_id, component_type);
                if k >= 0 {
                    old(self).comps().update(k, (entity_id, component_type, data@))
                } else {
                    old(self).comps().push((entity_id, component_type, data@))
                }
            }),
            final(self).spec_get(entity_id, component_type) == Some(data@),
            forall|e: EntityId, t: Symbol| (e, t) != (entity_id, component_type)
                ==> #[trigger] final(self).spec_get(e, t) == old(self).spec_get(e, t),
            final(self).meta().version == old(self).meta().version + 1,
            final(self).meta().next_entity_id == old(self).meta().next_entity_id,
            final(self).meta().entity_count == old(self).meta().entity_count,
            final(self).meta().entity_ids@ == old(self).meta().entity_ids@,
            final(self).tracker().entities() == dirty_tracker::push_new(old(self).tracker().entities(), entity_id),
            final(self).tracker().components() == dirty_tracker::push_new(old(self).tracker().components(), (entity_id, component_type)),
            final(self).tracker().new_ids() == old(self).tracker().new_ids(),
            final(self).tracker().despawned_ids() == old(self).tracker().despawned_ids(),
            final(self).tracker().meta(),
            old(self).tracker().wf() ==> final(self).tracker().wf(),
            forall|s: StoreView| #[trigger] in_step(*old(self), s) ==> in_step(*final(self), s),
            lists_cover(*old(self)) ==> lists_cover(*final(self)),
    {
        let ghost old_ents = self.ents();
        let ghost old_comps = self.comps();
        match self.find_entity(entity_id) {
            Some(i) => {
                if !syms_contain(&self.loaded_entities[i].component_types, component_type) {
                    let mut types = copy_syms(&self.loaded_entities[i].component_types);
                    types.push(component_type);
                    self.loaded_entities[i] = LoadedEntity { entity_id, component_types: types };
                }
                proof {
                    assert(self.ents() =~= old_ents.update(i as int, (entity_id, dirty_tracker::push_new(old_ents[i as int].1, component_type))));
                }
            },
            None => {
                let mut types: Vec<Symbol> = Vec::new();
                types.push(component_type);
                self.loaded_entities.push(LoadedEntity { entity_id, component_types: types });
                proof {
                    assert(self.ents() =~= old_ents.push((entity_id, seq![component_type])));
                }
            },
        }
        let ghost k = comp_pos(old_comps, entity_id, component_type);
        match self.find_component(entity_id, component_type) {
            Some(k) => {
                self.loaded_components[k] = LoadedComponent { entity_id, component_type, data };
                proof {
                    assert(self.comps() =~= old_comps.update(k as int, (entity_id, component_type, data@)));
                }
            },
            None => {
                self.loaded_components.push(LoadedComponent { entity_id, component_type, data });
                proof {
                    assert(self.comps() =~= old_comps.push((entity_id, component_type, data@)));
                }
            },
        }
        proof {
            seq_util::lemma_first_pos(old_comps, comp_is(entity_id, component_type));
            seq_util::lemma_first_pos(self.comps(), comp_is(entity_id, component_type));
            if k >= 0 {
                assert(comp_is(entity_id, component_type)(self.comps()[k]));
                assert forall|j: int| 0 <= j < k implies !comp_is(entity_id, component_type)(#[trigger] self.comps()[j]) by {
                    assert(self.comps()[j] == old_comps[j]);
                }
                if comp_pos(self.comps(), entity_id, component_type) < k {
                    let q = comp_pos(self.comps(), entity_id, component_type);
                    assert(self.comps()[q] == old_comps[q]);
                }
                assert(comp_pos(self.comps(), entity_id, component_type) == k);
            } else {
                let n = old_comps.len() as int;
                assert(comp_is(entity_id, component_type)(self.comps()[n]));
                assert forall|j: int| 0 <= j < n implies !comp_is(entity_id, component_type)(#[trigger] self.comps()[j]) by {
                    assert(self.comps()[j] == old_comps[j]);
                }
                if comp_pos(self.comps(), entity_id, component_type) < n {
                    let q = comp_pos(self.comps(), entity_id, component_type);
                    assert(self.comps()[q] == old_comps[q]);
                }
                assert(comp_pos(self.comps(), entity_id, component_type) == n);
            }
        }
        self.metadata.version = self.metadata.version + 1;
        self.dirty.mark_entity_dirty(entity_id);
        self.dirty.mark_component_dirty(entity_id, component_type);
        self.dirty.mark_meta_dirty();
        proof {
            assert forall|e: EntityId, t: Symbol| (e, t) != (entity_id, component_type)
                implies #[trigger] self.spec_get(e, t) == old(self).spec_get(e, t) by {
                let p = comp_is(e, t);
                assert forall|j: int| 0 <= j < old_comps.len() implies p(#[trigger] old_comps[j]) == p(self.comps()[j]) by {
                    if j != k {
                        assert(self.comps()[j] == old_comps[j]);
                    }
                }
                assert forall|j: int| 0 <= j < old_comps.len() && p(#[trigger] old_comps[j]) implies old_comps[j] == self.comps()[j] by {
                    if j != k {
                        assert(self.comps()[j] == old_comps[j]);
                    }
                }
                seq_util::lemma_first_pos_same(old_comps, self.comps(), p);
            }
            persisted::lemma_add_in_step(*old(self), *self, entity_id, component_type);
            persisted::lemma_add_covers(*old(self), *self, entity_id, component_type);
        }
    }

    /// Drops every loaded entry of the component; when there was one, also
    /// drops the type from the entity's loaded type list, advances the
    /// version and marks the entity, the component and the metadata for
    /// writing. Returns whether there was one.
    pub fn remove_component(&mut self, entity_id: EntityId, component_type: &Symbol) -> (removed: bool)
        requires
            old(self).meta().version < u64::MAX,
        ensures
            removed == old(self).spec_get(entity_id, *component_type) is Some,
            final(self).comps() == old(self).comps().filter(keeps_comp(entity_id, *component_type)),
            final(self).spec_get(entity_id, *component_type) is None,
            forall|e: EntityId, t: Symbol| !(e == entity_id && t == *component_type)
                ==> #[trigger] final(self).spec_get(e, t) == old(self).spec_get(e, t),
            !removed ==> *final(self) == *old(self),
            removed ==> final(self).ents() == ({
                let i = ent_pos(old(self).ents(), entity_id);
                if i >= 0 {
                    old(self).ents().update(i, (entity_id, crate::symbol::without_sym(old(self).ents()[i].1, *component_type)))
                } else {
                    old(self).ents()
                }
            }),
            removed ==> final(self).meta().version == old(self).meta().version + 1,
            final(self).meta().next_entity_id == old(self).meta().next_entity_id,
            final(self).meta().entity_count == old(self).meta().entity_count,
            final(self).meta().entity_ids@ == old(self).meta().entity_ids@,
            removed ==> final(self).tracker().entities() == dirty_tracker::push_new(old(self).tracker().entities(), entity_id),
            removed ==> final(self).tracker().components() == dirty_tracker::push_new(old(self).tracker().components(), (entity_id, *component_type)),
            removed ==> final(self).tracker().meta(),
            final(self).tracker().new_ids() == old(self).tracker().new_ids(),
            final(self).tracker().despawned_ids() == old(self).tracker().despawned_ids(),
            old(self).tracker().wf() ==> final(self).tracker().wf(),
            forall|s: StoreView| #[trigger] in_step(*old(self), s) ==> in_step(*final(self), s),
            lists_cover(*old(self)) ==> lists_cover(*final(self)),
    {
        let t = *component_type;
        let ghost p = keeps_comp(entity_id, t);
        let ghost oc = self.comps();
        proof {
            seq_util::lemma_first_pos(oc, comp_is(entity_id, t));
            assert forall|e: EntityId, t2: Symbol| !(e == entity_id && t2 == t) implies
                (#[trigger] comp_pos(oc.filter(p), e, t2) >= 0) == (comp_pos(oc, e, t2) >= 0)
                && (comp_pos(oc, e, t2) >= 0 ==> oc.filter(p)[comp_pos(oc.filter(p), e, t2)] == oc[comp_pos(oc, e, t2)]) by {
                seq_util::lemma_first_pos_filter(oc, p, comp_is(e, t2));
            }
        }
        let mut kept: Vec<LoadedComponent> = Vec::new();
        let mut i: usize = 0;
        while i < self.loaded_components.len()
            invariant
                oc == self.comps(),
                p == keeps_comp(entity_id, t),
                i <= oc.len(),
                kept@.map_values(|lc: LoadedComponent| (lc.entity_id, lc.component_type, lc.data@)) == oc.take(i as int).filter(p),
            decreases oc.len() - i,
        {
            proof {
                oc.lemma_take_succ_push(i as int);
                oc.take(i as int).lemma_filter_push(oc[i as int], p);
            }
            let lc = &self.loaded_components[i];
            if !(lc.entity_id == entity_id && lc.component_type == t) {
                let ghost before = kept@;
                kept.push(LoadedComponent { entity_id: lc.entity_id, component_type: lc.component_type, data: copy_bytes(&lc.data) });
                proof {
                    assert(kept@.map_values(|lc: LoadedComponent| (lc.entity_id, lc.component_type, lc.data@))
                        =~= before.map_values(|lc: LoadedComponent| (lc.entity_id, lc.component_type, lc.data@)).push(oc[i as int]));
                }
            }
            i = i + 1;
        }
        proof {
            assert(oc.take(oc.len() as int) =~= oc);
        }
        let removed = kept.len() < self.loaded_components.len();
        proof {
            oc.lemma_filter_len(p);
            if comp_pos(oc, entity_id, t) >= 0 {
                let k = comp_pos(oc, entity_id, t);
                lemma_filter_shorter(oc, p, k);
            } else {
                assert forall|j: int| 0 <= j < oc.len() implies p(#[trigger] oc[j]) by {
                    assert(!comp_is(entity_id, t)(oc[j]));
                }
                seq_util::lemma_filter_all(oc, p);
            }
        }
        if !removed {
            return false;
        }
        self.loaded_components = kept;
        let ghost oe = self.ents();
        match self.find_entity(entity_id) {
            Some(i) => {
                let types = crate::symbol::syms_without(&self.loaded_entities[i].component_types, t);
                self.loaded_entities[i] = LoadedEntity { entity_id, component_types: types };
                proof {
                    assert(self.ents() =~= oe.update(i as int, (entity_id, crate::symbol::without_sym(oe[i as int].1, t))));
                }
            },
            None => {},
        }
        proof {
            let nc = self.comps();
            assert forall|j: int| 0 <= j < nc.len() implies !comp_is(entity_id, t)(#[trigger] nc[j]) by {
                oc.lemma_filter_pred(p, j);
            }
            seq_util::lemma_first_pos(nc, comp_is(entity_id, t));
        }
        self.metadata.version = self.metadata.version + 1;
        self.dirty.mark_entity_dirty(entity_id);
        self.dirty.mark_component_dirty(entity_id, t);
        self.dirty.mark_meta_dirty();
        proof {
            persisted::lemma_remove_in_step(*old(self), *self, entity_id, t,
                crate::symbol::without_sym(old(self).ents()[ent_pos(old(self).ents(), entity_id)].1, t));
            persisted::lemma_remove_covers(*old(self), *self, entity_id, t);
        }
        true
    }

    /// Drops the entity's loaded entries and its components, removes it
    /// from the metadata's list (and, when it was listed, from the count),
    /// advances the version and marks it despawned.
    pub fn despawn_entity(&mut self, entity_id: EntityId)
        requires
            old(self).meta().version < u64::MAX,
        ensures
            final(self).comps() == old(self).comps().filter(comp_not_of(entity_id)),
            final(self).ents() == old(self).ents().filter(ent_not_of(entity_id)),
            final(self).meta().entity_ids@ == seq_util::without(old(self).meta().entity_ids@, entity_id),
            final(self).meta().entity_count == if old(self).meta().entity_ids@.contains(entity_id)
                && old(self).meta().entity_count > 0 {
                (old(self).meta().entity_count - 1) as u32
            } else {
                old(self).meta().entity_count
            },
            old(self).meta().entity_count == old(self).meta().entity_ids@.len() && old(self).meta().entity_ids@.no_duplicates()
                ==> final(self).meta().entity_count == final(self).meta().entity_ids@.len()
                    && final(self).meta().entity_ids@.no_duplicates(),
            final(self).meta().version == old(self).meta().version + 1,
            final(self).meta().next_entity_id == old(self).meta().next_entity_id,
            final(self).tracker().despawned_ids() == dirty_tracker::push_new(old(self).tracker().despawned_ids(), entity_id),
            final(self).tracker().meta(),
            final(self).tracker().entities() == old(self).tracker().entities(),
            final(self).tracker().components() == old(self).tracker().components(),
            final(self).tracker().new_ids() == old(self).tracker().new_ids(),
            old(self).tracker().wf() ==> final(self).tracker().wf(),
            forall|s: StoreView| #[trigger] in_step(*old(self), s) ==> in_step(*final(self), s),
            lists_cover(*old(self)) ==> lists_cover(*final(self)),
    {
        let ghost oc = self.comps();
        let ghost pc = comp_not_of(entity_id);
        let mut kept: Vec<LoadedComponent> = Vec::new();
        let mut i: usize = 0;
        while i < self.loaded_components.len()
            invariant
                oc == self.comps(),
                pc == comp_not_of(entity_id),
                i <= oc.len(),
                kept@.map_values(|lc: LoadedComponent| (lc.entity_id, lc.component_type, lc.data@)) == oc.take(i as int).filter(pc),
            decreases oc.len() - i,
        {
            proof {
                oc.lemma_take_succ_push(i as int);
                oc.take(i as int).lemma_filter_push(oc[i as int], pc);
            }
            let lc = &self.loaded_components[i];
            if lc.entity_id != entity_id {
                let ghost before = kept@;
                kept.push(LoadedComponent { entity_id: lc.entity_id, component_type: lc.component_type, data: copy_bytes(&lc.data) });
                proof {
                    assert(kept@.map_values(|lc: LoadedComponent| (lc.entity_id, lc.component_type, lc.data@))
                        =~= before.map_values(|lc: LoadedComponent| (lc.entity_id, lc.component_type, lc.data@)).push(oc[i as int]));
                }
            }
            i = i + 1;
        }
        proof {
            assert(oc.take(oc.len() as int) =~= oc);
        }
        self.loaded_components = kept;
        let ghost oe = self.ents();
        let ghost pe = ent_not_of(entity_id);
        let mut kept_e: Vec<LoadedEntity> = Vec::new();
        let mut j: usize = 0;
        while j < self.loaded_entities.len()
            invariant
                oe == self.ents(),
                pe == ent_not_of(entity_id),
                j <= oe.len(),
                kept_e@.map_values(|le: LoadedEntity| (le.entity_id, le.component_types@)) == oe.take(j as int).filter(pe),
            decreases oe.len() - j,
        {
            proof {
                oe.lemma_take_succ_push(j as int);
                oe.take(j as int).lemma_filter_push(oe[j as int], pe);
            }
            let le = &self.loaded_entities[j];
            if le.entity_id != entity_id {
                let ghost before = kept_e@;
                kept_e.push(LoadedEntity { entity_id: le.entity_id, component_types: copy_syms(&le.component_types) });
                proof {
                    assert(kept_e@.map_values(|le: LoadedEntity| (le.entity_id, le.component_types@))
                        =~= before.map_values(|le: LoadedEntity| (le.entity_id, le.component_types@)).push(oe[j as int]));
                }
            }
            j = j + 1;
        }
        proof {
            assert(oe.take(oe.len() as int) =~= oe);
        }
        self.loaded_entities = kept_e;
        let listed = seq_util::ids_contain(&self.metadata.entity_ids, entity_id);
        let ghost old_ids = self.metadata.entity_ids@;
        self.metadata.entity_ids = seq_util::ids_without(&self.metadata.entity_ids, entity_id);
        if listed && self.metadata.entity_count > 0 {
            self.metadata.entity_count = self.metadata.entity_count - 1;
        }
        proof {
            seq_util::lemma_without(old_ids, entity_id);
            if listed && old_ids.no_duplicates() {
                seq_util::lemma_without_once(old_ids, entity_id);
            }
        }
        self.metadata.version = self.metadata.version + 1;
        self.dirty.mark_despawned(entity_id);
        self.dirty.mark_meta_dirty();
        proof {
            persisted::lemma_despawn_in_step(*old(self), *self, entity_id);
            persisted::lemma_despawn_covers(*old(self), *self, entity_id);
        }
    }

    /// The writes the next flush makes: none when nothing is marked;
    /// otherwise the metadata (when marked), the type lists of the marked
    /// entities, the data of the marked components of entities not
    /// despawned, then the removals of the despawned entities.
    pub open spec fn flush_plan(&self) -> Seq<OpView> {
        if !self.tracker().spec_is_dirty() {
            Seq::empty()
        } else {
            (if self.tracker().meta() { seq![OpView::WriteMeta] } else { Seq::empty() })
                + entity_writes(self.tracker().entities(), self.ents())
                + component_writes(self.tracker().components(), self.tracker().despawned_ids(), self.comps())
                + removals(self.tracker().despawned_ids())
        }
    }

    /// Whether an entry of the entity is loaded.
    pub fn is_entity_loaded(&self, entity_id: EntityId) -> (r: bool)
        ensures
            r == (ent_pos(self.ents(), entity_id) >= 0),
    {
        self.find_entity(entity_id).is_some()
    }

    /// Loads an entity from what storage holds for it: `stored_types` is
    /// its stored type list (`None` when storage has no entry for it) and
    /// `stored_data[i]` the stored data of its `i`-th type (`None` when
    /// absent). An entity already loaded is left as it is; one without a
    /// stored entry is refused with `EntityNotFound`.
    pub fn load_entity(&mut self, entity_id: EntityId, stored_types: Option<Vec<Symbol>>, stored_data: Vec<Option<Vec<u8>>>) -> (r: Result<(), CougrError>)
        requires
            ent_pos(old(self).ents(), entity_id) < 0 ==> (stored_types matches Some(ts) ==> stored_data@.len() == ts@.len()),
        ensures
            ent_pos(old(self).ents(), entity_id) >= 0 ==> r is Ok && *final(self) == *old(self),
            ent_pos(old(self).ents(), entity_id) < 0 && stored_types is None
                ==> r == Err::<(), CougrError>(CougrError::EntityNotFound) && *final(self) == *old(self),
            ent_pos(old(self).ents(), entity_id) < 0 && stored_types is Some ==> {
                &&& r is Ok
                &&& final(self).ents() == old(self).ents().push((entity_id, stored_types->0@))
                &&& final(self).comps() == old(self).comps()
                    + loaded_pairs(entity_id, stored_types->0@, stored_data@.map_values(|o: Option<Vec<u8>>| opt_bytes(o)))
                &&& final(self).meta() == old(self).meta()
                &&& final(self).tracker() == old(self).tracker()
            },
            forall|s: StoreView| #[trigger] in_step(*old(self), s)
                && (stored_types matches Some(ts) ==> read_from(s, entity_id, ts@, stored_data@.map_values(|o: Option<Vec<u8>>| opt_bytes(o))))
                ==> in_step(*final(self), s),
            lists_cover(*old(self)) ==> lists_cover(*final(self)),
    {
        if self.is_entity_loaded(entity_id) {
            return Ok(());
        }
        let types = match stored_types {
            Some(ts) => ts,
            None => {
                return Err(CougrError::EntityNotFound);
            },
        };
        let ghost dv = stored_data@.map_values(|o: Option<Vec<u8>>| opt_bytes(o));
        let ghost oc = self.comps();
        let mut i: usize = 0;
        while i < types.len()
            invariant
                stored_data@.len() == types@.len(),
                dv == stored_data@.map_values(|o: Option<Vec<u8>>| opt_bytes(o)),
                i <= types@.len(),
                self.comps() == oc + loaded_pairs(entity_id, types@.take(i as int), dv.take(i as int)),
                self.ents() == old(self).ents(),
                self.meta() == old(self).meta(),
                self.tracker() == old(self).tracker(),
            decreases types@.len() - i,
        {
            let ghost before = self.comps();
            proof {
                assert(types@.take(i as int + 1).drop_last() =~= types@.take(i as int));
                assert(dv.take(i as int + 1).drop_last() =~= dv.take(i as int));
                assert(dv.take(i as int + 1).last() == opt_bytes(stored_data@[i as int]));
            }
            match &stored_data[i] {
                Some(d) => {
                    self.loaded_components.push(LoadedComponent { entity_id, component_type: types[i], data: copy_bytes(d) });
                    proof {
                        assert(self.comps() =~= before.push((entity_id, types@[i as int], d@)));
                    }
                },
                None => {},
            }
            i = i + 1;
        }
        proof {
            assert(types@.take(types@.len() as int) =~= types@);
            assert(dv.take(dv.len() as int) =~= dv);
        }
        let ghost oe = self.ents();
        self.loaded_entities.push(LoadedEntity { entity_id, component_types: types });
        proof {
            assert(self.ents() =~= oe.push((entity_id, stored_types->0@)));
            assert forall|s: StoreView| #[trigger] in_step(*old(self), s)
                && read_from(s, entity_id, stored_types->0@, dv) implies in_step(*self, s) by {
                persisted::lemma_load_in_step(*old(self), *self, s, entity_id, stored_types->0@, dv);
            }
            persisted::lemma_load_covers(*old(self), *self, entity_id, stored_types->0@, dv);
        }
        Ok(())
    }

    /// The writes to make now, in order; afterwards nothing is marked.
    pub fn flush(&mut self) -> (ops: Vec<StorageOp>)
        ensures
            op_views(ops@) == old(self).flush_plan(),
            final(self).ents() == old(self).ents(),
            final(self).comps() == old(self).comps(),
            final(self).meta() == old(self).meta(),
            final(self).tracker().entities().len() == 0,
            final(self).tracker().components().len() == 0,
            final(self).tracker().despawned_ids().len() == 0,
            final(self).tracker().new_ids().len() == 0,
            !final(self).tracker().meta(),
            final(self).tracker().wf(),
    {
        let mut ops: Vec<StorageOp> = Vec::new();
        if !self.dirty.is_dirty() {
            self.dirty.clear();
            proof {
                assert(op_views(ops@) =~= Seq::<OpView>::empty());
            }
            return ops;
        }
        if self.dirty.is_meta_dirty() {
            ops.push(StorageOp::WriteMeta);
        }
        let ghost head = op_views(ops@);
        proof {
            assert(head =~= (if self.tracker().meta() { seq![OpView::WriteMeta] } else { Seq::<OpView>::empty() }));
        }
        let dirty_ents = self.dirty.dirty_entities();
        let mut i: usize = 0;
        while i < dirty_ents.len()
            invariant
                dirty_ents@ == self.tracker().entities(),
                i <= dirty_ents@.len(),
                op_views(ops@) == head + entity_writes(dirty_ents@.take(i as int), self.ents()),
            decreases dirty_ents@.len() - i,
        {
            let eid = dirty_ents[i];
            let ghost before = op_views(ops@);
            proof {
                assert(dirty_ents@.take(i as int + 1).drop_last() =~= dirty_ents@.take(i as int));
            }
            match self.find_entity(eid) {
                Some(k) => {
                    let types = copy_syms(&self.loaded_entities[k].component_types);
                    ops.push(StorageOp::WriteEntity { entity_id: eid, component_types: types });
                    proof {
                        assert(op_views(ops@) =~= before.push(OpView::WriteEntity(eid, self.ents()[k as int].1)));
                    }
                },
                None => {},
            }
            i = i + 1;
        }
        proof {
            assert(dirty_ents@.take(dirty_ents@.len() as int) =~= dirty_ents@);
        }
        let ghost head2 = op_views(ops@);
        let dirty_comps = self.dirty.dirty_components();
        let despawned = self.dirty.despawned();
        let mut j: usize = 0;
        while j < dirty_comps.len()
            invariant
                dirty_comps@ == self.tracker().components(),
                despawned@ == self.tracker().despawned_ids(),
                j <= dirty_comps@.len(),
                op_views(ops@) == head2 + component_writes(dirty_comps@.take(j as int), despawned@, self.comps()),
            decreases dirty_comps@.len() - j,
        {
            let (eid, ct) = dirty_comps[j];
            let ghost before = op_views(ops@);
            proof {
                assert(dirty_comps@.take(j as int + 1).drop_last() =~= dirty_comps@.take(j as int));
            }
            let mut gone = false;
            let mut d: usize = 0;
            while d < despawned.len() && !gone
                invariant
                    d <= despawned@.len(),
                    !gone ==> forall|x: int| 0 <= x < d ==> despawned@[x] != eid,
                    gone ==> despawned@.contains(eid),
                decreases despawned@.len() - d,
            {
                if despawned[d] == eid {
                    assert(despawned@[d as int] == eid);
                    gone = true;
                }
                d = d + 1;
            }
            if !gone {
                match self.find_component(eid, ct) {
                    Some(k) => {
                        let data = copy_bytes(&self.loaded_components[k].data);
                        ops.push(StorageOp::WriteComponent { entity_id: eid, component_type: ct, data });
                        proof {
                            assert(op_views(ops@) =~= before.push(OpView::WriteComponent(eid, ct, self.comps()[k as int].2)));
                        }
                    },
                    None => {},
                }
            }
            j = j + 1;
        }
        proof {
            assert(dirty_comps@.take(dirty_comps@.len() as int) =~= dirty_comps@);
        }
        let ghost head3 = op_views(ops@);
        let mut r: usize = 0;
        while r < despawned.len()
            invariant
                despawned@ == self.tracker().despawned_ids(),
                r <= despawned@.len(),
                op_views(ops@) == head3 + removals(despawned@.take(r as int)),
            decreases despawned@.len() - r,
        {
            let ghost before = op_views(ops@);
            ops.push(StorageOp::RemoveEntity { entity_id: despawned[r] });
            proof {
                assert(removals(despawned@.take(r as int + 1)) =~= removals(despawned@.take(r as int)).push(OpView::RemoveEntity(despawned@[r as int])));
                assert(op_views(ops@) =~= before.push(OpView::RemoveEntity(despawned@[r as int])));
            }
            r = r + 1;
        }
        proof {
            assert(despawned@.take(despawned@.len() as int) =~= despawned@);
        }
        self.dirty.clear();
        ops
    }

    /// The version counter.
    pub fn version(&self) -> (v: u64)
        ensures
            v == self.meta().version,
    {
        self.metadata.version
    }

    /// The id the next spawned entity receives.
    pub fn next_entity_id(&self) -> (id: EntityId)
        ensures
            id == self.meta().next_entity_id,
    {
        self.metadata.next_entity_id
    }

    /// The number of live entities.
    pub fn entity_count(&self) -> (n: u32)
        ensures
            n == self.meta().entity_count,
    {
        self.metadata.entity_count
    }

    /// The live entities, as listed in the metadata.
    pub fn entity_ids(&self) -> (ids: &Vec<EntityId>)
        ensures
            ids@ == self.meta().entity_ids@,
    {
        &self.metadata.entity_ids
    }

    /// The metadata, as it is to be stored.
    pub fn metadata(&self) -> (m: &WorldMetadata)
        ensures
            *m == self.meta(),
    {
        &self.metadata
    }

    /// A storage world holding everything of `world`, all of it marked for
    /// writing: each entity with components (in increasing id order) is
    /// listed, loaded with its types and marked new, and each of its
    /// components is loaded and marked.
    pub fn from_simple_world(world: &SimpleWorld, env: &soroban_sdk::Env) -> (sw: StorageWorld)
        requires
            world.wf(),
            world.entity_components@.dom().len() <= u32::MAX,
        ensures
            sw.meta().next_entity_id == world.next_entity_id,
            sw.meta().version == world.version,
            sw.meta().entity_count == world.entity_components@.dom().len(),
            sw.meta().entity_ids@ == world.entity_components.key_seq(),
            sw.ents().len() == world.entity_components.key_seq().len(),
            forall|i: int| 0 <= i < sw.ents().len() ==> #[trigger] sw.ents()[i]
                == (world.entity_components.key_seq()[i], world.entity_components.val_seq()[i]@),
            sw.comps() == world_comps(*world, world.entity_components.key_seq()),
            sw.tracker().entities() == world.entity_components.key_seq(),
            sw.tracker().new_ids() == world.entity_components.key_seq(),
            sw.tracker().components() == comp_keys(sw.comps()),
            sw.tracker().despawned_ids().len() == 0,
            sw.tracker().meta(),
            sw.tracker().wf(),
            lists_cover(sw),
    {
        let ghost keys = world.entity_components.key_seq();
        let ghost vals = world.entity_components.val_seq();
        proof {
            world.entity_components.lemma_order();
        }
        let n = world.entity_components.len();
        let mut entity_ids: Vec<EntityId> = Vec::new();
        let mut loaded_entities: Vec<LoadedEntity> = Vec::new();
        let mut loaded_components: Vec<LoadedComponent> = Vec::new();
        let mut dirty = DirtyTracker::new();
        let mut entity_count: u32 = 0;
        let mut i: usize = 0;
        while i < n
            invariant
                world.wf(),
                keys == world.entity_components.key_seq(),
                vals == world.entity_components.val_seq(),
                n == keys.len(),
                n == vals.len(),
                n <= u32::MAX,
                forall|a: int, b: int| 0 <= a < b < keys.len() ==> #[trigger] keys[a] < #[trigger] keys[b],
                forall|a: int| 0 <= a < keys.len() ==> world.entity_components@.contains_key(#[trigger] keys[a])
                    && world.entity_components@[keys[a]] == vals[a],
                i <= n,
                entity_count == i,
                entity_ids@ == keys.take(i as int),
                loaded_entities@.len() == i,
                forall|a: int| 0 <= a < i ==> (#[trigger] loaded_entities@[a]).entity_id == keys[a]
                    && loaded_entities@[a].component_types@ == vals[a]@,
                loaded_components@.map_values(|lc: LoadedComponent| (lc.entity_id, lc.component_type, lc.data@))
                    == world_comps(*world, keys.take(i as int)),
                dirty.entities() == keys.take(i as int),
                dirty.new_ids() == keys.take(i as int),
                dirty.components() == comp_keys(world_comps(*world, keys.take(i as int))),
                dirty.despawned_ids().len() == 0,
                dirty.wf(),
                i > 0 ==> dirty.meta(),
                forall|x: (EntityId, Symbol)| #[trigger] dirty.components().contains(x) ==> (i > 0 && x.0 <= keys[i - 1]),
            decreases n - i,
        {
            let eid = world.entity_components.key_at(i);
            let types = world.entity_components.value_at(i);
            let ghost prefix_keys = keys.take(i as int);
            let ghost base = world_comps(*world, prefix_keys);
            assert(world.types_of(eid) == types@);
            entity_ids.push(eid);
            entity_count = entity_count + 1;
            let mut j: usize = 0;
            while j < types.len()
                invariant
                    world.wf(),
                    i < n,
                    eid == keys[i as int],
                    world.types_of(eid) == types@,
                    j <= types@.len(),
                    loaded_components@.map_values(|lc: LoadedComponent| (lc.entity_id, lc.component_type, lc.data@))
                        == base + entity_comps(*world, eid, types@.take(j as int)),
                    dirty.components() == comp_keys(base + entity_comps(*world, eid, types@.take(j as int))),
                    dirty.entities() == prefix_keys,
                    dirty.new_ids() == prefix_keys,
                    dirty.despawned_ids().len() == 0,
                    dirty.wf(),
                    i > 0 ==> dirty.meta(),
                    forall|x: (EntityId, Symbol)| #[trigger] dirty.components().contains(x)
                        ==> (x.0 < eid || (x.0 == eid && types@.take(j as int).contains(x.1))),
                decreases types@.len() - j,
            {
                let ct = types[j];
                let ghost before = loaded_components@.map_values(|lc: LoadedComponent| (lc.entity_id, lc.component_type, lc.data@));
                proof {
                    assert(types@.take(j as int + 1).drop_last() =~= types@.take(j as int));
                    assert(types@.take(j as int + 1).last() == ct);
                    assert(!types@.take(j as int).contains(ct)) by {
                        if types@.take(j as int).contains(ct) {
                            let q = choose|q: int| 0 <= q < j && types@.take(j as int)[q] == ct;
                            assert(types@[q] == types@[j as int]);
                        }
                    }
                }
                match world.get_component(eid, &ct) {
                    Some(data) => {
                        let ghost dv = data@;
                        loaded_components.push(LoadedComponent { entity_id: eid, component_type: ct, data });
                        proof {
                            assert(!dirty.components().contains((eid, ct)));
                        }
                        let ghost oldc = dirty.components();
                        dirty.mark_component_dirty(eid, ct);
                        proof {
                            assert(loaded_components@.map_values(|lc: LoadedComponent| (lc.entity_id, lc.component_type, lc.data@))
                                =~= before.push((eid, ct, dv)));
                            assert(comp_keys(before.push((eid, ct, dv))) =~= comp_keys(before).push((eid, ct)));
                            assert forall|x: (EntityId, Symbol)| #[trigger] dirty.components().contains(x)
                                implies (x.0 < eid || (x.0 == eid && types@.take(j as int + 1).contains(x.1))) by {
                                if x == (eid, ct) {
                                    assert(types@.take(j as int + 1)[j as int] == ct);
                                } else {
                                    assert(oldc.contains(x)) by {
                                        let q = choose|q: int| 0 <= q < dirty.components().len() && dirty.components()[q] == x;
                                        assert(dirty.components() == oldc.push((eid, ct)));
                                        assert(q < oldc.len());
                                        assert(oldc[q] == x);
                                    }
                                    if x.0 == eid && types@.take(j as int).contains(x.1) {
                                        let q = choose|q: int| 0 <= q < j && types@.take(j as int)[q] == x.1;
                                        assert(types@.take(j as int + 1)[q] == x.1);
                                    }
                                }
                            }
                        }
                    },
                    None => {
                        proof {
                            assert forall|x: (EntityId, Symbol)| #[trigger] dirty.components().contains(x)
                                implies (x.0 < eid || (x.0 == eid && types@.take(j as int + 1).contains(x.1))) by {
                                if x.0 == eid && types@.take(j as int).contains(x.1) {
                                    let q = choose|q: int| 0 <= q < j && types@.take(j as int)[q] == x.1;
                                    assert(types@.take(j as int + 1)[q] == x.1);
                                }
                            }
                        }
                    },
                }
                j = j + 1;
            }
            proof {
                assert(types@.take(types@.len() as int) =~= types@);
                assert(keys.take(i as int + 1).drop_last() =~= prefix_keys);
                assert(keys.take(i as int + 1).last() == eid);
                assert(!prefix_keys.contains(eid)) by {
                    if prefix_keys.contains(eid) {
                        let q = choose|q: int| 0 <= q < i && prefix_keys[q] == eid;
                        assert(keys[q] < keys[i as int]);
                    }
                }
            }
            loaded_entities.push(LoadedEntity { entity_id: eid, component_types: copy_syms(types) });
            dirty.mark_entity_dirty(eid);
            dirty.mark_new_entity(eid);
            proof {
                assert(entity_ids@ =~= keys.take(i as int + 1));
                assert(dirty.entities() =~= keys.take(i as int + 1));
                assert(dirty.new_ids() =~= keys.take(i as int + 1));
                assert forall|x: (EntityId, Symbol)| #[trigger] dirty.components().contains(x)
                    implies (i + 1 > 0 && x.0 <= keys[i as int]) by {}
            }
            i = i + 1;
        }
        proof {
            assert(keys.take(n as int) =~= keys);
        }
        dirty.mark_meta_dirty();
        let sw = StorageWorld {
            metadata: WorldMetadata {
                next_entity_id: world.next_entity_id,
                version: world.version,
                entity_count,
                entity_ids,
            },
            loaded_entities,
            loaded_components,
            dirty,
        };
        proof {
            persisted::lemma_from_simple_covers(*world, sw);
        }
        sw
    }

    /// The loaded state as a map-backed world: same next id and version;
    /// each component loaded for a type listed by one of its entity's
    /// entries becomes a table component, and each loaded entity gets the
    /// type list of its last entry.
    pub fn to_simple_world(&self, env: &soroban_sdk::Env) -> (w: SimpleWorld)
        ensures
            w.next_entity_id == self.meta().next_entity_id,
            w.version == self.meta().version,
            w.components.inv(),
            w.sparse_components.inv(),
            w.entity_components.inv(),
            w.sparse_components@ == Map::<(EntityId, Symbol), Vec<u8>>::empty(),
            forall|k: (EntityId, Symbol)| #[trigger] w.components@.contains_key(k)
                <==> listed_types(self.ents(), k.0).contains(k.1) && self.spec_get(k.0, k.1) is Some,
            forall|k: (EntityId, Symbol)| #[trigger] w.components@.contains_key(k)
                ==> self.spec_get(k.0, k.1) == Some(w.components@[k]@),
            forall|e: EntityId| #[trigger] w.entity_components@.contains_key(e) <==> last_types(self.ents(), e) is Some,
            forall|e: EntityId| #[trigger] w.entity_components@.contains_key(e)
                ==> last_types(self.ents(), e) == Some(w.entity_components@[e]@),
    {
        let mut world = SimpleWorld::new(env);
        world.next_entity_id = self.metadata.next_entity_id;
        world.version = self.metadata.version;
        let ghost ents = self.ents();
        let mut i: usize = 0;
        while i < self.loaded_entities.len()
            invariant
                ents == self.ents(),
                i <= ents.len(),
                world.next_entity_id == self.meta().next_entity_id,
                world.version == self.meta().version,
                world.components.inv(),
                world.sparse_components.inv(),
                world.entity_components.inv(),
                world.sparse_components@ == Map::<(EntityId, Symbol), Vec<u8>>::empty(),
                forall|k: (EntityId, Symbol)| #[trigger] world.components@.contains_key(k)
                    <==> listed_types(ents.take(i as int), k.0).contains(k.1) && self.spec_get(k.0, k.1) is Some,
                forall|k: (EntityId, Symbol)| #[trigger] world.components@.contains_key(k)
                    ==> self.spec_get(k.0, k.1) == Some(world.components@[k]@),
                forall|e: EntityId| #[trigger] world.entity_components@.contains_key(e) <==> last_types(ents.take(i as int), e) is Some,
                forall|e: EntityId| #[trigger] world.entity_components@.contains_key(e)
                    ==> last_types(ents.take(i as int), e) == Some(world.entity_components@[e]@),
            decreases ents.len() - i,
        {
            let le = &self.loaded_entities[i];
            let eid = le.entity_id;
            let ghost prev = ents.take(i as int);
            let ghost types = le.component_types@;
            proof {
                assert(ents[i as int] == (eid, types));
                assert(ents.take(i as int + 1).drop_last() =~= prev);
                assert(ents.take(i as int + 1).last() == (eid, types));
            }
            let mut j: usize = 0;
            while j < le.component_types.len()
                invariant
                    ents == self.ents(),
                    i < ents.len(),
                    le == self.loaded_entities@[i as int],
                    eid == le.entity_id,
                    types == le.component_types@,
                    prev == ents.take(i as int),
                    j <= types.len(),
                    world.next_entity_id == self.meta().next_entity_id,
                    world.version == self.meta().version,
                    world.components.inv(),
                    world.sparse_components.inv(),
                    world.entity_components.inv(),
                    world.sparse_components@ == Map::<(EntityId, Symbol), Vec<u8>>::empty(),
                    forall|k: (EntityId, Symbol)| #[trigger] world.components@.contains_key(k)
                        <==> (listed_types(prev, k.0).contains(k.1) || (k.0 == eid && types.take(j as int).contains(k.1)))
                            && self.spec_get(k.0, k.1) is Some,
                    forall|k: (EntityId, Symbol)| #[trigger] world.components@.contains_key(k)
                        ==> self.spec_get(k.0, k.1) == Some(world.components@[k]@),
                    forall|e: EntityId| #[trigger] world.entity_components@.contains_key(e) <==> last_types(prev, e) is Some,
                    forall|e: EntityId| #[trigger] world.entity_components@.contains_key(e)
                        ==> last_types(prev, e) == Some(world.entity_components@[e]@),
                decreases types.len() - j,
            {
                let ct = le.component_types[j];
                proof {
                    assert(types.take(j as int + 1) =~= types.take(j as int).push(ct));
                }
                let ghost oldw = world.components@;
                match self.get_component(eid, &ct) {
                    Some(data) => {
                        world.components.set(eid, ct, data);
                    },
                    None => {},
                }
                proof {
                    assert forall|k: (EntityId, Symbol)| #[trigger] world.components@.contains_key(k)
                        <==> (listed_types(prev, k.0).contains(k.1) || (k.0 == eid && types.take(j as int + 1).contains(k.1)))
                            && self.spec_get(k.0, k.1) is Some by {
                        if k == (eid, ct) {
                            assert(types.take(j as int + 1)[j as int] == ct);
                        } else {
                            assert(world.components@.contains_key(k) == oldw.contains_key(k));
                            if k.0 == eid && types.take(j as int + 1).contains(k.1) {
                                let q = choose|q: int| 0 <= q < j + 1 && #[trigger] types.take(j as int + 1)[q] == k.1;
                                assert(q != j);
                                assert(types.take(j as int)[q] == k.1);
                            }
                            if k.0 == eid && types.take(j as int).contains(k.1) {
                                let q = choose|q: int| 0 <= q < j && #[trigger] types.take(j as int)[q] == k.1;
                                assert(types.take(j as int + 1)[q] == k.1);
                            }
                        }
                    }
                }
                j = j + 1;
            }
            proof {
                assert(types.take(types.len() as int) =~= types);
            }
            let list = copy_syms(&le.component_types);
            world.entity_components.set(eid, list);
            proof {
                assert forall|k: (EntityId, Symbol)| #[trigger] world.components@.contains_key(k)
                    <==> listed_types(ents.take(i as int + 1), k.0).contains(k.1) && self.spec_get(k.0, k.1) is Some by {
                    if k.0 == eid {
                        assert(types.contains(k.1) <==> types.to_set().contains(k.1));
                    }
                }
            }
            i = i + 1;
        }
        proof {
            assert(ents.take(ents.len() as int) =~= ents);
        }
        world
    }
}

/// Filtering a sequence that holds an element the predicate rejects
/// shortens it.
proof fn lemma_filter_shorter<A>(s: Seq<A>, p: spec_fn(A) -> bool, k: int)
    requires
        0 <= k < s.len(),
        !p(s[k]),
    ensures
        s.filter(p).len() < s.len(),
    decreases s.len(),
{
    let q = s.drop_last();
    assert(s =~= q.push(s.last()));
    q.lemma_filter_len_push(p, s.last());
    q.lemma_filter_len(p);
    if k < s.len() - 1 {
        assert(q[k] == s[k]);
        lemma_filter_shorter(q, p, k);
    }
}

/// Every marked component of a loaded entity that is not despawned is
/// written with its loaded data.
proof fn lemma_component_writes_cover(dirty: Seq<(EntityId, Symbol)>, despawned: Seq<EntityId>, comps: Seq<CompView>, e: EntityId, t: Symbol)
    requires
        dirty.contains((e, t)),
        !despawned.contains(e),
        comp_pos(comps, e, t) >= 0,
    ensures
        component_writes(dirty, despawned, comps).contains(OpView::WriteComponent(e, t, comps[comp_pos(comps, e, t)].2)),
    decreases dirty.len(),
{
    let w = OpView::WriteComponent(e, t, comps[comp_pos(comps, e, t)].2);
    let rest = component_writes(dirty.drop_last(), despawned, comps);
    if dirty.last() == (e, t) {
        assert(component_writes(dirty, despawned, comps) == rest.push(w));
        assert(rest.push(w)[rest.len() as int] == w);
    } else {
        let i = choose|i: int| 0 <= i < dirty.len() && dirty[i] == (e, t);
        assert(i < dirty.len() - 1);
        assert(dirty.drop_last()[i] == (e, t));
        lemma_component_writes_cover(dirty.drop_last(), despawned, comps, e, t);
        let j = choose|j: int| 0 <= j < rest.len() && rest[j] == w;
        let (le, lt) = dirty.last();
        let k = comp_pos(comps, le, lt);
        if !despawned.contains(le) && k >= 0 {
            assert(component_writes(dirty, despawned, comps)[j] == w);
        }
    }
}

/// Every marked entity that is loaded gets its type list written.
proof fn lemma_entity_writes_cover(dirty: Seq<EntityId>, ents: Seq<EntView>, e: EntityId)
    requires
        dirty.contains(e),
        ent_pos(ents, e) >= 0,
    ensures
        entity_writes(dirty, ents).contains(OpView::WriteEntity(e, ents[ent_pos(ents, e)].1)),
    decreases dirty.len(),
{
    let w = OpView::WriteEntity(e, ents[ent_pos(ents, e)].1);
    let rest = entity_writes(dirty.drop_last(), ents);
    if dirty.last() == e {
        assert(rest.push(w)[rest.len() as int] == w);
    } else {
        let i = choose|i: int| 0 <= i < dirty.len() && dirty[i] == e;
        assert(dirty.drop_last()[i] == e);
        lemma_entity_writes_cover(dirty.drop_last(), ents, e);
        let j = choose|j: int| 0 <= j < rest.len() && rest[j] == w;
        if ent_pos(ents, dirty.last()) >= 0 {
            assert(entity_writes(dirty, ents)[j] == w);
        }
    }
}

/// A flush writes what was changed: the loaded data of every marked
/// component whose entity is not despawned, the loaded type list of every
/// marked entity, and a removal for every despawned entity.
pub proof fn law_flush_writes_changes(w: StorageWorld, e: EntityId, t: Symbol)
    ensures
        w.tracker().components().contains((e, t)) && !w.tracker().despawned_ids().contains(e)
            && w.spec_get(e, t) is Some
            ==> w.flush_plan().contains(OpView::WriteComponent(e, t, w.spec_get(e, t)->0)),
        w.tracker().entities().contains(e) && ent_pos(w.ents(), e) >= 0
            ==> w.flush_plan().contains(OpView::WriteEntity(e, w.ents()[ent_pos(w.ents(), e)].1)),
        w.tracker().despawned_ids().contains(e) ==> w.flush_plan().contains(OpView::RemoveEntity(e)),
{
    let tr = w.tracker();
    let head = if tr.meta() { seq![OpView::WriteMeta] } else { Seq::<OpView>::empty() };
    let ew = entity_writes(tr.entities(), w.ents());
    let cw = component_writes(tr.components(), tr.despawned_ids(), w.comps());
    let rw = removals(tr.despawned_ids());
    if tr.components().contains((e, t)) && !tr.despawned_ids().contains(e) && w.spec_get(e, t) is Some {
        lemma_component_writes_cover(tr.components(), tr.despawned_ids(), w.comps(), e, t);
        assert(tr.spec_is_dirty());
        let j = choose|j: int| 0 <= j < cw.len() && cw[j] == OpView::WriteComponent(e, t, w.spec_get(e, t)->0);
        assert(w.flush_plan()[head.len() + ew.len() + j] == cw[j]);
    }
    if tr.entities().contains(e) && ent_pos(w.ents(), e) >= 0 {
        lemma_entity_writes_cover(tr.entities(), w.ents(), e);
        assert(tr.spec_is_dirty());
        let j = choose|j: int| 0 <= j < ew.len() && ew[j] == OpView::WriteEntity(e, w.ents()[ent_pos(w.ents(), e)].1);
        assert(w.flush_plan()[head.len() + j] == ew[j]);
    }
    if tr.despawned_ids().contains(e) {
        assert(tr.spec_is_dirty());
        let j = choose|j: int| 0 <= j < tr.despawned_ids().len() && tr.despawned_ids()[j] == e;
        assert(rw[j] == OpView::RemoveEntity(e));
        assert(w.flush_plan()[head.len() + ew.len() + cw.len() + j] == rw[j]);
    }
}

/// A world with nothing marked writes nothing; in particular a second
/// flush right after a flush writes nothing.
pub proof fn law_clean_world_writes_nothing(w: StorageWorld)
    requires
        !w.tracker().spec_is_dirty(),
    ensures
        w.flush_plan().len() == 0,
{
}

} // verus!
