//! Which entities and components changed since the last flush to
//! persistent storage.

use vstd::prelude::*;
use crate::seq_util::ids_contain;
use crate::simple_world::EntityId;
use crate::symbol::Symbol;

verus! {

/// `s` with `x` appended, unless `s` already holds `x`.
pub open spec fn push_new<A>(s: Seq<A>, x: A) -> Seq<A> {
    if s.contains(x) {
        s
    } else {
        s.push(x)
    }
}

/// What has to be written on the next flush. Each list holds an item at
/// most once, in the order it was first marked.
pub struct DirtyTracker {
    dirty_entities: Vec<EntityId>,
    dirty_components: Vec<(EntityId, Symbol)>,
    despawned: Vec<EntityId>,
    new_entities: Vec<EntityId>,
    meta_dirty: bool,
}

impl DirtyTracker {
    /// Entities whose component list must be written.
    pub closed spec fn entities(&self) -> Seq<EntityId> {
        self.dirty_entities@
    }

    /// Components whose data must be written.
    pub closed spec fn components(&self) -> Seq<(EntityId, Symbol)> {
        self.dirty_components@
    }

    /// Entities whose storage entries must be removed.
    pub closed spec fn despawned_ids(&self) -> Seq<EntityId> {
        self.despawned@
    }

    /// Entities spawned since the last flush.
    pub closed spec fn new_ids(&self) -> Seq<EntityId> {
        self.new_entities@
    }

    /// Whether the world metadata must be written.
    pub closed spec fn meta(&self) -> bool {
        self.meta_dirty
    }

    /// Whether anything must be written.
    pub open spec fn spec_is_dirty(&self) -> bool {
        ||| self.meta()
        ||| self.entities().len() > 0
        ||| self.components().len() > 0
        ||| self.despawned_ids().len() > 0
        ||| self.new_ids().len() > 0
    }

    /// Whether every list holds each item at most once.
    pub open spec fn wf(&self) -> bool {
        &&& self.entities().no_duplicates()
        &&& self.components().no_duplicates()
        &&& self.despawned_ids().no_duplicates()
        &&& self.new_ids().no_duplicates()
    }

    /// Nothing to write.
    pub fn new() -> (t: DirtyTracker)
        ensures
            t.entities().len() == 0,
            t.components().len() == 0,
            t.despawned_ids().len() == 0,
            t.new_ids().len() == 0,
            !t.meta(),
            t.wf(),
    {
        DirtyTracker {
            dirty_entities: Vec::new(),
            dirty_components: Vec::new(),
            despawned: Vec::new(),
            new_entities: Vec::new(),
            meta_dirty: false,
        }
    }

    /// Marks the entity's component list as changed.
    pub fn mark_entity_dirty(&mut self, entity_id: EntityId)
        ensures
            final(self).entities() == push_new(old(self).entities(), entity_id),
            final(self).components() == old(self).components(),
            final(self).despawned_ids() == old(self).despawned_ids(),
            final(self).new_ids() == old(self).new_ids(),
            final(self).meta() == old(self).meta(),
            old(self).wf() ==> final(self).wf(),
    {
        if !ids_contain(&self.dirty_entities, entity_id) {
            self.dirty_entities.push(entity_id);
        }
    }

    /// Marks one component of an entity as changed.
    pub fn mark_component_dirty(&mut self, entity_id: EntityId, component_type: Symbol)
        ensures
            final(self).components() == push_new(old(self).components(), (entity_id, component_type)),
            final(self).entities() == old(self).entities(),
            final(self).despawned_ids() == old(self).despawned_ids(),
            final(self).new_ids() == old(self).new_ids(),
            final(self).meta() == old(self).meta(),
            old(self).wf() ==> final(self).wf(),
    {
        let mut found = false;
        let mut i: usize = 0;
        while i < self.dirty_components.len() && !found
            invariant
                i <= self.dirty_components@.len(),
                !found ==> forall|j: int| 0 <= j < i ==> self.dirty_components@[j] != (entity_id, component_type),
                found ==> self.dirty_components@.contains((entity_id, component_type)),
            decreases self.dirty_components@.len() - i,
        {
            if self.dirty_components[i].0 == entity_id && self.dirty_components[i].1 == component_type {
                assert(self.dirty_components@[i as int] == (entity_id, component_type));
                found = true;
            }
            i = i + 1;
        }
        if !found {
            self.dirty_components.push((entity_id, component_type));
            proof {
                assert(!old(self).components().contains((entity_id, component_type)));
            }
        }
    }

    /// Marks the entity as despawned: its storage entries must go.
    pub fn mark_despawned(&mut self, entity_id: EntityId)
        ensures
            final(self).despawned_ids() == push_new(old(self).despawned_ids(), entity_id),
            final(self).entities() == old(self).entities(),
            final(self).components() == old(self).components(),
            final(self).new_ids() == old(self).new_ids(),
            final(self).meta() == old(self).meta(),
            old(self).wf() ==> final(self).wf(),
    {
        if !ids_contain(&self.despawned, entity_id) {
            self.despawned.push(entity_id);
        }
    }

    /// Records a newly spawned entity; the metadata changes with it.
    pub fn mark_new_entity(&mut self, entity_id: EntityId)
        ensures
            final(self).new_ids() == push_new(old(self).new_ids(), entity_id),
            final(self).entities() == old(self).entities(),
            final(self).components() == old(self).components(),
            final(self).despawned_ids() == old(self).despawned_ids(),
            final(self).meta(),
            old(self).wf() ==> final(self).wf(),
    {
        if !ids_contain(&self.new_entities, entity_id) {
            self.new_entities.push(entity_id);
        }
        self.meta_dirty = true;
    }

    /// Marks the world metadata as changed.
    pub fn mark_meta_dirty(&mut self)
        ensures
            final(self).meta(),
            final(self).entities() == old(self).entities(),
            final(self).components() == old(self).components(),
            final(self).despawned_ids() == old(self).despawned_ids(),
            final(self).new_ids() == old(self).new_ids(),
            old(self).wf() ==> final(self).wf(),
    {
        self.meta_dirty = true;
    }

    /// Whether anything must be written.
    pub fn is_dirty(&self) -> (r: bool)
        ensures
            r == self.spec_is_dirty(),
    {
        self.meta_dirty || self.dirty_entities.len() > 0 || self.dirty_components.len() > 0
            || self.despawned.len() > 0 || self.new_entities.len() > 0
    }

    /// Entities whose component list must be written, in marking order.
    pub fn dirty_entities(&self) -> (r: &[EntityId])
        ensures
            r@ == self.entities(),
    {
        self.dirty_entities.as_slice()
    }

    /// Components whose data must be written, in marking order.
    pub fn dirty_components(&self) -> (r: &[(EntityId, Symbol)])
        ensures
            r@ == self.components(),
    {
        self.dirty_components.as_slice()
    }

    /// Despawned entities, in marking order.
    pub fn despawned(&self) -> (r: &[EntityId])
        ensures
            r@ == self.despawned_ids(),
    {
        self.despawned.as_slice()
    }

    /// Newly spawned entities, in marking order.
    pub fn new_entities(&self) -> (r: &[EntityId])
        ensures
            r@ == self.new_ids(),
    {
        self.new_entities.as_slice()
    }

    /// Whether the world metadata must be written.
    pub fn is_meta_dirty(&self) -> (r: bool)
        ensures
            r == self.meta(),
    {
        self.meta_dirty
    }

    /// Forgets everything marked (after a flush).
    pub fn clear(&mut self)
        ensures
            final(self).entities().len() == 0,
            final(self).components().len() == 0,
            final(self).despawned_ids().len() == 0,
            final(self).new_ids().len() == 0,
            !final(self).meta(),
            final(self).wf(),
    {
        self.dirty_entities.clear();
        self.dirty_components.clear();
        self.despawned.clear();
        self.new_entities.clear();
        self.meta_dirty = false;
    }
}

/// Marking an item a second time changes nothing.
pub proof fn law_mark_idempotent<A>(s: Seq<A>, x: A)
    ensures
        push_new(push_new(s, x), x) == push_new(s, x),
{
    if !s.contains(x) {
        assert(s.push(x)[s.len() as int] == x);
    }
}

/// Marking keeps each list free of repeats.
pub proof fn law_mark_no_duplicates<A>(s: Seq<A>, x: A)
    requires
        s.no_duplicates(),
    ensures
        push_new(s, x).no_duplicates(),
        push_new(s, x).contains(x),
{
    if !s.contains(x) {
        assert(s.push(x)[s.len() as int] == x);
    }
}

} // verus!
