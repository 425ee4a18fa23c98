//! Recording which components were added, removed or modified during a
//! tick, so that systems can skip what did not change.

use vstd::prelude::*;
use crate::commands::{CommandView, step};
use crate::component::ComponentStorage;
use crate::simple_world::{EntityId, SimpleWorld};
use crate::symbol::Symbol;

verus! {

/// The entities of the records of `log` whose type is `t`, in order.
pub open spec fn entities_with(log: Seq<(EntityId, Symbol)>, t: Symbol) -> Seq<EntityId>
    decreases log.len(),
{
    if log.len() == 0 {
        Seq::empty()
    } else {
        let rest = entities_with(log.drop_last(), t);
        if log.last().1 == t {
            rest.push(log.last().0)
        } else {
            rest
        }
    }
}

/// The records of entity `e` having each of `types` removed.
pub open spec fn removal_records(e: EntityId, types: Seq<Symbol>) -> Seq<(EntityId, Symbol)> {
    types.map_values(|t: Symbol| (e, t))
}

/// Component changes recorded during the current tick.
pub struct ChangeTracker {
    added: Vec<(EntityId, Symbol)>,
    removed: Vec<(EntityId, Symbol)>,
    modified: Vec<(EntityId, Symbol)>,
    tick: u64,
}

/// Whether `log` holds the record `(e, t)`.
fn log_contains(log: &Vec<(EntityId, Symbol)>, e: EntityId, t: Symbol) -> (r: bool)
    ensures
        r == log@.contains((e, t)),
{
    let mut i: usize = 0;
    while i < log.len()
        invariant
            i <= log@.len(),
            forall|j: int| 0 <= j < i ==> log@[j] != (e, t),
        decreases log@.len() - i,
    {
        if log[i].0 == e && log[i].1 == t {
            assert(log@[i as int] == (e, t));
            return true;
        }
        i = i + 1;
    }
    false
}

/// The entities of the records of `log` whose type is `t`.
fn log_entities_with(log: &Vec<(EntityId, Symbol)>, t: Symbol) -> (r: Vec<EntityId>)
    ensures
        r@ == entities_with(log@, t),
{
    let mut r: Vec<EntityId> = Vec::new();
    let mut i: usize = 0;
    while i < log.len()
        invariant
            i <= log@.len(),
            r@ == entities_with(log@.take(i as int), t),
        decreases log@.len() - i,
    {
        proof {
            assert(log@.take(i as int + 1).drop_last() =~= log@.take(i as int));
            assert(log@.take(i as int + 1).last() == log@[i as int]);
        }
        if log[i].1 == t {
            r.push(log[i].0);
        }
        i = i + 1;
    }
    proof {
        assert(log@.take(log@.len() as int) =~= log@);
    }
    r
}

impl ChangeTracker {
    /// Additions recorded this tick, in order.
    pub closed spec fn added_log(&self) -> Seq<(EntityId, Symbol)> {
        self.added@
    }

    /// Removals recorded this tick, in order.
    pub closed spec fn removed_log(&self) -> Seq<(EntityId, Symbol)> {
        self.removed@
    }

    /// Modifications recorded this tick, in order.
    pub closed spec fn modified_log(&self) -> Seq<(EntityId, Symbol)> {
        self.modified@
    }

    /// The tick counter.
    pub closed spec fn spec_tick(&self) -> u64 {
        self.tick
    }

    /// No records, at tick 0.
    pub fn new() -> (t: ChangeTracker)
        ensures
            t.added_log().len() == 0,
            t.removed_log().len() == 0,
            t.modified_log().len() == 0,
            t.spec_tick() == 0,
    {
        ChangeTracker { added: Vec::new(), removed: Vec::new(), modified: Vec::new(), tick: 0 }
    }

    /// Records that the entity got a component of this type.
    pub fn record_add(&mut self, entity_id: EntityId, component_type: Symbol)
        ensures
            final(self).added_log() == old(self).added_log().push((entity_id, component_type)),
            final(self).removed_log() == old(self).removed_log(),
            final(self).modified_log() == old(self).modified_log(),
            final(self).spec_tick() == old(self).spec_tick(),
    {
        self.added.push((entity_id, component_type));
    }

    /// Records that the entity lost its component of this type.
    pub fn record_remove(&mut self, entity_id: EntityId, component_type: Symbol)
        ensures
            final(self).removed_log() == old(self).removed_log().push((entity_id, component_type)),
            final(self).added_log() == old(self).added_log(),
            final(self).modified_log() == old(self).modified_log(),
            final(self).spec_tick() == old(self).spec_tick(),
    {
        self.removed.push((entity_id, component_type));
    }

    /// Records that the entity's component of this type changed.
    pub fn record_modify(&mut self, entity_id: EntityId, component_type: Symbol)
        ensures
            final(self).modified_log() == old(self).modified_log().push((entity_id, component_type)),
            final(self).added_log() == old(self).added_log(),
            final(self).removed_log() == old(self).removed_log(),
            final(self).spec_tick() == old(self).spec_tick(),
    {
        self.modified.push((entity_id, component_type));
    }

    /// Whether an addition of this component was recorded this tick.
    pub fn was_added(&self, entity_id: EntityId, component_type: &Symbol) -> (r: bool)
        ensures
            r == self.added_log().contains((entity_id, *component_type)),
    {
        log_contains(&self.added, entity_id, *component_type)
    }

    /// Whether a removal of this component was recorded this tick.
    pub fn was_removed(&self, entity_id: EntityId, component_type: &Symbol) -> (r: bool)
        ensures
            r == self.removed_log().contains((entity_id, *component_type)),
    {
        log_contains(&self.removed, entity_id, *component_type)
    }

    /// Whether a modification of this component was recorded this tick.
    pub fn was_modified(&self, entity_id: EntityId, component_type: &Symbol) -> (r: bool)
        ensures
            r == self.modified_log().contains((entity_id, *component_type)),
    {
        log_contains(&self.modified, entity_id, *component_type)
    }

    /// The entities recorded as getting a component of this type, in order.
    pub fn added_entities_with(&self, component_type: &Symbol) -> (r: Vec<EntityId>)
        ensures
            r@ == entities_with(self.added_log(), *component_type),
    {
        log_entities_with(&self.added, *component_type)
    }

    /// The entities recorded as changing a component of this type, in order.
    pub fn modified_entities_with(&self, component_type: &Symbol) -> (r: Vec<EntityId>)
        ensures
            r@ == entities_with(self.modified_log(), *component_type),
    {
        log_entities_with(&self.modified, *component_type)
    }

    /// The entities recorded as losing a component of this type, in order.
    pub fn removed_entities_with(&self, component_type: &Symbol) -> (r: Vec<EntityId>)
        ensures
            r@ == entities_with(self.removed_log(), *component_type),
    {
        log_entities_with(&self.removed, *component_type)
    }

    /// Forgets the records (between ticks); the tick stays.
    pub fn clear(&mut self)
        ensures
            final(self).added_log().len() == 0,
            final(self).removed_log().len() == 0,
            final(self).modified_log().len() == 0,
            final(self).spec_tick() == old(self).spec_tick(),
    {
        self.added.clear();
        self.removed.clear();
        self.modified.clear();
    }

    /// The tick counter.
    pub fn tick(&self) -> (t: u64)
        ensures
            t == self.spec_tick(),
    {
        self.tick
    }

    /// Moves to the next tick.
    pub fn advance_tick(&mut self)
        requires
            old(self).spec_tick() < u64::MAX,
        ensures
            final(self).spec_tick() == old(self).spec_tick() + 1,
            final(self).added_log() == old(self).added_log(),
            final(self).removed_log() == old(self).removed_log(),
            final(self).modified_log() == old(self).modified_log(),
    {
        self.tick = self.tick + 1;
    }

    /// The number of records.
    pub fn change_count(&self) -> (n: usize)
        requires
            self.added_log().len() + self.removed_log().len() + self.modified_log().len() <= usize::MAX,
        ensures
            n == self.added_log().len() + self.removed_log().len() + self.modified_log().len(),
    {
        self.added.len() + self.removed.len() + self.modified.len()
    }
}

impl Default for ChangeTracker {
    fn default() -> (t: ChangeTracker)
        ensures
            t.added_log().len() == 0,
            t.removed_log().len() == 0,
            t.modified_log().len() == 0,
            t.spec_tick() == 0,
    {
        ChangeTracker::new()
    }
}

/// A world whose component changes are recorded in a change tracker.
pub struct TrackedWorld {
    world: SimpleWorld,
    tracker: ChangeTracker,
}

impl TrackedWorld {
    /// The wrapped world.
    pub closed spec fn spec_world(&self) -> SimpleWorld {
        self.world
    }

    /// The tracker.
    pub closed spec fn spec_tracker(&self) -> ChangeTracker {
        self.tracker
    }

    /// Wraps `world` with an empty tracker.
    pub fn new(world: SimpleWorld) -> (r: TrackedWorld)
        ensures
            r.spec_world() == world,
            r.spec_tracker().added_log().len() == 0,
            r.spec_tracker().removed_log().len() == 0,
            r.spec_tracker().modified_log().len() == 0,
            r.spec_tracker().spec_tick() == 0,
    {
        TrackedWorld { world, tracker: ChangeTracker::new() }
    }

    /// The wrapped world.
    pub fn world(&self) -> (w: &SimpleWorld)
        ensures
            *w == self.spec_world(),
    {
        &self.world
    }

    /// The wrapped world, for changes that are not recorded.
    pub fn world_mut(&mut self) -> (w: &mut SimpleWorld)
        ensures
            *w == old(self).spec_world(),
            final(self).spec_world() == *final(w),
            final(self).spec_tracker() == old(self).spec_tracker(),
    {
        &mut self.world
    }

    /// The tracker.
    pub fn tracker(&self) -> (t: &ChangeTracker)
        ensures
            *t == self.spec_tracker(),
    {
        &self.tracker
    }

    /// The tracker, for clearing it or advancing the tick.
    pub fn tracker_mut(&mut self) -> (t: &mut ChangeTracker)
        ensures
            *t == old(self).spec_tracker(),
            final(self).spec_tracker() == *final(t),
            final(self).spec_world() == old(self).spec_world(),
    {
        &mut self.tracker
    }

    /// The wrapped world, handed back.
    pub fn into_inner(self) -> (w: SimpleWorld)
        ensures
            w == self.spec_world(),
    {
        self.world
    }

    /// Hands out the next entity id (nothing is recorded).
    pub fn spawn_entity(&mut self) -> (id: EntityId)
        requires
            old(self).spec_world().next_entity_id < u32::MAX,
        ensures
            id == old(self).spec_world().next_entity_id,
            final(self).spec_world().model() == step(old(self).spec_world().model(), CommandView::Spawn),
            old(self).spec_world().wf() ==> final(self).spec_world().wf(),
            final(self).spec_tracker() == old(self).spec_tracker(),
    {
        let id = self.world.spawn_entity();
        assert(self.world.model() =~= step(old(self).world.model(), CommandView::Spawn));
        id
    }

    /// Adds (or replaces) a table component; records a modification when
    /// the entity had one of this type, an addition otherwise.
    pub fn add_component(&mut self, entity_id: EntityId, component_type: Symbol, data: Vec<u8>)
        requires
            old(self).spec_world().wf(),
            old(self).spec_world().version < u64::MAX,
        ensures
            final(self).spec_world().wf(),
            final(self).spec_world().model() == step(old(self).spec_world().model(),
                CommandView::Add(entity_id, component_type, data@, ComponentStorage::Table)),
            old(self).spec_world().spec_has(entity_id, component_type) ==> {
                &&& final(self).spec_tracker().modified_log() == old(self).spec_tracker().modified_log().push((entity_id, component_type))
                &&& final(self).spec_tracker().added_log() == old(self).spec_tracker().added_log()
            },
            !old(self).spec_world().spec_has(entity_id, component_type) ==> {
                &&& final(self).spec_tracker().added_log() == old(self).spec_tracker().added_log().push((entity_id, component_type))
                &&& final(self).spec_tracker().modified_log() == old(self).spec_tracker().modified_log()
            },
            final(self).spec_tracker().removed_log() == old(self).spec_tracker().removed_log(),
            final(self).spec_tracker().spec_tick() == old(self).spec_tracker().spec_tick(),
    {
        self.add_component_with_storage(entity_id, component_type, data, ComponentStorage::Table)
    }

    /// Adds (or replaces) a component in the given storage; records a
    /// modification when the entity had one of this type, an addition
    /// otherwise.
    pub fn add_component_with_storage(&mut self, entity_id: EntityId, component_type: Symbol, data: Vec<u8>, storage: ComponentStorage)
        requires
            old(self).spec_world().wf(),
            old(self).spec_world().version < u64::MAX,
        ensures
            final(self).spec_world().wf(),
            final(self).spec_world().model() == step(old(self).spec_world().model(),
                CommandView::Add(entity_id, component_type, data@, storage)),
            old(self).spec_world().spec_has(entity_id, component_type) ==> {
                &&& final(self).spec_tracker().modified_log() == old(self).spec_tracker().modified_log().push((entity_id, component_type))
                &&& final(self).spec_tracker().added_log() == old(self).spec_tracker().added_log()
            },
            !old(self).spec_world().spec_has(entity_id, component_type) ==> {
                &&& final(self).spec_tracker().added_log() == old(self).spec_tracker().added_log().push((entity_id, component_type))
                &&& final(self).spec_tracker().modified_log() == old(self).spec_tracker().modified_log()
            },
            final(self).spec_tracker().removed_log() == old(self).spec_tracker().removed_log(),
            final(self).spec_tracker().spec_tick() == old(self).spec_tracker().spec_tick(),
    {
        let existed = self.world.has_component(entity_id, &component_type);
        let ghost d = data@;
        let ghost m = self.world.model();
        self.world.add_component_with_storage(entity_id, component_type, data, storage);
        assert(self.world.model() =~= step(m, CommandView::Add(entity_id, component_type, d, storage)));
        if existed {
            self.tracker.record_modify(entity_id, component_type);
        } else {
            self.tracker.record_add(entity_id, component_type);
        }
    }

    /// Removes a component; records the removal when the entity had one.
    /// Returns whether it had one.
    pub fn remove_component(&mut self, entity_id: EntityId, component_type: &Symbol) -> (removed: bool)
        requires
            old(self).spec_world().wf(),
            old(self).spec_world().version < u64::MAX,
        ensures
            final(self).spec_world().wf(),
            removed == old(self).spec_world().spec_has(entity_id, *component_type),
            final(self).spec_world().model() == step(old(self).spec_world().model(),
                CommandView::Remove(entity_id, *component_type)),
            final(self).spec_tracker().removed_log() == if removed {
                old(self).spec_tracker().removed_log().push((entity_id, *component_type))
            } else {
                old(self).spec_tracker().removed_log()
            },
            final(self).spec_tracker().added_log() == old(self).spec_tracker().added_log(),
            final(self).spec_tracker().modified_log() == old(self).spec_tracker().modified_log(),
            final(self).spec_tracker().spec_tick() == old(self).spec_tracker().spec_tick(),
    {
        let ghost m = self.world.model();
        let removed = self.world.remove_component(entity_id, component_type);
        assert(self.world.model() =~= step(m, CommandView::Remove(entity_id, *component_type)));
        if removed {
            self.tracker.record_remove(entity_id, *component_type);
        }
        removed
    }

    /// The entity's data for this component type, if it has one.
    pub fn get_component(&self, entity_id: EntityId, component_type: &Symbol) -> (r: Option<Vec<u8>>)
        requires
            self.spec_world().wf(),
        ensures
            r matches Some(d) ==> self.spec_world().spec_get(entity_id, *component_type) == Some(d@),
            r is None ==> self.spec_world().spec_get(entity_id, *component_type) is None,
    {
        self.world.get_component(entity_id, component_type)
    }

    /// Whether the entity has a component of this type.
    pub fn has_component(&self, entity_id: EntityId, component_type: &Symbol) -> (r: bool)
        requires
            self.spec_world().wf(),
        ensures
            r == self.spec_world().spec_has(entity_id, *component_type),
    {
        self.world.has_component(entity_id, component_type)
    }

    /// Records the removal of each of the entity's components, in the order
    /// of its types, then removes the entity.
    pub fn despawn_entity(&mut self, entity_id: EntityId)
        requires
            old(self).spec_world().wf(),
            old(self).spec_world().version < u64::MAX,
        ensures
            final(self).spec_world().wf(),
            final(self).spec_world().model() == step(old(self).spec_world().model(), CommandView::Despawn(entity_id)),
            final(self).spec_tracker().removed_log() == old(self).spec_tracker().removed_log()
                + removal_records(entity_id, old(self).spec_world().types_of(entity_id)),
            final(self).spec_tracker().added_log() == old(self).spec_tracker().added_log(),
            final(self).spec_tracker().modified_log() == old(self).spec_tracker().modified_log(),
            final(self).spec_tracker().spec_tick() == old(self).spec_tracker().spec_tick(),
    {
        let ghost base = self.tracker.removed_log();
        match self.world.entity_components.get(entity_id) {
            Some(types) => {
                let mut i: usize = 0;
                while i < types.len()
                    invariant
                        i <= types@.len(),
                        types@ == old(self).spec_world().types_of(entity_id),
                        self.world == old(self).world,
                        self.tracker.removed_log() == base + removal_records(entity_id, types@.take(i as int)),
                        self.tracker.added_log() == old(self).tracker.added_log(),
                        self.tracker.modified_log() == old(self).tracker.modified_log(),
                        self.tracker.spec_tick() == old(self).tracker.spec_tick(),
                    decreases types@.len() - i,
                {
                    let ghost before = self.tracker.removed_log();
                    self.tracker.record_remove(entity_id, types[i]);
                    proof {
                        assert(removal_records(entity_id, types@.take(i as int + 1))
                            =~= removal_records(entity_id, types@.take(i as int)).push((entity_id, types@[i as int])));
                    }
                    i = i + 1;
                }
                proof {
                    assert(types@.take(types@.len() as int) =~= types@);
                }
            },
            None => {
                proof {
                    assert(removal_records(entity_id, old(self).spec_world().types_of(entity_id)) =~= Seq::<(EntityId, Symbol)>::empty());
                    assert(self.tracker.removed_log() =~= base + Seq::<(EntityId, Symbol)>::empty());
                }
            },
        }
        let ghost m = self.world.model();
        self.world.despawn_entity(entity_id);
        assert(self.world.model() =~= step(m, CommandView::Despawn(entity_id)));
    }
}

} // verus!
