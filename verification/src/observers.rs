//! Observers: callbacks run right after a component of a given type is
//! added to or removed from an entity.

use vstd::prelude::*;
use crate::simple_world::{EntityId, SimpleWorld};
use crate::symbol::{copy_syms, Symbol};

verus! {

/// Whether a component was added or removed.
#[derive(Clone, Copy, Debug, PartialEq, Eq, Structural)]
pub enum ComponentEventKind {
    Added,
    Removed,
}

/// A component change, as handed to observers.
#[derive(Clone, Copy, Debug, PartialEq, Eq, Structural)]
pub struct ComponentEvent {
    pub entity_id: EntityId,
    pub component_type: Symbol,
    pub kind: ComponentEventKind,
}

/// Whether an observer registered as `entry` is run for `event`.
pub open spec fn observes<O>(entry: (Symbol, ComponentEventKind, O), event: ComponentEvent) -> bool {
    entry.0 == event.component_type && entry.1 == event.kind
}

/// The positions `0, 1, ..` of a list of entries.
pub open spec fn positions<O>(entries: Seq<(Symbol, ComponentEventKind, O)>) -> Seq<usize> {
    Seq::new(entries.len(), |i: int| i as usize)
}

/// "The entry at this position is run for `event`".
pub open spec fn runs_for<O>(entries: Seq<(Symbol, ComponentEventKind, O)>, event: ComponentEvent) -> spec_fn(usize) -> bool {
    |i: usize| observes(entries[i as int], event)
}

/// The positions, in order, of the entries run for `event`.
pub open spec fn matching_positions<O>(entries: Seq<(Symbol, ComponentEventKind, O)>, event: ComponentEvent) -> Seq<usize> {
    positions(entries).filter(runs_for(entries, event))
}

/// Whether every observer of `entries` registered for `event` was run
/// with `event`, `world` and `env`: its call's postcondition holds.
pub open spec fn ran_observers<O: Fn(&ComponentEvent, &SimpleWorld, &soroban_sdk::Env)>(
    entries: Seq<(Symbol, ComponentEventKind, O)>,
    event: ComponentEvent,
    world: SimpleWorld,
    env: soroban_sdk::Env,
) -> bool {
    forall|k: int| 0 <= k < matching_positions(entries, event).len()
        ==> call_ensures(entries[#[trigger] matching_positions(entries, event)[k] as int].2, (&event, &world, &env), ())
}

/// Observers keyed by component type and event kind. `O` is the observer
/// type: something called with the event, the world after the change and
/// the environment.
pub struct ObserverRegistry<O> {
    observers: Vec<(Symbol, ComponentEventKind, O)>,
}

impl<O: Fn(&ComponentEvent, &SimpleWorld, &soroban_sdk::Env)> ObserverRegistry<O> {
    /// The registered observers, in registration order.
    pub closed spec fn entries(&self) -> Seq<(Symbol, ComponentEventKind, O)> {
        self.observers@
    }

    /// Whether every registered observer may be called with any event,
    /// world and environment.
    pub open spec fn callable(&self) -> bool {
        forall|i: int, ev: ComponentEvent, w: SimpleWorld, en: soroban_sdk::Env|
            0 <= i < self.entries().len() ==> #[trigger] call_requires(self.entries()[i].2, (&ev, &w, &en))
    }

    /// A registry without observers.
    pub fn new() -> (r: Self)
        ensures
            r.entries() == Seq::<(Symbol, ComponentEventKind, O)>::empty(),
    {
        ObserverRegistry { observers: Vec::new() }
    }

    /// Registers `observer` for additions of `component_type`.
    pub fn on_add(&mut self, component_type: Symbol, observer: O)
        ensures
            final(self).entries() == old(self).entries().push((component_type, ComponentEventKind::Added, observer)),
    {
        self.observers.push((component_type, ComponentEventKind::Added, observer));
    }

    /// Registers `observer` for removals of `component_type`.
    pub fn on_remove(&mut self, component_type: Symbol, observer: O)
        ensures
            final(self).entries() == old(self).entries().push((component_type, ComponentEventKind::Removed, observer)),
    {
        self.observers.push((component_type, ComponentEventKind::Removed, observer));
    }

    /// The positions of the observers that `event` runs, in order.
    pub fn matching(&self, event: &ComponentEvent) -> (r: Vec<usize>)
        ensures
            r@ == matching_positions(self.entries(), *event),
    {
        let ghost all = positions(self.observers@);
        let ghost p = runs_for(self.observers@, *event);
        let mut r: Vec<usize> = Vec::new();
        let mut i: usize = 0;
        while i < self.observers.len()
            invariant
                i <= self.observers@.len(),
                all == positions(self.observers@),
                p == runs_for(self.observers@, *event),
                r@ == all.take(i as int).filter(p),
            decreases self.observers@.len() - i,
        {
            proof {
                all.lemma_take_succ_push(i as int);
                all.take(i as int).lemma_filter_push(i, p);
            }
            if self.observers[i].0 == event.component_type && self.observers[i].1 == event.kind {
                r.push(i);
            }
            i = i + 1;
        }
        proof {
            assert(all.take(all.len() as int) =~= all);
        }
        r
    }

    /// Runs, in registration order, every observer registered for the
    /// event's component type and kind.
    pub fn fire(&self, event: &ComponentEvent, world: &SimpleWorld, env: &soroban_sdk::Env)
        requires
            self.callable(),
        ensures
            ran_observers(self.entries(), *event, *world, *env),
    {
        let hits = self.matching(event);
        let mut k: usize = 0;
        while k < hits.len()
            invariant
                self.callable(),
                k <= hits@.len(),
                hits@ == matching_positions(self.entries(), *event),
                forall|j: int| 0 <= j < k ==> call_ensures(self.entries()[#[trigger] hits@[j] as int].2, (event, world, env), ()),
            decreases hits@.len() - k,
        {
            let i = hits[k];
            proof {
                let all = positions(self.entries());
                let p = runs_for(self.entries(), *event);
                assert(all.filter(p)[k as int] == i);
                assert(all.filter(p).contains(i));
                all.lemma_filter_contains_rev(p, i);
                let j = choose|j: int| 0 <= j < all.len() && all[j] == i;
                assert(i < self.entries().len());
                assert(call_requires(self.entries()[i as int].2, (event, world, env)));
            }
            (self.observers[i].2)(event, world, env);
            k = k + 1;
        }
    }

    /// The number of registered observers.
    pub fn observer_count(&self) -> (n: usize)
        ensures
            n == self.entries().len(),
    {
        self.observers.len()
    }
}

/// The removal events of the components `ts` of entity `e`, in order,
/// each handed to observers with the world `w`.
pub open spec fn removal_notifications(e: EntityId, ts: Seq<Symbol>, w: SimpleWorld) -> Seq<(ComponentEvent, SimpleWorld)> {
    ts.map_values(|t: Symbol| (ComponentEvent { entity_id: e, component_type: t, kind: ComponentEventKind::Removed }, w))
}

/// A world whose component additions and removals run observers, after
/// the change, with the changed world.
pub struct ObservedWorld<O> {
    world: SimpleWorld,
    observers: ObserverRegistry<O>,
    notified: Ghost<Seq<(ComponentEvent, SimpleWorld)>>,
}

impl<O: Fn(&ComponentEvent, &SimpleWorld, &soroban_sdk::Env)> ObservedWorld<O> {
    /// The wrapped world.
    pub closed spec fn spec_world(&self) -> SimpleWorld {
        self.world
    }

    /// The observers.
    pub closed spec fn spec_observers(&self) -> ObserverRegistry<O> {
        self.observers
    }

    /// The events the observers were run for so far, in order, each with
    /// the world they were handed.
    pub closed spec fn notifications(&self) -> Seq<(ComponentEvent, SimpleWorld)> {
        self.notified@
    }

    /// Wraps `world`, with no observers.
    pub fn new(world: SimpleWorld) -> (r: Self)
        ensures
            r.spec_world() == world,
            r.spec_observers().entries().len() == 0,
            r.notifications().len() == 0,
    {
        ObservedWorld { world, observers: ObserverRegistry::new(), notified: Ghost(Seq::empty()) }
    }

    /// Wraps `world` with these observers.
    pub fn with_observers(world: SimpleWorld, observers: ObserverRegistry<O>) -> (r: Self)
        ensures
            r.spec_world() == world,
            r.spec_observers() == observers,
            r.notifications().len() == 0,
    {
        ObservedWorld { world, observers, notified: Ghost(Seq::empty()) }
    }

    /// The wrapped world.
    pub fn world(&self) -> (w: &SimpleWorld)
        ensures
            *w == self.spec_world(),
    {
        &self.world
    }

    /// The wrapped world, for changing it without running observers.
    pub fn world_mut(&mut self) -> (w: &mut SimpleWorld)
        ensures
            *w == old(self).spec_world(),
            final(self).spec_world() == *final(w),
            final(self).spec_observers() == old(self).spec_observers(),
            final(self).notifications() == old(self).notifications(),
    {
        &mut self.world
    }

    /// The observers.
    pub fn observers(&self) -> (r: &ObserverRegistry<O>)
        ensures
            *r == self.spec_observers(),
    {
        &self.observers
    }

    /// The observers, for registering more.
    pub fn observers_mut(&mut self) -> (r: &mut ObserverRegistry<O>)
        ensures
            *r == old(self).spec_observers(),
            final(self).spec_observers() == *final(r),
            final(self).spec_world() == old(self).spec_world(),
            final(self).notifications() == old(self).notifications(),
    {
        &mut self.observers
    }

    /// The wrapped world, handed back.
    pub fn into_inner(self) -> (w: SimpleWorld)
        ensures
            w == self.spec_world(),
    {
        self.world
    }

    /// Hands out the next entity id.
    pub fn spawn_entity(&mut self) -> (id: EntityId)
        requires
            old(self).spec_world().next_entity_id < u32::MAX,
        ensures
            id == old(self).spec_world().next_entity_id,
            final(self).spec_world().next_entity_id == old(self).spec_world().next_entity_id + 1,
            final(self).spec_world().version == old(self).spec_world().version,
            final(self).spec_world().components == old(self).spec_world().components,
            final(self).spec_world().sparse_components == old(self).spec_world().sparse_components,
            final(self).spec_world().entity_components == old(self).spec_world().entity_components,
            final(self).spec_observers() == old(self).spec_observers(),
            final(self).notifications() == old(self).notifications(),
    {
        self.world.spawn_entity()
    }

    /// Adds (or replaces) a table component, then runs the observers of
    /// its addition.
    pub fn add_component(&mut self, entity_id: EntityId, component_type: Symbol, data: Vec<u8>, env: &soroban_sdk::Env)
        requires
            old(self).spec_world().wf(),
            old(self).spec_world().version < u64::MAX,
            old(self).spec_observers().callable(),
        ensures
            final(self).spec_world().wf(),
            final(self).spec_observers() == old(self).spec_observers(),
            final(self).spec_world().version == old(self).spec_world().version + 1,
            final(self).spec_world().next_entity_id == old(self).spec_world().next_entity_id,
            final(self).spec_world().spec_get(entity_id, component_type) == Some(data@),
            forall|e: EntityId, t: Symbol| (e, t) != (entity_id, component_type)
                ==> #[trigger] final(self).spec_world().spec_get(e, t) == old(self).spec_world().spec_get(e, t),
            final(self).spec_world().types_of(entity_id) == if old(self).spec_world().types_of(entity_id).contains(component_type) {
                old(self).spec_world().types_of(entity_id)
            } else {
                old(self).spec_world().types_of(entity_id).push(component_type)
            },
            forall|e: EntityId| e != entity_id ==> #[trigger] final(self).spec_world().types_of(e) == old(self).spec_world().types_of(e),
            final(self).notifications() == old(self).notifications().push(
                (ComponentEvent { entity_id, component_type, kind: ComponentEventKind::Added }, final(self).spec_world())),
            ran_observers(final(self).spec_observers().entries(),
                ComponentEvent { entity_id, component_type, kind: ComponentEventKind::Added }, final(self).spec_world(), *env),
    {
        self.world.add_component(entity_id, component_type, data);
        let event = ComponentEvent { entity_id, component_type, kind: ComponentEventKind::Added };
        self.observers.fire(&event, &self.world, env);
        proof {
            self.notified@ = self.notified@.push((event, self.world));
        }
    }

    /// Removes a component; when the entity had one, runs the observers of
    /// its removal. Returns whether it had one.
    pub fn remove_component(&mut self, entity_id: EntityId, component_type: &Symbol, env: &soroban_sdk::Env) -> (removed: bool)
        requires
            old(self).spec_world().wf(),
            old(self).spec_world().version < u64::MAX,
            old(self).spec_observers().callable(),
        ensures
            final(self).spec_world().wf(),
            final(self).spec_observers() == old(self).spec_observers(),
            removed == old(self).spec_world().spec_has(entity_id, *component_type),
            final(self).spec_world().version == (if removed { old(self).spec_world().version + 1 } else { old(self).spec_world().version as int }),
            !final(self).spec_world().spec_has(entity_id, *component_type),
            forall|e: EntityId, t: Symbol| (e, t) != (entity_id, *component_type)
                ==> #[trigger] final(self).spec_world().spec_get(e, t) == old(self).spec_world().spec_get(e, t),
            final(self).spec_world().types_of(entity_id) == crate::symbol::without_sym(old(self).spec_world().types_of(entity_id), *component_type),
            forall|e: EntityId| e != entity_id ==> #[trigger] final(self).spec_world().types_of(e) == old(self).spec_world().types_of(e),
            final(self).notifications() == if removed {
                old(self).notifications().push(
                    (ComponentEvent { entity_id, component_type: *component_type, kind: ComponentEventKind::Removed }, final(self).spec_world()))
            } else {
                old(self).notifications()
            },
            removed ==> ran_observers(final(self).spec_observers().entries(),
                ComponentEvent { entity_id, component_type: *component_type, kind: ComponentEventKind::Removed },
                final(self).spec_world(), *env),
    {
        let removed = self.world.remove_component(entity_id, component_type);
        if removed {
            let event = ComponentEvent { entity_id, component_type: *component_type, kind: ComponentEventKind::Removed };
            self.observers.fire(&event, &self.world, env);
            proof {
                self.notified@ = self.notified@.push((event, self.world));
            }
        }
        removed
    }

    /// The entity's data for this component type, if it has one.
    pub fn get_component(&self, entity_id: EntityId, component_type: &Symbol) -> (r: Option<Vec<u8>>)
        requires
            self.spec_world().wf(),
        ensures
            r matches Some(d) ==> self.spec_world().spec_get(entity_id, *component_type) == Some(d@),
            r is None ==> self.spec_world().spec_get(entity_id, *component_type) is None,
    {
        self.world.get_component(entity_id, component_type)
    }

    /// Whether the entity has a component of this type.
    pub fn has_component(&self, entity_id: EntityId, component_type: &Symbol) -> (r: bool)
        requires
            self.spec_world().wf(),
        ensures
            r == self.spec_world().spec_has(entity_id, *component_type),
    {
        self.world.has_component(entity_id, component_type)
    }

    /// Removes the entity, then runs the removal observers of each of its
    /// components, in the order of its types, with the changed world.
    pub fn despawn_entity(&mut self, entity_id: EntityId, env: &soroban_sdk::Env)
        requires
            old(self).spec_world().wf(),
            old(self).spec_world().version < u64::MAX,
            old(self).spec_observers().callable(),
        ensures
            final(self).spec_world().wf(),
            final(self).spec_observers() == old(self).spec_observers(),
            final(self).spec_world().version == old(self).spec_world().version + 1,
            final(self).spec_world().next_entity_id == old(self).spec_world().next_entity_id,
            forall|t: Symbol| !#[trigger] final(self).spec_world().spec_has(entity_id, t),
            forall|e: EntityId, t: Symbol| e != entity_id
                ==> #[trigger] final(self).spec_world().spec_get(e, t) == old(self).spec_world().spec_get(e, t),
            !final(self).spec_world().entity_components@.contains_key(entity_id),
            forall|e: EntityId| e != entity_id ==> #[trigger] final(self).spec_world().types_of(e) == old(self).spec_world().types_of(e),
            final(self).notifications() == old(self).notifications()
                + removal_notifications(entity_id, old(self).spec_world().types_of(entity_id), final(self).spec_world()),
            forall|j: int| 0 <= j < old(self).spec_world().types_of(entity_id).len() ==> ran_observers(
                final(self).spec_observers().entries(),
                ComponentEvent { entity_id, component_type: #[trigger] old(self).spec_world().types_of(entity_id)[j], kind: ComponentEventKind::Removed },
                final(self).spec_world(), *env),
    {
        let types = match self.world.entity_components.get(entity_id) {
            Some(t) => copy_syms(t),
            None => Vec::new(),
        };
        assert(types@ == old(self).spec_world().types_of(entity_id));
        self.world.despawn_entity(entity_id);
        let ghost start = self.notified@;
        let ghost after = self.world;
        let mut i: usize = 0;
        while i < types.len()
            invariant
                i <= types@.len(),
                self.observers.callable(),
                self.observers == old(self).spec_observers(),
                self.world == after,
                self.notified@ == start + removal_notifications(entity_id, types@.take(i as int), self.world),
                forall|j: int| 0 <= j < i ==> ran_observers(self.observers.entries(),
                    ComponentEvent { entity_id, component_type: #[trigger] types@[j], kind: ComponentEventKind::Removed },
                    self.world, *env),
            decreases types@.len() - i,
        {
            let event = ComponentEvent { entity_id, component_type: types[i], kind: ComponentEventKind::Removed };
            self.observers.fire(&event, &self.world, env);
            proof {
                self.notified@ = self.notified@.push((event, self.world));
                assert(removal_notifications(entity_id, types@.take(i as int + 1), self.world)
                    =~= removal_notifications(entity_id, types@.take(i as int), self.world).push((event, self.world)));
            }
            i = i + 1;
        }
        assert(types@.take(types@.len() as int) =~= types@);
    }
}

} // verus!
