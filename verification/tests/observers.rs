use cougr_core::observers::{ComponentEvent, ComponentEventKind, ObservedWorld, ObserverRegistry};
use cougr_core::simple_world::SimpleWorld;
use cougr_core::symbol::Symbol;
use soroban_sdk::Env;
use std::cell::Cell;
use std::rc::Rc;

type Observer = Box<dyn Fn(&ComponentEvent, &SimpleWorld, &Env)>;

fn sym(s: &str) -> Symbol {
    Symbol::new(s)
}

fn counting(counter: &Rc<Cell<u32>>) -> Observer {
    let c = counter.clone();
    Box::new(move |_e: &ComponentEvent, _w: &SimpleWorld, _env: &Env| c.set(c.get() + 1))
}

fn noop() -> Observer {
    Box::new(|_e: &ComponentEvent, _w: &SimpleWorld, _env: &Env| {})
}

#[test]
fn test_registry_new() {
    let registry: ObserverRegistry<Observer> = ObserverRegistry::new();
    assert_eq!(registry.observer_count(), 0);
}

#[test]
fn test_registry_register() {
    let mut registry: ObserverRegistry<Observer> = ObserverRegistry::new();
    registry.on_add(sym("pos"), noop());
    registry.on_remove(sym("pos"), noop());
    assert_eq!(registry.observer_count(), 2);
}

#[test]
fn test_observer_fires_on_add() {
    let env = Env::default();
    let adds = Rc::new(Cell::new(0u32));
    let mut observed: ObservedWorld<Observer> = ObservedWorld::new(SimpleWorld::new(&env));
    observed.observers_mut().on_add(sym("pos"), counting(&adds));
    let e1 = observed.spawn_entity();
    observed.add_component(e1, sym("pos"), vec![1, 2, 3], &env);
    assert_eq!(adds.get(), 1);
    assert!(observed.has_component(e1, &sym("pos")));
}

#[test]
fn test_observer_fires_on_remove() {
    let env = Env::default();
    let removes = Rc::new(Cell::new(0u32));
    let mut observed: ObservedWorld<Observer> = ObservedWorld::new(SimpleWorld::new(&env));
    observed.observers_mut().on_remove(sym("pos"), counting(&removes));
    let e1 = observed.spawn_entity();
    observed.add_component(e1, sym("pos"), vec![1], &env);
    assert!(observed.remove_component(e1, &sym("pos"), &env));
    assert_eq!(removes.get(), 1);
}

#[test]
fn test_observer_not_fired_for_wrong_type() {
    let env = Env::default();
    let adds = Rc::new(Cell::new(0u32));
    let mut observed: ObservedWorld<Observer> = ObservedWorld::new(SimpleWorld::new(&env));
    observed.observers_mut().on_add(sym("vel"), counting(&adds));
    let e1 = observed.spawn_entity();
    observed.add_component(e1, sym("pos"), vec![1], &env);
    assert_eq!(adds.get(), 0);
}

#[test]
fn test_observed_world_despawn() {
    let env = Env::default();
    let removes = Rc::new(Cell::new(0u32));
    let before = removes.get();
    let mut observed: ObservedWorld<Observer> = ObservedWorld::new(SimpleWorld::new(&env));
    observed.observers_mut().on_remove(sym("a"), counting(&removes));
    observed.observers_mut().on_remove(sym("b"), counting(&removes));
    let e1 = observed.spawn_entity();
    observed.add_component(e1, sym("a"), vec![1], &env);
    observed.add_component(e1, sym("b"), vec![1], &env);
    observed.despawn_entity(e1, &env);
    let after = removes.get();
    assert_eq!(after - before, 2);
}

#[test]
fn test_observed_world_into_inner() {
    let env = Env::default();
    let mut observed: ObservedWorld<Observer> = ObservedWorld::new(SimpleWorld::new(&env));
    let e1 = observed.spawn_entity();
    observed.add_component(e1, sym("test"), vec![1], &env);
    let inner = observed.into_inner();
    assert!(inner.has_component(e1, &sym("test")));
}

#[test]
fn test_with_observers_constructor() {
    let env = Env::default();
    let mut observers: ObserverRegistry<Observer> = ObserverRegistry::new();
    observers.on_add(sym("pos"), noop());
    let observed = ObservedWorld::with_observers(SimpleWorld::new(&env), observers);
    assert_eq!(observed.observers().observer_count(), 1);
}

#[test]
fn matching_picks_type_and_kind_in_order() {
    let mut registry: ObserverRegistry<Observer> = ObserverRegistry::new();
    registry.on_add(sym("pos"), noop());
    registry.on_remove(sym("pos"), noop());
    registry.on_add(sym("vel"), noop());
    registry.on_add(sym("pos"), noop());
    let event = ComponentEvent { entity_id: 1, component_type: sym("pos"), kind: ComponentEventKind::Added };
    assert_eq!(registry.matching(&event), vec![0, 3]);
    let removal = ComponentEvent { entity_id: 1, component_type: sym("pos"), kind: ComponentEventKind::Removed };
    assert_eq!(registry.matching(&removal), vec![1]);
}

#[test]
fn observer_sees_world_after_change() {
    let env = Env::default();
    let seen = Rc::new(Cell::new(false));
    let s = seen.clone();
    let obs: Observer = Box::new(move |e: &ComponentEvent, w: &SimpleWorld, _env: &Env| {
        s.set(w.has_component(e.entity_id, &e.component_type));
    });
    let mut observed: ObservedWorld<Observer> = ObservedWorld::new(SimpleWorld::new(&env));
    observed.observers_mut().on_add(sym("pos"), obs);
    let e1 = observed.spawn_entity();
    observed.add_component(e1, sym("pos"), vec![3], &env);
    assert!(seen.get());
}

#[test]
fn despawn_observers_see_the_world_after_the_despawn() {
    let env = Env::default();
    let seen_present = Rc::new(Cell::new(0u32));
    let calls = Rc::new(Cell::new(0u32));
    let mut observed: ObservedWorld<Observer> = ObservedWorld::new(SimpleWorld::new(&env));
    let (p, c) = (seen_present.clone(), calls.clone());
    observed.observers_mut().on_remove(
        sym("pos"),
        Box::new(move |ev: &ComponentEvent, w: &SimpleWorld, _env: &Env| {
            c.set(c.get() + 1);
            if w.has_component(ev.entity_id, &ev.component_type) {
                p.set(p.get() + 1);
            }
        }),
    );
    let e = observed.spawn_entity();
    observed.add_component(e, sym("pos"), vec![1], &env);
    observed.despawn_entity(e, &env);
    assert_eq!(calls.get(), 1);
    assert_eq!(seen_present.get(), 0);
}
