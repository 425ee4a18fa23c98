use cougr_core::archetype_world::{archetype_query, Archetype, ArchetypeQueryCache, ArchetypeWorld};
use cougr_core::simple_world::SimpleWorld;
use cougr_core::symbol::Symbol;
use soroban_sdk::Env;

fn sym(s: &str) -> Symbol {
    Symbol::new(s)
}

#[test]
fn test_new_archetype() {
    let env = Env::default();
    let arch = Archetype::new(&env, 0, vec![sym("pos"), sym("vel")]);
    assert_eq!(arch.id, 0);
    assert_eq!(arch.entity_count(), 0);
    assert!(arch.has_component_type(&sym("pos")));
    assert!(arch.has_component_type(&sym("vel")));
    assert!(!arch.has_component_type(&sym("hp")));
}

#[test]
fn test_matches() {
    let env = Env::default();
    let arch = Archetype::new(&env, 0, vec![sym("pos"), sym("vel")]);
    assert!(arch.matches(&[sym("pos")]));
    assert!(arch.matches(&[sym("pos"), sym("vel")]));
    assert!(!arch.matches(&[sym("hp")]));
    assert!(!arch.matches(&[sym("pos"), sym("hp")]));
}

#[test]
fn archetype_test_add_and_get_component() {
    let env = Env::default();
    let mut arch = Archetype::new(&env, 0, vec![sym("pos")]);
    arch.add_entity(1);
    arch.set_component(1, sym("pos"), vec![10, 20]);
    assert_eq!(arch.entity_count(), 1);
    assert!(arch.contains_entity(1));
    assert_eq!(arch.get_component(1, &sym("pos")), Some(vec![10, 20]));
}

#[test]
fn test_remove_entity() {
    let env = Env::default();
    let mut arch = Archetype::new(&env, 0, vec![sym("pos"), sym("vel")]);
    arch.add_entity(1);
    arch.set_component(1, sym("pos"), vec![1]);
    arch.set_component(1, sym("vel"), vec![2]);
    let extracted = arch.remove_entity(1, &env);
    assert_eq!(arch.entity_count(), 0);
    assert!(!arch.contains_entity(1));
    assert_eq!(extracted.len(), 2);
}

#[test]
fn test_archetype_query_cache() {
    let env = Env::default();
    let mut world = ArchetypeWorld::new(&env);
    let e1 = world.spawn_entity();
    world.add_component(e1, sym("pos"), vec![1], &env);
    let mut cache = ArchetypeQueryCache::new(vec![sym("pos")]);
    let results = cache.execute(&world, &env);
    assert_eq!(results.len(), 1);
    let results2 = cache.execute(&world, &env);
    assert_eq!(results2.len(), 1);
    let e2 = world.spawn_entity();
    world.add_component(e2, sym("pos"), vec![2], &env);
    let results3 = cache.execute(&world, &env);
    assert_eq!(results3.len(), 2);
}

#[test]
fn test_archetype_query_cache_invalidate() {
    let env = Env::default();
    let mut world = ArchetypeWorld::new(&env);
    let e1 = world.spawn_entity();
    world.add_component(e1, sym("pos"), vec![1], &env);
    let mut cache = ArchetypeQueryCache::new(vec![sym("pos")]);
    cache.execute(&world, &env);
    cache.invalidate();
    let results = cache.execute(&world, &env);
    assert_eq!(results.len(), 1);
}

#[test]
fn test_archetype_query_with_exclusions() {
    let env = Env::default();
    let mut world = ArchetypeWorld::new(&env);
    let e1 = world.spawn_entity();
    let e2 = world.spawn_entity();
    world.add_component(e1, sym("pos"), vec![1], &env);
    world.add_component(e2, sym("pos"), vec![2], &env);
    world.add_component(e2, sym("dead"), vec![1], &env);
    let results = archetype_query(&world, &[sym("pos")], &[sym("dead")], &env);
    assert_eq!(results.len(), 1);
    assert_eq!(results.get(0), Some(&e1));
}

#[test]
fn test_archetype_query_no_exclusions() {
    let env = Env::default();
    let mut world = ArchetypeWorld::new(&env);
    let e1 = world.spawn_entity();
    world.add_component(e1, sym("pos"), vec![1], &env);
    let results = archetype_query(&world, &[sym("pos")], &[], &env);
    assert_eq!(results.len(), 1);
}

#[test]
fn test_new_world() {
    let env = Env::default();
    let world = ArchetypeWorld::new(&env);
    assert_eq!(world.next_entity_id, 1);
    assert_eq!(world.version(), 0);
}

#[test]
fn world_test_spawn_entity() {
    let env = Env::default();
    let mut world = ArchetypeWorld::new(&env);
    let e1 = world.spawn_entity();
    let e2 = world.spawn_entity();
    assert_eq!(e1, 1);
    assert_eq!(e2, 2);
}

#[test]
fn test_add_single_component() {
    let env = Env::default();
    let mut world = ArchetypeWorld::new(&env);
    let e1 = world.spawn_entity();
    world.add_component(e1, sym("pos"), vec![1, 2], &env);
    assert!(world.has_component(e1, &sym("pos")));
    assert_eq!(world.get_component(e1, &sym("pos")), Some(vec![1, 2]));
}

#[test]
fn test_add_multiple_components() {
    let env = Env::default();
    let mut world = ArchetypeWorld::new(&env);
    let e1 = world.spawn_entity();
    world.add_component(e1, sym("pos"), vec![1], &env);
    world.add_component(e1, sym("vel"), vec![2], &env);
    assert!(world.has_component(e1, &sym("pos")));
    assert!(world.has_component(e1, &sym("vel")));
}

#[test]
fn test_entities_share_archetype() {
    let env = Env::default();
    let mut world = ArchetypeWorld::new(&env);
    let e1 = world.spawn_entity();
    let e2 = world.spawn_entity();
    world.add_component(e1, sym("pos"), vec![1], &env);
    world.add_component(e1, sym("vel"), vec![2], &env);
    world.add_component(e2, sym("pos"), vec![3], &env);
    world.add_component(e2, sym("vel"), vec![4], &env);
    let a1 = *world.entity_archetype.get(e1).unwrap();
    let a2 = *world.entity_archetype.get(e2).unwrap();
    assert_eq!(a1, a2);
}

#[test]
fn test_query() {
    let env = Env::default();
    let mut world = ArchetypeWorld::new(&env);
    let e1 = world.spawn_entity();
    let e2 = world.spawn_entity();
    let e3 = world.spawn_entity();
    world.add_component(e1, sym("pos"), vec![1], &env);
    world.add_component(e1, sym("vel"), vec![2], &env);
    world.add_component(e2, sym("pos"), vec![3], &env);
    world.add_component(e3, sym("vel"), vec![4], &env);
    let with_pos = world.query(&[sym("pos")], &env);
    assert_eq!(with_pos.len(), 2);
    let with_vel = world.query(&[sym("vel")], &env);
    assert_eq!(with_vel.len(), 2);
    let with_both = world.query(&[sym("pos"), sym("vel")], &env);
    assert_eq!(with_both.len(), 1);
    assert_eq!(with_both.get(0), Some(&e1));
}

#[test]
fn world_test_remove_component() {
    let env = Env::default();
    let mut world = ArchetypeWorld::new(&env);
    let e1 = world.spawn_entity();
    world.add_component(e1, sym("pos"), vec![1], &env);
    world.add_component(e1, sym("vel"), vec![2], &env);
    assert!(world.remove_component(e1, &sym("vel"), &env));
    assert!(!world.has_component(e1, &sym("vel")));
    assert!(world.has_component(e1, &sym("pos")));
    assert_eq!(world.get_component(e1, &sym("pos")), Some(vec![1]));
}

#[test]
fn test_remove_last_component() {
    let env = Env::default();
    let mut world = ArchetypeWorld::new(&env);
    let e1 = world.spawn_entity();
    world.add_component(e1, sym("pos"), vec![1], &env);
    assert!(world.remove_component(e1, &sym("pos"), &env));
    assert!(world.entity_archetype.get(e1).is_none());
    assert!(!world.has_component(e1, &sym("pos")));
}

#[test]
fn test_remove_nonexistent_component() {
    let env = Env::default();
    let mut world = ArchetypeWorld::new(&env);
    let e1 = world.spawn_entity();
    assert!(!world.remove_component(e1, &sym("pos"), &env));
}

#[test]
fn world_test_despawn_entity() {
    let env = Env::default();
    let mut world = ArchetypeWorld::new(&env);
    let e1 = world.spawn_entity();
    world.add_component(e1, sym("pos"), vec![1], &env);
    world.add_component(e1, sym("vel"), vec![2], &env);
    world.despawn_entity(e1, &env);
    assert!(!world.has_component(e1, &sym("pos")));
    assert!(!world.has_component(e1, &sym("vel")));
    assert!(world.entity_archetype.get(e1).is_none());
}

#[test]
fn world_test_update_existing_component() {
    let env = Env::default();
    let mut world = ArchetypeWorld::new(&env);
    let e1 = world.spawn_entity();
    world.add_component(e1, sym("pos"), vec![1], &env);
    world.add_component(e1, sym("pos"), vec![99], &env);
    assert_eq!(world.get_component(e1, &sym("pos")), Some(vec![99]));
}

#[test]
fn world_test_version_tracking() {
    let env = Env::default();
    let mut world = ArchetypeWorld::new(&env);
    assert_eq!(world.version(), 0);
    let e1 = world.spawn_entity();
    world.add_component(e1, sym("pos"), vec![1], &env);
    let v1 = world.version();
    assert!(v1 > 0);
    world.remove_component(e1, &sym("pos"), &env);
    assert!(world.version() > v1);
}

#[test]
fn world_test_to_simple_world() {
    let env = Env::default();
    let mut world = ArchetypeWorld::new(&env);
    let e1 = world.spawn_entity();
    let e2 = world.spawn_entity();
    world.add_component(e1, sym("pos"), vec![1], &env);
    world.add_component(e2, sym("vel"), vec![2], &env);
    let simple = world.to_simple_world(&env);
    assert!(simple.has_component(e1, &sym("pos")));
    assert!(simple.has_component(e2, &sym("vel")));
    assert!(!simple.has_component(e1, &sym("vel")));
}

#[test]
fn world_test_from_simple_world() {
    let env = Env::default();
    let mut simple = SimpleWorld::new(&env);
    let e1 = simple.spawn_entity();
    let e2 = simple.spawn_entity();
    simple.add_component(e1, sym("pos"), vec![10]);
    simple.add_component(e1, sym("vel"), vec![20]);
    simple.add_component(e2, sym("pos"), vec![30]);
    let arch_world = ArchetypeWorld::from_simple_world(&simple, &env);
    assert!(arch_world.has_component(e1, &sym("pos")));
    assert!(arch_world.has_component(e1, &sym("vel")));
    assert!(arch_world.has_component(e2, &sym("pos")));
    assert!(!arch_world.has_component(e2, &sym("vel")));
    let with_both = arch_world.query(&[sym("pos"), sym("vel")], &env);
    assert_eq!(with_both.len(), 1);
}

#[test]
fn test_many_entities_same_archetype() {
    let env = Env::default();
    let mut world = ArchetypeWorld::new(&env);
    for _ in 0..20 {
        let eid = world.spawn_entity();
        world.add_component(eid, sym("pos"), vec![1], &env);
        world.add_component(eid, sym("vel"), vec![2], &env);
    }
    let results = world.query(&[sym("pos"), sym("vel")], &env);
    assert_eq!(results.len(), 20);
}

#[test]
fn round_trip_keeps_data_and_sorts_types() {
    let env = Env::default();
    let mut world = ArchetypeWorld::new(&env);
    let e1 = world.spawn_entity();
    world.add_component(e1, sym("vel"), vec![7, 8], &env);
    world.add_component(e1, sym("pos"), vec![1], &env);
    let simple = world.to_simple_world(&env);
    assert_eq!(simple.get_component(e1, &sym("vel")), Some(vec![7, 8]));
    assert_eq!(simple.entity_components.get(e1).unwrap().clone(), vec![sym("pos"), sym("vel")]);
    assert_eq!(simple.version(), world.version());
    let back = ArchetypeWorld::from_simple_world(&simple, &env);
    assert_eq!(back.get_component(e1, &sym("pos")), Some(vec![1]));
    assert_eq!(back.get_component(e1, &sym("vel")), Some(vec![7, 8]));
    assert_eq!(back.version(), world.version());
}

#[test]
fn same_component_set_shares_archetype() {
    let env = Env::default();
    let mut world = ArchetypeWorld::new(&env);
    let a = world.spawn_entity();
    let b = world.spawn_entity();
    let c = world.spawn_entity();
    // Added in different orders, the sets end up equal.
    world.add_component(a, sym("pos"), vec![1], &env);
    world.add_component(a, sym("vel"), vec![2], &env);
    world.add_component(b, sym("vel"), vec![3], &env);
    world.add_component(b, sym("pos"), vec![4], &env);
    world.add_component(c, sym("pos"), vec![5], &env);
    let arch_a = *world.entity_archetype.get(a).unwrap();
    let arch_b = *world.entity_archetype.get(b).unwrap();
    let arch_c = *world.entity_archetype.get(c).unwrap();
    assert_eq!(arch_a, arch_b);
    assert_ne!(arch_a, arch_c);
    // Removing a component moves the entity to the archetype of its new set.
    world.remove_component(a, &sym("vel"), &env);
    assert_eq!(*world.entity_archetype.get(a).unwrap(), arch_c);
}

#[test]
fn removing_an_absent_component_changes_nothing() {
    let env = Env::default();
    let mut world = ArchetypeWorld::new(&env);
    let e = world.spawn_entity();
    world.add_component(e, sym("pos"), vec![1], &env);
    let v = world.version();
    assert!(!world.remove_component(e, &sym("vel"), &env));
    assert_eq!(world.version(), v);
    assert!(world.has_component(e, &sym("pos")));
    assert_eq!(world.query(&[sym("pos")], &env), vec![e]);
}
