use cougr_core::component::ComponentStorage;
use cougr_core::debug::introspect::{inspect_entity, inspect_world, list_entities};
use cougr_core::debug::metrics::{collect_metrics, unique_component_types};
use cougr_core::debug::snapshot::{diff_snapshots, take_snapshot};
use cougr_core::simple_world::SimpleWorld;
use cougr_core::symbol::Symbol;
use soroban_sdk::Env;

fn sym(s: &str) -> Symbol {
    Symbol::new(s)
}

#[test]
fn test_inspect_empty_world() {
    let env = Env::default();
    let world = SimpleWorld::new(&env);
    let summary = inspect_world(&world, &env);
    assert_eq!(summary.entity_count, 0);
    assert_eq!(summary.total_components, 0);
    assert_eq!(summary.table_entries, 0);
    assert_eq!(summary.sparse_entries, 0);
    assert_eq!(summary.version, 0);
    assert_eq!(summary.next_entity_id, 1);
}

#[test]
fn test_inspect_entity_not_found() {
    let env = Env::default();
    let world = SimpleWorld::new(&env);
    assert!(inspect_entity(&world, 999, &env).is_none());
}

#[test]
fn test_inspect_entity_with_components() {
    let env = Env::default();
    let mut world = SimpleWorld::new(&env);
    let e = world.spawn_entity();
    world.add_component(e, sym("pos"), vec![1]);
    world.add_component(e, sym("vel"), vec![2]);
    world.add_component_with_storage(e, sym("tag"), vec![3], ComponentStorage::Sparse);
    let summary = inspect_entity(&world, e, &env).unwrap();
    assert_eq!(summary.entity_id, e);
    assert_eq!(summary.component_count, 3);
    assert_eq!(summary.table_count, 2);
    assert_eq!(summary.sparse_count, 1);
    assert_eq!(summary.component_types.len(), 3);
}

#[test]
fn test_inspect_world_with_entities() {
    let env = Env::default();
    let mut world = SimpleWorld::new(&env);
    let e1 = world.spawn_entity();
    world.add_component(e1, sym("pos"), vec![1]);
    let e2 = world.spawn_entity();
    world.add_component(e2, sym("pos"), vec![2]);
    world.add_component_with_storage(e2, sym("tag"), vec![3], ComponentStorage::Sparse);
    let summary = inspect_world(&world, &env);
    assert_eq!(summary.entity_count, 2);
    assert_eq!(summary.total_components, 3);
    assert_eq!(summary.table_entries, 2);
    assert_eq!(summary.sparse_entries, 1);
    assert_eq!(summary.next_entity_id, 3);
}

#[test]
fn test_list_entities() {
    let env = Env::default();
    let mut world = SimpleWorld::new(&env);
    let e1 = world.spawn_entity();
    world.add_component(e1, sym("pos"), vec![1]);
    let e2 = world.spawn_entity();
    world.add_component(e2, sym("hp"), vec![2]);
    let list = list_entities(&world, &env);
    assert_eq!(list.len(), 2);
    assert_eq!(list[0].entity_id, e1);
    assert_eq!(list[1].entity_id, e2);
}

#[test]
fn test_metrics_empty_world() {
    let env = Env::default();
    let world = SimpleWorld::new(&env);
    let metrics = collect_metrics(&world, &env);
    assert_eq!(metrics.total_table_entries, 0);
    assert_eq!(metrics.total_sparse_entries, 0);
    assert_eq!(metrics.total_entities, 0);
    assert_eq!(metrics.avg_components_per_entity, 0);
    assert_eq!(metrics.max_components_per_entity, 0);
    assert_eq!(metrics.unique_component_types, 0);
}

#[test]
fn test_metrics_with_entities() {
    let env = Env::default();
    let mut world = SimpleWorld::new(&env);
    let e1 = world.spawn_entity();
    world.add_component(e1, sym("pos"), vec![1]);
    world.add_component(e1, sym("vel"), vec![2]);
    world.add_component(e1, sym("hp"), vec![3]);
    let e2 = world.spawn_entity();
    world.add_component(e2, sym("pos"), vec![4]);
    let metrics = collect_metrics(&world, &env);
    assert_eq!(metrics.total_table_entries, 4);
    assert_eq!(metrics.total_sparse_entries, 0);
    assert_eq!(metrics.total_entities, 2);
    assert_eq!(metrics.avg_components_per_entity, 2);
    assert_eq!(metrics.max_components_per_entity, 3);
    assert_eq!(metrics.unique_component_types, 3);
}

#[test]
fn test_metrics_with_sparse() {
    let env = Env::default();
    let mut world = SimpleWorld::new(&env);
    let e = world.spawn_entity();
    world.add_component(e, sym("pos"), vec![1]);
    world.add_component_with_storage(e, sym("tag"), vec![2], ComponentStorage::Sparse);
    let metrics = collect_metrics(&world, &env);
    assert_eq!(metrics.total_table_entries, 1);
    assert_eq!(metrics.total_sparse_entries, 1);
}

#[test]
fn test_unique_component_types() {
    let env = Env::default();
    let mut world = SimpleWorld::new(&env);
    let e1 = world.spawn_entity();
    let e2 = world.spawn_entity();
    world.add_component(e1, sym("pos"), vec![1]);
    world.add_component(e2, sym("pos"), vec![2]);
    world.add_component(e2, sym("vel"), vec![3]);
    let types = unique_component_types(&world, &env);
    assert_eq!(types.len(), 2);
    assert_eq!(types, vec![sym("pos"), sym("vel")]);
}

#[test]
fn metrics_average_rounds_down() {
    let env = Env::default();
    let mut world = SimpleWorld::new(&env);
    let e1 = world.spawn_entity();
    world.add_component(e1, sym("a"), vec![1]);
    world.add_component(e1, sym("b"), vec![1]);
    let e2 = world.spawn_entity();
    world.add_component(e2, sym("a"), vec![1]);
    let e3 = world.spawn_entity();
    world.add_component(e3, sym("c"), vec![1]);
    let metrics = collect_metrics(&world, &env);
    assert_eq!(metrics.avg_components_per_entity, 1);
    assert_eq!(metrics.max_components_per_entity, 2);
    assert_eq!(metrics.unique_component_types, 3);
}

#[test]
fn test_snapshot_empty_world() {
    let env = Env::default();
    let world = SimpleWorld::new(&env);
    let snap = take_snapshot(&world, &env);
    assert_eq!(snap.version, 0);
    assert_eq!(snap.entity_count, 0);
    assert_eq!(snap.entity_states.len(), 0);
}

#[test]
fn test_snapshot_captures_state() {
    let env = Env::default();
    let mut world = SimpleWorld::new(&env);
    let e1 = world.spawn_entity();
    world.add_component(e1, sym("pos"), vec![10]);
    world.add_component(e1, sym("vel"), vec![5]);
    let snap = take_snapshot(&world, &env);
    assert_eq!(snap.version, world.version());
    assert_eq!(snap.entity_count, 1);
    let comps = snap.entity_states.get(e1).unwrap();
    assert_eq!(comps.len(), 2);
}

#[test]
fn test_snapshot_includes_sparse() {
    let env = Env::default();
    let mut world = SimpleWorld::new(&env);
    let e = world.spawn_entity();
    world.add_component(e, sym("pos"), vec![1]);
    world.add_component_with_storage(e, sym("tag"), vec![2], ComponentStorage::Sparse);
    let snap = take_snapshot(&world, &env);
    let comps = snap.entity_states.get(e).unwrap();
    assert_eq!(comps.len(), 2);
}

#[test]
fn test_diff_no_changes() {
    let env = Env::default();
    let mut world = SimpleWorld::new(&env);
    let e = world.spawn_entity();
    world.add_component(e, sym("pos"), vec![1]);
    let snap1 = take_snapshot(&world, &env);
    let snap2 = take_snapshot(&world, &env);
    let diff = diff_snapshots(&snap1, &snap2, &env);
    assert!(diff.added_entities.is_empty());
    assert!(diff.removed_entities.is_empty());
    assert!(diff.added_components.is_empty());
    assert!(diff.removed_components.is_empty());
    assert!(diff.modified_components.is_empty());
}

#[test]
fn test_diff_added_entity() {
    let env = Env::default();
    let mut world = SimpleWorld::new(&env);
    let snap_before = take_snapshot(&world, &env);
    let e = world.spawn_entity();
    world.add_component(e, sym("pos"), vec![1]);
    let snap_after = take_snapshot(&world, &env);
    let diff = diff_snapshots(&snap_before, &snap_after, &env);
    assert_eq!(diff.added_entities.len(), 1);
    assert_eq!(diff.added_entities[0], e);
    assert!(diff.removed_entities.is_empty());
}

#[test]
fn test_diff_removed_entity() {
    let env = Env::default();
    let mut world = SimpleWorld::new(&env);
    let e = world.spawn_entity();
    world.add_component(e, sym("pos"), vec![1]);
    let snap_before = take_snapshot(&world, &env);
    world.despawn_entity(e);
    let snap_after = take_snapshot(&world, &env);
    let diff = diff_snapshots(&snap_before, &snap_after, &env);
    assert!(diff.added_entities.is_empty());
    assert_eq!(diff.removed_entities.len(), 1);
    assert_eq!(diff.removed_entities[0], e);
}

#[test]
fn test_diff_modified_component() {
    let env = Env::default();
    let mut world = SimpleWorld::new(&env);
    let e = world.spawn_entity();
    world.add_component(e, sym("pos"), vec![10]);
    let snap_before = take_snapshot(&world, &env);
    world.add_component(e, sym("pos"), vec![20]);
    let snap_after = take_snapshot(&world, &env);
    let diff = diff_snapshots(&snap_before, &snap_after, &env);
    assert!(diff.added_entities.is_empty());
    assert!(diff.removed_entities.is_empty());
    assert_eq!(diff.modified_components.len(), 1);
    assert_eq!(diff.modified_components[0].0, e);
}

#[test]
fn test_diff_added_component() {
    let env = Env::default();
    let mut world = SimpleWorld::new(&env);
    let e = world.spawn_entity();
    world.add_component(e, sym("pos"), vec![1]);
    let snap_before = take_snapshot(&world, &env);
    world.add_component(e, sym("vel"), vec![2]);
    let snap_after = take_snapshot(&world, &env);
    let diff = diff_snapshots(&snap_before, &snap_after, &env);
    assert_eq!(diff.added_components.len(), 1);
    assert_eq!(diff.added_components[0].0, e);
}

#[test]
fn test_diff_removed_component() {
    let env = Env::default();
    let mut world = SimpleWorld::new(&env);
    let e = world.spawn_entity();
    world.add_component(e, sym("pos"), vec![1]);
    world.add_component(e, sym("vel"), vec![2]);
    let snap_before = take_snapshot(&world, &env);
    world.remove_component(e, &sym("vel"));
    let snap_after = take_snapshot(&world, &env);
    let diff = diff_snapshots(&snap_before, &snap_after, &env);
    assert_eq!(diff.removed_components.len(), 1);
    assert_eq!(diff.removed_components[0].0, e);
}

#[test]
fn diff_lists_new_entity_components_and_orders_by_entity() {
    let env = Env::default();
    let mut world = SimpleWorld::new(&env);
    let e1 = world.spawn_entity();
    world.add_component(e1, sym("pos"), vec![1]);
    let before = take_snapshot(&world, &env);
    let e2 = world.spawn_entity();
    world.add_component(e2, sym("hp"), vec![5]);
    world.add_component(e2, sym("pos"), vec![6]);
    world.add_component(e1, sym("vel"), vec![2]);
    let after = take_snapshot(&world, &env);
    let diff = diff_snapshots(&before, &after, &env);
    assert_eq!(diff.added_entities, vec![e2]);
    assert_eq!(diff.added_components, vec![(e1, sym("vel")), (e2, sym("hp")), (e2, sym("pos"))]);
    assert!(diff.modified_components.is_empty());
}

#[test]
fn diff_lists_components_of_removed_entities() {
    let env = Env::default();
    let mut world = SimpleWorld::new(&env);
    let e = world.spawn_entity();
    let f = world.spawn_entity();
    world.add_component(e, sym("pos"), vec![1]);
    world.add_component(e, sym("vel"), vec![2]);
    world.add_component(f, sym("pos"), vec![3]);
    world.add_component(f, sym("hp"), vec![4]);
    let snap_before = take_snapshot(&world, &env);
    world.despawn_entity(e);
    world.remove_component(f, &sym("hp"));
    let snap_after = take_snapshot(&world, &env);
    let diff = diff_snapshots(&snap_before, &snap_after, &env);
    assert_eq!(diff.removed_entities, vec![e]);
    assert_eq!(diff.removed_components, vec![(f, sym("hp")), (e, sym("pos")), (e, sym("vel"))]);
}
