use cougr_core::change_tracker::{ChangeTracker, TrackedWorld};
use cougr_core::commands::CommandQueue;
use cougr_core::simple_world::SimpleWorld;
use cougr_core::symbol::Symbol;
use soroban_sdk::Env;

fn sym(s: &str) -> Symbol {
    Symbol::new(s)
}

#[test]
fn test_tracker_new() {
    let tracker = ChangeTracker::new();
    assert_eq!(tracker.tick(), 0);
    assert_eq!(tracker.change_count(), 0);
}

#[test]
fn test_record_and_query_add() {
    let mut tracker = ChangeTracker::new();
    tracker.record_add(1, sym("pos"));
    assert!(tracker.was_added(1, &sym("pos")));
    assert!(!tracker.was_added(1, &sym("vel")));
    assert!(!tracker.was_added(2, &sym("pos")));
}

#[test]
fn test_record_and_query_remove() {
    let mut tracker = ChangeTracker::new();
    tracker.record_remove(1, sym("pos"));
    assert!(tracker.was_removed(1, &sym("pos")));
    assert!(!tracker.was_removed(1, &sym("vel")));
}

#[test]
fn test_record_and_query_modify() {
    let mut tracker = ChangeTracker::new();
    tracker.record_modify(1, sym("pos"));
    assert!(tracker.was_modified(1, &sym("pos")));
    assert!(!tracker.was_modified(2, &sym("pos")));
}

#[test]
fn test_entities_with_queries() {
    let mut tracker = ChangeTracker::new();
    tracker.record_add(1, sym("pos"));
    tracker.record_add(2, sym("pos"));
    tracker.record_add(3, sym("vel"));
    let added = tracker.added_entities_with(&sym("pos"));
    assert_eq!(added.len(), 2);
    assert!(added.contains(&1));
    assert!(added.contains(&2));
}

#[test]
fn test_clear_resets() {
    let mut tracker = ChangeTracker::new();
    tracker.record_add(1, sym("pos"));
    tracker.record_remove(2, sym("vel"));
    tracker.record_modify(3, sym("hp"));
    assert_eq!(tracker.change_count(), 3);
    tracker.clear();
    assert_eq!(tracker.change_count(), 0);
    assert!(!tracker.was_added(1, &sym("pos")));
}

#[test]
fn test_advance_tick() {
    let mut tracker = ChangeTracker::new();
    assert_eq!(tracker.tick(), 0);
    tracker.advance_tick();
    assert_eq!(tracker.tick(), 1);
    tracker.advance_tick();
    assert_eq!(tracker.tick(), 2);
}

#[test]
fn test_tracked_world_add() {
    let env = Env::default();
    let mut tw = TrackedWorld::new(SimpleWorld::new(&env));
    let e1 = tw.spawn_entity();
    tw.add_component(e1, sym("pos"), vec![1, 2, 3]);
    assert!(tw.has_component(e1, &sym("pos")));
    assert!(tw.tracker().was_added(e1, &sym("pos")));
    assert!(!tw.tracker().was_modified(e1, &sym("pos")));
}

#[test]
fn test_tracked_world_modify() {
    let env = Env::default();
    let mut tw = TrackedWorld::new(SimpleWorld::new(&env));
    let e1 = tw.spawn_entity();
    tw.add_component(e1, sym("pos"), vec![1]);
    tw.add_component(e1, sym("pos"), vec![2]);
    assert!(tw.tracker().was_added(e1, &sym("pos")));
    assert!(tw.tracker().was_modified(e1, &sym("pos")));
    assert_eq!(tw.get_component(e1, &sym("pos")), Some(vec![2]));
}

#[test]
fn test_tracked_world_remove() {
    let env = Env::default();
    let mut tw = TrackedWorld::new(SimpleWorld::new(&env));
    let e1 = tw.spawn_entity();
    tw.add_component(e1, sym("pos"), vec![1]);
    assert!(tw.remove_component(e1, &sym("pos")));
    assert!(tw.tracker().was_removed(e1, &sym("pos")));
    assert!(!tw.has_component(e1, &sym("pos")));
}

#[test]
fn test_tracked_world_despawn_records_removals() {
    let env = Env::default();
    let mut tw = TrackedWorld::new(SimpleWorld::new(&env));
    let e1 = tw.spawn_entity();
    tw.add_component(e1, sym("a"), vec![1]);
    tw.add_component(e1, sym("b"), vec![1]);
    tw.tracker_mut().clear();
    tw.despawn_entity(e1);
    assert!(tw.tracker().was_removed(e1, &sym("a")));
    assert!(tw.tracker().was_removed(e1, &sym("b")));
}

#[test]
fn test_tracked_world_into_inner() {
    let env = Env::default();
    let mut tw = TrackedWorld::new(SimpleWorld::new(&env));
    let e1 = tw.spawn_entity();
    tw.add_component(e1, sym("test"), vec![1]);
    let inner = tw.into_inner();
    assert!(inner.has_component(e1, &sym("test")));
}

#[test]
fn tracker_lists_entities_in_record_order() {
    let mut tracker = ChangeTracker::new();
    tracker.record_modify(5, sym("hp"));
    tracker.record_modify(3, sym("pos"));
    tracker.record_modify(4, sym("hp"));
    assert_eq!(tracker.modified_entities_with(&sym("hp")), vec![5, 4]);
    tracker.record_remove(9, sym("hp"));
    assert_eq!(tracker.removed_entities_with(&sym("hp")), vec![9]);
    assert_eq!(tracker.change_count(), 4);
}

#[test]
fn test_empty_queue() {
    let queue = CommandQueue::new();
    assert!(queue.is_empty());
    assert_eq!(queue.len(), 0);
    let env = Env::default();
    let mut world = SimpleWorld::new(&env);
    let spawned = queue.apply(&mut world);
    assert!(spawned.is_empty());
}

#[test]
fn test_spawn_via_queue() {
    let env = Env::default();
    let mut world = SimpleWorld::new(&env);
    let mut queue = CommandQueue::new();
    queue.spawn();
    queue.spawn();
    assert_eq!(queue.len(), 2);
    let spawned = queue.apply(&mut world);
    assert_eq!(spawned.len(), 2);
    assert_eq!(spawned[0], 1);
    assert_eq!(spawned[1], 2);
}

#[test]
fn test_despawn_via_queue() {
    let env = Env::default();
    let mut world = SimpleWorld::new(&env);
    let e1 = world.spawn_entity();
    world.add_component(e1, sym("pos"), vec![1]);
    let mut queue = CommandQueue::new();
    queue.despawn(e1);
    queue.apply(&mut world);
    assert!(!world.has_component(e1, &sym("pos")));
}

#[test]
fn test_add_component_via_queue() {
    let env = Env::default();
    let mut world = SimpleWorld::new(&env);
    let e1 = world.spawn_entity();
    let mut queue = CommandQueue::new();
    queue.add_component(e1, sym("pos"), vec![1, 2, 3]);
    queue.apply(&mut world);
    assert!(world.has_component(e1, &sym("pos")));
    assert_eq!(world.get_component(e1, &sym("pos")), Some(vec![1, 2, 3]));
}

#[test]
fn test_add_sparse_component_via_queue() {
    let env = Env::default();
    let mut world = SimpleWorld::new(&env);
    let e1 = world.spawn_entity();
    let mut queue = CommandQueue::new();
    queue.add_sparse_component(e1, sym("tag"), vec![0xAA]);
    queue.apply(&mut world);
    assert!(world.has_component(e1, &sym("tag")));
    assert!(!world.components.contains_key(e1, sym("tag")));
    assert!(world.sparse_components.contains_key(e1, sym("tag")));
}

#[test]
fn test_remove_component_via_queue() {
    let env = Env::default();
    let mut world = SimpleWorld::new(&env);
    let e1 = world.spawn_entity();
    world.add_component(e1, sym("pos"), vec![1]);
    let mut queue = CommandQueue::new();
    queue.remove_component(e1, sym("pos"));
    queue.apply(&mut world);
    assert!(!world.has_component(e1, &sym("pos")));
}

#[test]
fn test_mixed_operations() {
    let env = Env::default();
    let mut world = SimpleWorld::new(&env);
    let e1 = world.spawn_entity();
    world.add_component(e1, sym("old"), vec![1]);
    let mut queue = CommandQueue::new();
    queue.spawn();
    queue.add_component(e1, sym("new"), vec![2, 3]);
    queue.remove_component(e1, sym("old"));
    let spawned = queue.apply(&mut world);
    assert_eq!(spawned.len(), 1);
    assert_eq!(spawned[0], 2);
    assert!(world.has_component(e1, &sym("new")));
    assert!(!world.has_component(e1, &sym("old")));
}

#[test]
fn test_queue_len_tracking() {
    let mut queue = CommandQueue::new();
    assert_eq!(queue.len(), 0);
    assert!(queue.is_empty());
    queue.spawn();
    assert_eq!(queue.len(), 1);
    assert!(!queue.is_empty());
    queue.add_component(1, sym("test"), vec![1]);
    assert_eq!(queue.len(), 2);
    queue.remove_component(1, sym("test"));
    assert_eq!(queue.len(), 3);
    queue.despawn(1);
    assert_eq!(queue.len(), 4);
}

#[test]
fn queue_versions_and_sparse_replacement() {
    let env = Env::default();
    let mut world = SimpleWorld::new(&env);
    let e1 = world.spawn_entity();
    world.add_component(e1, sym("pos"), vec![1]);
    let v0 = world.version();
    let mut queue = CommandQueue::new();
    queue.add_sparse_component(e1, sym("pos"), vec![9]);
    queue.remove_component(e1, sym("missing"));
    queue.spawn();
    queue.spawn();
    let spawned = queue.apply(&mut world);
    assert_eq!(spawned, vec![2, 3]);
    assert_eq!(world.version(), v0 + 1);
    assert!(!world.components.contains_key(e1, sym("pos")));
    assert_eq!(world.get_component(e1, &sym("pos")), Some(vec![9]));
    assert_eq!(world.next_entity_id, 4);
}
