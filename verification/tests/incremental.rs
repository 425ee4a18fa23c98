use cougr_core::error::CougrError;
use cougr_core::incremental::dirty_tracker::DirtyTracker;
use cougr_core::incremental::storage_world::{StorageOp, StorageWorld, WorldMetadata};
use cougr_core::simple_world::SimpleWorld;
use cougr_core::symbol::Symbol;
use soroban_sdk::Env;
use std::collections::HashMap;

fn sym(s: &str) -> Symbol {
    Symbol::new(s)
}

/// Persistent storage held in memory: the metadata entry, each entity's
/// type list and each component's data.
#[derive(Default)]
struct MemStore {
    meta: Option<WorldMetadata>,
    entities: HashMap<u32, Vec<Symbol>>,
    comps: HashMap<(u32, Symbol), Vec<u8>>,
}

impl MemStore {
    fn flush(&mut self, world: &mut StorageWorld) -> usize {
        let ops = world.flush();
        let n = ops.len();
        for op in ops {
            match op {
                StorageOp::WriteMeta => self.meta = Some(world.metadata().clone()),
                StorageOp::WriteEntity { entity_id, component_types } => {
                    self.entities.insert(entity_id, component_types);
                }
                StorageOp::WriteComponent { entity_id, component_type, data } => {
                    self.comps.insert((entity_id, component_type), data);
                }
                StorageOp::RemoveEntity { entity_id } => {
                    if let Some(types) = self.entities.remove(&entity_id) {
                        for t in types {
                            self.comps.remove(&(entity_id, t));
                        }
                    }
                }
            }
        }
        n
    }

    fn load_metadata(&self) -> StorageWorld {
        StorageWorld::from_metadata(self.meta.clone())
    }

    fn load_entity(&self, world: &mut StorageWorld, id: u32) -> Result<(), CougrError> {
        if world.is_entity_loaded(id) {
            return Ok(());
        }
        let types = self.entities.get(&id).cloned();
        let data = match &types {
            Some(ts) => ts.iter().map(|t| self.comps.get(&(id, *t)).cloned()).collect(),
            None => Vec::new(),
        };
        world.load_entity(id, types, data)
    }
}

#[test]
fn test_new_tracker_not_dirty() {
    let tracker = DirtyTracker::new();
    assert!(!tracker.is_dirty());
    assert!(tracker.dirty_entities().is_empty());
    assert!(tracker.dirty_components().is_empty());
    assert!(tracker.despawned().is_empty());
}

#[test]
fn test_mark_entity_dirty() {
    let mut tracker = DirtyTracker::new();
    tracker.mark_entity_dirty(1);
    assert!(tracker.is_dirty());
    assert_eq!(tracker.dirty_entities(), &[1]);
    tracker.mark_entity_dirty(1);
    assert_eq!(tracker.dirty_entities().len(), 1);
}

#[test]
fn test_mark_component_dirty() {
    let mut tracker = DirtyTracker::new();
    tracker.mark_component_dirty(1, sym("pos"));
    assert!(tracker.is_dirty());
    assert_eq!(tracker.dirty_components().len(), 1);
}

#[test]
fn test_mark_despawned() {
    let mut tracker = DirtyTracker::new();
    tracker.mark_despawned(5);
    assert!(tracker.is_dirty());
    assert_eq!(tracker.despawned(), &[5]);
}

#[test]
fn test_mark_new_entity() {
    let mut tracker = DirtyTracker::new();
    tracker.mark_new_entity(10);
    assert!(tracker.is_dirty());
    assert!(tracker.is_meta_dirty());
    assert_eq!(tracker.new_entities(), &[10]);
}

#[test]
fn test_clear() {
    let mut tracker = DirtyTracker::new();
    tracker.mark_entity_dirty(1);
    tracker.mark_component_dirty(1, sym("pos"));
    tracker.mark_despawned(2);
    tracker.mark_new_entity(3);
    assert!(tracker.is_dirty());
    tracker.clear();
    assert!(!tracker.is_dirty());
    assert!(tracker.dirty_entities().is_empty());
    assert!(tracker.dirty_components().is_empty());
    assert!(tracker.despawned().is_empty());
    assert!(tracker.new_entities().is_empty());
    assert!(!tracker.is_meta_dirty());
}

#[test]
fn marking_a_component_twice_keeps_one_entry() {
    let mut tracker = DirtyTracker::new();
    tracker.mark_component_dirty(1, sym("pos"));
    tracker.mark_component_dirty(2, sym("pos"));
    tracker.mark_component_dirty(1, sym("pos"));
    assert_eq!(tracker.dirty_components(), &[(1, sym("pos")), (2, sym("pos"))]);
    tracker.mark_meta_dirty();
    assert!(tracker.is_meta_dirty());
}

#[test]
fn test_load_fresh_metadata() {
    let world = StorageWorld::from_metadata(None);
    assert_eq!(world.next_entity_id(), 1);
    assert_eq!(world.version(), 0);
    assert_eq!(world.entity_count(), 0);
}

#[test]
fn storage_world_test_spawn_entity() {
    let env = Env::default();
    let mut world = StorageWorld::from_metadata(None);
    let e1 = world.spawn_entity(&env);
    let e2 = world.spawn_entity(&env);
    assert_eq!(e1, 1);
    assert_eq!(e2, 2);
    assert_eq!(world.entity_count(), 2);
    assert_eq!(world.next_entity_id(), 3);
}

#[test]
fn storage_world_test_add_and_get_component() {
    let env = Env::default();
    let mut world = StorageWorld::from_metadata(None);
    let eid = world.spawn_entity(&env);
    world.add_component(&env, eid, sym("pos"), vec![1, 2, 3, 4]);
    assert!(world.has_component(eid, &sym("pos")));
    assert_eq!(world.get_component(eid, &sym("pos")), Some(vec![1, 2, 3, 4]));
    assert!(!world.has_component(eid, &sym("vel")));
}

#[test]
fn storage_world_test_remove_component() {
    let env = Env::default();
    let mut world = StorageWorld::from_metadata(None);
    let eid = world.spawn_entity(&env);
    world.add_component(&env, eid, sym("pos"), vec![1]);
    assert!(world.remove_component(eid, &sym("pos")));
    assert!(!world.has_component(eid, &sym("pos")));
    assert!(!world.remove_component(eid, &sym("pos")));
}

#[test]
fn storage_world_test_despawn_entity() {
    let env = Env::default();
    let mut world = StorageWorld::from_metadata(None);
    let eid = world.spawn_entity(&env);
    world.add_component(&env, eid, sym("pos"), vec![1]);
    world.add_component(&env, eid, sym("vel"), vec![1]);
    world.despawn_entity(eid);
    assert!(!world.has_component(eid, &sym("pos")));
    assert!(!world.has_component(eid, &sym("vel")));
    assert_eq!(world.entity_count(), 0);
}

#[test]
fn test_flush_and_reload() {
    let env = Env::default();
    let mut store = MemStore::default();
    {
        let mut world = store.load_metadata();
        let eid = world.spawn_entity(&env);
        world.add_component(&env, eid, sym("pos"), vec![42, 43]);
        store.flush(&mut world);
    }
    {
        let mut world = store.load_metadata();
        assert_eq!(world.next_entity_id(), 2);
        assert_eq!(world.entity_count(), 1);
        store.load_entity(&mut world, 1).unwrap();
        assert!(world.has_component(1, &sym("pos")));
        let data = world.get_component(1, &sym("pos")).unwrap();
        assert_eq!(data, vec![42, 43]);
    }
}

#[test]
fn test_flush_despawn_removes_storage() {
    let env = Env::default();
    let mut store = MemStore::default();
    {
        let mut world = store.load_metadata();
        let eid = world.spawn_entity(&env);
        world.add_component(&env, eid, sym("pos"), vec![1]);
        store.flush(&mut world);
    }
    {
        let mut world = store.load_metadata();
        store.load_entity(&mut world, 1).unwrap();
        world.despawn_entity(1);
        store.flush(&mut world);
    }
    {
        let mut world = store.load_metadata();
        assert_eq!(world.entity_count(), 0);
        let result = store.load_entity(&mut world, 1);
        assert_eq!(result, Err(CougrError::EntityNotFound));
    }
}

#[test]
fn test_incremental_update() {
    let env = Env::default();
    let mut store = MemStore::default();
    {
        let mut world = store.load_metadata();
        let e1 = world.spawn_entity(&env);
        let e2 = world.spawn_entity(&env);
        world.add_component(&env, e1, sym("pos"), vec![10]);
        world.add_component(&env, e2, sym("pos"), vec![20]);
        store.flush(&mut world);
    }
    {
        let mut world = store.load_metadata();
        store.load_entity(&mut world, 1).unwrap();
        world.add_component(&env, 1, sym("pos"), vec![99]);
        store.flush(&mut world);
    }
    {
        let mut world = store.load_metadata();
        store.load_entity(&mut world, 1).unwrap();
        store.load_entity(&mut world, 2).unwrap();
        assert_eq!(world.get_component(1, &sym("pos")), Some(vec![99]));
        assert_eq!(world.get_component(2, &sym("pos")), Some(vec![20]));
    }
}

#[test]
fn storage_world_test_version_tracking() {
    let env = Env::default();
    let mut world = StorageWorld::from_metadata(None);
    assert_eq!(world.version(), 0);
    let eid = world.spawn_entity(&env);
    world.add_component(&env, eid, sym("pos"), vec![1]);
    let v1 = world.version();
    assert!(v1 > 0);
    world.remove_component(eid, &sym("pos"));
    assert!(world.version() > v1);
}

#[test]
fn storage_world_test_to_simple_world() {
    let env = Env::default();
    let mut world = StorageWorld::from_metadata(None);
    let e1 = world.spawn_entity(&env);
    let e2 = world.spawn_entity(&env);
    world.add_component(&env, e1, sym("pos"), vec![1, 2]);
    world.add_component(&env, e2, sym("vel"), vec![3, 4]);
    let simple = world.to_simple_world(&env);
    assert!(simple.has_component(e1, &sym("pos")));
    assert!(simple.has_component(e2, &sym("vel")));
    assert!(!simple.has_component(e1, &sym("vel")));
}

#[test]
fn storage_world_test_from_simple_world() {
    let env = Env::default();
    let mut simple = SimpleWorld::new(&env);
    let e1 = simple.spawn_entity();
    let e2 = simple.spawn_entity();
    simple.add_component(e1, sym("pos"), vec![10, 20]);
    simple.add_component(e2, sym("vel"), vec![30, 40]);
    let mut storage = StorageWorld::from_simple_world(&simple, &env);
    assert_eq!(storage.entity_count(), 2);
    assert!(storage.has_component(e1, &sym("pos")));
    assert!(storage.has_component(e2, &sym("vel")));
    let mut store = MemStore::default();
    store.flush(&mut storage);
    let mut reloaded = store.load_metadata();
    store.load_entity(&mut reloaded, e1).unwrap();
    store.load_entity(&mut reloaded, e2).unwrap();
    assert_eq!(reloaded.get_component(e1, &sym("pos")), Some(vec![10, 20]));
    assert_eq!(reloaded.get_component(e2, &sym("vel")), Some(vec![30, 40]));
}

#[test]
fn test_load_multiple_entities() {
    let env = Env::default();
    let mut store = MemStore::default();
    {
        let mut world = store.load_metadata();
        for i in 0..5u8 {
            let eid = world.spawn_entity(&env);
            world.add_component(&env, eid, sym("data"), vec![i]);
        }
        store.flush(&mut world);
    }
    {
        let mut world = store.load_metadata();
        for id in [1u32, 2, 3, 4, 5] {
            store.load_entity(&mut world, id).unwrap();
        }
        for i in 1..=5u32 {
            assert!(world.has_component(i, &sym("data")));
        }
    }
}

#[test]
fn test_no_flush_when_clean() {
    let mut world = StorageWorld::from_metadata(None);
    let ops = world.flush();
    assert!(ops.is_empty());
    assert_eq!(world.version(), 0);
}

#[test]
fn test_multiple_components_per_entity() {
    let env = Env::default();
    let mut store = MemStore::default();
    let mut world = store.load_metadata();
    let eid = world.spawn_entity(&env);
    world.add_component(&env, eid, sym("pos"), vec![1]);
    world.add_component(&env, eid, sym("vel"), vec![2]);
    world.add_component(&env, eid, sym("hp"), vec![3]);
    assert!(world.has_component(eid, &sym("pos")));
    assert!(world.has_component(eid, &sym("vel")));
    assert!(world.has_component(eid, &sym("hp")));
    store.flush(&mut world);
    let mut reloaded = store.load_metadata();
    store.load_entity(&mut reloaded, eid).unwrap();
    assert_eq!(reloaded.get_component(eid, &sym("pos")), Some(vec![1]));
    assert_eq!(reloaded.get_component(eid, &sym("vel")), Some(vec![2]));
    assert_eq!(reloaded.get_component(eid, &sym("hp")), Some(vec![3]));
}

#[test]
fn storage_world_test_update_existing_component() {
    let env = Env::default();
    let mut world = StorageWorld::from_metadata(None);
    let eid = world.spawn_entity(&env);
    world.add_component(&env, eid, sym("pos"), vec![10]);
    world.add_component(&env, eid, sym("pos"), vec![99]);
    assert_eq!(world.get_component(eid, &sym("pos")), Some(vec![99]));
}

#[test]
fn flush_writes_only_what_changed_in_order() {
    let env = Env::default();
    let mut store = MemStore::default();
    let mut world = store.load_metadata();
    let e1 = world.spawn_entity(&env);
    let e2 = world.spawn_entity(&env);
    world.add_component(&env, e1, sym("pos"), vec![1]);
    world.add_component(&env, e2, sym("pos"), vec![2]);
    assert_eq!(store.flush(&mut world), 5);
    world.add_component(&env, e1, sym("pos"), vec![7]);
    let ops = world.flush();
    assert_eq!(ops.len(), 3);
    assert!(matches!(ops[0], StorageOp::WriteMeta));
    assert!(matches!(&ops[1], StorageOp::WriteEntity { entity_id, .. } if *entity_id == e1));
    assert!(matches!(&ops[2], StorageOp::WriteComponent { entity_id, data, .. } if *entity_id == e1 && data == &vec![7]));
    assert!(world.flush().is_empty());
}

#[test]
fn loading_an_entity_twice_keeps_the_first_load() {
    let mut world = StorageWorld::from_metadata(None);
    world.load_entity(3, Some(vec![sym("a"), sym("b")]), vec![Some(vec![1]), None]).unwrap();
    assert_eq!(world.get_component(3, &sym("a")), Some(vec![1]));
    assert!(!world.has_component(3, &sym("b")));
    world.load_entity(3, Some(vec![sym("a")]), vec![Some(vec![9])]).unwrap();
    assert_eq!(world.get_component(3, &sym("a")), Some(vec![1]));
    assert_eq!(world.load_entity(4, None, vec![]), Err(CougrError::EntityNotFound));
    assert!(!world.is_entity_loaded(4));
}

#[test]
fn despawning_an_unlisted_entity_keeps_the_count() {
    let env = Env::default();
    let mut world = StorageWorld::from_metadata(None);
    let e = world.spawn_entity(&env);
    assert_eq!(world.entity_count(), 1);
    world.despawn_entity(e + 1);
    assert_eq!(world.entity_count(), 1);
    assert_eq!(world.entity_ids(), &vec![e]);
    world.despawn_entity(e);
    assert_eq!(world.entity_count(), 0);
    assert!(world.entity_ids().is_empty());
}
