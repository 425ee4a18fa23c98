use cougr_core::commands::CommandQueue;
use cougr_core::component::ComponentStorage;
use cougr_core::query::SimpleQueryCache;
use cougr_core::simple_world::SimpleWorld;
use cougr_core::symbol::Symbol;
use soroban_sdk::Env;

fn sym(s: &str) -> Symbol {
    Symbol::new(s)
}

#[test]
fn test_100_entities_with_physics() {
    let env = Env::default();
    let mut world = SimpleWorld::new(&env);

    for i in 0u8..100 {
        let e = world.spawn_entity();
        world.add_component(e, sym("pos"), vec![i]);
        world.add_component(e, sym("vel"), vec![1]);
    }

    let entities = world.get_entities_with_component(&sym("pos"), &env);
    assert_eq!(entities.len(), 100);

    let entities = world.get_entities_with_component(&sym("pos"), &env);
    for eid in entities {
        if let (Some(pos_data), Some(vel_data)) =
            (world.get_component(eid, &sym("pos")), world.get_component(eid, &sym("vel")))
        {
            let px = pos_data.first().copied().unwrap_or(0);
            let vx = vel_data.first().copied().unwrap_or(0);
            world.add_component(eid, sym("pos"), vec![px.wrapping_add(vx)]);
        }
    }

    let pos1 = world.get_component(1, &sym("pos")).unwrap();
    assert_eq!(pos1[0], 1);
    let pos100 = world.get_component(100, &sym("pos")).unwrap();
    assert_eq!(pos100[0], 100);
}

#[test]
fn test_spawn_50_despawn_25() {
    let env = Env::default();
    let mut world = SimpleWorld::new(&env);

    let mut ids = Vec::new();
    for _ in 0..50 {
        let e = world.spawn_entity();
        world.add_component(e, sym("pos"), vec![1]);
        ids.push(e);
    }

    let before = world.get_entities_with_component(&sym("pos"), &env);
    assert_eq!(before.len(), 50);

    for id in ids.iter().take(25) {
        world.despawn_entity(*id);
    }

    let after = world.get_entities_with_component(&sym("pos"), &env);
    assert_eq!(after.len(), 25);

    for id in ids.iter().skip(25) {
        assert!(world.has_component(*id, &sym("pos")));
    }
    for id in ids.iter().take(25) {
        assert!(!world.has_component(*id, &sym("pos")));
    }
}

#[test]
fn test_10_entities_10_components_each() {
    let env = Env::default();
    let mut world = SimpleWorld::new(&env);

    let comp_names: [&str; 10] = ["pos", "vel", "hp", "mp", "atk", "def", "spd", "lck", "xp", "lvl"];

    for _ in 0..10 {
        let e = world.spawn_entity();
        for (idx, name) in comp_names.iter().enumerate() {
            world.add_component(e, sym(name), vec![idx as u8]);
        }
    }

    for eid in 1..=10u32 {
        for name in &comp_names {
            assert!(world.has_component(eid, &sym(name)));
        }
    }

    let with_hp = world.get_entities_with_component(&sym("hp"), &env);
    assert_eq!(with_hp.len(), 10);
    let with_xp = world.get_entities_with_component(&sym("xp"), &env);
    assert_eq!(with_xp.len(), 10);
}

#[test]
fn test_query_cache_under_rapid_mutation() {
    let env = Env::default();
    let mut world = SimpleWorld::new(&env);
    let mut cache = SimpleQueryCache::new(sym("pos"), &env);

    for cycle in 0..5u32 {
        let mut added = Vec::new();
        for _ in 0..10 {
            let e = world.spawn_entity();
            world.add_component(e, sym("pos"), vec![1]);
            added.push(e);
        }

        let results = cache.execute(&world, &env);
        let expected_after_add = (cycle * 5 + 10) as usize;
        assert_eq!(results.len(), expected_after_add);

        for id in added.iter().take(5) {
            world.remove_component(*id, &sym("pos"));
        }

        let results = cache.execute(&world, &env);
        let expected_after_remove = (cycle * 5 + 5) as usize;
        assert_eq!(results.len(), expected_after_remove);
    }

    let final_results = cache.execute(&world, &env);
    assert_eq!(final_results.len(), 25);
}

#[test]
fn test_50_command_queue_operations() {
    let env = Env::default();
    let mut world = SimpleWorld::new(&env);

    let base = world.spawn_entity();
    world.add_component(base, sym("base"), vec![1]);

    let mut queue = CommandQueue::new();
    for _ in 0..20 {
        queue.spawn();
    }
    for i in 0..10u8 {
        queue.add_component(base, sym(&format!("c{}", i)), vec![i]);
    }
    for i in 10..20u8 {
        queue.add_sparse_component(base, sym(&format!("s{}", i)), vec![i]);
    }

    assert_eq!(queue.len(), 40);

    let spawned = queue.apply(&mut world);
    assert_eq!(spawned.len(), 20);

    for i in 0..10u8 {
        assert!(world.has_component(base, &sym(&format!("c{}", i))));
    }
    for i in 10..20u8 {
        assert!(world.has_component(base, &sym(&format!("s{}", i))));
    }
}

#[test]
fn test_version_counter_under_heavy_mutation() {
    let env = Env::default();
    let mut world = SimpleWorld::new(&env);

    let e = world.spawn_entity();
    let initial_version = world.version();

    for i in 0..100u8 {
        world.add_component(e, sym("pos"), vec![i]);
    }
    assert_eq!(world.version(), initial_version + 100);

    for i in 0..50u8 {
        world.remove_component(e, &sym("pos"));
        world.add_component(e, sym("pos"), vec![i]);
    }
    assert_eq!(world.version(), initial_version + 100 + 100);
}

#[test]
fn test_large_component_data() {
    let env = Env::default();
    let mut world = SimpleWorld::new(&env);
    let e = world.spawn_entity();

    let large_data = vec![0xABu8; 1024];
    world.add_component(e, sym("big"), large_data.clone());

    let retrieved = world.get_component(e, &sym("big")).unwrap();
    assert_eq!(retrieved.len(), 1024);
    assert_eq!(retrieved[0], 0xAB);
    assert_eq!(retrieved[1023], 0xAB);
}

#[test]
fn test_mixed_storage_stress() {
    let env = Env::default();
    let mut world = SimpleWorld::new(&env);

    for i in 0u32..30 {
        let e = world.spawn_entity();
        let data = vec![i as u8];
        if i < 15 || i >= 20 {
            world.add_component(e, sym("table"), data.clone());
        }
        if i >= 15 {
            world.add_component_with_storage(e, sym("sparse"), data, ComponentStorage::Sparse);
        }
    }

    let table_ents = world.get_table_entities_with_component(&sym("table"), &env);
    assert_eq!(table_ents.len(), 25);

    let sparse_ents = world.get_all_entities_with_component(&sym("sparse"), &env);
    assert_eq!(sparse_ents.len(), 15);
}
