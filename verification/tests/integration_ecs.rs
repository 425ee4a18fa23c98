use cougr_core::commands::CommandQueue;
use cougr_core::component::ComponentStorage;
use cougr_core::plugin::{Plugin, PluginApp};
use cougr_core::query::SimpleQueryCache;
use cougr_core::scheduler::SimpleScheduler;
use cougr_core::simple_world::SimpleWorld;
use cougr_core::symbol::Symbol;
use soroban_sdk::Env;

type SystemFn = fn(&mut SimpleWorld, &Env);
type AddHook = fn(u32, &Symbol, &Vec<u8>);
type RemoveHook = fn(u32, &Symbol);
type App = PluginApp<SystemFn, AddHook, RemoveHook>;

fn sym(s: &str) -> Symbol {
    Symbol::new(s)
}

/// Runs the scheduler's systems in insertion order on the world.
fn run_all(scheduler: &SimpleScheduler<SystemFn>, world: &mut SimpleWorld, env: &Env) {
    for (_, system) in scheduler.systems() {
        system(world, env);
    }
}

/// Runs the application's systems in order, as its run loop does.
fn run_app(app: &mut App, env: &Env) {
    let systems: Vec<SystemFn> = app.scheduler().systems().iter().map(|(_, s)| *s).collect();
    for s in systems {
        s(app.world_mut(), env);
    }
}

/// A physics system that reads "pos" + "vel" and updates "pos".
fn physics_system(world: &mut SimpleWorld, env: &Env) {
    let entities = world.get_entities_with_component(&sym("pos"), env);
    for eid in entities {
        if let (Some(pos_data), Some(vel_data)) =
            (world.get_component(eid, &sym("pos")), world.get_component(eid, &sym("vel")))
        {
            let px = pos_data.first().copied().unwrap_or(0);
            let vx = vel_data.first().copied().unwrap_or(0);
            world.add_component(eid, sym("pos"), vec![px.wrapping_add(vx)]);
        }
    }
}

/// A scoring system that adds a "score" component to entities with a "scored" marker.
fn scoring_system(world: &mut SimpleWorld, env: &Env) {
    let entities = world.get_entities_with_component(&sym("scored"), env);
    for eid in entities {
        let current = world
            .get_component(eid, &sym("score"))
            .map(|b| b.first().copied().unwrap_or(0))
            .unwrap_or(0);
        world.add_component(eid, sym("score"), vec![current + 1]);
    }
}

/// A cleanup system that removes "dead" entities.
fn cleanup_system(world: &mut SimpleWorld, env: &Env) {
    let entities = world.get_entities_with_component(&sym("dead"), env);
    for eid in entities {
        world.despawn_entity(eid);
    }
}

/// A spawn system that creates new entities through a command queue.
fn spawn_bullets_system(world: &mut SimpleWorld, _env: &Env) {
    let mut cmds = CommandQueue::new();
    cmds.spawn();
    let spawned = cmds.apply(world);
    for id in &spawned {
        world.add_component(*id, sym("bullet"), vec![0xFF]);
    }
}

#[test]
fn test_full_game_tick_cycle() {
    let env = Env::default();
    let mut world = SimpleWorld::new(&env);

    let e1 = world.spawn_entity();
    world.add_component(e1, sym("pos"), vec![10]);
    world.add_component(e1, sym("vel"), vec![5]);

    let e2 = world.spawn_entity();
    world.add_component(e2, sym("pos"), vec![20]);
    world.add_component(e2, sym("vel"), vec![3]);

    physics_system(&mut world, &env);

    let pos1 = world.get_component(e1, &sym("pos")).unwrap();
    assert_eq!(pos1[0], 15);
    let pos2 = world.get_component(e2, &sym("pos")).unwrap();
    assert_eq!(pos2[0], 23);

    let with_pos = world.get_entities_with_component(&sym("pos"), &env);
    assert_eq!(with_pos.len(), 2);
}

#[test]
fn test_plugin_app_lifecycle() {
    struct PhysicsPlugin;
    impl Plugin<SystemFn, AddHook, RemoveHook> for PhysicsPlugin {
        fn name(&self) -> &'static str {
            "physics"
        }
        fn build(&self, app: &mut App) {
            app.add_system("physics", physics_system);
        }

        fn configured(&self, app: App) -> App {
            let mut app = app;
            self.build(&mut app);
            app
        }
    }

    struct ScoringPlugin;
    impl Plugin<SystemFn, AddHook, RemoveHook> for ScoringPlugin {
        fn name(&self) -> &'static str {
            "scoring"
        }
        fn build(&self, app: &mut App) {
            app.add_system("scoring", scoring_system);
        }

        fn configured(&self, app: App) -> App {
            let mut app = app;
            self.build(&mut app);
            app
        }
    }

    let env = Env::default();
    let mut app: App = PluginApp::new(&env);
    app.add_plugin(PhysicsPlugin);
    app.add_plugin(ScoringPlugin);

    assert_eq!(app.plugin_count(), 2);
    assert_eq!(app.system_count(), 2);

    let e1 = app.world_mut().spawn_entity();
    app.world_mut().add_component(e1, sym("pos"), vec![10]);
    app.world_mut().add_component(e1, sym("vel"), vec![5]);
    app.world_mut().add_component(e1, sym("scored"), vec![1]);

    run_app(&mut app, &env);

    let pos = app.world().get_component(e1, &sym("pos")).unwrap();
    assert_eq!(pos[0], 15);
    let score = app.world().get_component(e1, &sym("score")).unwrap();
    assert_eq!(score[0], 1);

    let world = app.into_world();
    assert!(world.has_component(e1, &sym("pos")));
    assert!(world.has_component(e1, &sym("score")));
}

#[test]
fn test_command_queue_within_system() {
    let env = Env::default();
    let mut world = SimpleWorld::new(&env);

    let shooter = world.spawn_entity();
    world.add_component(shooter, sym("pos"), vec![50]);

    spawn_bullets_system(&mut world, &env);

    assert!(world.has_component(2, &sym("bullet")));
    assert!(world.has_component(shooter, &sym("pos")));
}

#[test]
fn test_multi_system_pipeline() {
    let env = Env::default();
    let mut scheduler: SimpleScheduler<SystemFn> = SimpleScheduler::new();
    scheduler.add_system("physics", physics_system);
    scheduler.add_system("scoring", scoring_system);
    scheduler.add_system("cleanup", cleanup_system);

    let mut world = SimpleWorld::new(&env);

    let e1 = world.spawn_entity();
    world.add_component(e1, sym("pos"), vec![10]);
    world.add_component(e1, sym("vel"), vec![5]);
    world.add_component(e1, sym("scored"), vec![1]);

    let e2 = world.spawn_entity();
    world.add_component(e2, sym("pos"), vec![99]);
    world.add_component(e2, sym("dead"), vec![1]);

    run_all(&scheduler, &mut world, &env);

    let pos = world.get_component(e1, &sym("pos")).unwrap();
    assert_eq!(pos[0], 15);
    assert!(world.has_component(e1, &sym("score")));
    assert!(!world.has_component(e2, &sym("pos")));
    assert!(!world.has_component(e2, &sym("dead")));
}

#[test]
fn test_table_vs_sparse_mixed_storage() {
    let env = Env::default();
    let mut world = SimpleWorld::new(&env);

    let e1 = world.spawn_entity();
    let e2 = world.spawn_entity();
    let e3 = world.spawn_entity();

    world.add_component(e1, sym("pos"), vec![1]);
    world.add_component_with_storage(e1, sym("tag"), vec![1], ComponentStorage::Sparse);
    world.add_component(e2, sym("pos"), vec![1]);
    world.add_component_with_storage(e3, sym("tag"), vec![1], ComponentStorage::Sparse);

    let table_pos = world.get_table_entities_with_component(&sym("pos"), &env);
    assert_eq!(table_pos.len(), 2);

    let all_tag = world.get_all_entities_with_component(&sym("tag"), &env);
    assert_eq!(all_tag.len(), 2);

    let table_tag = world.get_table_entities_with_component(&sym("tag"), &env);
    assert_eq!(table_tag.len(), 0);

    assert!(world.has_component(e1, &sym("pos")));
    assert!(world.has_component(e1, &sym("tag")));
    assert!(world.has_component(e3, &sym("tag")));
    assert!(!world.has_component(e3, &sym("pos")));
}

#[test]
fn test_entity_complete_lifecycle() {
    let env = Env::default();
    let mut world = SimpleWorld::new(&env);

    let e = world.spawn_entity();
    assert_eq!(e, 1);

    world.add_component(e, sym("pos"), vec![10, 20]);
    world.add_component(e, sym("hp"), vec![100]);
    world.add_component(e, sym("name"), vec![65, 66]);

    assert!(world.has_component(e, &sym("pos")));
    assert!(world.has_component(e, &sym("hp")));
    assert!(world.has_component(e, &sym("name")));

    world.remove_component(e, &sym("name"));
    assert!(!world.has_component(e, &sym("name")));
    assert!(world.has_component(e, &sym("pos")));

    world.add_component(e, sym("hp"), vec![50]);
    let hp = world.get_component(e, &sym("hp")).unwrap();
    assert_eq!(hp[0], 50);

    world.despawn_entity(e);
    assert!(!world.has_component(e, &sym("pos")));
    assert!(!world.has_component(e, &sym("hp")));
}

#[test]
fn test_query_cache_with_mutations() {
    let env = Env::default();
    let mut world = SimpleWorld::new(&env);
    let mut cache = SimpleQueryCache::new(sym("pos"), &env);

    let results = cache.execute(&world, &env);
    assert_eq!(results.len(), 0);

    let e1 = world.spawn_entity();
    world.add_component(e1, sym("pos"), vec![1]);

    assert!(!cache.is_valid(world.version()));

    let results = cache.execute(&world, &env);
    assert_eq!(results.len(), 1);
    assert!(cache.is_valid(world.version()));

    let results2 = cache.execute(&world, &env);
    assert_eq!(results2.len(), 1);

    let e2 = world.spawn_entity();
    world.add_component(e2, sym("pos"), vec![2]);
    let results3 = cache.execute(&world, &env);
    assert_eq!(results3.len(), 2);

    world.despawn_entity(e1);
    let results4 = cache.execute(&world, &env);
    assert_eq!(results4.len(), 1);
}

#[test]
fn test_scheduler_system_ordering() {
    let env = Env::default();
    let mut world = SimpleWorld::new(&env);

    let e = world.spawn_entity();
    world.add_component(e, sym("pos"), vec![10]);
    world.add_component(e, sym("vel"), vec![5]);
    world.add_component(e, sym("scored"), vec![1]);

    let mut scheduler: SimpleScheduler<SystemFn> = SimpleScheduler::new();
    scheduler.add_system("physics", physics_system);
    scheduler.add_system("scoring", scoring_system);

    run_all(&scheduler, &mut world, &env);
    assert_eq!(world.get_component(e, &sym("pos")).unwrap()[0], 15);
    assert_eq!(world.get_component(e, &sym("score")).unwrap()[0], 1);

    run_all(&scheduler, &mut world, &env);
    assert_eq!(world.get_component(e, &sym("pos")).unwrap()[0], 20);
    assert_eq!(world.get_component(e, &sym("score")).unwrap()[0], 2);
}

#[test]
fn test_command_queue_mixed_operations() {
    let env = Env::default();
    let mut world = SimpleWorld::new(&env);

    let e1 = world.spawn_entity();
    world.add_component(e1, sym("old"), vec![1]);

    let mut queue = CommandQueue::new();
    queue.spawn();
    queue.add_component(e1, sym("new"), vec![2]);
    queue.remove_component(e1, sym("old"));
    queue.spawn();

    let spawned = queue.apply(&mut world);
    assert_eq!(spawned.len(), 2);
    assert_eq!(spawned[0], 2);
    assert_eq!(spawned[1], 3);

    assert!(world.has_component(e1, &sym("new")));
    assert!(!world.has_component(e1, &sym("old")));
}

#[test]
fn queries_list_entities_by_id() {
    let env = Env::default();
    let mut world = SimpleWorld::new(&env);
    let a = world.spawn_entity();
    let b = world.spawn_entity();
    let c = world.spawn_entity();
    world.add_component(c, sym("pos"), vec![1]);
    world.add_component(a, sym("pos"), vec![1]);
    world.add_component_with_storage(b, sym("pos"), vec![1], ComponentStorage::Sparse);
    assert_eq!(world.get_entities_with_component(&sym("pos"), &env), vec![a, c]);
    assert_eq!(world.get_all_entities_with_component(&sym("pos"), &env), vec![a, c, b]);
}

#[test]
fn query_cache_reuses_results_until_version_changes() {
    let env = Env::default();
    let mut world = SimpleWorld::new(&env);
    let e = world.spawn_entity();
    world.add_component(e, sym("pos"), vec![1]);
    let mut cache = SimpleQueryCache::new(sym("pos"), &env);
    assert!(!cache.is_valid(world.version()));
    assert_eq!(cache.execute(&world, &env), vec![e]);
    assert!(cache.is_valid(world.version()));
    cache.invalidate();
    assert!(!cache.is_valid(world.version()));
    assert_eq!(cache.execute(&world, &env), vec![e]);
}
