use cougr_core::plugin::{Plugin, PluginApp};
use cougr_core::scheduler::SimpleScheduler;
use cougr_core::simple_world::SimpleWorld;
use cougr_core::symbol::Symbol;
use soroban_sdk::Env;

type SystemFn = fn(&mut SimpleWorld, &Env);
type AddHook = fn(u32, &Symbol, &Vec<u8>);
type RemoveHook = fn(u32, &Symbol);
type App = PluginApp<SystemFn, AddHook, RemoveHook>;

fn sym(s: &str) -> Symbol {
    Symbol::new(s)
}

struct TestPlugin;

impl Plugin<SystemFn, AddHook, RemoveHook> for TestPlugin {
    fn name(&self) -> &'static str {
        "test_plugin"
    }

    fn build(&self, app: &mut App) {
        app.add_system("test_system", test_system_fn);
    }

    fn configured(&self, app: App) -> App {
        let mut app = app;
        self.build(&mut app);
        app
    }
}

struct HookPlugin;

impl Plugin<SystemFn, AddHook, RemoveHook> for HookPlugin {
    fn name(&self) -> &'static str {
        "hook_plugin"
    }

    fn build(&self, app: &mut App) {
        app.add_hook_on_add(sym("pos"), noop_add_hook);
    }

    fn configured(&self, app: App) -> App {
        let mut app = app;
        self.build(&mut app);
        app
    }
}

fn test_system_fn(world: &mut SimpleWorld, _env: &Env) {
    let e = world.spawn_entity();
    world.add_component(e, sym("marker"), vec![0xFF]);
}

fn noop_add_hook(_entity_id: u32, _component_type: &Symbol, _data: &Vec<u8>) {}

/// Runs the registered systems in order, as the application's run loop does.
fn run_systems(app: &mut App, env: &Env) {
    let systems: Vec<SystemFn> = app.scheduler().systems().iter().map(|(_, s)| *s).collect();
    for s in systems {
        s(app.world_mut(), env);
    }
}

#[test]
fn test_plugin_app_new() {
    let env = Env::default();
    let app: App = PluginApp::new(&env);
    assert_eq!(app.plugin_count(), 0);
    assert_eq!(app.system_count(), 0);
}

#[test]
fn test_add_plugin() {
    let env = Env::default();
    let mut app: App = PluginApp::new(&env);
    app.add_plugin(TestPlugin);
    assert_eq!(app.plugin_count(), 1);
    assert!(app.has_plugin("test_plugin"));
    assert_eq!(app.system_count(), 1);
}

#[test]
fn test_duplicate_plugin_skipped() {
    let env = Env::default();
    let mut app: App = PluginApp::new(&env);
    app.add_plugin(TestPlugin);
    app.add_plugin(TestPlugin);
    assert_eq!(app.plugin_count(), 1);
    assert_eq!(app.system_count(), 1);
}

#[test]
fn test_plugin_configures_hooks() {
    let env = Env::default();
    let mut app: App = PluginApp::new(&env);
    app.add_plugin(HookPlugin);
    assert_eq!(app.plugin_count(), 1);
    assert_eq!(app.hooks().add_hook_count(), 1);
}

#[test]
fn test_run_executes_systems() {
    let env = Env::default();
    let mut app: App = PluginApp::new(&env);
    app.add_plugin(TestPlugin);
    run_systems(&mut app, &env);
    assert!(app.world().has_component(1, &sym("marker")));
}

#[test]
fn test_into_world() {
    let env = Env::default();
    let mut app: App = PluginApp::new(&env);
    app.add_plugin(TestPlugin);
    run_systems(&mut app, &env);
    let world = app.into_world();
    assert!(world.has_component(1, &sym("marker")));
}

#[test]
fn test_with_world() {
    let env = Env::default();
    let mut world = SimpleWorld::new(&env);
    let e1 = world.spawn_entity();
    world.add_component(e1, sym("pre"), vec![1]);
    let app: App = PluginApp::with_world(world);
    assert!(app.world().has_component(e1, &sym("pre")));
}

#[test]
fn test_add_system_directly() {
    let env = Env::default();
    let mut app: App = PluginApp::new(&env);
    app.add_system("direct", test_system_fn);
    assert_eq!(app.system_count(), 1);
    assert_eq!(app.plugin_count(), 0);
}

#[test]
fn test_multiple_plugins() {
    let env = Env::default();
    let mut app: App = PluginApp::new(&env);
    app.add_plugin(TestPlugin);
    app.add_plugin(HookPlugin);
    assert_eq!(app.plugin_count(), 2);
    assert!(app.has_plugin("test_plugin"));
    assert!(app.has_plugin("hook_plugin"));
}

#[test]
fn scheduler_keeps_insertion_order() {
    let mut scheduler: SimpleScheduler<u8> = SimpleScheduler::new();
    scheduler.add_system("physics", 1);
    scheduler.add_system("scoring", 2);
    assert_eq!(scheduler.system_count(), 2);
    let names: Vec<&str> = scheduler.systems().iter().map(|(n, _)| *n).collect();
    assert_eq!(names, vec!["physics", "scoring"]);
}

#[test]
fn add_plugin_registers_its_name_once() {
    let env = Env::default();
    let mut app: App = PluginApp::new(&env);
    assert!(!app.has_plugin("test_plugin"));
    app.add_plugin(TestPlugin);
    assert!(app.has_plugin("test_plugin"));
    assert_eq!(app.system_count(), 1);
    app.add_plugin(TestPlugin);
    assert_eq!(app.plugin_count(), 1);
    assert_eq!(app.system_count(), 1);
}
