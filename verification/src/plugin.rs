//! Composing a game from plugins: each plugin registers systems and hooks
//! on an application that owns the world.

use vstd::prelude::*;
use vstd::string::StringSliceAdditionalSpecFns;
use crate::bytes::bytes_eq;
use crate::hooks::HookRegistry;
use crate::scheduler::SimpleScheduler;
use crate::simple_world::SimpleWorld;
use crate::symbol::Symbol;

verus! {

/// A named unit of game configuration. `S`, `A` and `R` are the system,
/// addition-hook and removal-hook types of the application it configures.
pub trait Plugin<S, A, R> {
    /// The plugin's name; a second plugin of the same name is skipped.
    fn name(&self) -> &'static str;

    /// The application as the plugin configures it from `app`.
    spec fn configured(&self, app: PluginApp<S, A, R>) -> PluginApp<S, A, R>;

    /// Registers the plugin's systems, hooks and state on `app`, making it
    /// `configured` of what it was. It may register further plugins but
    /// keeps those already registered.
    fn build(&self, app: &mut PluginApp<S, A, R>)
        ensures
            *final(app) == self.configured(*old(app)),
            final(app).plugin_names().len() >= old(app).plugin_names().len(),
            final(app).plugin_names().subrange(0, old(app).plugin_names().len() as int) == old(app).plugin_names();
}

/// A world together with its systems, hooks and the names of the plugins
/// that configured them.
pub struct PluginApp<S, A, R> {
    world: SimpleWorld,
    scheduler: SimpleScheduler<S>,
    hooks: HookRegistry<A, R>,
    plugins_registered: Vec<&'static str>,
}

/// Whether a plugin named `name` is registered on `app`.
pub open spec fn registered<S, A, R>(app: PluginApp<S, A, R>, name: &'static str) -> bool {
    name_texts(app.plugin_names()).contains(name.spec_bytes())
}

/// Whether `mid` is `before` with `name` registered and nothing else
/// changed.
pub open spec fn with_name<S, A, R>(before: PluginApp<S, A, R>, mid: PluginApp<S, A, R>, name: &'static str) -> bool {
    &&& mid.plugin_names() == before.plugin_names().push(name)
    &&& mid.spec_world() == before.spec_world()
    &&& mid.spec_scheduler() == before.spec_scheduler()
    &&& mid.spec_hooks() == before.spec_hooks()
}

/// The texts of a list of names.
pub open spec fn name_texts(names: Seq<&'static str>) -> Seq<Seq<u8>> {
    names.map_values(|s: &'static str| s.spec_bytes())
}

impl<S, A, R> PluginApp<S, A, R> {
    /// The names of the registered plugins, in registration order.
    pub closed spec fn plugin_names(&self) -> Seq<&'static str> {
        self.plugins_registered@
    }

    /// The application's world.
    pub closed spec fn spec_world(&self) -> SimpleWorld {
        self.world
    }

    /// The application's systems.
    pub closed spec fn spec_scheduler(&self) -> SimpleScheduler<S> {
        self.scheduler
    }

    /// The application's hooks.
    pub closed spec fn spec_hooks(&self) -> HookRegistry<A, R> {
        self.hooks
    }

    /// An application over an empty world, without systems, hooks or plugins.
    pub fn new(env: &soroban_sdk::Env) -> (app: Self)
        ensures
            app.spec_world().wf(),
            app.spec_world().next_entity_id == 1,
            app.spec_world().version == 0,
            app.spec_world().entity_components@ == Map::<u32, Vec<Symbol>>::empty(),
            forall|e: u32, t: Symbol| !app.spec_world().spec_has(e, t),
            app.spec_scheduler().entries().len() == 0,
            app.spec_hooks().add_entries().len() == 0,
            app.spec_hooks().remove_entries().len() == 0,
            app.plugin_names().len() == 0,
    {
        PluginApp {
            world: SimpleWorld::new(env),
            scheduler: SimpleScheduler::new(),
            hooks: HookRegistry::new(),
            plugins_registered: Vec::new(),
        }
    }

    /// An application over `world`, without systems, hooks or plugins.
    pub fn with_world(world: SimpleWorld) -> (app: Self)
        ensures
            app.spec_world() == world,
            app.spec_scheduler().entries().len() == 0,
            app.spec_hooks().add_entries().len() == 0,
            app.spec_hooks().remove_entries().len() == 0,
            app.plugin_names().len() == 0,
    {
        PluginApp {
            world,
            scheduler: SimpleScheduler::new(),
            hooks: HookRegistry::new(),
            plugins_registered: Vec::new(),
        }
    }

    /// Records `name` as registered unless a plugin of that name already
    /// is; returns whether it was new.
    fn register_plugin(&mut self, name: &'static str) -> (added: bool)
        ensures
            added == !name_texts(old(self).plugin_names()).contains(name.spec_bytes()),
            final(self).plugin_names() == if added {
                old(self).plugin_names().push(name)
            } else {
                old(self).plugin_names()
            },
            final(self).spec_world() == old(self).spec_world(),
            final(self).spec_scheduler() == old(self).spec_scheduler(),
            final(self).spec_hooks() == old(self).spec_hooks(),
    {
        if self.has_plugin(name) {
            false
        } else {
            self.plugins_registered.push(name);
            true
        }
    }

    /// Registers `plugin`'s name and then lets it configure the application
    /// (the result is the plugin's `configured` of the application with the
    /// name registered), unless a plugin of the same name was registered
    /// before (then nothing changes). Plugins registered before stay
    /// registered.
    pub fn add_plugin<P: Plugin<S, A, R>>(&mut self, plugin: P) -> (r: &mut Self)
        ensures
            *final(self) == *final(r),
            r.plugin_names().len() >= old(self).plugin_names().len(),
            r.plugin_names().subrange(0, old(self).plugin_names().len() as int) == old(self).plugin_names(),
            exists|name: &'static str| #[trigger] call_ensures(P::name, (&plugin,), name)
                && registered(*r, name)
                && (registered(*old(self), name) ==> *r == *old(self))
                && (!registered(*old(self), name) ==> r.plugin_names().len() > old(self).plugin_names().len()
                    && r.plugin_names()[old(self).plugin_names().len() as int] == name
                    && exists|mid: Self| #[trigger] with_name(*old(self), mid, name) && *r == plugin.configured(mid)),
    {
        let name = plugin.name();
        assert(call_ensures(P::name, (&plugin,), name));
        let ghost before = self.plugin_names();
        if self.has_plugin(name) {
            proof {
                assert(self.plugin_names().subrange(0, before.len() as int) =~= before);
                assert(registered(*self, name));
            }
            return self;
        }
        self.register_plugin(name);
        let ghost mid = self.plugin_names();
        let ghost mid_app = *self;
        plugin.build(self);
        proof {
            assert(with_name(*old(self), mid_app, name));
            let n = before.len() as int;
            assert(mid.len() == n + 1);
            assert(mid[n] == name);
            assert(self.plugin_names().subrange(0, mid.len() as int)[n] == mid[n]);
            assert(self.plugin_names()[n] == name);
            assert(name_texts(self.plugin_names())[n] == name.spec_bytes());
            assert(registered(*self, name));
            assert(!registered(*old(self), name));
            assert(self.plugin_names().subrange(0, n) =~= self.plugin_names().subrange(0, mid.len() as int).subrange(0, n));
            assert(mid.subrange(0, n) =~= before);
        }
        self
    }

    /// Appends a system to the scheduler.
    pub fn add_system(&mut self, name: &'static str, system: S) -> (r: &mut Self)
        ensures
            r.spec_scheduler().entries() == old(self).spec_scheduler().entries().push((name, system)),
            r.spec_world() == old(self).spec_world(),
            r.spec_hooks() == old(self).spec_hooks(),
            r.plugin_names() == old(self).plugin_names(),
            *final(self) == *final(r),
    {
        self.scheduler.add_system(name, system);
        self
    }

    /// Registers a hook run when a component of `component_type` is added.
    pub fn add_hook_on_add(&mut self, component_type: Symbol, hook: A) -> (r: &mut Self)
        ensures
            r.spec_hooks().add_entries() == old(self).spec_hooks().add_entries().push((component_type, hook)),
            r.spec_hooks().remove_entries() == old(self).spec_hooks().remove_entries(),
            r.spec_world() == old(self).spec_world(),
            r.spec_scheduler() == old(self).spec_scheduler(),
            r.plugin_names() == old(self).plugin_names(),
            *final(self) == *final(r),
    {
        self.hooks.on_add(component_type, hook);
        self
    }

    /// Registers a hook run when a component of `component_type` is removed.
    pub fn add_hook_on_remove(&mut self, component_type: Symbol, hook: R) -> (r: &mut Self)
        ensures
            r.spec_hooks().remove_entries() == old(self).spec_hooks().remove_entries().push((component_type, hook)),
            r.spec_hooks().add_entries() == old(self).spec_hooks().add_entries(),
            r.spec_world() == old(self).spec_world(),
            r.spec_scheduler() == old(self).spec_scheduler(),
            r.plugin_names() == old(self).plugin_names(),
            *final(self) == *final(r),
    {
        self.hooks.on_remove(component_type, hook);
        self
    }

    /// The application's world.
    pub fn world(&self) -> (w: &SimpleWorld)
        ensures
            *w == self.spec_world(),
    {
        &self.world
    }

    /// The application's world, for changing it.
    pub fn world_mut(&mut self) -> (w: &mut SimpleWorld)
        ensures
            *w == old(self).spec_world(),
            final(self).spec_world() == *final(w),
            final(self).spec_scheduler() == old(self).spec_scheduler(),
            final(self).spec_hooks() == old(self).spec_hooks(),
            final(self).plugin_names() == old(self).plugin_names(),
    {
        &mut self.world
    }

    /// The application's systems.
    pub fn scheduler(&self) -> (s: &SimpleScheduler<S>)
        ensures
            *s == self.spec_scheduler(),
    {
        &self.scheduler
    }

    /// The application's hooks.
    pub fn hooks(&self) -> (h: &HookRegistry<A, R>)
        ensures
            *h == self.spec_hooks(),
    {
        &self.hooks
    }

    /// The world, handed over for persistence.
    pub fn into_world(self) -> (w: SimpleWorld)
        ensures
            w == self.spec_world(),
    {
        self.world
    }

    /// The number of registered plugins.
    pub fn plugin_count(&self) -> (n: usize)
        ensures
            n == self.plugin_names().len(),
    {
        self.plugins_registered.len()
    }

    /// Whether a plugin named `name` has been registered.
    pub fn has_plugin(&self, name: &str) -> (r: bool)
        ensures
            r == name_texts(self.plugin_names()).contains(name.spec_bytes()),
    {
        let target = name.as_bytes();
        let mut i: usize = 0;
        while i < self.plugins_registered.len()
            invariant
                i <= self.plugins_registered@.len(),
                target@ == name.spec_bytes(),
                forall|j: int| 0 <= j < i ==> self.plugins_registered@[j].spec_bytes() != name.spec_bytes(),
            decreases self.plugins_registered@.len() - i,
        {
            if bytes_eq(self.plugins_registered[i].as_bytes(), target) {
                assert(name_texts(self.plugin_names())[i as int] == name.spec_bytes());
                return true;
            }
            i = i + 1;
        }
        assert forall|j: int| 0 <= j < name_texts(self.plugin_names()).len() implies
            name_texts(self.plugin_names())[j] != name.spec_bytes() by {}
        false
    }

    /// The number of registered systems.
    pub fn system_count(&self) -> (n: usize)
        ensures
            n == self.spec_scheduler().entries().len(),
    {
        self.scheduler.system_count()
    }
}

} // verus!
