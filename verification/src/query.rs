//! Cached single-component queries over the map-backed world.

use vstd::prelude::*;
use crate::seq_util::copy_ids;
use crate::simple_world::{EntityId, SimpleWorld};
use crate::symbol::Symbol;

verus! {

/// The entities with a component of one type, reused while the world's
/// version is unchanged.
pub struct SimpleQueryCache {
    component_type: Symbol,
    cached_version: u64,
    cached_results: Option<Vec<EntityId>>,
}

impl SimpleQueryCache {
    /// The component type the query looks for.
    pub closed spec fn spec_component_type(&self) -> Symbol {
        self.component_type
    }

    /// The version the cached results were computed at.
    pub closed spec fn spec_cached_version(&self) -> u64 {
        self.cached_version
    }

    /// The cached results, if any.
    pub closed spec fn spec_cached(&self) -> Option<Seq<EntityId>> {
        match self.cached_results {
            Some(v) => Some(v@),
            None => None,
        }
    }

    /// Whether results are cached for this world version.
    pub open spec fn spec_valid(&self, version: u64) -> bool {
        self.spec_cached() is Some && self.spec_cached_version() == version
    }

    /// The cache agrees with the world: results cached at the world's
    /// current version are the world's answer to the query.
    pub open spec fn consistent_with(&self, world: SimpleWorld) -> bool {
        self.spec_valid(world.version) ==> self.spec_cached() == Some(world.table_entities(self.spec_component_type()))
    }

    /// A cache for the given component type, holding nothing yet.
    pub fn new(component_type: Symbol, env: &soroban_sdk::Env) -> (c: Self)
        ensures
            c.spec_component_type() == component_type,
            c.spec_cached() is None,
            c.spec_cached_version() == u64::MAX,
    {
        SimpleQueryCache { component_type, cached_version: u64::MAX, cached_results: None }
    }

    /// Whether the cached results were computed at `world_version`.
    pub fn is_valid(&self, world_version: u64) -> (r: bool)
        ensures
            r == self.spec_valid(world_version),
    {
        self.cached_results.is_some() && self.cached_version == world_version
    }

    /// The entities with the component type, reusing the cached results
    /// when the world's version is the one they were computed at.
    pub fn execute(&mut self, world: &SimpleWorld, env: &soroban_sdk::Env) -> (results: Vec<EntityId>)
        requires
            world.wf(),
        ensures
            final(self).spec_component_type() == old(self).spec_component_type(),
            final(self).spec_valid(world.version),
            final(self).spec_cached() == Some(results@),
            old(self).spec_valid(world.version) ==> Some(results@) == old(self).spec_cached(),
            !old(self).spec_valid(world.version)
                ==> results@ == world.table_entities(old(self).spec_component_type()),
            old(self).consistent_with(*world)
                ==> results@ == world.table_entities(old(self).spec_component_type()),
            old(self).consistent_with(*world) ==> final(self).consistent_with(*world),
    {
        if self.cached_version == world.version() {
            if let Some(ref results) = self.cached_results {
                return copy_ids(results);
            }
        }
        let results = world.get_entities_with_component(&self.component_type, env);
        self.cached_version = world.version();
        self.cached_results = Some(copy_ids(&results));
        results
    }

    /// Drops the cached results.
    pub fn invalidate(&mut self)
        ensures
            final(self).spec_component_type() == old(self).spec_component_type(),
            final(self).spec_cached() is None,
            final(self).spec_cached_version() == u64::MAX,
    {
        self.cached_version = u64::MAX;
        self.cached_results = None;
    }
}

} // verus!
