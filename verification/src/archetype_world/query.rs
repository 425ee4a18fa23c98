//! Archetype-aware queries: cached queries invalidated by the world's
//! version, and queries with excluded component types.

use vstd::prelude::*;
use crate::seq_util::{self, copy_ids};
use crate::simple_world::EntityId;
use crate::symbol::Symbol;
use super::archetype;
use super::world::{self, ArchetypeWorld};

verus! {

/// A query whose results are reused while the world's version is unchanged.
pub struct ArchetypeQueryCache {
    required: Vec<Symbol>,
    cached_version: u64,
    cached_results: Option<Vec<EntityId>>,
}

impl ArchetypeQueryCache {
    /// The component types the query requires.
    pub closed spec fn required_types(&self) -> Seq<Symbol> {
        self.required@
    }

    /// The version the cached results were computed at.
    pub closed spec fn spec_cached_version(&self) -> u64 {
        self.cached_version
    }

    /// The cached results, if any.
    pub closed spec fn spec_cached(&self) -> Option<Seq<EntityId>> {
        match self.cached_results {
            Some(v) => Some(v@),
            None => None,
        }
    }

    /// The cache agrees with the world: results cached at the world's
    /// current version are the world's answer to the query.
    pub open spec fn consistent_with(&self, world: ArchetypeWorld) -> bool {
        self.spec_cached() is Some && self.spec_cached_version() == world.version
            ==> self.spec_cached() == Some(world::query_seq(world.archetypes.val_seq(), self.required_types()))
    }

    /// A cache for the given required types, holding nothing yet.
    pub fn new(required: Vec<Symbol>) -> (c: Self)
        ensures
            c.required_types() == required@,
            c.spec_cached() is None,
            c.spec_cached_version() == u64::MAX,
    {
        ArchetypeQueryCache { required, cached_version: u64::MAX, cached_results: None }
    }

    /// Runs the query, reusing the cached results when the world's version
    /// is the one they were computed at.
    pub fn execute(&mut self, world: &ArchetypeWorld, env: &soroban_sdk::Env) -> (results: Vec<EntityId>)
        requires
            world.wf(),
        ensures
            final(self).required_types() == old(self).required_types(),
            final(self).spec_cached_version() == world.version,
            final(self).spec_cached() == Some(results@),
            (old(self).spec_cached_version() == world.version && old(self).spec_cached() is Some)
                ==> Some(results@) == old(self).spec_cached(),
            !(old(self).spec_cached_version() == world.version && old(self).spec_cached() is Some)
                ==> results@ == world::query_seq(world.archetypes.val_seq(), old(self).required_types()),
            old(self).consistent_with(*world) ==> results@ == world::query_seq(world.archetypes.val_seq(), old(self).required_types()),
    {
        if self.cached_version == world.version() {
            if let Some(ref results) = self.cached_results {
                return copy_ids(results);
            }
        }
        let results = world.query(self.required.as_slice(), env);
        self.cached_version = world.version();
        self.cached_results = Some(copy_ids(&results));
        results
    }

    /// Drops the cached results.
    pub fn invalidate(&mut self)
        ensures
            final(self).required_types() == old(self).required_types(),
            final(self).spec_cached() is None,
            final(self).spec_cached_version() == u64::MAX,
    {
        self.cached_version = u64::MAX;
        self.cached_results = None;
    }
}

/// Whether the entity has none of the excluded types.
pub open spec fn has_none(world: ArchetypeWorld, excluded: Seq<Symbol>) -> spec_fn(EntityId) -> bool {
    |e: EntityId| forall|i: int| 0 <= i < excluded.len() ==> !world.spec_has(e, #[trigger] excluded[i])
}

/// The entities that have all required and none of the excluded types,
/// in the order of the plain query.
pub fn archetype_query(
    world: &ArchetypeWorld,
    required: &[Symbol],
    excluded: &[Symbol],
    env: &soroban_sdk::Env,
) -> (results: Vec<EntityId>)
    requires
        world.wf(),
    ensures
        results@ == world::query_seq(world.archetypes.val_seq(), required@).filter(has_none(*world, excluded@)),
        forall|e: EntityId| #[trigger] results@.contains(e) <==> (world.entity_archetype@.contains_key(e)
            && archetype::types_match(world.types_of(e), required@)
            && forall|i: int| 0 <= i < excluded@.len() ==> !world.spec_has(e, #[trigger] excluded@[i])),
{
    let candidates = world.query(required, env);
    let ghost p = has_none(*world, excluded@);
    if excluded.len() == 0 {
        proof {
            seq_util::lemma_filter_all(candidates@, p);
        }
        return candidates;
    }
    let mut results: Vec<EntityId> = Vec::new();
    let mut i: usize = 0;
    while i < candidates.len()
        invariant
            world.wf(),
            i <= candidates@.len(),
            results@ == candidates@.subrange(0, i as int).filter(p),
            p == has_none(*world, excluded@),
        decreases candidates@.len() - i,
    {
        let eid = candidates[i];
        let mut exclude = false;
        let mut j: usize = 0;
        while j < excluded.len() && !exclude
            invariant
                world.wf(),
                j <= excluded@.len(),
                exclude == exists|k: int| 0 <= k < j && world.spec_has(eid, #[trigger] excluded@[k]),
            decreases excluded@.len() - j,
        {
            if world.has_component(eid, &excluded[j]) {
                exclude = true;
            }
            j = j + 1;
        }
        proof {
            assert(candidates@.subrange(0, i + 1) =~= candidates@.subrange(0, i as int).push(eid));
            candidates@.subrange(0, i as int).lemma_filter_push(eid, p);
            if !exclude {
                assert(j == excluded@.len());
            }
            assert(p(eid) == !exclude);
        }
        if !exclude {
            results.push(eid);
        }
        i = i + 1;
    }
    proof {
        assert(candidates@.subrange(0, candidates@.len() as int) =~= candidates@);
        assert forall|e: EntityId| #[trigger] results@.contains(e) <==> (candidates@.contains(e) && p(e)) by {
            if results@.contains(e) {
                candidates@.lemma_filter_contains_rev(p, e);
            }
            if candidates@.contains(e) && p(e) {
                let k = choose|k: int| 0 <= k < candidates@.len() && candidates@[k] == e;
                candidates@.lemma_filter_contains(p, k);
            }
        }
    }
    results
}

} // verus!
