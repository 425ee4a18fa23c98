//! Summaries of one entity and of a whole world.

use vstd::prelude::*;
use crate::simple_world::{EntityId, SimpleWorld};
use crate::symbol::{Symbol, copy_syms};

verus! {

/// What one entity holds.
#[derive(Clone, Debug)]
pub struct EntitySummary {
    pub entity_id: EntityId,
    /// Table plus sparse components.
    pub component_count: u32,
    /// The entity's component types, in the order added.
    pub component_types: Vec<Symbol>,
    pub table_count: u32,
    pub sparse_count: u32,
}

/// What a whole world holds.
#[derive(Clone, Copy, Debug, PartialEq, Eq, Structural)]
pub struct WorldSummary {
    /// Entities that have components.
    pub entity_count: u32,
    /// Table plus sparse entries.
    pub total_components: u32,
    pub table_entries: u32,
    pub sparse_entries: u32,
    pub version: u64,
    pub next_entity_id: EntityId,
}

/// "Is held in table storage for entity `e`".
pub open spec fn in_table(w: SimpleWorld, e: EntityId) -> spec_fn(Symbol) -> bool {
    |t: Symbol| w.components@.contains_key((e, t))
}

/// "Is held in sparse storage, and not in table storage, for entity `e`".
pub open spec fn in_sparse_only(w: SimpleWorld, e: EntityId) -> spec_fn(Symbol) -> bool {
    |t: Symbol| !w.components@.contains_key((e, t)) && w.sparse_components@.contains_key((e, t))
}

/// Whether `s` is the summary of entity `e` in `w`.
pub open spec fn summarizes(s: EntitySummary, w: SimpleWorld, e: EntityId) -> bool {
    &&& s.entity_id == e
    &&& s.component_types@ == w.types_of(e)
    &&& s.table_count == w.types_of(e).filter(in_table(w, e)).len()
    &&& s.sparse_count == w.types_of(e).filter(in_sparse_only(w, e)).len()
    &&& s.component_count == s.table_count + s.sparse_count
}

/// Summarizes entity `entity_id`; `None` when it has no components.
pub fn inspect_entity(world: &SimpleWorld, entity_id: EntityId, env: &soroban_sdk::Env) -> (r: Option<EntitySummary>)
    requires
        world.wf(),
        world.types_of(entity_id).len() <= u32::MAX,
    ensures
        r is None <==> !world.entity_components@.contains_key(entity_id),
        r matches Some(s) ==> summarizes(s, *world, entity_id),
{
    let types = match world.entity_components.get(entity_id) {
        Some(t) => t,
        None => {
            return None;
        },
    };
    let ghost tv = types@;
    let mut table_count: u32 = 0;
    let mut sparse_count: u32 = 0;
    let mut i: usize = 0;
    while i < types.len()
        invariant
            world.wf(),
            tv == world.types_of(entity_id),
            tv == types@,
            tv.len() <= u32::MAX,
            i <= tv.len(),
            table_count + sparse_count <= i,
            table_count == tv.take(i as int).filter(in_table(*world, entity_id)).len(),
            sparse_count == tv.take(i as int).filter(in_sparse_only(*world, entity_id)).len(),
        decreases tv.len() - i,
    {
        let t = types[i];
        proof {
            tv.lemma_take_succ_push(i as int);
            tv.take(i as int).lemma_filter_len_push(in_table(*world, entity_id), t);
            tv.take(i as int).lemma_filter_len_push(in_sparse_only(*world, entity_id), t);
        }
        if world.components.contains_key(entity_id, t) {
            table_count = table_count + 1;
        } else if world.sparse_components.contains_key(entity_id, t) {
            sparse_count = sparse_count + 1;
        }
        i = i + 1;
    }
    proof {
        assert(tv.take(tv.len() as int) =~= tv);
    }
    Some(EntitySummary {
        entity_id,
        component_count: table_count + sparse_count,
        component_types: copy_syms(types),
        table_count,
        sparse_count,
    })
}

/// Summarizes the whole world.
pub fn inspect_world(world: &SimpleWorld, env: &soroban_sdk::Env) -> (s: WorldSummary)
    requires
        world.wf(),
        world.entity_components@.dom().len() <= u32::MAX,
        world.components@.dom().len() + world.sparse_components@.dom().len() <= u32::MAX,
    ensures
        s.entity_count == world.entity_components@.dom().len(),
        s.table_entries == world.components@.dom().len(),
        s.sparse_entries == world.sparse_components@.dom().len(),
        s.total_components == s.table_entries + s.sparse_entries,
        s.version == world.version,
        s.next_entity_id == world.next_entity_id,
{
    let entities = world.entity_components.len() as u32;
    let table = world.components.len() as u32;
    let sparse = world.sparse_components.len() as u32;
    WorldSummary {
        entity_count: entities,
        total_components: table + sparse,
        table_entries: table,
        sparse_entries: sparse,
        version: world.version(),
        next_entity_id: world.next_entity_id,
    }
}

/// Summaries of every entity that has components, in increasing id order.
pub fn list_entities(world: &SimpleWorld, env: &soroban_sdk::Env) -> (r: Vec<EntitySummary>)
    requires
        world.wf(),
        forall|e: EntityId| world.types_of(e).len() <= u32::MAX,
    ensures
        r@.len() == world.entity_components.key_seq().len(),
        forall|i: int| 0 <= i < r@.len() ==> summarizes(#[trigger] r@[i], *world, world.entity_components.key_seq()[i]),
{
    let mut summaries: Vec<EntitySummary> = Vec::new();
    let n = world.entity_components.len();
    let mut i: usize = 0;
    while i < n
        invariant
            world.wf(),
            forall|e: EntityId| world.types_of(e).len() <= u32::MAX,
            n == world.entity_components.key_seq().len(),
            i <= n,
            summaries@.len() == i,
            forall|j: int| 0 <= j < i ==> summarizes(#[trigger] summaries@[j], *world, world.entity_components.key_seq()[j]),
        decreases n - i,
    {
        let eid = world.entity_components.key_at(i);
        match inspect_entity(world, eid, env) {
            Some(s) => {
                summaries.push(s);
            },
            None => {},
        }
        i = i + 1;
    }
    summaries
}

/// Splitting a sequence by two predicates of which each element meets
/// exactly one splits its length.
proof fn lemma_filter_split(s: Seq<Symbol>, p: spec_fn(Symbol) -> bool, q: spec_fn(Symbol) -> bool)
    requires
        forall|i: int| 0 <= i < s.len() ==> (p(#[trigger] s[i]) != q(s[i])),
    ensures
        s.filter(p).len() + s.filter(q).len() == s.len(),
    decreases s.len(),
{
    reveal(Seq::filter);
    if s.len() > 0 {
        let r = s.drop_last();
        assert forall|i: int| 0 <= i < r.len() implies (p(#[trigger] r[i]) != q(r[i])) by {
            assert(r[i] == s[i]);
        }
        lemma_filter_split(r, p, q);
        assert(p(s[s.len() - 1]) != q(s[s.len() - 1]));
    }
}

/// An entity's summary counts each of its component types once: its
/// component count is the number of its types, split between table and
/// sparse storage.
pub proof fn law_summary_counts_every_type(s: EntitySummary, w: SimpleWorld, e: EntityId)
    requires
        w.wf(),
        summarizes(s, w, e),
    ensures
        s.component_count == w.types_of(e).len(),
{
    let ts = w.types_of(e);
    assert forall|i: int| 0 <= i < ts.len() implies (in_table(w, e)(#[trigger] ts[i]) != in_sparse_only(w, e)(ts[i])) by {
        assert(ts.contains(ts[i]));
        assert(w.spec_has(e, ts[i]) <==> w.types_of(e).contains(ts[i]));
    }
    lemma_filter_split(ts, in_table(w, e), in_sparse_only(w, e));
}

} // verus!
