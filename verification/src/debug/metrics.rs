//! Aggregate figures about a world's storage.

use vstd::prelude::*;
use crate::simple_world::SimpleWorld;
use crate::symbol::{Symbol, syms_contain};

verus! {

/// Storage figures of a world.
#[derive(Clone, Copy, Debug, PartialEq, Eq, Structural)]
pub struct StorageMetrics {
    pub total_table_entries: u32,
    pub total_sparse_entries: u32,
    /// Entities with at least one component.
    pub total_entities: u32,
    /// Components per entity, rounded down.
    pub avg_components_per_entity: u32,
    pub max_components_per_entity: u32,
    /// Distinct component types in use.
    pub unique_component_types: u32,
}

/// The lists concatenated in order.
pub open spec fn flatten(lists: Seq<Seq<Symbol>>) -> Seq<Symbol>
    decreases lists.len(),
{
    if lists.len() == 0 {
        Seq::empty()
    } else {
        flatten(lists.drop_last()) + lists.last()
    }
}

/// The symbols of `s` in order of first occurrence, each once.
pub open spec fn dedup(s: Seq<Symbol>) -> Seq<Symbol>
    decreases s.len(),
{
    if s.len() == 0 {
        Seq::empty()
    } else {
        let d = dedup(s.drop_last());
        if d.contains(s.last()) {
            d
        } else {
            d.push(s.last())
        }
    }
}

/// Each entity's component types, in increasing entity order.
pub open spec fn type_lists(w: SimpleWorld) -> Seq<Seq<Symbol>> {
    w.entity_components.val_seq().map_values(|v: Vec<Symbol>| v@)
}

/// The component types in use, in order of first use (entities in
/// increasing order, each entity's types in the order added).
pub fn unique_component_types(world: &SimpleWorld, env: &soroban_sdk::Env) -> (r: Vec<Symbol>)
    requires
        world.wf(),
    ensures
        r@ == dedup(flatten(type_lists(*world))),
{
    let ghost lists = type_lists(*world);
    let mut types: Vec<Symbol> = Vec::new();
    let n = world.entity_components.len();
    proof {
        world.entity_components.lemma_order();
    }
    let mut i: usize = 0;
    while i < n
        invariant
            world.wf(),
            lists == type_lists(*world),
            n == lists.len(),
            n == world.entity_components.key_seq().len(),
            i <= n,
            types@ == dedup(flatten(lists.take(i as int))),
        decreases n - i,
    {
        let cur = world.entity_components.value_at(i);
        let ghost base = flatten(lists.take(i as int));
        assert(cur@ == lists[i as int]);
        let mut j: usize = 0;
        proof {
            assert(base + cur@.take(0) =~= base);
        }
        while j < cur.len()
            invariant
                i < n,
                j <= cur@.len(),
                cur@ == lists[i as int],
                types@ == dedup(base + cur@.take(j as int)),
            decreases cur@.len() - j,
        {
            let t = cur[j];
            proof {
                let prev = base + cur@.take(j as int);
                assert((base + cur@.take(j as int + 1)).drop_last() =~= prev);
                assert((base + cur@.take(j as int + 1)).last() == t);
            }
            if !syms_contain(&types, t) {
                types.push(t);
            }
            j = j + 1;
        }
        proof {
            assert(cur@.take(cur@.len() as int) =~= cur@);
            assert(lists.take(i as int + 1).drop_last() =~= lists.take(i as int));
            assert(lists.take(i as int + 1).last() == cur@);
        }
        i = i + 1;
    }
    proof {
        assert(lists.take(n as int) =~= lists);
    }
    types
}

/// The storage figures of `world`.
pub fn collect_metrics(world: &SimpleWorld, env: &soroban_sdk::Env) -> (m: StorageMetrics)
    requires
        world.wf(),
        world.entity_components@.dom().len() <= u32::MAX,
        world.components@.dom().len() + world.sparse_components@.dom().len() <= u32::MAX,
        forall|i: int| 0 <= i < type_lists(*world).len() ==> #[trigger] type_lists(*world)[i].len() <= u32::MAX,
    ensures
        m.total_table_entries == world.components@.dom().len(),
        m.total_sparse_entries == world.sparse_components@.dom().len(),
        m.total_entities == world.entity_components@.dom().len(),
        m.avg_components_per_entity == if m.total_entities > 0 {
            ((m.total_table_entries + m.total_sparse_entries) / (m.total_entities as int)) as u32
        } else {
            0u32
        },
        forall|i: int| 0 <= i < type_lists(*world).len()
            ==> #[trigger] type_lists(*world)[i].len() <= m.max_components_per_entity,
        type_lists(*world).len() == 0 ==> m.max_components_per_entity == 0,
        type_lists(*world).len() > 0 ==> exists|i: int| 0 <= i < type_lists(*world).len()
            && #[trigger] type_lists(*world)[i].len() == m.max_components_per_entity,
        m.unique_component_types == dedup(flatten(type_lists(*world))).len() as u32,
{
    let ghost lists = type_lists(*world);
    proof {
        world.entity_components.lemma_order();
    }
    let n = world.entity_components.len();
    let entity_count = n as u32;
    let table = world.components.len() as u32;
    let sparse = world.sparse_components.len() as u32;
    let total = table + sparse;
    let mut max_components: u32 = 0;
    let mut i: usize = 0;
    while i < n
        invariant
            world.wf(),
            lists == type_lists(*world),
            n == lists.len(),
            n == world.entity_components.key_seq().len(),
            forall|k: int| 0 <= k < lists.len() ==> #[trigger] lists[k].len() <= u32::MAX,
            i <= n,
            forall|k: int| 0 <= k < i ==> #[trigger] lists[k].len() <= max_components,
            i == 0 ==> max_components == 0,
            i > 0 ==> exists|k: int| 0 <= k < i && #[trigger] lists[k].len() == max_components,
        decreases n - i,
    {
        let types = world.entity_components.value_at(i);
        assert(types@ == lists[i as int]);
        let count = types.len() as u32;
        if count > max_components {
            max_components = count;
        }
        assert(lists[i as int].len() <= max_components);
        i = i + 1;
    }
    let avg = if entity_count > 0 {
        total / entity_count
    } else {
        0
    };
    let unique = unique_component_types(world, env);
    StorageMetrics {
        total_table_entries: table,
        total_sparse_entries: sparse,
        total_entities: entity_count,
        avg_components_per_entity: avg,
        max_components_per_entity: max_components,
        unique_component_types: unique.len() as u32,
    }
}

/// Leaving out repeats keeps every symbol and repeats none.
proof fn lemma_dedup(s: Seq<Symbol>)
    ensures
        dedup(s).no_duplicates(),
        forall|x: Symbol| #[trigger] dedup(s).contains(x) <==> s.contains(x),
    decreases s.len(),
{
    if s.len() > 0 {
        let p = s.drop_last();
        lemma_dedup(p);
        let d = dedup(p);
        assert forall|x: Symbol| #[trigger] dedup(s).contains(x) <==> s.contains(x) by {
            if s.contains(x) && x != s.last() {
                let i = choose|i: int| 0 <= i < s.len() && s[i] == x;
                assert(p[i] == x);
            }
            if p.contains(x) {
                let i = choose|i: int| 0 <= i < p.len() && p[i] == x;
                assert(s[i] == x);
            }
            if x == s.last() {
                assert(s[s.len() - 1] == x);
            }
            if !d.contains(s.last()) {
                if d.push(s.last()).contains(x) && x != s.last() {
                    let i = choose|i: int| 0 <= i < d.len() + 1 && d.push(s.last())[i] == x;
                    assert(d[i] == x);
                }
                if d.contains(x) {
                    let i = choose|i: int| 0 <= i < d.len() && d[i] == x;
                    assert(d.push(s.last())[i] == x);
                }
                assert(d.push(s.last())[d.len() as int] == s.last());
            }
        }
        if !d.contains(s.last()) {
            let q = d.push(s.last());
            assert forall|i: int, j: int| 0 <= i < q.len() && 0 <= j < q.len() && i != j implies q[i] != q[j] by {
                if i == d.len() {
                    assert(q[j] == d[j]);
                } else if j == d.len() {
                    assert(q[i] == d[i]);
                }
            }
        }
    }
}

/// A symbol is in the concatenation exactly when it is in one of the lists.
proof fn lemma_flatten_contains(lists: Seq<Seq<Symbol>>, x: Symbol)
    ensures
        flatten(lists).contains(x) <==> exists|i: int| 0 <= i < lists.len() && (#[trigger] lists[i]).contains(x),
    decreases lists.len(),
{
    if lists.len() > 0 {
        let p = lists.drop_last();
        lemma_flatten_contains(p, x);
        let a = flatten(p);
        let b = lists.last();
        if (a + b).contains(x) {
            let k = choose|k: int| 0 <= k < a.len() + b.len() && (a + b)[k] == x;
            if k < a.len() {
                assert(a[k] == x);
                let i = choose|i: int| 0 <= i < p.len() && (#[trigger] p[i]).contains(x);
                assert(lists[i] == p[i]);
            } else {
                assert(b[k - a.len()] == x);
                assert(lists[lists.len() - 1] == b);
            }
        }
        if exists|i: int| 0 <= i < lists.len() && (#[trigger] lists[i]).contains(x) {
            let i = choose|i: int| 0 <= i < lists.len() && (#[trigger] lists[i]).contains(x);
            if i < p.len() {
                assert(p[i] == lists[i]);
                let k = choose|k: int| 0 <= k < a.len() && a[k] == x;
                assert((a + b)[k] == x);
            } else {
                let k = choose|k: int| 0 <= k < b.len() && b[k] == x;
                assert((a + b)[a.len() + k] == x);
            }
        }
    }
}

/// The unique component types counted by the metrics are the types some
/// entity has, each counted once: their list repeats no type, and holds a
/// type exactly when an entity of the world has it.
pub proof fn law_unique_types(w: SimpleWorld, t: Symbol)
    requires
        w.wf(),
    ensures
        dedup(flatten(type_lists(w))).no_duplicates(),
        dedup(flatten(type_lists(w))).contains(t)
            <==> exists|e: u32| w.entity_components@.contains_key(e) && (#[trigger] w.types_of(e)).contains(t),
{
    w.entity_components.lemma_order();
    let lists = type_lists(w);
    let keys = w.entity_components.key_seq();
    let vals = w.entity_components.val_seq();
    lemma_dedup(flatten(lists));
    lemma_flatten_contains(lists, t);
    if exists|i: int| 0 <= i < lists.len() && (#[trigger] lists[i]).contains(t) {
        let i = choose|i: int| 0 <= i < lists.len() && (#[trigger] lists[i]).contains(t);
        assert(w.entity_components@[keys[i]] == vals[i]);
        assert(w.types_of(keys[i]).contains(t));
    }
    if exists|e: u32| w.entity_components@.contains_key(e) && (#[trigger] w.types_of(e)).contains(t) {
        let e = choose|e: u32| w.entity_components@.contains_key(e) && (#[trigger] w.types_of(e)).contains(t);
        assert(keys.contains(e));
        let i = choose|i: int| 0 <= i < keys.len() && keys[i] == e;
        assert(w.entity_components@[keys[i]] == vals[i]);
        assert(lists[i] == vals[i]@);
    }
}

} // verus!
