//! Frozen copies of a world's component data, and the differences between
//! two of them.

use vstd::prelude::*;
use crate::archetype_world::archetype::pairs_view;
use crate::bytes::{bytes_eq, copy_bytes};
use crate::id_map::IdMap;
use crate::seq_util;
use crate::simple_world::{EntityId, SimpleWorld};
use crate::symbol::Symbol;

verus! {

/// An entity's components in a snapshot: (type, data) pairs.
pub type PairsView = Seq<(Symbol, Seq<u8>)>;

/// A copy of a world's components at one version.
pub struct WorldSnapshot {
    pub version: u64,
    pub entity_count: u32,
    /// For each entity with components, its (type, data) pairs.
    pub entity_states: IdMap<Vec<(Symbol, Vec<u8>)>>,
}

/// What changed from one snapshot to another.
pub struct WorldDiff {
    /// Entities only in the later snapshot.
    pub added_entities: Vec<EntityId>,
    /// Entities only in the earlier snapshot.
    pub removed_entities: Vec<EntityId>,
    /// Components only in the later snapshot.
    pub added_components: Vec<(EntityId, Symbol)>,
    /// Components only in the earlier snapshot: those an entity in both
    /// lost, then all those of entities only in the earlier snapshot.
    pub removed_components: Vec<(EntityId, Symbol)>,
    /// Components in both whose data differs.
    pub modified_components: Vec<(EntityId, Symbol)>,
}

/// The pairs recorded for entity `e` of `w` from its types `ts`: one per
/// type the world holds data for, in the order of the types.
pub open spec fn snapshot_pairs(w: SimpleWorld, e: EntityId, ts: Seq<Symbol>) -> PairsView
    decreases ts.len(),
{
    if ts.len() == 0 {
        Seq::empty()
    } else {
        let rest = snapshot_pairs(w, e, ts.drop_last());
        match w.spec_get(e, ts.last()) {
            Some(d) => rest.push((ts.last(), d)),
            None => rest,
        }
    }
}

/// "Is a pair of type `t`".
pub open spec fn type_is(t: Symbol) -> spec_fn((Symbol, Seq<u8>)) -> bool {
    |p: (Symbol, Seq<u8>)| p.0 == t
}

/// The data of the first pair of type `t`, if any.
pub open spec fn lookup(pairs: PairsView, t: Symbol) -> Option<Seq<u8>> {
    let k = seq_util::first_pos(pairs, type_is(t));
    if k < 0 {
        None
    } else {
        Some(pairs[k].1)
    }
}

/// The components of `after` whose type `before` lacks, as (e, type).
pub open spec fn added_in(e: EntityId, after: PairsView, before: PairsView) -> Seq<(EntityId, Symbol)>
    decreases after.len(),
{
    if after.len() == 0 {
        Seq::empty()
    } else {
        let rest = added_in(e, after.drop_last(), before);
        if lookup(before, after.last().0) is None {
            rest.push((e, after.last().0))
        } else {
            rest
        }
    }
}

/// The components of `after` whose type `before` has with other data.
pub open spec fn modified_in(e: EntityId, after: PairsView, before: PairsView) -> Seq<(EntityId, Symbol)>
    decreases after.len(),
{
    if after.len() == 0 {
        Seq::empty()
    } else {
        let rest = modified_in(e, after.drop_last(), before);
        match lookup(before, after.last().0) {
            Some(d) => if d != after.last().1 {
                rest.push((e, after.last().0))
            } else {
                rest
            },
            None => rest,
        }
    }
}

/// All components of `pairs`, as (e, type).
pub open spec fn all_in(e: EntityId, pairs: PairsView) -> Seq<(EntityId, Symbol)> {
    pairs.map_values(|p: (Symbol, Seq<u8>)| (e, p.0))
}

/// The view of an entity's state in a snapshot map.
pub open spec fn state_of(m: Map<EntityId, Vec<(Symbol, Vec<u8>)>>, e: EntityId) -> PairsView {
    pairs_view(m[e]@)
}

/// Added components, entity by entity in the order of `keys` (the later
/// snapshot's entities): all of a new entity's, and those of types the
/// earlier state lacked for an entity in both.
pub open spec fn diff_added(keys: Seq<EntityId>, before: Map<EntityId, Vec<(Symbol, Vec<u8>)>>, after: Map<EntityId, Vec<(Symbol, Vec<u8>)>>) -> Seq<(EntityId, Symbol)>
    decreases keys.len(),
{
    if keys.len() == 0 {
        Seq::empty()
    } else {
        let e = keys.last();
        diff_added(keys.drop_last(), before, after) + if before.contains_key(e) {
            added_in(e, state_of(after, e), state_of(before, e))
        } else {
            all_in(e, state_of(after, e))
        }
    }
}

/// Removed components of entities in both, entity by entity in the order
/// of `keys`.
pub open spec fn diff_removed(keys: Seq<EntityId>, before: Map<EntityId, Vec<(Symbol, Vec<u8>)>>, after: Map<EntityId, Vec<(Symbol, Vec<u8>)>>) -> Seq<(EntityId, Symbol)>
    decreases keys.len(),
{
    if keys.len() == 0 {
        Seq::empty()
    } else {
        let e = keys.last();
        diff_removed(keys.drop_last(), before, after) + if before.contains_key(e) {
            added_in(e, state_of(before, e), state_of(after, e))
        } else {
            Seq::empty()
        }
    }
}

/// The components of the entities of `keys` that are only in `before`,
/// entity by entity in the order of `keys`.
pub open spec fn gone_components(keys: Seq<EntityId>, before: Map<EntityId, Vec<(Symbol, Vec<u8>)>>, after: Map<EntityId, Vec<(Symbol, Vec<u8>)>>) -> Seq<(EntityId, Symbol)>
    decreases keys.len(),
{
    if keys.len() == 0 {
        Seq::empty()
    } else {
        let e = keys.last();
        gone_components(keys.drop_last(), before, after) + if after.contains_key(e) {
            Seq::empty()
        } else {
            all_in(e, state_of(before, e))
        }
    }
}

/// Modified components of entities in both, entity by entity in the order
/// of `keys`.
pub open spec fn diff_modified(keys: Seq<EntityId>, before: Map<EntityId, Vec<(Symbol, Vec<u8>)>>, after: Map<EntityId, Vec<(Symbol, Vec<u8>)>>) -> Seq<(EntityId, Symbol)>
    decreases keys.len(),
{
    if keys.len() == 0 {
        Seq::empty()
    } else {
        let e = keys.last();
        diff_modified(keys.drop_last(), before, after) + if before.contains_key(e) {
            modified_in(e, state_of(after, e), state_of(before, e))
        } else {
            Seq::empty()
        }
    }
}

/// "Is not a key of `m`".
pub open spec fn absent_from(m: Map<EntityId, Vec<(Symbol, Vec<u8>)>>) -> spec_fn(EntityId) -> bool {
    |e: EntityId| !m.contains_key(e)
}

/// When the world holds data for every type of `ts`, the recorded pairs
/// have exactly the types `ts`.
proof fn lemma_snapshot_types(w: SimpleWorld, e: EntityId, ts: Seq<Symbol>)
    requires
        forall|j: int| 0 <= j < ts.len() ==> #[trigger] w.spec_get(e, ts[j]) is Some,
    ensures
        state_types(snapshot_pairs(w, e, ts)) == ts,
    decreases ts.len(),
{
    if ts.len() > 0 {
        let p = ts.drop_last();
        assert forall|j: int| 0 <= j < p.len() implies #[trigger] w.spec_get(e, p[j]) is Some by {
            assert(p[j] == ts[j]);
        }
        lemma_snapshot_types(w, e, p);
        assert(w.spec_get(e, ts[ts.len() - 1]) is Some);
        let rest = snapshot_pairs(w, e, p);
        assert(state_types(rest.push((ts.last(), w.spec_get(e, ts.last())->0))) =~= state_types(rest).push(ts.last()));
        assert(p.push(ts.last()) =~= ts);
    }
}

/// The position of the first pair of type `t`, if any.
fn find_type(pairs: &Vec<(Symbol, Vec<u8>)>, t: Symbol) -> (r: Option<usize>)
    ensures
        r is None ==> lookup(pairs_view(pairs@), t) is None,
        r matches Some(k) ==> k < pairs@.len() && lookup(pairs_view(pairs@), t) == Some(pairs@[k as int].1@),
{
    let ghost pv = pairs_view(pairs@);
    proof {
        seq_util::lemma_first_pos(pv, type_is(t));
    }
    let mut i: usize = 0;
    while i < pairs.len()
        invariant
            pv == pairs_view(pairs@),
            i <= pairs@.len(),
            forall|j: int| 0 <= j < i ==> !type_is(t)(#[trigger] pv[j]),
            -1 <= seq_util::first_pos(pv, type_is(t)) < pv.len(),
            seq_util::first_pos(pv, type_is(t)) == -1 <==> forall|j: int| 0 <= j < pv.len() ==> !type_is(t)(#[trigger] pv[j]),
            seq_util::first_pos(pv, type_is(t)) >= 0 ==> type_is(t)(pv[seq_util::first_pos(pv, type_is(t))]),
            forall|j: int| 0 <= j < seq_util::first_pos(pv, type_is(t)) ==> !type_is(t)(#[trigger] pv[j]),
        decreases pairs@.len() - i,
    {
        assert(pv[i as int].0 == pairs@[i as int].0);
        if pairs[i].0 == t {
            return Some(i);
        }
        i = i + 1;
    }
    None
}

/// Records every component of `world`: for each entity with components,
/// its (type, data) pairs in the order of its types.
pub fn take_snapshot(world: &SimpleWorld, env: &soroban_sdk::Env) -> (s: WorldSnapshot)
    requires
        world.wf(),
        world.entity_components@.dom().len() <= u32::MAX,
    ensures
        s.version == world.version,
        s.entity_count == world.entity_components@.dom().len(),
        s.entity_states.inv(),
        s.entity_states@.dom() == world.entity_components@.dom(),
        forall|e: EntityId| #[trigger] s.entity_states@.contains_key(e)
            ==> state_of(s.entity_states@, e) == snapshot_pairs(*world, e, world.types_of(e)),
        types_distinct(s.entity_states@),
{
    let mut states: IdMap<Vec<(Symbol, Vec<u8>)>> = IdMap::new();
    let ghost keys = world.entity_components.key_seq();
    proof {
        world.entity_components.lemma_order();
    }
    let n = world.entity_components.len();
    let mut i: usize = 0;
    while i < n
        invariant
            world.wf(),
            keys == world.entity_components.key_seq(),
            n == keys.len(),
            forall|a: int| 0 <= a < keys.len() ==> world.entity_components@.contains_key(#[trigger] keys[a]),
            forall|e: EntityId| world.entity_components@.contains_key(e) ==> keys.contains(e),
            i <= n,
            states.inv(),
            forall|e: EntityId| #[trigger] states@.contains_key(e) <==> keys.take(i as int).contains(e),
            forall|e: EntityId| #[trigger] states@.contains_key(e)
                ==> state_of(states@, e) == snapshot_pairs(*world, e, world.types_of(e)),
        decreases n - i,
    {
        let eid = world.entity_components.key_at(i);
        let types = world.entity_components.value_at(i);
        assert(world.types_of(eid) == types@);
        let mut comps: Vec<(Symbol, Vec<u8>)> = Vec::new();
        let mut j: usize = 0;
        while j < types.len()
            invariant
                world.wf(),
                world.types_of(eid) == types@,
                j <= types@.len(),
                pairs_view(comps@) == snapshot_pairs(*world, eid, types@.take(j as int)),
            decreases types@.len() - j,
        {
            let t = types[j];
            let ghost before = comps@;
            proof {
                assert(types@.take(j as int + 1).drop_last() =~= types@.take(j as int));
                assert(types@.take(j as int + 1).last() == t);
            }
            match world.get_component(eid, &t) {
                Some(d) => {
                    comps.push((t, d));
                    proof {
                        assert(pairs_view(comps@) =~= pairs_view(before).push((t, world.spec_get(eid, t)->0)));
                    }
                },
                None => {},
            }
            j = j + 1;
        }
        proof {
            assert(types@.take(types@.len() as int) =~= types@);
        }
        let ghost olds = states@;
        states.set(eid, comps);
        proof {
            assert(keys.take(i as int + 1) =~= keys.take(i as int).push(eid));
            assert forall|e: EntityId| #[trigger] states@.contains_key(e) <==> keys.take(i as int + 1).contains(e) by {
                if e == eid {
                    assert(keys.take(i as int + 1)[i as int] == eid);
                } else {
                    assert(states@.contains_key(e) == olds.contains_key(e));
                    assert(olds.contains_key(e) == keys.take(i as int).contains(e));
                }
                if keys.take(i as int + 1).contains(e) && e != eid {
                    let q = choose|q: int| 0 <= q < i + 1 && #[trigger] keys.take(i as int + 1)[q] == e;
                    assert(keys.take(i as int)[q] == e);
                }
                if keys.take(i as int).contains(e) {
                    let q = choose|q: int| 0 <= q < i && #[trigger] keys.take(i as int)[q] == e;
                    assert(keys.take(i as int + 1)[q] == e);
                }
            }
        }
        i = i + 1;
    }
    proof {
        assert(keys.take(n as int) =~= keys);
        assert(states@.dom() =~= world.entity_components@.dom());
        assert forall|e: EntityId| #[trigger] states@.contains_key(e)
            implies state_types(state_of(states@, e)).no_duplicates() by {
            let ts = world.types_of(e);
            assert forall|j: int| 0 <= j < ts.len() implies #[trigger] world.spec_get(e, ts[j]) is Some by {
                assert(ts.contains(ts[j]));
                assert(world.spec_has(e, ts[j]));
            }
            lemma_snapshot_types(*world, e, ts);
        }
    }
    WorldSnapshot {
        version: world.version(),
        entity_count: n as u32,
        entity_states: states,
    }
}

/// The entities of `keys` absent from `other`, in order.
fn keys_absent_from(m: &IdMap<Vec<(Symbol, Vec<u8>)>>, other: &IdMap<Vec<(Symbol, Vec<u8>)>>) -> (r: Vec<EntityId>)
    requires
        m.inv(),
        other.inv(),
    ensures
        r@ == m.key_seq().filter(absent_from(other@)),
{
    let ghost keys = m.key_seq();
    let ghost p = absent_from(other@);
    proof {
        m.lemma_order();
    }
    let mut r: Vec<EntityId> = Vec::new();
    let n = m.len();
    let mut i: usize = 0;
    while i < n
        invariant
            m.inv(),
            other.inv(),
            keys == m.key_seq(),
            p == absent_from(other@),
            n == keys.len(),
            i <= n,
            r@ == keys.take(i as int).filter(p),
        decreases n - i,
    {
        let e = m.key_at(i);
        proof {
            keys.lemma_take_succ_push(i as int);
            keys.take(i as int).lemma_filter_push(e, p);
        }
        if !other.contains_key(e) {
            r.push(e);
        }
        i = i + 1;
    }
    proof {
        assert(keys.take(n as int) =~= keys);
    }
    r
}

/// The differences from `before` to `after`: entities only in `after`
/// (in its id order), entities only in `before` (in its id order), and
/// the added, removed and modified components, entity by entity in the id
/// order of `after`, the components of removed entities last (in the id
/// order of `before`). A component's type is matched with the first pair
/// of that type on the other side.
pub fn diff_snapshots(before: &WorldSnapshot, after: &WorldSnapshot, env: &soroban_sdk::Env) -> (d: WorldDiff)
    requires
        before.entity_states.inv(),
        after.entity_states.inv(),
    ensures
        d.added_entities@ == after.entity_states.key_seq().filter(absent_from(before.entity_states@)),
        d.removed_entities@ == before.entity_states.key_seq().filter(absent_from(after.entity_states@)),
        d.added_components@ == diff_added(after.entity_states.key_seq(), before.entity_states@, after.entity_states@),
        d.removed_components@ == diff_removed(after.entity_states.key_seq(), before.entity_states@, after.entity_states@)
            + gone_components(before.entity_states.key_seq(), before.entity_states@, after.entity_states@),
        d.modified_components@ == diff_modified(after.entity_states.key_seq(), before.entity_states@, after.entity_states@),
        forall|e: EntityId, t: Symbol| #[trigger] d.added_components@.contains((e, t))
            <==> (after.entity_states@.contains_key(e) && has_type(state_of(after.entity_states@, e), t)
                && (!before.entity_states@.contains_key(e) || !has_type(state_of(before.entity_states@, e), t))),
        forall|e: EntityId, t: Symbol| #[trigger] d.removed_components@.contains((e, t))
            <==> (before.entity_states@.contains_key(e) && has_type(state_of(before.entity_states@, e), t)
                && (!after.entity_states@.contains_key(e) || !has_type(state_of(after.entity_states@, e), t))),
        forall|e: EntityId, t: Symbol| #[trigger] d.modified_components@.contains((e, t))
            <==> (after.entity_states@.contains_key(e) && before.entity_states@.contains_key(e)
                && lookup(state_of(before.entity_states@, e), t) is Some
                && exists|i: int| 0 <= i < state_of(after.entity_states@, e).len()
                    && (#[trigger] state_of(after.entity_states@, e)[i]).0 == t
                    && state_of(after.entity_states@, e)[i].1 != lookup(state_of(before.entity_states@, e), t)->0),
{
    let added_entities = keys_absent_from(&after.entity_states, &before.entity_states);
    let removed_entities = keys_absent_from(&before.entity_states, &after.entity_states);
    let mut added_components: Vec<(EntityId, Symbol)> = Vec::new();
    let mut removed_components: Vec<(EntityId, Symbol)> = Vec::new();
    let mut modified_components: Vec<(EntityId, Symbol)> = Vec::new();
    let ghost keys = after.entity_states.key_seq();
    let ghost bm = before.entity_states@;
    let ghost am = after.entity_states@;
    proof {
        after.entity_states.lemma_order();
    }
    let n = after.entity_states.len();
    let mut i: usize = 0;
    while i < n
        invariant
            before.entity_states.inv(),
            after.entity_states.inv(),
            keys == after.entity_states.key_seq(),
            bm == before.entity_states@,
            am == after.entity_states@,
            n == keys.len(),
            i <= n,
            added_components@ == diff_added(keys.take(i as int), bm, am),
            removed_components@ == diff_removed(keys.take(i as int), bm, am),
            modified_components@ == diff_modified(keys.take(i as int), bm, am),
        decreases n - i,
    {
        let eid = after.entity_states.key_at(i);
        let after_comps = after.entity_states.value_at(i);
        let ghost av = pairs_view(after_comps@);
        assert(av == state_of(am, eid));
        proof {
            assert(keys.take(i as int + 1).drop_last() =~= keys.take(i as int));
            assert(keys.take(i as int + 1).last() == eid);
        }
        let ghost base_a = added_components@;
        let ghost base_r = removed_components@;
        let ghost base_m = modified_components@;
        match before.entity_states.get(eid) {
            Some(before_comps) => {
                let ghost bv = pairs_view(before_comps@);
                assert(bv == state_of(bm, eid));
                let mut a: usize = 0;
                while a < after_comps.len()
                    invariant
                        av == pairs_view(after_comps@),
                        bv == pairs_view(before_comps@),
                        a <= after_comps@.len(),
                        added_components@ == base_a + added_in(eid, av.take(a as int), bv),
                        modified_components@ == base_m + modified_in(eid, av.take(a as int), bv),
                    decreases after_comps@.len() - a,
                {
                    let t = after_comps[a].0;
                    proof {
                        assert(av.take(a as int + 1).drop_last() =~= av.take(a as int));
                        assert(av.take(a as int + 1).last() == av[a as int]);
                        assert(av[a as int] == (t, after_comps@[a as int].1@));
                    }
                    match find_type(before_comps, t) {
                        Some(k) => {
                            if !bytes_eq(after_comps[a].1.as_slice(), before_comps[k].1.as_slice()) {
                                modified_components.push((eid, t));
                            }
                        },
                        None => {
                            added_components.push((eid, t));
                        },
                    }
                    a = a + 1;
                }
                proof {
                    assert(av.take(av.len() as int) =~= av);
                }
                let mut b: usize = 0;
                while b < before_comps.len()
                    invariant
                        av == pairs_view(after_comps@),
                        bv == pairs_view(before_comps@),
                        b <= before_comps@.len(),
                        removed_components@ == base_r + added_in(eid, bv.take(b as int), av),
                    decreases before_comps@.len() - b,
                {
                    let t = before_comps[b].0;
                    proof {
                        assert(bv.take(b as int + 1).drop_last() =~= bv.take(b as int));
                        assert(bv.take(b as int + 1).last() == bv[b as int]);
                        assert(bv[b as int].0 == t);
                    }
                    if find_type(after_comps, t).is_none() {
                        removed_components.push((eid, t));
                    }
                    b = b + 1;
                }
                proof {
                    assert(bv.take(bv.len() as int) =~= bv);
                }
            },
            None => {
                let mut a: usize = 0;
                while a < after_comps.len()
                    invariant
                        av == pairs_view(after_comps@),
                        a <= after_comps@.len(),
                        added_components@ == base_a + all_in(eid, av.take(a as int)),
                    decreases after_comps@.len() - a,
                {
                    let t = after_comps[a].0;
                    let ghost before_push = added_components@;
                    added_components.push((eid, t));
                    proof {
                        assert(av[a as int].0 == t);
                        assert(all_in(eid, av.take(a as int + 1)) =~= all_in(eid, av.take(a as int)).push((eid, t)));
                        assert(added_components@ =~= base_a + all_in(eid, av.take(a as int + 1)));
                    }
                    a = a + 1;
                }
                proof {
                    assert(av.take(av.len() as int) =~= av);
                    assert(removed_components@ =~= base_r + Seq::<(EntityId, Symbol)>::empty());
                    assert(modified_components@ =~= base_m + Seq::<(EntityId, Symbol)>::empty());
                }
            },
        }
        i = i + 1;
    }
    proof {
        assert(keys.take(n as int) =~= keys);
        before.entity_states.lemma_order();
    }
    let ghost bkeys = before.entity_states.key_seq();
    let ghost base = removed_components@;
    let nb = before.entity_states.len();
    let mut j: usize = 0;
    while j < nb
        invariant
            before.entity_states.inv(),
            after.entity_states.inv(),
            bkeys == before.entity_states.key_seq(),
            bm == before.entity_states@,
            am == after.entity_states@,
            nb == bkeys.len(),
            j <= nb,
            removed_components@ == base + gone_components(bkeys.take(j as int), bm, am),
        decreases nb - j,
    {
        let eid = before.entity_states.key_at(j);
        proof {
            assert(bkeys.take(j as int + 1).drop_last() =~= bkeys.take(j as int));
            assert(bkeys.take(j as int + 1).last() == eid);
        }
        if !after.entity_states.contains_key(eid) {
            let comps = before.entity_states.value_at(j);
            let ghost bv = pairs_view(comps@);
            assert(bv == state_of(bm, eid));
            let ghost start = removed_components@;
            let mut b: usize = 0;
            while b < comps.len()
                invariant
                    bv == pairs_view(comps@),
                    b <= comps@.len(),
                    removed_components@ == start + all_in(eid, bv.take(b as int)),
                decreases comps@.len() - b,
            {
                let t = comps[b].0;
                removed_components.push((eid, t));
                proof {
                    assert(bv[b as int].0 == t);
                    assert(all_in(eid, bv.take(b as int + 1)) =~= all_in(eid, bv.take(b as int)).push((eid, t)));
                    assert(removed_components@ =~= start + all_in(eid, bv.take(b as int + 1)));
                }
                b = b + 1;
            }
            proof {
                assert(bv.take(bv.len() as int) =~= bv);
                assert(removed_components@ =~= base + gone_components(bkeys.take(j as int + 1), bm, am));
            }
        } else {
            proof {
                assert(removed_components@ =~= base + gone_components(bkeys.take(j as int + 1), bm, am));
            }
        }
        j = j + 1;
    }
    proof {
        assert(bkeys.take(nb as int) =~= bkeys);
        assert forall|e: EntityId, t: Symbol| #[trigger] added_components@.contains((e, t))
            <==> (am.contains_key(e) && has_type(state_of(am, e), t)
                && (!bm.contains_key(e) || !has_type(state_of(bm, e), t))) by {
            law_diff_components(*before, *after, e, t);
        }
        assert forall|e: EntityId, t: Symbol| #[trigger] removed_components@.contains((e, t))
            <==> (bm.contains_key(e) && has_type(state_of(bm, e), t)
                && (!am.contains_key(e) || !has_type(state_of(am, e), t))) by {
            law_diff_components(*before, *after, e, t);
        }
        assert forall|e: EntityId, t: Symbol| #[trigger] modified_components@.contains((e, t))
            <==> (am.contains_key(e) && bm.contains_key(e) && lookup(state_of(bm, e), t) is Some
                && exists|i: int| 0 <= i < state_of(am, e).len() && (#[trigger] state_of(am, e)[i]).0 == t
                    && state_of(am, e)[i].1 != lookup(state_of(bm, e), t)->0) by {
            law_diff_components(*before, *after, e, t);
        }
    }
    WorldDiff {
        added_entities,
        removed_entities,
        added_components,
        removed_components,
        modified_components,
    }
}

/// The component types of an entity state.
pub open spec fn state_types(p: PairsView) -> Seq<Symbol> {
    p.map_values(|x: (Symbol, Seq<u8>)| x.0)
}

/// Whether every entity of `m` records each component type once.
pub open spec fn types_distinct(m: Map<EntityId, Vec<(Symbol, Vec<u8>)>>) -> bool {
    forall|e: EntityId| #[trigger] m.contains_key(e) ==> state_types(state_of(m, e)).no_duplicates()
}

/// In a state whose types are distinct, looking up the type of an entry
/// finds that entry's data.
proof fn lemma_lookup_own(a: PairsView, i: int)
    requires
        0 <= i < a.len(),
        state_types(a).no_duplicates(),
    ensures
        lookup(a, a[i].0) == Some(a[i].1),
{
    let t = a[i].0;
    seq_util::lemma_first_pos(a, type_is(t));
    let k = seq_util::first_pos(a, type_is(t));
    assert(type_is(t)(a[i]));
    if k != i {
        assert(k < i);
        assert(state_types(a)[k] == state_types(a)[i]);
    }
}

/// No entry of a prefix of `a` is added or modified with respect to `a`
/// itself.
proof fn lemma_self_prefix(e: EntityId, a: PairsView, n: int)
    requires
        0 <= n <= a.len(),
        state_types(a).no_duplicates(),
    ensures
        added_in(e, a.take(n), a).len() == 0,
        modified_in(e, a.take(n), a).len() == 0,
    decreases n,
{
    if n > 0 {
        assert(a.take(n).drop_last() =~= a.take(n - 1));
        assert(a.take(n).last() == a[n - 1]);
        lemma_self_prefix(e, a, n - 1);
        lemma_lookup_own(a, n - 1);
    }
}

/// The prefixes of the keys of a map, diffed against the same map.
proof fn lemma_diff_self_prefix(keys: Seq<EntityId>, m: Map<EntityId, Vec<(Symbol, Vec<u8>)>>)
    requires
        forall|i: int| 0 <= i < keys.len() ==> m.contains_key(#[trigger] keys[i]),
        types_distinct(m),
    ensures
        diff_added(keys, m, m).len() == 0,
        diff_removed(keys, m, m).len() == 0,
        gone_components(keys, m, m).len() == 0,
        diff_modified(keys, m, m).len() == 0,
    decreases keys.len(),
{
    if keys.len() > 0 {
        let e = keys.last();
        assert(m.contains_key(keys[keys.len() - 1]));
        lemma_diff_self_prefix(keys.drop_last(), m);
        let a = state_of(m, e);
        lemma_self_prefix(e, a, a.len() as int);
        assert(a.take(a.len() as int) =~= a);
    }
}

/// A snapshot compared with itself shows no difference (when each entity
/// records each component type once, as snapshots of a world do).
pub proof fn law_diff_of_identical_is_empty(s: WorldSnapshot)
    requires
        s.entity_states.inv(),
        types_distinct(s.entity_states@),
    ensures
        s.entity_states.key_seq().filter(absent_from(s.entity_states@)).len() == 0,
        diff_added(s.entity_states.key_seq(), s.entity_states@, s.entity_states@).len() == 0,
        diff_removed(s.entity_states.key_seq(), s.entity_states@, s.entity_states@).len() == 0,
        gone_components(s.entity_states.key_seq(), s.entity_states@, s.entity_states@).len() == 0,
        diff_modified(s.entity_states.key_seq(), s.entity_states@, s.entity_states@).len() == 0,
{
    s.entity_states.lemma_order();
    let keys = s.entity_states.key_seq();
    let m = s.entity_states@;
    assert forall|i: int| 0 <= i < keys.len() implies m.contains_key(#[trigger] keys[i]) by {}
    lemma_diff_self_prefix(keys, m);
    let p = absent_from(m);
    assert forall|i: int| 0 <= i < keys.len() implies !p(#[trigger] keys[i]) by {}
    keys.lemma_all_neg_filter_empty(p);
}

/// Whether `s` holds `v`, before and after appending `x`.
proof fn lemma_push_contains<A>(s: Seq<A>, x: A, v: A)
    ensures
        s.push(x).contains(v) <==> (s.contains(v) || x == v),
{
    if s.push(x).contains(v) && x != v {
        let i = choose|i: int| 0 <= i < s.len() + 1 && s.push(x)[i] == v;
        assert(s[i] == v);
    }
    if s.contains(v) {
        let i = choose|i: int| 0 <= i < s.len() && s[i] == v;
        assert(s.push(x)[i] == v);
    }
    if x == v {
        assert(s.push(x)[s.len() as int] == v);
    }
}

/// Whether `a + b` holds `v`.
proof fn lemma_concat_contains<A>(a: Seq<A>, b: Seq<A>, v: A)
    ensures
        (a + b).contains(v) <==> (a.contains(v) || b.contains(v)),
{
    if (a + b).contains(v) {
        let i = choose|i: int| 0 <= i < a.len() + b.len() && (a + b)[i] == v;
        if i < a.len() {
            assert(a[i] == v);
        } else {
            assert(b[i - a.len()] == v);
        }
    }
    if a.contains(v) {
        let i = choose|i: int| 0 <= i < a.len() && a[i] == v;
        assert((a + b)[i] == v);
    }
    if b.contains(v) {
        let i = choose|i: int| 0 <= i < b.len() && b[i] == v;
        assert((a + b)[a.len() + i] == v);
    }
}

/// Whether some entry of `a` has type `t`.
pub open spec fn has_type(a: PairsView, t: Symbol) -> bool {
    exists|i: int| 0 <= i < a.len() && (#[trigger] a[i]).0 == t
}

/// A state has data for `t` exactly when it has an entry of type `t`.
proof fn lemma_lookup_has(a: PairsView, t: Symbol)
    ensures
        lookup(a, t) is Some <==> has_type(a, t),
{
    seq_util::lemma_first_pos(a, type_is(t));
    if has_type(a, t) {
        let i = choose|i: int| 0 <= i < a.len() && (#[trigger] a[i]).0 == t;
        assert(type_is(t)(a[i]));
    }
    if lookup(a, t) is Some {
        let k = seq_util::first_pos(a, type_is(t));
        assert(a[k].0 == t);
    }
}

/// What the components of `a` added with respect to `b` are.
proof fn lemma_added_in_contains(e: EntityId, a: PairsView, b: PairsView, x: EntityId, t: Symbol)
    ensures
        added_in(e, a, b).contains((x, t)) <==> (x == e && has_type(a, t) && !has_type(b, t)),
    decreases a.len(),
{
    lemma_lookup_has(b, t);
    if a.len() == 0 {
    } else {
        let r = a.drop_last();
        lemma_added_in_contains(e, r, b, x, t);
        lemma_push_contains(added_in(e, r, b), (e, a.last().0), (x, t));
        lemma_lookup_has(b, a.last().0);
        if has_type(r, t) {
            let i = choose|i: int| 0 <= i < r.len() && (#[trigger] r[i]).0 == t;
            assert(a[i] == r[i]);
        }
        if has_type(a, t) && a.last().0 != t {
            let i = choose|i: int| 0 <= i < a.len() && (#[trigger] a[i]).0 == t;
            assert(i < r.len());
            assert(r[i] == a[i]);
        }
        if a.last().0 == t {
            assert(a[a.len() - 1].0 == t);
        }
    }
}

/// What the components of `a` modified with respect to `b` are.
proof fn lemma_modified_in_contains(e: EntityId, a: PairsView, b: PairsView, x: EntityId, t: Symbol)
    ensures
        modified_in(e, a, b).contains((x, t)) <==> (x == e && lookup(b, t) is Some
            && exists|i: int| 0 <= i < a.len() && (#[trigger] a[i]).0 == t && a[i].1 != lookup(b, t)->0),
    decreases a.len(),
{
    if a.len() == 0 {
    } else {
        let r = a.drop_last();
        lemma_modified_in_contains(e, r, b, x, t);
        lemma_push_contains(modified_in(e, r, b), (e, a.last().0), (x, t));
        if x == e && lookup(b, t) is Some {
            let d = lookup(b, t)->0;
            if exists|i: int| 0 <= i < r.len() && (#[trigger] r[i]).0 == t && r[i].1 != d {
                let i = choose|i: int| 0 <= i < r.len() && (#[trigger] r[i]).0 == t && r[i].1 != d;
                assert(a[i] == r[i]);
            }
            if exists|i: int| 0 <= i < a.len() && (#[trigger] a[i]).0 == t && a[i].1 != d {
                let i = choose|i: int| 0 <= i < a.len() && (#[trigger] a[i]).0 == t && a[i].1 != d;
                if i < r.len() {
                    assert(r[i] == a[i]);
                }
            }
            if a.last().0 == t && a.last().1 != d {
                assert(a[a.len() - 1] == a.last());
            }
        }
    }
}

/// What the components of `a`, all taken as entity `e`'s, are.
proof fn lemma_all_in_contains(e: EntityId, a: PairsView, x: EntityId, t: Symbol)
    ensures
        all_in(e, a).contains((x, t)) <==> (x == e && has_type(a, t)),
{
    if all_in(e, a).contains((x, t)) {
        let i = choose|i: int| 0 <= i < all_in(e, a).len() && all_in(e, a)[i] == (x, t);
        assert(a[i].0 == t);
    }
    if x == e && has_type(a, t) {
        let i = choose|i: int| 0 <= i < a.len() && (#[trigger] a[i]).0 == t;
        assert(all_in(e, a)[i] == (x, t));
    }
}

/// What the diff lists as added, entity by entity over `keys`.
proof fn lemma_diff_added_contains(keys: Seq<EntityId>, bm: Map<EntityId, Vec<(Symbol, Vec<u8>)>>, am: Map<EntityId, Vec<(Symbol, Vec<u8>)>>, x: EntityId, t: Symbol)
    ensures
        diff_added(keys, bm, am).contains((x, t)) <==> (keys.contains(x) && has_type(state_of(am, x), t)
            && (!bm.contains_key(x) || !has_type(state_of(bm, x), t))),
    decreases keys.len(),
{
    if keys.len() > 0 {
        let p = keys.drop_last();
        let e = keys.last();
        lemma_diff_added_contains(p, bm, am, x, t);
        let blk = if bm.contains_key(e) {
            added_in(e, state_of(am, e), state_of(bm, e))
        } else {
            all_in(e, state_of(am, e))
        };
        lemma_concat_contains(diff_added(p, bm, am), blk, (x, t));
        lemma_added_in_contains(e, state_of(am, e), state_of(bm, e), x, t);
        lemma_all_in_contains(e, state_of(am, e), x, t);
        lemma_push_contains(p, e, x);
        assert(p.push(e) =~= keys);
    }
}

/// What the diff lists as removed from entities in both, over `keys`.
proof fn lemma_diff_removed_contains(keys: Seq<EntityId>, bm: Map<EntityId, Vec<(Symbol, Vec<u8>)>>, am: Map<EntityId, Vec<(Symbol, Vec<u8>)>>, x: EntityId, t: Symbol)
    ensures
        diff_removed(keys, bm, am).contains((x, t)) <==> (keys.contains(x) && bm.contains_key(x)
            && has_type(state_of(bm, x), t) && !has_type(state_of(am, x), t)),
    decreases keys.len(),
{
    if keys.len() > 0 {
        let p = keys.drop_last();
        let e = keys.last();
        lemma_diff_removed_contains(p, bm, am, x, t);
        let blk = if bm.contains_key(e) {
            added_in(e, state_of(bm, e), state_of(am, e))
        } else {
            Seq::<(EntityId, Symbol)>::empty()
        };
        lemma_concat_contains(diff_removed(p, bm, am), blk, (x, t));
        lemma_added_in_contains(e, state_of(bm, e), state_of(am, e), x, t);
        lemma_push_contains(p, e, x);
        assert(p.push(e) =~= keys);
    }
}

/// What the diff lists of the entities gone, over `keys`.
proof fn lemma_gone_contains(keys: Seq<EntityId>, bm: Map<EntityId, Vec<(Symbol, Vec<u8>)>>, am: Map<EntityId, Vec<(Symbol, Vec<u8>)>>, x: EntityId, t: Symbol)
    ensures
        gone_components(keys, bm, am).contains((x, t)) <==> (keys.contains(x) && !am.contains_key(x)
            && has_type(state_of(bm, x), t)),
    decreases keys.len(),
{
    if keys.len() > 0 {
        let p = keys.drop_last();
        let e = keys.last();
        lemma_gone_contains(p, bm, am, x, t);
        let blk = if am.contains_key(e) {
            Seq::<(EntityId, Symbol)>::empty()
        } else {
            all_in(e, state_of(bm, e))
        };
        lemma_concat_contains(gone_components(p, bm, am), blk, (x, t));
        lemma_all_in_contains(e, state_of(bm, e), x, t);
        lemma_push_contains(p, e, x);
        assert(p.push(e) =~= keys);
    }
}

/// What the diff lists as modified, over `keys`.
proof fn lemma_diff_modified_contains(keys: Seq<EntityId>, bm: Map<EntityId, Vec<(Symbol, Vec<u8>)>>, am: Map<EntityId, Vec<(Symbol, Vec<u8>)>>, x: EntityId, t: Symbol)
    ensures
        diff_modified(keys, bm, am).contains((x, t)) <==> (keys.contains(x) && bm.contains_key(x)
            && lookup(state_of(bm, x), t) is Some
            && exists|i: int| 0 <= i < state_of(am, x).len() && (#[trigger] state_of(am, x)[i]).0 == t
                && state_of(am, x)[i].1 != lookup(state_of(bm, x), t)->0),
    decreases keys.len(),
{
    if keys.len() > 0 {
        let p = keys.drop_last();
        let e = keys.last();
        lemma_diff_modified_contains(p, bm, am, x, t);
        let blk = if bm.contains_key(e) {
            modified_in(e, state_of(am, e), state_of(bm, e))
        } else {
            Seq::<(EntityId, Symbol)>::empty()
        };
        lemma_concat_contains(diff_modified(p, bm, am), blk, (x, t));
        lemma_modified_in_contains(e, state_of(am, e), state_of(bm, e), x, t);
        lemma_push_contains(p, e, x);
        assert(p.push(e) =~= keys);
    }
}

/// Which components a diff lists, for entity `e` and type `t`, in terms of
/// the entity's states `a` (later) and `b` (earlier):
/// - added: `e` is in the later snapshot with an entry of type `t`, and is
///   not in the earlier one or has no entry of type `t` there;
/// - removed: `e` is in both, with an entry of type `t` only in the
///   earlier state; or `e` is only in the earlier snapshot, with an entry
///   of type `t`;
/// - modified: `e` is in both, and some entry of type `t` in the later
///   state holds other data than the earlier state holds for `t`.
pub proof fn law_diff_components(before: WorldSnapshot, after: WorldSnapshot, e: EntityId, t: Symbol)
    requires
        before.entity_states.inv(),
        after.entity_states.inv(),
    ensures
        ({
            let bm = before.entity_states@;
            let am = after.entity_states@;
            let a = state_of(am, e);
            let b = state_of(bm, e);
            &&& diff_added(after.entity_states.key_seq(), bm, am).contains((e, t))
                <==> (am.contains_key(e) && has_type(a, t) && (!bm.contains_key(e) || !has_type(b, t)))
            &&& (diff_removed(after.entity_states.key_seq(), bm, am) + gone_components(before.entity_states.key_seq(), bm, am)).contains((e, t))
                <==> (bm.contains_key(e) && has_type(b, t) && (!am.contains_key(e) || !has_type(a, t)))
            &&& diff_modified(after.entity_states.key_seq(), bm, am).contains((e, t))
                <==> (am.contains_key(e) && bm.contains_key(e) && lookup(b, t) is Some
                    && exists|i: int| 0 <= i < a.len() && (#[trigger] a[i]).0 == t && a[i].1 != lookup(b, t)->0)
        }),
{
    before.entity_states.lemma_order();
    after.entity_states.lemma_order();
    let bm = before.entity_states@;
    let am = after.entity_states@;
    lemma_diff_added_contains(after.entity_states.key_seq(), bm, am, e, t);
    lemma_diff_removed_contains(after.entity_states.key_seq(), bm, am, e, t);
    lemma_gone_contains(before.entity_states.key_seq(), bm, am, e, t);
    lemma_concat_contains(diff_removed(after.entity_states.key_seq(), bm, am),
        gone_components(before.entity_states.key_seq(), bm, am), (e, t));
    lemma_diff_modified_contains(after.entity_states.key_seq(), bm, am, e, t);
}

} // verus!
