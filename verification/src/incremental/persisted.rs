//! What a flush leaves in storage: the effect of a flush's writes on the
//! stored entries, and the laws that relate them to the world flushed.

use vstd::prelude::*;
use crate::seq_util::{self, first_pos};
use crate::simple_world::{EntityId, SimpleWorld};
use super::storage_world::{WorldMetadata, is_fresh_metadata};
use crate::symbol::Symbol;
use super::storage_world::{
    OpView, StorageWorld, EntView, CompView, ent_pos, comp_pos, comp_is, ent_is, ent_not_of, comp_not_of, keeps_comp,
    entity_writes, component_writes, removals, entity_comps, world_comps, listed_types, last_types, loaded_pairs,
};
use super::dirty_tracker::push_new;

verus! {

/// Persistent storage as values: the stored type list of each entity and
/// the stored data of each component.
pub struct StoreView {
    pub meta: Option<WorldMetadata>,
    pub ents: Map<EntityId, Seq<Symbol>>,
    pub comps: Map<(EntityId, Symbol), Seq<u8>>,
}

/// The components of entity `e` listed in `ts`, removed from `comps`.
pub open spec fn drop_listed(comps: Map<(EntityId, Symbol), Seq<u8>>, e: EntityId, ts: Seq<Symbol>) -> Map<(EntityId, Symbol), Seq<u8>> {
    comps.remove_keys(Set::new(|k: (EntityId, Symbol)| k.0 == e && ts.contains(k.1)))
}

/// Storage after one write, `m` being the metadata a metadata write
/// stores. Removing an entity removes its stored type list and the data
/// of every type in that list.
pub open spec fn apply_op(s: StoreView, op: OpView, m: WorldMetadata) -> StoreView {
    match op {
        OpView::WriteMeta => StoreView { meta: Some(m), ..s },
        OpView::WriteEntity(e, ts) => StoreView { ents: s.ents.insert(e, ts), ..s },
        OpView::WriteComponent(e, t, d) => StoreView { comps: s.comps.insert((e, t), d), ..s },
        OpView::RemoveEntity(e) => if s.ents.contains_key(e) {
            StoreView { ents: s.ents.remove(e), comps: drop_listed(s.comps, e, s.ents[e]), ..s }
        } else {
            s
        },
    }
}

/// Storage after a sequence of writes, made in order (`m` as above).
pub open spec fn apply_ops(s: StoreView, ops: Seq<OpView>, m: WorldMetadata) -> StoreView
    decreases ops.len(),
{
    if ops.len() == 0 {
        s
    } else {
        apply_op(apply_ops(s, ops.drop_last(), m), ops.last(), m)
    }
}

/// Making `ops` then `op` is making `ops.push(op)`.
proof fn lemma_apply_push(s: StoreView, ops: Seq<OpView>, op: OpView, m: WorldMetadata)
    ensures
        apply_ops(s, ops.push(op), m) == apply_op(apply_ops(s, ops, m), op, m),
{
    assert(ops.push(op).drop_last() =~= ops);
}

/// Making `a` then `b` is making `a + b`.
proof fn lemma_apply_concat(s: StoreView, a: Seq<OpView>, b: Seq<OpView>, m: WorldMetadata)
    ensures
        apply_ops(s, a + b, m) == apply_ops(apply_ops(s, a, m), b, m),
    decreases b.len(),
{
    if b.len() == 0 {
        assert(a + b =~= a);
    } else {
        lemma_apply_concat(s, a, b.drop_last(), m);
        assert((a + b).drop_last() =~= a + b.drop_last());
        assert((a + b).last() == b.last());
    }
}

/// Type-list writes leave component data as it is.
proof fn lemma_entity_writes_keep_comps(s: StoreView, dirty: Seq<EntityId>, ents: Seq<EntView>, m: WorldMetadata)
    ensures
        apply_ops(s, entity_writes(dirty, ents), m).comps == s.comps,
        apply_ops(s, entity_writes(dirty, ents), m).meta == s.meta,
    decreases dirty.len(),
{
    if dirty.len() > 0 {
        lemma_entity_writes_keep_comps(s, dirty.drop_last(), ents, m);
        let rest = entity_writes(dirty.drop_last(), ents);
        let i = ent_pos(ents, dirty.last());
        if i >= 0 {
            lemma_apply_push(s, rest, OpView::WriteEntity(dirty.last(), ents[i].1), m);
        }
    }
}

/// After the type-list writes, a marked loaded entity's stored list is
/// its loaded list, and an unmarked entity's is what it was.
proof fn lemma_entity_writes_ents(s: StoreView, dirty: Seq<EntityId>, ents: Seq<EntView>, e: EntityId, m: WorldMetadata)
    ensures
        dirty.contains(e) && ent_pos(ents, e) >= 0 ==> apply_ops(s, entity_writes(dirty, ents), m).ents.get(e)
            == Some(ents[ent_pos(ents, e)].1),
        !dirty.contains(e) ==> apply_ops(s, entity_writes(dirty, ents), m).ents.get(e) == s.ents.get(e),
        ent_pos(ents, e) < 0 ==> apply_ops(s, entity_writes(dirty, ents), m).ents.get(e) == s.ents.get(e),
    decreases dirty.len(),
{
    if dirty.len() > 0 {
        let p = dirty.drop_last();
        lemma_entity_writes_ents(s, p, ents, e, m);
        let rest = entity_writes(p, ents);
        let i = ent_pos(ents, dirty.last());
        if i >= 0 {
            lemma_apply_push(s, rest, OpView::WriteEntity(dirty.last(), ents[i].1), m);
        }
        if !dirty.contains(e) {
            assert(!p.contains(e)) by {
                if p.contains(e) {
                    let i = choose|i: int| 0 <= i < p.len() && p[i] == e;
                    assert(dirty[i] == e);
                }
            }
            assert(dirty[dirty.len() - 1] != e);
        }
        if dirty.contains(e) && dirty.last() != e {
            let i = choose|i: int| 0 <= i < dirty.len() && dirty[i] == e;
            assert(p[i] == e);
        }
    }
}

/// Data writes leave the stored type lists as they are.
proof fn lemma_component_writes_keep_ents(s: StoreView, dirty: Seq<(EntityId, Symbol)>, despawned: Seq<EntityId>, comps: Seq<CompView>, m: WorldMetadata)
    ensures
        apply_ops(s, component_writes(dirty, despawned, comps), m).ents == s.ents,
        apply_ops(s, component_writes(dirty, despawned, comps), m).meta == s.meta,
    decreases dirty.len(),
{
    if dirty.len() > 0 {
        lemma_component_writes_keep_ents(s, dirty.drop_last(), despawned, comps, m);
        let rest = component_writes(dirty.drop_last(), despawned, comps);
        let (le, lt) = dirty.last();
        let k = comp_pos(comps, le, lt);
        if !despawned.contains(le) && k >= 0 {
            lemma_apply_push(s, rest, OpView::WriteComponent(le, lt, comps[k].2), m);
        }
    }
}

/// After the data writes, a marked loaded component of a live entity
/// holds its loaded data, and an unmarked one holds what it held.
proof fn lemma_component_writes_comps(
    s: StoreView,
    dirty: Seq<(EntityId, Symbol)>,
    despawned: Seq<EntityId>,
    comps: Seq<CompView>,
    e: EntityId,
    t: Symbol,
    m: WorldMetadata,
)
    ensures
        dirty.contains((e, t)) && !despawned.contains(e) && comp_pos(comps, e, t) >= 0
            ==> apply_ops(s, component_writes(dirty, despawned, comps), m).comps.get((e, t))
                == Some(comps[comp_pos(comps, e, t)].2),
        !dirty.contains((e, t)) ==> apply_ops(s, component_writes(dirty, despawned, comps), m).comps.get((e, t))
            == s.comps.get((e, t)),
        comp_pos(comps, e, t) < 0 ==> apply_ops(s, component_writes(dirty, despawned, comps), m).comps.get((e, t))
            == s.comps.get((e, t)),
    decreases dirty.len(),
{
    if dirty.len() > 0 {
        let p = dirty.drop_last();
        lemma_component_writes_comps(s, p, despawned, comps, e, t, m);
        let rest = component_writes(p, despawned, comps);
        let (le, lt) = dirty.last();
        let k = comp_pos(comps, le, lt);
        if !despawned.contains(le) && k >= 0 {
            lemma_apply_push(s, rest, OpView::WriteComponent(le, lt, comps[k].2), m);
        }
        if !dirty.contains((e, t)) {
            assert(!p.contains((e, t))) by {
                if p.contains((e, t)) {
                    let i = choose|i: int| 0 <= i < p.len() && p[i] == (e, t);
                    assert(dirty[i] == (e, t));
                }
            }
            assert(dirty[dirty.len() - 1] != (e, t));
        }
        if dirty.contains((e, t)) && dirty.last() != (e, t) {
            let i = choose|i: int| 0 <= i < dirty.len() && dirty[i] == (e, t);
            assert(p[i] == (e, t));
        }
    }
}

/// Removals of other entities leave an entity's stored list and data as
/// they are; a removed entity has no stored list afterwards.
proof fn lemma_removals(s: StoreView, despawned: Seq<EntityId>, e: EntityId, t: Symbol, m: WorldMetadata)
    ensures
        !despawned.contains(e) ==> apply_ops(s, removals(despawned), m).ents.get(e) == s.ents.get(e),
        !despawned.contains(e) ==> apply_ops(s, removals(despawned), m).comps.get((e, t)) == s.comps.get((e, t)),
        despawned.contains(e) ==> !apply_ops(s, removals(despawned), m).ents.contains_key(e),
        despawned.contains(e) && s.ents.contains_key(e) && s.ents[e].contains(t)
            ==> !apply_ops(s, removals(despawned), m).comps.contains_key((e, t)),
        apply_ops(s, removals(despawned), m).meta == s.meta,
    decreases despawned.len(),
{
    if despawned.len() > 0 {
        let p = despawned.drop_last();
        assert(removals(despawned) =~= removals(p).push(OpView::RemoveEntity(despawned.last())));
        lemma_apply_push(s, removals(p), OpView::RemoveEntity(despawned.last()), m);
        lemma_removals(s, p, e, t, m);
        let before = apply_ops(s, removals(p), m);
        if despawned.contains(e) && s.ents.contains_key(e) && s.ents[e].contains(t) && !p.contains(e) {
            assert(despawned.last() == e) by {
                let i = choose|i: int| 0 <= i < despawned.len() && despawned[i] == e;
                if i < p.len() {
                    assert(p[i] == e);
                }
            }
            assert(before.ents.get(e) == s.ents.get(e));
        }
        if !despawned.contains(e) {
            assert(!p.contains(e)) by {
                if p.contains(e) {
                    let i = choose|i: int| 0 <= i < p.len() && p[i] == e;
                    assert(despawned[i] == e);
                }
            }
            assert(despawned[despawned.len() - 1] != e);
        }
        if despawned.contains(e) && despawned.last() != e {
            let i = choose|i: int| 0 <= i < despawned.len() && despawned[i] == e;
            assert(p[i] == e);
        }
    }
}

/// Reading back what a flush wrote. After the flush's writes are made, in
/// order, on any storage `s`:
/// - a marked, loaded entity that was not despawned has its loaded type
///   list stored;
/// - a marked, loaded component of an entity that was not despawned has
///   its loaded data stored;
/// - the stored entries of an entity that was not despawned and that were
///   not marked are as they were, and so is the stored data of a component
///   that the world does not hold;
/// - a despawned entity has no stored type list and, when it is not
///   loaded, no stored data for the types its stored list named;
/// - the stored metadata is the world's when it was marked, and as it was
///   otherwise.
pub proof fn law_flush_then_read(w: StorageWorld, s: StoreView, e: EntityId, t: Symbol)
    ensures
        ({
            let after = apply_ops(s, w.flush_plan(), w.meta());
            let tr = w.tracker();
            &&& tr.meta() ==> after.meta == Some(w.meta())
            &&& !tr.meta() ==> after.meta == s.meta
            &&& tr.entities().contains(e) && !tr.despawned_ids().contains(e) && ent_pos(w.ents(), e) >= 0
                ==> after.ents.get(e) == Some(w.ents()[ent_pos(w.ents(), e)].1)
            &&& tr.components().contains((e, t)) && !tr.despawned_ids().contains(e) && w.spec_get(e, t) is Some
                ==> after.comps.get((e, t)) == w.spec_get(e, t)
            &&& !tr.entities().contains(e) && !tr.despawned_ids().contains(e)
                ==> after.ents.get(e) == s.ents.get(e)
            &&& !tr.components().contains((e, t)) && !tr.despawned_ids().contains(e)
                ==> after.comps.get((e, t)) == s.comps.get((e, t))
            &&& w.spec_get(e, t) is None && !tr.despawned_ids().contains(e)
                ==> after.comps.get((e, t)) == s.comps.get((e, t))
            &&& tr.despawned_ids().contains(e) ==> !after.ents.contains_key(e)
            &&& tr.despawned_ids().contains(e) && ent_pos(w.ents(), e) < 0 && s.ents.contains_key(e) && s.ents[e].contains(t)
                ==> !after.comps.contains_key((e, t))
        }),
{
    let tr = w.tracker();
    let m = w.meta();
    if tr.spec_is_dirty() {
        let head = if tr.meta() { seq![OpView::WriteMeta] } else { Seq::<OpView>::empty() };
        let ew = entity_writes(tr.entities(), w.ents());
        let cw = component_writes(tr.components(), tr.despawned_ids(), w.comps());
        let rw = removals(tr.despawned_ids());
        assert(w.flush_plan() == head + ew + cw + rw);
        let s1 = apply_ops(s, head, m);
        assert(s1.ents == s.ents && s1.comps == s.comps
            && s1.meta == (if tr.meta() { Some(m) } else { s.meta })) by {
            if tr.meta() {
                assert(head =~= Seq::<OpView>::empty().push(OpView::WriteMeta));
                lemma_apply_push(s, Seq::<OpView>::empty(), OpView::WriteMeta, m);
            }
        }
        lemma_apply_concat(s, head, ew, m);
        let s2 = apply_ops(s1, ew, m);
        lemma_apply_concat(s, head + ew, cw, m);
        let s3 = apply_ops(s2, cw, m);
        lemma_apply_concat(s, head + ew + cw, rw, m);
        lemma_entity_writes_keep_comps(s1, tr.entities(), w.ents(), m);
        lemma_entity_writes_ents(s1, tr.entities(), w.ents(), e, m);
        lemma_component_writes_keep_ents(s2, tr.components(), tr.despawned_ids(), w.comps(), m);
        lemma_component_writes_comps(s2, tr.components(), tr.despawned_ids(), w.comps(), e, t, m);
        lemma_removals(s3, tr.despawned_ids(), e, t, m);
    } else {
        assert(!tr.entities().contains(e));
        assert(!tr.components().contains((e, t)));
        assert(!tr.despawned_ids().contains(e));
    }
}

/// Whether storage `s` holds what `w` holds, except where `w` marked a
/// change: the metadata unless it is marked (a fresh world's when none is
/// stored), the type list of each loaded entity that is neither marked nor
/// despawned, and the data of each loaded component that is not marked and
/// whose entity is not despawned; and no data for a type that `w` lists
/// without holding data for it.
pub open spec fn in_step(w: StorageWorld, s: StoreView) -> bool {
    let tr = w.tracker();
    &&& !tr.meta() ==> stored_meta_is(s.meta, w.meta())
    &&& forall|e: EntityId| ent_pos(w.ents(), e) >= 0 && !tr.entities().contains(e) && !tr.despawned_ids().contains(e)
        ==> #[trigger] s.ents.get(e) == Some(w.ents()[ent_pos(w.ents(), e)].1)
    &&& forall|e: EntityId, t: Symbol| w.spec_get(e, t) is Some && !tr.components().contains((e, t)) && !tr.despawned_ids().contains(e)
        ==> #[trigger] s.comps.get((e, t)) == w.spec_get(e, t)
    &&& forall|e: EntityId, t: Symbol| #[trigger] listed_without_data(w, e, t) ==> s.comps.get((e, t)) is None
}

/// Whether loading the stored metadata `stored` gives `m`: it is stored,
/// or nothing is stored and `m` is the metadata of a fresh world.
pub open spec fn stored_meta_is(stored: Option<WorldMetadata>, m: WorldMetadata) -> bool {
    match stored {
        Some(x) => x == m,
        None => is_fresh_metadata(m),
    }
}

/// Whether `w` lists type `t` for its loaded entity `e`, which was not
/// despawned, without holding data for it.
pub open spec fn listed_without_data(w: StorageWorld, e: EntityId, t: Symbol) -> bool {
    &&& ent_pos(w.ents(), e) >= 0
    &&& w.ents()[ent_pos(w.ents(), e)].1.contains(t)
    &&& w.spec_get(e, t) is None
    &&& !w.tracker().despawned_ids().contains(e)
}

/// A flush brings storage fully in step with the world. When storage `s`
/// holds what `w` holds except for the changes `w` marked, then after the
/// flush's writes loading the stored metadata gives `w`'s, and storage
/// holds the type list of every loaded entity that was not despawned, the
/// data of every loaded component of such an entity, and no data for a
/// type such an entity lists without data; a despawned entity has no
/// stored list.
pub proof fn law_flush_brings_in_step(w: StorageWorld, s: StoreView, e: EntityId, t: Symbol)
    requires
        in_step(w, s),
    ensures
        ({
            let after = apply_ops(s, w.flush_plan(), w.meta());
            let tr = w.tracker();
            &&& stored_meta_is(after.meta, w.meta())
            &&& ent_pos(w.ents(), e) >= 0 && !tr.despawned_ids().contains(e)
                ==> after.ents.get(e) == Some(w.ents()[ent_pos(w.ents(), e)].1)
            &&& w.spec_get(e, t) is Some && !tr.despawned_ids().contains(e)
                ==> after.comps.get((e, t)) == w.spec_get(e, t)
            &&& listed_without_data(w, e, t) ==> after.comps.get((e, t)) is None
            &&& tr.despawned_ids().contains(e) ==> !after.ents.contains_key(e)
        }),
{
    law_flush_then_read(w, s, e, t);
    let tr = w.tracker();
    if ent_pos(w.ents(), e) >= 0 && !tr.despawned_ids().contains(e) && !tr.entities().contains(e) {
        assert(s.ents.get(e) == Some(w.ents()[ent_pos(w.ents(), e)].1));
    }
    if w.spec_get(e, t) is Some && !tr.despawned_ids().contains(e) && !tr.components().contains((e, t)) {
        assert(s.comps.get((e, t)) == w.spec_get(e, t));
    }
}

/// After a flush the world stays in step with storage. When storage `s`
/// is in step with `w` and no despawned entity of `w` is loaded, the world
/// as the flush leaves it (same entries and metadata, nothing marked) is
/// in step with storage after the flush's writes, so that a later flush
/// again brings storage to hold all of it.
pub proof fn law_flush_keeps_in_step(w: StorageWorld, flushed: StorageWorld, s: StoreView)
    requires
        in_step(w, s),
        forall|e: EntityId| #[trigger] w.tracker().despawned_ids().contains(e)
            ==> ent_pos(w.ents(), e) < 0 && forall|t: Symbol| #[trigger] w.spec_get(e, t) is None,
        flushed.ents() == w.ents(),
        flushed.comps() == w.comps(),
        flushed.meta() == w.meta(),
        flushed.tracker().entities().len() == 0,
        flushed.tracker().components().len() == 0,
        flushed.tracker().despawned_ids().len() == 0,
        !flushed.tracker().meta(),
    ensures
        in_step(flushed, apply_ops(s, w.flush_plan(), w.meta())),
{
    let after = apply_ops(s, w.flush_plan(), w.meta());
    let tr = w.tracker();
    law_flush_brings_in_step(w, s, 0, Symbol { hi: 0, lo: 0 });
    assert forall|e: EntityId| ent_pos(flushed.ents(), e) >= 0 && !flushed.tracker().entities().contains(e)
        && !flushed.tracker().despawned_ids().contains(e)
        implies #[trigger] after.ents.get(e) == Some(flushed.ents()[ent_pos(flushed.ents(), e)].1) by {
        law_flush_brings_in_step(w, s, e, Symbol { hi: 0, lo: 0 });
        if tr.despawned_ids().contains(e) {
            assert(ent_pos(w.ents(), e) < 0);
        }
    }
    assert forall|e: EntityId, t: Symbol| flushed.spec_get(e, t) is Some && !flushed.tracker().components().contains((e, t))
        && !flushed.tracker().despawned_ids().contains(e)
        implies #[trigger] after.comps.get((e, t)) == flushed.spec_get(e, t) by {
        law_flush_brings_in_step(w, s, e, t);
        if tr.despawned_ids().contains(e) {
            assert(w.spec_get(e, t) is None);
        }
    }
    assert forall|e: EntityId, t: Symbol| #[trigger] listed_without_data(flushed, e, t) implies after.comps.get((e, t)) is None by {
        law_flush_brings_in_step(w, s, e, t);
        if tr.despawned_ids().contains(e) {
            assert(ent_pos(w.ents(), e) < 0);
        }
        assert(listed_without_data(w, e, t));
    }
}

/// The data of the first entry of component `t` of entity `e` in `cs`.
pub open spec fn comp_value(cs: Seq<CompView>, e: EntityId, t: Symbol) -> Option<Seq<u8>> {
    if comp_pos(cs, e, t) >= 0 {
        Some(cs[comp_pos(cs, e, t)].2)
    } else {
        None
    }
}

/// Loading from a type list whose entries for `t` all read `d` gives `d`
/// for `t` when `t` is listed, and nothing otherwise.
proof fn lemma_loaded_value(e: EntityId, types: Seq<Symbol>, data: Seq<Option<Seq<u8>>>, t: Symbol, d: Option<Seq<u8>>)
    requires
        data.len() == types.len(),
        forall|i: int| 0 <= i < types.len() && #[trigger] types[i] == t ==> data[i] == d,
    ensures
        comp_value(loaded_pairs(e, types, data), e, t) == if types.contains(t) { d } else { None },
    decreases types.len(),
{
    if types.len() == 0 {
        seq_util::lemma_first_pos(loaded_pairs(e, types, data), comp_is(e, t));
    } else {
        let tp = types.drop_last();
        let dp = data.drop_last();
        assert forall|i: int| 0 <= i < tp.len() && #[trigger] tp[i] == t implies dp[i] == d by {
            assert(types[i] == tp[i]);
        }
        lemma_loaded_value(e, tp, dp, t, d);
        let rest = loaded_pairs(e, tp, dp);
        seq_util::lemma_first_pos(rest, comp_is(e, t));
        assert(types.contains(t) <==> (tp.contains(t) || types.last() == t)) by {
            if types.contains(t) && types.last() != t {
                let i = choose|i: int| 0 <= i < types.len() && types[i] == t;
                assert(tp[i] == t);
            }
            if tp.contains(t) {
                let i = choose|i: int| 0 <= i < tp.len() && tp[i] == t;
                assert(types[i] == t);
            }
            if types.last() == t {
                assert(types[types.len() - 1] == t);
            }
        }
        if types.last() == t {
            assert(data.last() == d) by {
                assert(types[types.len() - 1] == t);
            }
        }
        match data.last() {
            Some(x) => {
                seq_util::lemma_first_pos_push(rest, (e, types.last(), x), comp_is(e, t));
                assert(loaded_pairs(e, types, data) == rest.push((e, types.last(), x)));
                if comp_pos(rest, e, t) >= 0 {
                    assert(rest.push((e, types.last(), x))[comp_pos(rest, e, t)] == rest[comp_pos(rest, e, t)]);
                } else if types.last() == t {
                    assert(rest.push((e, types.last(), x))[rest.len() as int] == (e, types.last(), x));
                }
            },
            None => {
                assert(loaded_pairs(e, types, data) == rest);
            },
        }
    }
}

/// Writing a flushed entity and reading it back. When storage `s` is in
/// step with `w` and every loaded component of `w` is listed, then after
/// the flush's writes, for an entity `e` that `w` has loaded and not
/// despawned, loading the stored metadata gives `w`'s, the stored type
/// list of `e` (`types`, read with the stored data `data` of each listed
/// type) is the one `w` holds, and a world that loads `e` from them holds, for every
/// type `t`, the data that `w` holds (none where `w` holds none).
pub proof fn law_flush_then_reload(
    w: StorageWorld,
    s: StoreView,
    e: EntityId,
    t: Symbol,
    types: Seq<Symbol>,
    data: Seq<Option<Seq<u8>>>,
    r: StorageWorld,
)
    requires
        in_step(w, s),
        lists_cover(w),
        ent_pos(w.ents(), e) >= 0,
        !w.tracker().despawned_ids().contains(e),
        read_from(apply_ops(s, w.flush_plan(), w.meta()), e, types, data),
        r.comps() == loaded_pairs(e, types, data),
    ensures
        stored_meta_is(apply_ops(s, w.flush_plan(), w.meta()).meta, w.meta()),
        types == w.ents()[ent_pos(w.ents(), e)].1,
        r.spec_get(e, t) == w.spec_get(e, t),
{
    let after = apply_ops(s, w.flush_plan(), w.meta());
    law_flush_brings_in_step(w, s, e, t);
    let d = after.comps.get((e, t));
    assert forall|i: int| 0 <= i < types.len() && #[trigger] types[i] == t implies data[i] == d by {
        assert(data[i] == after.comps.get((e, types[i])));
    }
    lemma_loaded_value(e, types, data, t, d);
    if w.spec_get(e, t) is None && types.contains(t) {
        assert(listed_without_data(w, e, t));
    }
}

/// A flush of a world with nothing marked, such as one just flushed,
/// leaves storage exactly as it was.
pub proof fn law_clean_flush_keeps_storage(w: StorageWorld, s: StoreView)
    requires
        !w.tracker().spec_is_dirty(),
    ensures
        apply_ops(s, w.flush_plan(), w.meta()) == s,
{
    assert(w.flush_plan() =~= Seq::<OpView>::empty());
}

/// Marking keeps what was marked and marks `x`.
proof fn lemma_push_new_contains<A>(s: Seq<A>, x: A, y: A)
    ensures
        push_new(s, x).contains(x),
        s.contains(y) ==> push_new(s, x).contains(y),
{
    if !s.contains(x) {
        assert(s.push(x)[s.len() as int] == x);
        if s.contains(y) {
            let i = choose|i: int| 0 <= i < s.len() && s[i] == y;
            assert(s.push(x)[i] == y);
        }
    }
}

/// What marking `x` holds was held before, or is `x`.
proof fn lemma_push_new_back<A>(s: Seq<A>, x: A, y: A)
    ensures
        push_new(s, x).contains(y) ==> s.contains(y) || y == x,
{
    if !s.contains(x) && s.push(x).contains(y) && y != x {
        let i = choose|i: int| 0 <= i < s.len() + 1 && s.push(x)[i] == y;
        assert(s[i] == y);
    }
}

/// Whether `w2` marks at least what `w1` marks, with the metadata and
/// `e` (as an entity) marked, and `w1`'s despawned entities despawned.
pub open spec fn marks_more(w1: StorageWorld, w2: StorageWorld) -> bool {
    &&& w2.tracker().meta()
    &&& forall|x: EntityId| w1.tracker().entities().contains(x) ==> #[trigger] w2.tracker().entities().contains(x)
    &&& forall|x: (EntityId, Symbol)| w1.tracker().components().contains(x) ==> #[trigger] w2.tracker().components().contains(x)
    &&& forall|x: EntityId| w1.tracker().despawned_ids().contains(x) ==> #[trigger] w2.tracker().despawned_ids().contains(x)
}

/// A world that changed only entries of entity `e` (its type list, marked,
/// and the components it marked), marking at least what it marked, stays
/// in step with storage.
proof fn lemma_in_step_changed(w1: StorageWorld, w2: StorageWorld, s: StoreView, e: EntityId)
    requires
        in_step(w1, s),
        marks_more(w1, w2),
        w2.tracker().entities().contains(e) || w2.tracker().despawned_ids().contains(e),
        forall|x: EntityId| x != e && ent_pos(w2.ents(), x) >= 0 ==> #[trigger] ent_pos(w1.ents(), x) >= 0
            && w2.ents()[ent_pos(w2.ents(), x)] == w1.ents()[ent_pos(w1.ents(), x)],
        forall|x: EntityId, t: Symbol| w2.spec_get(x, t) is Some && #[trigger] w2.spec_get(x, t) != w1.spec_get(x, t)
            ==> w2.tracker().components().contains((x, t)) || w2.tracker().despawned_ids().contains(x),
        forall|x: EntityId, t: Symbol| x != e ==> #[trigger] w2.spec_get(x, t) == w1.spec_get(x, t),
        forall|t: Symbol| #[trigger] listed_without_data(w2, e, t) ==> listed_without_data(w1, e, t),
    ensures
        in_step(w2, s),
{
    assert forall|x: EntityId, t: Symbol| #[trigger] listed_without_data(w2, x, t) implies s.comps.get((x, t)) is None by {
        if x != e {
            assert(w2.spec_get(x, t) == w1.spec_get(x, t));
            assert(!w1.tracker().despawned_ids().contains(x));
            assert(listed_without_data(w1, x, t));
        } else {
            assert(listed_without_data(w1, x, t));
        }
    }
    assert forall|x: EntityId| ent_pos(w2.ents(), x) >= 0 && !w2.tracker().entities().contains(x)
        && !w2.tracker().despawned_ids().contains(x)
        implies #[trigger] s.ents.get(x) == Some(w2.ents()[ent_pos(w2.ents(), x)].1) by {
        assert(ent_pos(w1.ents(), x) >= 0);
        assert(!w1.tracker().entities().contains(x));
        assert(!w1.tracker().despawned_ids().contains(x));
    }
    assert forall|x: EntityId, t: Symbol| w2.spec_get(x, t) is Some && !w2.tracker().components().contains((x, t))
        && !w2.tracker().despawned_ids().contains(x)
        implies #[trigger] s.comps.get((x, t)) == w2.spec_get(x, t) by {
        assert(w2.spec_get(x, t) == w1.spec_get(x, t));
        assert(!w1.tracker().components().contains((x, t)));
        assert(!w1.tracker().despawned_ids().contains(x));
    }
}

/// Appending an entry of `e` leaves the first entry of every other entity.
proof fn lemma_ent_pos_push(ents: Seq<EntView>, v: EntView, x: EntityId)
    requires
        v.0 != x,
    ensures
        ent_pos(ents.push(v), x) == ent_pos(ents, x),
        ent_pos(ents, x) >= 0 ==> ents.push(v)[ent_pos(ents, x)] == ents[ent_pos(ents, x)],
{
    seq_util::lemma_first_pos_push(ents, v, ent_is(x));
    seq_util::lemma_first_pos(ents, ent_is(x));
}

/// Replacing an entry of `e` by another entry of `e` leaves the first
/// entry of every other entity.
proof fn lemma_ent_pos_update(ents: Seq<EntView>, i: int, v: EntView, x: EntityId)
    requires
        0 <= i < ents.len(),
        ents[i].0 == v.0,
        v.0 != x,
    ensures
        ent_pos(ents.update(i, v), x) == ent_pos(ents, x),
        ent_pos(ents, x) >= 0 ==> ents.update(i, v)[ent_pos(ents, x)] == ents[ent_pos(ents, x)],
{
    let b = ents.update(i, v);
    assert forall|j: int| 0 <= j < ents.len() implies ent_is(x)(#[trigger] ents[j]) == ent_is(x)(b[j]) by {}
    assert forall|j: int| 0 <= j < ents.len() && ent_is(x)(#[trigger] ents[j]) implies ents[j] == b[j] by {}
    seq_util::lemma_first_pos_same(ents, b, ent_is(x));
}

/// Dropping the entries of `e` leaves the first entry of every other
/// entity.
proof fn lemma_ent_pos_filter(ents: Seq<EntView>, e: EntityId, x: EntityId)
    requires
        e != x,
    ensures
        (ent_pos(ents.filter(ent_not_of(e)), x) >= 0) == (ent_pos(ents, x) >= 0),
        ent_pos(ents, x) >= 0 ==> ents.filter(ent_not_of(e))[ent_pos(ents.filter(ent_not_of(e)), x)] == ents[ent_pos(ents, x)],
{
    seq_util::lemma_first_pos_filter(ents, ent_not_of(e), ent_is(x));
}

/// Spawning `id` keeps a world in step with any storage it was in step with.
pub(crate) proof fn lemma_spawn_in_step(w1: StorageWorld, w2: StorageWorld, id: EntityId)
    requires
        w2.ents() == w1.ents().push((id, Seq::<Symbol>::empty())),
        w2.comps() == w1.comps(),
        w2.tracker().meta(),
        w2.tracker().entities() == push_new(w1.tracker().entities(), id),
        w2.tracker().components() == w1.tracker().components(),
        w2.tracker().despawned_ids() == w1.tracker().despawned_ids(),
    ensures
        forall|s: StoreView| #[trigger] in_step(w1, s) ==> in_step(w2, s),
{
    assert forall|x: EntityId| x != id && ent_pos(w2.ents(), x) >= 0 implies #[trigger] ent_pos(w1.ents(), x) >= 0
        && w2.ents()[ent_pos(w2.ents(), x)] == w1.ents()[ent_pos(w1.ents(), x)] by {
        lemma_ent_pos_push(w1.ents(), (id, Seq::<Symbol>::empty()), x);
    }
    assert forall|x: EntityId| w1.tracker().entities().contains(x) implies #[trigger] w2.tracker().entities().contains(x) by {
        lemma_push_new_contains(w1.tracker().entities(), id, x);
    }
    lemma_push_new_contains(w1.tracker().entities(), id, id);
    assert forall|t: Symbol| #[trigger] listed_without_data(w2, id, t) implies listed_without_data(w1, id, t) by {
        seq_util::lemma_first_pos_push(w1.ents(), (id, Seq::<Symbol>::empty()), ent_is(id));
        seq_util::lemma_first_pos(w1.ents(), ent_is(id));
        if ent_pos(w1.ents(), id) >= 0 {
            assert(w2.ents()[ent_pos(w1.ents(), id)] == w1.ents()[ent_pos(w1.ents(), id)]);
        } else {
            assert(w2.ents()[w1.ents().len() as int] == (id, Seq::<Symbol>::empty()));
        }
    }
    assert forall|s: StoreView| #[trigger] in_step(w1, s) implies in_step(w2, s) by {
        lemma_in_step_changed(w1, w2, s, id);
    }
}

/// Adding component `t` to entity `e` keeps a world in step with any
/// storage it was in step with.
pub(crate) proof fn lemma_add_in_step(w1: StorageWorld, w2: StorageWorld, e: EntityId, t: Symbol)
    requires
        w2.ents() == ({
            let i = ent_pos(w1.ents(), e);
            if i >= 0 {
                w1.ents().update(i, (e, push_new(w1.ents()[i].1, t)))
            } else {
                w1.ents().push((e, seq![t]))
            }
        }),
        forall|x: EntityId, u: Symbol| (x, u) != (e, t) ==> #[trigger] w2.spec_get(x, u) == w1.spec_get(x, u),
        w2.spec_get(e, t) is Some,
        w2.tracker().meta(),
        w2.tracker().entities() == push_new(w1.tracker().entities(), e),
        w2.tracker().components() == push_new(w1.tracker().components(), (e, t)),
        w2.tracker().despawned_ids() == w1.tracker().despawned_ids(),
    ensures
        forall|s: StoreView| #[trigger] in_step(w1, s) ==> in_step(w2, s),
{
    seq_util::lemma_first_pos(w1.ents(), ent_is(e));
    assert forall|x: EntityId| x != e && ent_pos(w2.ents(), x) >= 0 implies #[trigger] ent_pos(w1.ents(), x) >= 0
        && w2.ents()[ent_pos(w2.ents(), x)] == w1.ents()[ent_pos(w1.ents(), x)] by {
        let i = ent_pos(w1.ents(), e);
        if i >= 0 {
            lemma_ent_pos_update(w1.ents(), i, (e, push_new(w1.ents()[i].1, t)), x);
        } else {
            lemma_ent_pos_push(w1.ents(), (e, seq![t]), x);
        }
    }
    assert forall|x: EntityId| w1.tracker().entities().contains(x) implies #[trigger] w2.tracker().entities().contains(x) by {
        lemma_push_new_contains(w1.tracker().entities(), e, x);
    }
    assert forall|x: (EntityId, Symbol)| w1.tracker().components().contains(x) implies #[trigger] w2.tracker().components().contains(x) by {
        lemma_push_new_contains(w1.tracker().components(), (e, t), x);
    }
    lemma_push_new_contains(w1.tracker().entities(), e, e);
    lemma_push_new_contains(w1.tracker().components(), (e, t), (e, t));
    assert forall|u: Symbol| #[trigger] listed_without_data(w2, e, u) implies listed_without_data(w1, e, u) by {
        let i = ent_pos(w1.ents(), e);
        if i >= 0 {
            lemma_ent_pos_update_self(w1.ents(), (e, push_new(w1.ents()[i].1, t)), e);
            lemma_push_new_back(w1.ents()[i].1, t, u);
            assert(u != t);
            assert(w2.spec_get(e, u) == w1.spec_get(e, u));
        } else {
            lemma_ent_pos_push_self(w1.ents(), (e, seq![t]), e);
            assert(w2.ents()[w1.ents().len() as int] == (e, seq![t]));
            assert(seq![t].contains(u));
            let j = choose|j: int| 0 <= j < seq![t].len() && seq![t][j] == u;
            assert(u == t);
        }
    }
    assert forall|s: StoreView| #[trigger] in_step(w1, s) implies in_step(w2, s) by {
        lemma_in_step_changed(w1, w2, s, e);
    }
}

/// Removing component `t` from entity `e` keeps a world in step with any
/// storage it was in step with.
pub(crate) proof fn lemma_remove_in_step(w1: StorageWorld, w2: StorageWorld, e: EntityId, t: Symbol, types: Seq<Symbol>)
    requires
        w2.ents() == ({
            let i = ent_pos(w1.ents(), e);
            if i >= 0 {
                w1.ents().update(i, (e, types))
            } else {
                w1.ents()
            }
        }),
        ent_pos(w1.ents(), e) >= 0 ==> types == crate::symbol::without_sym(w1.ents()[ent_pos(w1.ents(), e)].1, t),
        forall|x: EntityId, u: Symbol| !(x == e && u == t) ==> #[trigger] w2.spec_get(x, u) == w1.spec_get(x, u),
        w2.spec_get(e, t) is None,
        w2.tracker().meta(),
        w2.tracker().entities() == push_new(w1.tracker().entities(), e),
        w2.tracker().components() == push_new(w1.tracker().components(), (e, t)),
        w2.tracker().despawned_ids() == w1.tracker().despawned_ids(),
    ensures
        forall|s: StoreView| #[trigger] in_step(w1, s) ==> in_step(w2, s),
{
    seq_util::lemma_first_pos(w1.ents(), ent_is(e));
    assert forall|x: EntityId| x != e && ent_pos(w2.ents(), x) >= 0 implies #[trigger] ent_pos(w1.ents(), x) >= 0
        && w2.ents()[ent_pos(w2.ents(), x)] == w1.ents()[ent_pos(w1.ents(), x)] by {
        let i = ent_pos(w1.ents(), e);
        if i >= 0 {
            lemma_ent_pos_update(w1.ents(), i, (e, types), x);
        }
    }
    assert forall|x: EntityId| w1.tracker().entities().contains(x) implies #[trigger] w2.tracker().entities().contains(x) by {
        lemma_push_new_contains(w1.tracker().entities(), e, x);
    }
    assert forall|x: (EntityId, Symbol)| w1.tracker().components().contains(x) implies #[trigger] w2.tracker().components().contains(x) by {
        lemma_push_new_contains(w1.tracker().components(), (e, t), x);
    }
    lemma_push_new_contains(w1.tracker().entities(), e, e);
    assert forall|u: Symbol| #[trigger] listed_without_data(w2, e, u) implies listed_without_data(w1, e, u) by {
        let i = ent_pos(w1.ents(), e);
        if i >= 0 {
            lemma_ent_pos_update_self(w1.ents(), (e, types), e);
            crate::symbol::lemma_without_sym(w1.ents()[i].1, t);
            assert(types.contains(u));
            assert(u != t);
            assert(w2.spec_get(e, u) == w1.spec_get(e, u));
        }
    }
    assert forall|s: StoreView| #[trigger] in_step(w1, s) implies in_step(w2, s) by {
        lemma_in_step_changed(w1, w2, s, e);
    }
}

/// Despawning entity `e` keeps a world in step with any storage it was in
/// step with.
pub(crate) proof fn lemma_despawn_in_step(w1: StorageWorld, w2: StorageWorld, e: EntityId)
    requires
        w2.ents() == w1.ents().filter(ent_not_of(e)),
        w2.comps() == w1.comps().filter(comp_not_of(e)),
        w2.tracker().meta(),
        w2.tracker().entities() == w1.tracker().entities(),
        w2.tracker().components() == w1.tracker().components(),
        w2.tracker().despawned_ids() == push_new(w1.tracker().despawned_ids(), e),
    ensures
        forall|s: StoreView| #[trigger] in_step(w1, s) ==> in_step(w2, s),
{
    assert forall|x: EntityId| x != e && ent_pos(w2.ents(), x) >= 0 implies #[trigger] ent_pos(w1.ents(), x) >= 0
        && w2.ents()[ent_pos(w2.ents(), x)] == w1.ents()[ent_pos(w1.ents(), x)] by {
        lemma_ent_pos_filter(w1.ents(), e, x);
    }
    assert forall|x: EntityId, u: Symbol| w2.spec_get(x, u) is Some && #[trigger] w2.spec_get(x, u) != w1.spec_get(x, u)
        implies w2.tracker().components().contains((x, u)) || w2.tracker().despawned_ids().contains(x) by {
        if x != e {
            seq_util::lemma_first_pos_filter(w1.comps(), comp_not_of(e), comp_is(x, u));
        } else {
            lemma_push_new_contains(w1.tracker().despawned_ids(), e, e);
        }
    }
    assert forall|x: EntityId| w1.tracker().despawned_ids().contains(x) implies #[trigger] w2.tracker().despawned_ids().contains(x) by {
        lemma_push_new_contains(w1.tracker().despawned_ids(), e, x);
    }
    lemma_push_new_contains(w1.tracker().despawned_ids(), e, e);
    assert forall|x: EntityId, u: Symbol| x != e implies #[trigger] w2.spec_get(x, u) == w1.spec_get(x, u) by {
        seq_util::lemma_first_pos_filter(w1.comps(), comp_not_of(e), comp_is(x, u));
    }
    assert forall|s: StoreView| #[trigger] in_step(w1, s) implies in_step(w2, s) by {
        lemma_in_step_changed(w1, w2, s, e);
    }
}

/// Whether `types` and `data` are what storage `s` holds for entity `e`:
/// its stored type list, and for each listed type its stored data.
pub open spec fn read_from(s: StoreView, e: EntityId, types: Seq<Symbol>, data: Seq<Option<Seq<u8>>>) -> bool {
    &&& s.ents.get(e) == Some(types)
    &&& data.len() == types.len()
    &&& forall|i: int| 0 <= i < types.len() ==> #[trigger] data[i] == s.comps.get((e, types[i]))
}

/// Each component loaded from what storage holds for `e` is stored so.
proof fn lemma_loaded_pairs_stored(s: StoreView, e: EntityId, types: Seq<Symbol>, data: Seq<Option<Seq<u8>>>)
    requires
        data.len() == types.len(),
        forall|i: int| 0 <= i < types.len() ==> #[trigger] data[i] == s.comps.get((e, types[i])),
    ensures
        forall|k: int| 0 <= k < loaded_pairs(e, types, data).len() ==> (#[trigger] loaded_pairs(e, types, data)[k]).0 == e
            && s.comps.get((e, loaded_pairs(e, types, data)[k].1)) == Some(loaded_pairs(e, types, data)[k].2),
    decreases types.len(),
{
    if types.len() > 0 {
        let tp = types.drop_last();
        let dp = data.drop_last();
        assert forall|i: int| 0 <= i < tp.len() implies #[trigger] dp[i] == s.comps.get((e, tp[i])) by {
            assert(dp[i] == data[i] && tp[i] == types[i]);
        }
        lemma_loaded_pairs_stored(s, e, tp, dp);
        assert(data.last() == s.comps.get((e, types.last())));
    }
}

/// A listed type with stored data is among the components loaded.
proof fn lemma_loaded_pairs_has(e: EntityId, types: Seq<Symbol>, data: Seq<Option<Seq<u8>>>, i: int)
    requires
        data.len() == types.len(),
        0 <= i < types.len(),
        data[i] is Some,
    ensures
        exists|k: int| 0 <= k < loaded_pairs(e, types, data).len() && (#[trigger] loaded_pairs(e, types, data)[k]).0 == e
            && loaded_pairs(e, types, data)[k].1 == types[i],
    decreases types.len(),
{
    let tp = types.drop_last();
    let dp = data.drop_last();
    let rest = loaded_pairs(e, tp, dp);
    if i < types.len() - 1 {
        assert(dp[i] == data[i] && tp[i] == types[i]);
        lemma_loaded_pairs_has(e, tp, dp, i);
        let k = choose|k: int| 0 <= k < rest.len() && (#[trigger] rest[k]).0 == e && rest[k].1 == tp[i];
        assert(loaded_pairs(e, types, data)[k] == rest[k]);
    } else {
        let lp = loaded_pairs(e, types, data);
        assert(lp[rest.len() as int] == (e, types.last(), data.last()->0));
    }
}

/// Loading entity `e` from what storage `s` holds for it keeps a world in
/// step with `s`.
pub(crate) proof fn lemma_load_in_step(w1: StorageWorld, w2: StorageWorld, s: StoreView, e: EntityId, types: Seq<Symbol>, data: Seq<Option<Seq<u8>>>)
    requires
        in_step(w1, s),
        read_from(s, e, types, data),
        ent_pos(w1.ents(), e) < 0,
        w2.ents() == w1.ents().push((e, types)),
        w2.comps() == w1.comps() + loaded_pairs(e, types, data),
        w2.meta() == w1.meta(),
        w2.tracker() == w1.tracker(),
    ensures
        in_step(w2, s),
{
    let tr = w2.tracker();
    lemma_loaded_pairs_stored(s, e, types, data);
    let lp = loaded_pairs(e, types, data);
    assert forall|x: EntityId| ent_pos(w2.ents(), x) >= 0 && !tr.entities().contains(x) && !tr.despawned_ids().contains(x)
        implies #[trigger] s.ents.get(x) == Some(w2.ents()[ent_pos(w2.ents(), x)].1) by {
        if x != e {
            lemma_ent_pos_push(w1.ents(), (e, types), x);
        } else {
            seq_util::lemma_first_pos_push(w1.ents(), (e, types), ent_is(e));
            assert(w2.ents()[w1.ents().len() as int] == (e, types));
        }
    }
    assert forall|x: EntityId, t: Symbol| w2.spec_get(x, t) is Some && !tr.components().contains((x, t)) && !tr.despawned_ids().contains(x)
        implies #[trigger] s.comps.get((x, t)) == w2.spec_get(x, t) by {
        seq_util::lemma_first_pos_concat(w1.comps(), lp, comp_is(x, t));
        seq_util::lemma_first_pos(w2.comps(), comp_is(x, t));
        seq_util::lemma_first_pos(w1.comps(), comp_is(x, t));
        if comp_pos(w1.comps(), x, t) >= 0 {
            assert(w2.comps()[comp_pos(w1.comps(), x, t)] == w1.comps()[comp_pos(w1.comps(), x, t)]);
            assert(w1.spec_get(x, t) is Some);
        } else {
            let k = comp_pos(w2.comps(), x, t) - w1.comps().len();
            assert(lp[k] == w2.comps()[comp_pos(w2.comps(), x, t)]);
        }
    }
    assert forall|x: EntityId, t: Symbol| #[trigger] listed_without_data(w2, x, t) implies s.comps.get((x, t)) is None by {
        seq_util::lemma_first_pos_concat(w1.comps(), lp, comp_is(x, t));
        seq_util::lemma_first_pos(w2.comps(), comp_is(x, t));
        seq_util::lemma_first_pos(w1.comps(), comp_is(x, t));
        if x != e {
            lemma_ent_pos_push(w1.ents(), (e, types), x);
            if comp_pos(w1.comps(), x, t) >= 0 {
                assert(w2.comps()[comp_pos(w1.comps(), x, t)] == w1.comps()[comp_pos(w1.comps(), x, t)]);
            } else if comp_pos(w2.comps(), x, t) >= 0 {
                let k = comp_pos(w2.comps(), x, t) - w1.comps().len();
                assert(lp[k] == w2.comps()[comp_pos(w2.comps(), x, t)]);
            }
            assert(listed_without_data(w1, x, t));
        } else {
            lemma_ent_pos_push_self(w1.ents(), (e, types), e);
            assert(w2.ents()[w1.ents().len() as int] == (e, types));
            let i = choose|i: int| 0 <= i < types.len() && types[i] == t;
            assert(data[i] == s.comps.get((e, types[i])));
            if data[i] is Some {
                lemma_loaded_pairs_has(e, types, data, i);
                let k = choose|k: int| 0 <= k < lp.len() && (#[trigger] lp[k]).0 == e && lp[k].1 == types[i];
                assert(w2.comps()[w1.comps().len() + k] == lp[k]);
                assert(comp_is(e, t)(w2.comps()[w1.comps().len() + k]));
            }
        }
    }
}

/// Whether every loaded component of `w` belongs to a loaded entity whose
/// type list names its type. Every storage world the constructors make
/// has this, and every operation keeps it.
pub open spec fn lists_cover(w: StorageWorld) -> bool {
    forall|e: EntityId, t: Symbol| #[trigger] w.spec_get(e, t) is Some
        ==> ent_pos(w.ents(), e) >= 0 && w.ents()[ent_pos(w.ents(), e)].1.contains(t)
}

/// Replacing the first entry of `e` by another entry of `e` keeps it the
/// first entry of `e`.
proof fn lemma_ent_pos_update_self(ents: Seq<EntView>, v: EntView, e: EntityId)
    requires
        ent_pos(ents, e) >= 0,
        v.0 == e,
    ensures
        ent_pos(ents.update(ent_pos(ents, e), v), e) == ent_pos(ents, e),
{
    let i = ent_pos(ents, e);
    let b = ents.update(i, v);
    seq_util::lemma_first_pos(ents, ent_is(e));
    seq_util::lemma_first_pos(b, ent_is(e));
    assert(ent_is(e)(b[i]));
    let fb = first_pos(b, ent_is(e));
    if 0 <= fb < i {
        assert(b[fb] == ents[fb]);
    }
}

/// Appending an entry of `e` when there is none makes it the first.
proof fn lemma_ent_pos_push_self(ents: Seq<EntView>, v: EntView, e: EntityId)
    requires
        ent_pos(ents, e) < 0,
        v.0 == e,
    ensures
        ent_pos(ents.push(v), e) == ents.len(),
{
    seq_util::lemma_first_pos_push(ents, v, ent_is(e));
}

/// Every component loaded for `e` from `types` is of `e` and of a type in
/// `types`.
proof fn lemma_loaded_pairs_types(e: EntityId, types: Seq<Symbol>, data: Seq<Option<Seq<u8>>>)
    ensures
        forall|k: int| 0 <= k < loaded_pairs(e, types, data).len() ==> (#[trigger] loaded_pairs(e, types, data)[k]).0 == e
            && types.contains(loaded_pairs(e, types, data)[k].1),
    decreases types.len(),
{
    if types.len() > 0 && data.len() > 0 {
        let tp = types.drop_last();
        lemma_loaded_pairs_types(e, tp, data.drop_last());
        let rest = loaded_pairs(e, tp, data.drop_last());
        assert forall|k: int| 0 <= k < loaded_pairs(e, types, data).len() implies (#[trigger] loaded_pairs(e, types, data)[k]).0 == e
            && types.contains(loaded_pairs(e, types, data)[k].1) by {
            if k < rest.len() {
                assert(loaded_pairs(e, types, data)[k] == rest[k]);
                let j = choose|j: int| 0 <= j < tp.len() && tp[j] == rest[k].1;
                assert(types[j] == tp[j]);
            } else {
                assert(types[types.len() - 1] == types.last());
            }
        }
    }
}

/// Spawning keeps every loaded component listed.
pub(crate) proof fn lemma_spawn_covers(w1: StorageWorld, w2: StorageWorld, id: EntityId)
    requires
        w2.ents() == w1.ents().push((id, Seq::<Symbol>::empty())),
        w2.comps() == w1.comps(),
    ensures
        lists_cover(w1) ==> lists_cover(w2),
{
    if lists_cover(w1) {
        assert forall|e: EntityId, t: Symbol| #[trigger] w2.spec_get(e, t) is Some
            implies ent_pos(w2.ents(), e) >= 0 && w2.ents()[ent_pos(w2.ents(), e)].1.contains(t) by {
            assert(w1.spec_get(e, t) is Some);
            seq_util::lemma_first_pos_push(w1.ents(), (id, Seq::<Symbol>::empty()), ent_is(e));
            seq_util::lemma_first_pos(w1.ents(), ent_is(e));
            assert(w2.ents()[ent_pos(w1.ents(), e)] == w1.ents()[ent_pos(w1.ents(), e)]);
        }
    }
}

/// Adding a component keeps every loaded component listed.
pub(crate) proof fn lemma_add_covers(w1: StorageWorld, w2: StorageWorld, e: EntityId, t: Symbol)
    requires
        w2.ents() == ({
            let i = ent_pos(w1.ents(), e);
            if i >= 0 {
                w1.ents().update(i, (e, push_new(w1.ents()[i].1, t)))
            } else {
                w1.ents().push((e, seq![t]))
            }
        }),
        forall|x: EntityId, u: Symbol| (x, u) != (e, t) ==> #[trigger] w2.spec_get(x, u) == w1.spec_get(x, u),
    ensures
        lists_cover(w1) ==> lists_cover(w2),
{
    if lists_cover(w1) {
        seq_util::lemma_first_pos(w1.ents(), ent_is(e));
        let i = ent_pos(w1.ents(), e);
        assert forall|x: EntityId, u: Symbol| #[trigger] w2.spec_get(x, u) is Some
            implies ent_pos(w2.ents(), x) >= 0 && w2.ents()[ent_pos(w2.ents(), x)].1.contains(u) by {
            if x == e {
                if i >= 0 {
                    lemma_ent_pos_update_self(w1.ents(), (e, push_new(w1.ents()[i].1, t)), e);
                    lemma_push_new_contains(w1.ents()[i].1, t, u);
                    if u != t {
                        assert(w1.spec_get(x, u) is Some);
                    }
                } else {
                    lemma_ent_pos_push_self(w1.ents(), (e, seq![t]), e);
                    if u != t {
                        assert(w1.spec_get(x, u) is Some);
                    }
                    assert(seq![t][0] == t);
                }
            } else {
                assert(w1.spec_get(x, u) is Some);
                if i >= 0 {
                    lemma_ent_pos_update(w1.ents(), i, (e, push_new(w1.ents()[i].1, t)), x);
                } else {
                    lemma_ent_pos_push(w1.ents(), (e, seq![t]), x);
                }
            }
        }
    }
}

/// Removing a component keeps every loaded component listed.
pub(crate) proof fn lemma_remove_covers(w1: StorageWorld, w2: StorageWorld, e: EntityId, t: Symbol)
    requires
        w2.ents() == ({
            let i = ent_pos(w1.ents(), e);
            if i >= 0 {
                w1.ents().update(i, (e, crate::symbol::without_sym(w1.ents()[i].1, t)))
            } else {
                w1.ents()
            }
        }),
        forall|x: EntityId, u: Symbol| !(x == e && u == t) ==> #[trigger] w2.spec_get(x, u) == w1.spec_get(x, u),
        w2.spec_get(e, t) is None,
    ensures
        lists_cover(w1) ==> lists_cover(w2),
{
    if lists_cover(w1) {
        seq_util::lemma_first_pos(w1.ents(), ent_is(e));
        let i = ent_pos(w1.ents(), e);
        assert forall|x: EntityId, u: Symbol| #[trigger] w2.spec_get(x, u) is Some
            implies ent_pos(w2.ents(), x) >= 0 && w2.ents()[ent_pos(w2.ents(), x)].1.contains(u) by {
            assert(w1.spec_get(x, u) is Some);
            if x == e {
                lemma_ent_pos_update_self(w1.ents(), (e, crate::symbol::without_sym(w1.ents()[i].1, t)), e);
                crate::symbol::lemma_without_sym(w1.ents()[i].1, t);
            } else if i >= 0 {
                lemma_ent_pos_update(w1.ents(), i, (e, crate::symbol::without_sym(w1.ents()[i].1, t)), x);
            }
        }
    }
}

/// Despawning keeps every loaded component listed.
pub(crate) proof fn lemma_despawn_covers(w1: StorageWorld, w2: StorageWorld, e: EntityId)
    requires
        w2.ents() == w1.ents().filter(ent_not_of(e)),
        w2.comps() == w1.comps().filter(comp_not_of(e)),
    ensures
        lists_cover(w1) ==> lists_cover(w2),
{
    if lists_cover(w1) {
        assert forall|x: EntityId, u: Symbol| #[trigger] w2.spec_get(x, u) is Some
            implies ent_pos(w2.ents(), x) >= 0 && w2.ents()[ent_pos(w2.ents(), x)].1.contains(u) by {
            if x == e {
                let c = w2.comps();
                seq_util::lemma_first_pos(c, comp_is(x, u));
                let k = comp_pos(c, x, u);
                w1.comps().lemma_filter_pred(comp_not_of(e), k);
            } else {
                seq_util::lemma_first_pos_filter(w1.comps(), comp_not_of(e), comp_is(x, u));
                assert(w1.spec_get(x, u) is Some);
                lemma_ent_pos_filter(w1.ents(), e, x);
            }
        }
    }
}

/// Loading an entity keeps every loaded component listed.
pub(crate) proof fn lemma_load_covers(w1: StorageWorld, w2: StorageWorld, e: EntityId, types: Seq<Symbol>, data: Seq<Option<Seq<u8>>>)
    requires
        ent_pos(w1.ents(), e) < 0,
        w2.ents() == w1.ents().push((e, types)),
        w2.comps() == w1.comps() + loaded_pairs(e, types, data),
    ensures
        lists_cover(w1) ==> lists_cover(w2),
{
    if lists_cover(w1) {
        let lp = loaded_pairs(e, types, data);
        lemma_loaded_pairs_types(e, types, data);
        assert forall|x: EntityId, u: Symbol| #[trigger] w2.spec_get(x, u) is Some
            implies ent_pos(w2.ents(), x) >= 0 && w2.ents()[ent_pos(w2.ents(), x)].1.contains(u) by {
            seq_util::lemma_first_pos_concat(w1.comps(), lp, comp_is(x, u));
            seq_util::lemma_first_pos(w1.comps(), comp_is(x, u));
            seq_util::lemma_first_pos(w2.comps(), comp_is(x, u));
            if comp_pos(w1.comps(), x, u) >= 0 {
                assert(w1.spec_get(x, u) is Some);
                lemma_ent_pos_push(w1.ents(), (e, types), x);
            } else {
                let k = comp_pos(w2.comps(), x, u) - w1.comps().len();
                assert(lp[k] == w2.comps()[comp_pos(w2.comps(), x, u)]);
                lemma_ent_pos_push_self(w1.ents(), (e, types), e);
            }
        }
    }
}

/// Every component taken from entity `e` for types `ts` is one of `e`'s
/// components in `w`, of a type in `ts`; and every type of `ts` for which
/// `w` holds data is taken.
proof fn lemma_entity_comps(w: SimpleWorld, e: EntityId, ts: Seq<Symbol>)
    ensures
        forall|i: int| 0 <= i < entity_comps(w, e, ts).len() ==> {
            let x = #[trigger] entity_comps(w, e, ts)[i];
            &&& x.0 == e
            &&& ts.contains(x.1)
            &&& w.spec_get(e, x.1) == Some(x.2)
        },
        forall|t: Symbol| ts.contains(t) && #[trigger] w.spec_get(e, t) is Some
            ==> exists|i: int| 0 <= i < entity_comps(w, e, ts).len() && #[trigger] entity_comps(w, e, ts)[i].1 == t,
    decreases ts.len(),
{
    if ts.len() > 0 {
        let p = ts.drop_last();
        lemma_entity_comps(w, e, p);
        let rest = entity_comps(w, e, p);
        let cur = entity_comps(w, e, ts);
        assert forall|i: int| 0 <= i < cur.len() implies {
            let x = #[trigger] cur[i];
            &&& x.0 == e
            &&& ts.contains(x.1)
            &&& w.spec_get(e, x.1) == Some(x.2)
        } by {
            if i < rest.len() {
                assert(cur[i] == rest[i]);
                let x = rest[i];
                let j = choose|j: int| 0 <= j < p.len() && p[j] == x.1;
                assert(ts[j] == x.1);
            } else {
                assert(ts[ts.len() - 1] == ts.last());
            }
        }
        assert forall|t: Symbol| ts.contains(t) && #[trigger] w.spec_get(e, t) is Some
            implies exists|i: int| 0 <= i < cur.len() && #[trigger] cur[i].1 == t by {
            if t == ts.last() {
                assert(cur[cur.len() - 1].1 == t);
            } else {
                let j = choose|j: int| 0 <= j < ts.len() && ts[j] == t;
                assert(p[j] == t);
                let i = choose|i: int| 0 <= i < rest.len() && #[trigger] rest[i].1 == t;
                assert(cur[i] == rest[i]);
            }
        }
    }
}

/// Every component taken from the entities `keys` of `w` is one of `w`'s
/// components, of an entity of `keys`; and every component of an entity of
/// `keys`, of one of its types, is taken.
proof fn lemma_world_comps(w: SimpleWorld, keys: Seq<EntityId>)
    ensures
        forall|i: int| 0 <= i < world_comps(w, keys).len() ==> {
            let x = #[trigger] world_comps(w, keys)[i];
            &&& keys.contains(x.0)
            &&& w.spec_get(x.0, x.1) == Some(x.2)
        },
        forall|e: EntityId, t: Symbol| keys.contains(e) && w.types_of(e).contains(t) && #[trigger] w.spec_get(e, t) is Some
            ==> exists|i: int| 0 <= i < world_comps(w, keys).len()
                && (#[trigger] world_comps(w, keys)[i]).0 == e && world_comps(w, keys)[i].1 == t,
    decreases keys.len(),
{
    if keys.len() > 0 {
        let p = keys.drop_last();
        let e0 = keys.last();
        lemma_world_comps(w, p);
        lemma_entity_comps(w, e0, w.types_of(e0));
        let rest = world_comps(w, p);
        let blk = entity_comps(w, e0, w.types_of(e0));
        let cur = world_comps(w, keys);
        assert(cur == rest + blk);
        assert forall|i: int| 0 <= i < cur.len() implies {
            let x = #[trigger] cur[i];
            &&& keys.contains(x.0)
            &&& w.spec_get(x.0, x.1) == Some(x.2)
        } by {
            if i < rest.len() {
                assert(cur[i] == rest[i]);
                let j = choose|j: int| 0 <= j < p.len() && p[j] == rest[i].0;
                assert(keys[j] == rest[i].0);
            } else {
                assert(cur[i] == blk[i - rest.len()]);
                assert(keys[keys.len() - 1] == e0);
            }
        }
        assert forall|e: EntityId, t: Symbol| keys.contains(e) && w.types_of(e).contains(t) && #[trigger] w.spec_get(e, t) is Some
            implies exists|i: int| 0 <= i < cur.len() && (#[trigger] cur[i]).0 == e && cur[i].1 == t by {
            if e == e0 {
                let k = choose|k: int| 0 <= k < blk.len() && #[trigger] blk[k].1 == t;
                assert(cur[rest.len() + k] == blk[k]);
            } else {
                let j = choose|j: int| 0 <= j < keys.len() && keys[j] == e;
                assert(p[j] == e);
                let i = choose|i: int| 0 <= i < rest.len() && (#[trigger] rest[i]).0 == e && rest[i].1 == t;
                assert(cur[i] == rest[i]);
            }
        }
    }
}

/// A storage world made from a consistent world lists every component it
/// holds.
pub(crate) proof fn lemma_from_simple_covers(w: SimpleWorld, sw: StorageWorld)
    requires
        w.wf(),
        sw.ents().len() == w.entity_components.key_seq().len(),
        forall|i: int| 0 <= i < sw.ents().len() ==> #[trigger] sw.ents()[i]
            == (w.entity_components.key_seq()[i], w.entity_components.val_seq()[i]@),
        sw.comps() == world_comps(w, w.entity_components.key_seq()),
    ensures
        lists_cover(sw),
{
    w.entity_components.lemma_order();
    let keys = w.entity_components.key_seq();
    let vals = w.entity_components.val_seq();
    let ents = sw.ents();
    let comps = sw.comps();
    lemma_world_comps(w, keys);
    assert forall|e: EntityId, t: Symbol| #[trigger] sw.spec_get(e, t) is Some
        implies ent_pos(ents, e) >= 0 && ents[ent_pos(ents, e)].1.contains(t) by {
        seq_util::lemma_first_pos(comps, comp_is(e, t));
        let k = comp_pos(comps, e, t);
        assert(comp_is(e, t)(comps[k]));
        assert(keys.contains(e) && w.spec_get(e, t) == Some(comps[k].2));
        assert(w.spec_has(e, t));
        assert(w.spec_has(e, t) <==> w.types_of(e).contains(t));
        let j = choose|j: int| 0 <= j < keys.len() && keys[j] == e;
        assert(w.entity_components@[keys[j]] == vals[j]);
        seq_util::lemma_first_pos(ents, ent_is(e));
        assert(ent_is(e)(ents[j]));
        let f = ent_pos(ents, e);
        if f < j {
            assert(ents[f].0 == keys[f]);
            assert(keys[f] < keys[j]);
        }
        assert(f == j);
    }
}

/// The entries of distinct entities, each with its list: the last entry
/// of `e` is its list, and the types it lists are that list's.
proof fn lemma_entries(ents: Seq<EntView>, keys: Seq<EntityId>, lists: Seq<Seq<Symbol>>, e: EntityId)
    requires
        ents.len() <= keys.len(),
        ents.len() <= lists.len(),
        keys.no_duplicates(),
        forall|i: int| 0 <= i < ents.len() ==> #[trigger] ents[i] == (keys[i], lists[i]),
    ensures
        forall|j: int| 0 <= j < ents.len() && keys[j] == e ==> {
            &&& last_types(ents, e) == Some(lists[j])
            &&& listed_types(ents, e) == lists[j].to_set()
        },
        (forall|j: int| 0 <= j < ents.len() ==> keys[j] != e) ==> {
            &&& last_types(ents, e) is None
            &&& listed_types(ents, e) == Set::<Symbol>::empty()
        },
    decreases ents.len(),
{
    if ents.len() > 0 {
        let p = ents.drop_last();
        let n = ents.len() - 1;
        assert forall|i: int| 0 <= i < p.len() implies #[trigger] p[i] == (keys[i], lists[i]) by {
            assert(p[i] == ents[i]);
        }
        lemma_entries(p, keys, lists, e);
        assert(ents.last() == (keys[n], lists[n]));
        if keys[n] == e {
            assert forall|j: int| 0 <= j < p.len() implies keys[j] != e by {
                assert(keys[j] != keys[n]);
            }
            assert(listed_types(ents, e) =~= Set::<Symbol>::empty() + lists[n].to_set());
        }
    }
}

/// Putting a consistent world into per-entity storage form and taking it
/// back out gives the same counters and, for every entity, the same
/// component types and the same data for each type (all of it then in
/// table storage).
pub proof fn law_storage_round_trip(w: SimpleWorld, sw: StorageWorld, back: SimpleWorld)
    requires
        w.wf(),
        sw.meta().next_entity_id == w.next_entity_id,
        sw.meta().version == w.version,
        sw.ents().len() == w.entity_components.key_seq().len(),
        forall|i: int| 0 <= i < sw.ents().len() ==> #[trigger] sw.ents()[i]
            == (w.entity_components.key_seq()[i], w.entity_components.val_seq()[i]@),
        sw.comps() == world_comps(w, w.entity_components.key_seq()),
        back.next_entity_id == sw.meta().next_entity_id,
        back.version == sw.meta().version,
        back.sparse_components@ == Map::<(EntityId, Symbol), Vec<u8>>::empty(),
        forall|k: (EntityId, Symbol)| #[trigger] back.components@.contains_key(k)
            <==> listed_types(sw.ents(), k.0).contains(k.1) && sw.spec_get(k.0, k.1) is Some,
        forall|k: (EntityId, Symbol)| #[trigger] back.components@.contains_key(k)
            ==> sw.spec_get(k.0, k.1) == Some(back.components@[k]@),
        forall|e: EntityId| #[trigger] back.entity_components@.contains_key(e) <==> last_types(sw.ents(), e) is Some,
        forall|e: EntityId| #[trigger] back.entity_components@.contains_key(e)
            ==> last_types(sw.ents(), e) == Some(back.entity_components@[e]@),
    ensures
        back.next_entity_id == w.next_entity_id,
        back.version == w.version,
        forall|e: EntityId, t: Symbol| #[trigger] back.spec_get(e, t) == w.spec_get(e, t),
        forall|e: EntityId| #[trigger] back.types_of(e) == w.types_of(e),
        forall|e: EntityId| #[trigger] back.entity_components@.contains_key(e) <==> w.entity_components@.contains_key(e),
{
    w.entity_components.lemma_order();
    let keys = w.entity_components.key_seq();
    let vals = w.entity_components.val_seq();
    let lists = vals.map_values(|v: Vec<Symbol>| v@);
    let ents = sw.ents();
    let comps = sw.comps();
    lemma_world_comps(w, keys);
    assert forall|i: int| 0 <= i < ents.len() implies #[trigger] ents[i] == (keys[i], lists[i]) by {}
    assert forall|e: EntityId| #[trigger] back.entity_components@.contains_key(e) <==> w.entity_components@.contains_key(e) by {
        lemma_entries(ents, keys, lists, e);
        if w.entity_components@.contains_key(e) {
            let j = choose|j: int| 0 <= j < keys.len() && keys[j] == e;
        } else {
            assert forall|j: int| 0 <= j < ents.len() implies keys[j] != e by {
                assert(w.entity_components@.contains_key(keys[j]));
            }
        }
    }
    assert forall|e: EntityId| #[trigger] back.types_of(e) == w.types_of(e) by {
        lemma_entries(ents, keys, lists, e);
        if w.entity_components@.contains_key(e) {
            let j = choose|j: int| 0 <= j < keys.len() && keys[j] == e;
            assert(w.entity_components@[keys[j]] == vals[j]);
        } else {
            assert forall|j: int| 0 <= j < ents.len() implies keys[j] != e by {
                assert(w.entity_components@.contains_key(keys[j]));
            }
        }
    }
    assert forall|e: EntityId, t: Symbol| #[trigger] back.spec_get(e, t) == w.spec_get(e, t) by {
        lemma_entries(ents, keys, lists, e);
        seq_util::lemma_first_pos(comps, comp_is(e, t));
        let k = comp_pos(comps, e, t);
        assert(w.spec_has(e, t) <==> w.types_of(e).contains(t));
        if k >= 0 {
            assert(comp_is(e, t)(comps[k]));
            assert(w.spec_get(comps[k].0, comps[k].1) == Some(comps[k].2));
        }
        if w.spec_get(e, t) is Some {
            assert(w.spec_has(e, t));
            assert(w.entity_components@.contains_key(e));
            let i = choose|i: int| 0 <= i < comps.len() && (#[trigger] comps[i]).0 == e && comps[i].1 == t;
            assert(comp_is(e, t)(comps[i]));
        }
        if w.entity_components@.contains_key(e) {
            let j = choose|j: int| 0 <= j < keys.len() && keys[j] == e;
            assert(w.entity_components@[keys[j]] == vals[j]);
            assert(listed_types(ents, e) == w.types_of(e).to_set());
        } else {
            assert forall|j: int| 0 <= j < ents.len() implies keys[j] != e by {
                assert(w.entity_components@.contains_key(keys[j]));
            }
        }
        assert(back.components@.contains_key((e, t)) <==> listed_types(ents, e).contains(t) && sw.spec_get(e, t) is Some);
        if back.components@.contains_key((e, t)) {
            assert(sw.spec_get(e, t) == Some(back.components@[(e, t)]@));
        }
    }
}

} // verus!
