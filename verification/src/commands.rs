//! Deferred structural changes: systems queue spawns, despawns and
//! component changes while they iterate, and apply them afterwards in
//! order.

use vstd::prelude::*;
use crate::component::ComponentStorage;
use crate::simple_world::{EntityId, SimpleWorld, WorldModel};
use crate::symbol::Symbol;

verus! {

/// A queued change, as a value.
pub enum CommandView {
    Spawn,
    Despawn(EntityId),
    Add(EntityId, Symbol, Seq<u8>, ComponentStorage),
    Remove(EntityId, Symbol),
}

/// A queued change.
enum Command {
    Spawn,
    Despawn(EntityId),
    Add(EntityId, Symbol, Vec<u8>, ComponentStorage),
    Remove(EntityId, Symbol),
}

impl Command {
    spec fn view(&self) -> CommandView {
        match self {
            Command::Spawn => CommandView::Spawn,
            Command::Despawn(e) => CommandView::Despawn(*e),
            Command::Add(e, t, d, s) => CommandView::Add(*e, *t, d@, *s),
            Command::Remove(e, t) => CommandView::Remove(*e, *t),
        }
    }
}

/// The world after one change: what the world's own operation for it
/// makes of the world (each operation states so in its contract).
pub open spec fn step(m: WorldModel, c: CommandView) -> WorldModel {
    match c {
        CommandView::Spawn => WorldModel { next: (m.next + 1) as EntityId, ..m },
        CommandView::Despawn(e) => WorldModel {
            version: (m.version + 1) as u64,
            table: Map::new(|k: (EntityId, Symbol)| m.table.contains_key(k) && k.0 != e, |k: (EntityId, Symbol)| m.table[k]),
            sparse: Map::new(|k: (EntityId, Symbol)| m.sparse.contains_key(k) && k.0 != e, |k: (EntityId, Symbol)| m.sparse[k]),
            types: |x: EntityId| if x == e { Seq::<Symbol>::empty() } else { (m.types)(x) },
            ..m
        },
        CommandView::Add(e, t, d, s) => WorldModel {
            version: (m.version + 1) as u64,
            table: if s == ComponentStorage::Table { m.table.insert((e, t), d) } else { m.table.remove((e, t)) },
            sparse: if s == ComponentStorage::Table { m.sparse.remove((e, t)) } else { m.sparse.insert((e, t), d) },
            types: |x: EntityId| if x == e {
                if (m.types)(e).contains(t) { (m.types)(e) } else { (m.types)(e).push(t) }
            } else {
                (m.types)(x)
            },
            ..m
        },
        CommandView::Remove(e, t) => WorldModel {
            version: if m.table.contains_key((e, t)) || m.sparse.contains_key((e, t)) {
                (m.version + 1) as u64
            } else {
                m.version
            },
            table: m.table.remove((e, t)),
            sparse: m.sparse.remove((e, t)),
            types: |x: EntityId| if x == e { crate::symbol::without_sym((m.types)(e), t) } else { (m.types)(x) },
            ..m
        },
    }
}

/// The world after the changes `cs`, in order.
pub open spec fn run(m: WorldModel, cs: Seq<CommandView>) -> WorldModel
    decreases cs.len(),
{
    if cs.len() == 0 {
        m
    } else {
        step(run(m, cs.drop_last()), cs.last())
    }
}

/// The ids the spawns among `cs` receive, in order.
pub open spec fn spawned_ids(m: WorldModel, cs: Seq<CommandView>) -> Seq<EntityId>
    decreases cs.len(),
{
    if cs.len() == 0 {
        Seq::empty()
    } else {
        let rest = spawned_ids(m, cs.drop_last());
        if cs.last() is Spawn {
            rest.push(run(m, cs.drop_last()).next)
        } else {
            rest
        }
    }
}

/// Whether applying `cs` to `m` keeps the id and version counters within
/// their ranges.
pub open spec fn fits(m: WorldModel, cs: Seq<CommandView>) -> bool
    decreases cs.len(),
{
    if cs.len() == 0 {
        true
    } else {
        &&& fits(m, cs.drop_last())
        &&& if cs.last() is Spawn {
            run(m, cs.drop_last()).next < u32::MAX
        } else {
            run(m, cs.drop_last()).version < u64::MAX
        }
    }
}

/// Queued structural changes, applied together later.
pub struct CommandQueue {
    commands: Vec<Command>,
}

impl CommandQueue {
    /// The queued changes, in order.
    pub closed spec fn queued(&self) -> Seq<CommandView> {
        self.commands@.map_values(|c: Command| c.view())
    }

    /// An empty queue.
    pub fn new() -> (q: CommandQueue)
        ensures
            q.queued() == Seq::<CommandView>::empty(),
    {
        let q = CommandQueue { commands: Vec::new() };
        assert(q.queued() =~= Seq::<CommandView>::empty());
        q
    }

    /// Queues a spawn; the id is assigned when the queue is applied.
    pub fn spawn(&mut self)
        ensures
            final(self).queued() == old(self).queued().push(CommandView::Spawn),
    {
        self.commands.push(Command::Spawn);
        assert(self.queued() =~= old(self).queued().push(CommandView::Spawn));
    }

    /// Queues a despawn.
    pub fn despawn(&mut self, entity_id: EntityId)
        ensures
            final(self).queued() == old(self).queued().push(CommandView::Despawn(entity_id)),
    {
        self.commands.push(Command::Despawn(entity_id));
        assert(self.queued() =~= old(self).queued().push(CommandView::Despawn(entity_id)));
    }

    /// Queues adding a table component.
    pub fn add_component(&mut self, entity_id: EntityId, component_type: Symbol, data: Vec<u8>)
        ensures
            final(self).queued() == old(self).queued().push(CommandView::Add(entity_id, component_type, data@, ComponentStorage::Table)),
    {
        let ghost d = data@;
        self.commands.push(Command::Add(entity_id, component_type, data, ComponentStorage::Table));
        assert(self.queued() =~= old(self).queued().push(CommandView::Add(entity_id, component_type, d, ComponentStorage::Table)));
    }

    /// Queues adding a sparse component.
    pub fn add_sparse_component(&mut self, entity_id: EntityId, component_type: Symbol, data: Vec<u8>)
        ensures
            final(self).queued() == old(self).queued().push(CommandView::Add(entity_id, component_type, data@, ComponentStorage::Sparse)),
    {
        let ghost d = data@;
        self.commands.push(Command::Add(entity_id, component_type, data, ComponentStorage::Sparse));
        assert(self.queued() =~= old(self).queued().push(CommandView::Add(entity_id, component_type, d, ComponentStorage::Sparse)));
    }

    /// Queues removing a component.
    pub fn remove_component(&mut self, entity_id: EntityId, component_type: Symbol)
        ensures
            final(self).queued() == old(self).queued().push(CommandView::Remove(entity_id, component_type)),
    {
        self.commands.push(Command::Remove(entity_id, component_type));
        assert(self.queued() =~= old(self).queued().push(CommandView::Remove(entity_id, component_type)));
    }

    /// Whether nothing is queued.
    pub fn is_empty(&self) -> (r: bool)
        ensures
            r == (self.queued().len() == 0),
    {
        self.commands.len() == 0
    }

    /// The number of queued changes.
    pub fn len(&self) -> (n: usize)
        ensures
            n == self.queued().len(),
    {
        self.commands.len()
    }

    /// Applies the queued changes to `world` in order; returns the ids of
    /// the spawned entities, in spawn order.
    pub fn apply(self, world: &mut SimpleWorld) -> (spawned: Vec<EntityId>)
        requires
            old(world).wf(),
            fits(old(world).model(), self.queued()),
        ensures
            final(world).wf(),
            final(world).model() == run(old(world).model(), self.queued()),
            spawned@ == spawned_ids(old(world).model(), self.queued()),
    {
        let ghost cs = self.queued();
        let ghost m0 = world.model();
        let mut spawned: Vec<EntityId> = Vec::new();
        let mut i: usize = 0;
        while i < self.commands.len()
            invariant
                cs == self.queued(),
                i <= cs.len(),
                world.wf(),
                fits(m0, cs),
                world.model() == run(m0, cs.take(i as int)),
                spawned@ == spawned_ids(m0, cs.take(i as int)),
            decreases cs.len() - i,
        {
            proof {
                assert(cs.take(i as int + 1).drop_last() =~= cs.take(i as int));
                assert(cs.take(i as int + 1).last() == cs[i as int]);
                lemma_fits_prefix(m0, cs, i as int + 1);
            }
            match &self.commands[i] {
                Command::Spawn => {
                    let id = world.spawn_entity();
                    spawned.push(id);
                },
                Command::Despawn(e) => {
                    world.despawn_entity(*e);
                },
                Command::Add(e, t, d, s) => {
                    world.add_component_with_storage(*e, *t, crate::bytes::copy_bytes(d), *s);
                },
                Command::Remove(e, t) => {
                    world.remove_component(*e, t);
                },
            }
            i = i + 1;
        }
        proof {
            assert(cs.take(cs.len() as int) =~= cs);
        }
        spawned
    }
}

/// A prefix of changes that fit also fits, and its last change finds the
/// counters in range.
proof fn lemma_fits_prefix(m: WorldModel, cs: Seq<CommandView>, n: int)
    requires
        fits(m, cs),
        0 < n <= cs.len(),
    ensures
        fits(m, cs.take(n)),
        if cs[n - 1] is Spawn {
            run(m, cs.take(n - 1)).next < u32::MAX
        } else {
            run(m, cs.take(n - 1)).version < u64::MAX
        },
    decreases cs.len(),
{
    if n < cs.len() {
        assert(cs.drop_last().take(n) =~= cs.take(n));
        lemma_fits_prefix(m, cs.drop_last(), n);
    } else {
        assert(cs.take(n) =~= cs);
    }
    assert(cs.take(n).drop_last() =~= cs.take(n - 1));
}

/// The number of spawns among `cs`.
pub open spec fn spawn_count(cs: Seq<CommandView>) -> nat
    decreases cs.len(),
{
    if cs.len() == 0 {
        0
    } else {
        spawn_count(cs.drop_last()) + if cs.last() is Spawn { 1nat } else { 0nat }
    }
}

/// Applying a queue advances the next id by its number of spawns, and
/// the spawned entities receive consecutive ids starting at the world's
/// next id.
pub proof fn law_spawned_ids_consecutive(m: WorldModel, cs: Seq<CommandView>)
    requires
        fits(m, cs),
    ensures
        run(m, cs).next == m.next + spawn_count(cs),
        spawned_ids(m, cs).len() == spawn_count(cs),
        forall|i: int| 0 <= i < spawned_ids(m, cs).len() ==> #[trigger] spawned_ids(m, cs)[i] == m.next + i,
    decreases cs.len(),
{
    if cs.len() > 0 {
        let p = cs.drop_last();
        assert(fits(m, p));
        law_spawned_ids_consecutive(m, p);
        let c = cs.last();
        match c {
            CommandView::Spawn => {
                assert(run(m, p).next < u32::MAX);
            },
            _ => {},
        }
    }
}

} // verus!
