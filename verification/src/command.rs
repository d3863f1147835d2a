//! Command buffers: entity creations and deletions a system records while
//! it runs, applied to the world only after the stage completes, in the
//! order they were recorded.

use vstd::prelude::*;
use crate::entity::{BlockAllocator, Entity};
use crate::world::{IterComponentSource, SharedDataSet, World};

verus! {

/// One buffered world mutation.
pub enum Command<C> {
    Insert(SharedDataSet, IterComponentSource<C>),
    Delete(Entity),
}

impl<C> Command<C> {
    /// An insertion command carries a well-formed shared set and source
    /// with at least one component column.
    pub open spec fn wf(self) -> bool {
        match self {
            Command::Insert(shared, components) => {
                &&& shared.wf()
                &&& components.wf()
                &&& components.types@.len() > 0
            },
            Command::Delete(_) => true,
        }
    }

    /// How many entities applying this command allocates.
    pub open spec fn rows(self) -> int {
        match self {
            Command::Insert(_, components) => components.rows() as int,
            Command::Delete(_) => 0,
        }
    }
}

/// Total number of entities a command list allocates when applied.
pub open spec fn total_rows<C>(commands: Seq<Command<C>>) -> int
    decreases commands.len(),
{
    if commands.len() == 0 {
        0
    } else {
        total_rows(commands.drop_last()) + commands.last().rows()
    }
}

/// Every command allocates a nonnegative number of entities.
pub proof fn lemma_total_rows_nonneg<C>(commands: Seq<Command<C>>)
    ensures
        total_rows(commands) >= 0,
    decreases commands.len(),
{
    if commands.len() > 0 {
        lemma_total_rows_nonneg(commands.drop_last());
    }
}

/// A private queue of world mutations, flushed at stage end in recording
/// order.
pub struct CommandBuffer<C> {
    pub commands: Vec<Command<C>>,
}

impl<C: Copy> CommandBuffer<C> {
    pub open spec fn wf(self) -> bool {
        forall|k: int| 0 <= k < self.commands@.len() ==> (#[trigger] self.commands@[k]).wf()
    }

    pub fn new() -> (r: CommandBuffer<C>)
        ensures
            r.wf(),
            r.commands@ =~= Seq::<Command<C>>::empty(),
            total_rows(r.commands@) == 0,
    {
        CommandBuffer { commands: Vec::new() }
    }

    /// Record an insertion to be applied at stage end.
    pub fn insert(&mut self, shared: SharedDataSet, components: IterComponentSource<C>)
        requires
            old(self).wf(),
            shared.wf(),
            components.wf(),
            components.types@.len() > 0,
        ensures
            final(self).wf(),
            final(self).commands@ == old(self).commands@.push(
                Command::Insert(shared, components),
            ),
            total_rows(final(self).commands@) == total_rows(old(self).commands@)
                + components.rows(),
    {
        let ghost cmds0 = self.commands@;
        let ghost cmd = Command::Insert(shared, components);
        self.commands.push(Command::Insert(shared, components));
        proof {
            assert(self.commands@.drop_last() =~= cmds0);
        }
    }

    /// Record a deletion to be applied at stage end.
    pub fn delete(&mut self, entity: Entity)
        requires
            old(self).wf(),
        ensures
            final(self).wf(),
            final(self).commands@ == old(self).commands@.push(Command::Delete(entity)),
            total_rows(final(self).commands@) == total_rows(old(self).commands@),
    {
        let ghost cmds0 = self.commands@;
        self.commands.push(Command::Delete(entity));
        proof {
            assert(self.commands@.drop_last() =~= cmds0);
        }
    }

    /// Apply every recorded command to the world, in recording order, and
    /// empty the buffer. The identifier pool must be able to supply every
    /// buffered insertion.
    pub fn flush(&mut self, world: &mut World<C>, blocks: &mut BlockAllocator)
        requires
            old(self).wf(),
            old(world).wf(),
            old(blocks).wf(),
            old(world).allocator.compat(*old(blocks)),
            old(world).allocator.avail() + old(blocks).avail() >= total_rows(
                old(self).commands@,
            ),
        ensures
            final(self).wf(),
            final(self).commands@ =~= Seq::<Command<C>>::empty(),
            final(world).wf(),
            final(blocks).wf(),
            final(world).allocator.compat(*final(blocks)),
    {
        let n = self.commands.len();
        let mut k: usize = 0;
        proof {
            assert(prefix_rows(self.commands@, 0int) == 0);
        }
        while k < n
            invariant
                old(self).wf(),
                n == self.commands@.len(),
                self.commands@ == old(self).commands@,
                k <= n,
                world.wf(),
                blocks.wf(),
                world.allocator.compat(*blocks),
                world.allocator.avail() + blocks.avail() >= total_rows(self.commands@)
                    - prefix_rows(self.commands@, k as int),
            decreases n - k,
        {
            proof {
                assert(self.commands@[k as int].wf());
                lemma_prefix_rows_step(self.commands@, k as int);
                lemma_suffix_rows_bound(self.commands@, k as int);
            }
            match &self.commands[k] {
                Command::Insert(shared, components) => {
                    let _ = world.insert(blocks, shared, components);
                },
                Command::Delete(entity) => {
                    let _ = world.delete(*entity);
                },
            }
            k += 1;
        }
        self.commands.clear();
    }
}

/// The number of entities the first `k` commands allocate.
pub open spec fn prefix_rows<C>(commands: Seq<Command<C>>, k: int) -> int {
    total_rows(commands.take(k))
}

/// Consuming one more command grows the applied prefix by that command's
/// allocation.
pub proof fn lemma_prefix_rows_step<C>(commands: Seq<Command<C>>, k: int)
    requires
        0 <= k < commands.len(),
    ensures
        prefix_rows(commands, k + 1) == prefix_rows(commands, k) + commands[k].rows(),
{
    assert(commands.take(k + 1).drop_last() =~= commands.take(k));
    assert(commands.take(k + 1).last() == commands[k]);
}

/// What remains after a prefix never exceeds the total: every remaining
/// command still fits the identifier budget.
pub proof fn lemma_suffix_rows_bound<C>(commands: Seq<Command<C>>, k: int)
    requires
        0 <= k < commands.len(),
    ensures
        total_rows(commands) - prefix_rows(commands, k) >= commands[k].rows(),
    decreases commands.len(),
{
    if k == commands.len() - 1 {
        assert(commands.take(k) =~= commands.drop_last());
        lemma_total_rows_nonneg(commands.take(k));
        assert(total_rows(commands) == total_rows(commands.drop_last()) + commands.last().rows());
    } else {
        lemma_suffix_rows_bound(commands.drop_last(), k);
        assert(commands.drop_last().take(k) =~= commands.take(k));
        assert(commands.drop_last()[k] == commands[k]);
        lemma_rows_nonneg(commands.last());
    }
}

/// A single command's allocation is nonnegative.
pub proof fn lemma_rows_nonneg<C>(command: Command<C>)
    ensures
        command.rows() >= 0,
{
}

} // verus!
