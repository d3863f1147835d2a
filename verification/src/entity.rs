//! Entity identity: generation-tagged handles, identifier blocks, and the
//! allocators that lease and recycle them.
//!
//! A `BlockAllocator` hands out disjoint index ranges of `BLOCK_SIZE` slots.
//! An `EntityAllocator` owns a set of leased blocks and allocates entities
//! from them, recycling deleted slots under a bumped version. Two allocators
//! drawing from one `BlockAllocator` hold disjoint ranges and therefore never
//! issue the same entity (`lemma_cross_allocator_disjointness`).

use vstd::prelude::*;

verus! {

pub type EntityIndex = u16;
pub type EntityVersion = u16;

/// Number of identifier slots in one leased block.
pub const BLOCK_SIZE: usize = 1024;
/// Total number of distinct entity indexes (the `u16` index space).
pub const INDEX_SPACE: usize = 65536;

/// A 32-bit entity handle: an index and a version distinguishing reuses of
/// that index. Two handles are the same entity only if both fields agree.
#[derive(Clone, Copy, PartialEq, Eq, Structural, Hash, Debug)]
pub struct Entity {
    pub index: EntityIndex,
    pub version: EntityVersion,
}

impl Entity {
    /// The index part of the handle.
    pub open spec fn idx(self) -> u16 {
        self.index
    }

    /// The version part of the handle.
    pub open spec fn ver(self) -> u16 {
        self.version
    }

    pub fn new(index: EntityIndex, version: EntityVersion) -> (e: Entity)
        ensures
            e.index == index,
            e.version == version,
    {
        Entity { index, version }
    }
}

/// The successor of a version: versions advance by one and wrap at the top of
/// the `u16` range.
pub open spec fn wrap_inc(v: u16) -> u16 {
    if v == 0xffff {
        0
    } else {
        (v + 1) as u16
    }
}

/// A version never steps to itself: every bump is observable.
pub proof fn lemma_version_step_changes(v: u16)
    ensures
        wrap_inc(v) != v,
{
}

/// An identifier range `[start, start + len)` with a version per initialized
/// slot and a free-list of recycled slot indexes.
#[derive(Debug)]
pub struct EntityBlock {
    pub start: EntityIndex,
    pub len: usize,
    pub versions: Vec<EntityVersion>,
    pub free: Vec<EntityIndex>,
}

impl EntityBlock {
    pub open spec fn wf(self) -> bool {
        &&& self.len == BLOCK_SIZE
        &&& self.start as int + self.len as int <= INDEX_SPACE as int
        &&& self.versions@.len() <= self.len
        &&& forall|k: int|
            0 <= k < self.free@.len() ==> self.start <= #[trigger] self.free@[k]
                && (self.free@[k] as int) < self.start as int + self.versions@.len() as int
        &&& forall|k1: int, k2: int|
            0 <= k1 < k2 < self.free@.len() ==> self.free@[k1] != self.free@[k2]
    }

    /// The index lies in a slot this block has initialized.
    pub open spec fn covers(self, index: u16) -> bool {
        self.start <= index && (index as int) < self.start as int + self.versions@.len() as int
    }

    /// The index lies anywhere in the block's full identifier range.
    pub open spec fn range_covers(self, index: u16) -> bool {
        self.start <= index && (index as int) < self.start as int + self.len as int
    }

    pub open spec fn stored_version(self, index: u16) -> u16
        recommends
            self.covers(index),
    {
        self.versions@[index - self.start]
    }

    /// The block reports this handle as current: its slot is initialized and
    /// the stored version matches.
    pub open spec fn live(self, e: Entity) -> bool {
        self.covers(e.index) && self.stored_version(e.index) == e.version
    }

    /// The slot index sits in the free-list, awaiting reallocation.
    pub open spec fn pending(self, index: u16) -> bool {
        self.free@.contains(index)
    }

    /// Same identifier range and the same slot state, field for field.
    pub open spec fn eqv(self, other: EntityBlock) -> bool {
        &&& self.start == other.start
        &&& self.len == other.len
        &&& self.versions@ == other.versions@
        &&& self.free@ == other.free@
    }

    /// How many more entities this block can issue before it is exhausted.
    pub open spec fn slack(self) -> int {
        self.free@.len() + self.len - self.versions@.len()
    }

    pub fn new(start: u16, len: usize) -> (b: EntityBlock)
        ensures
            b.start == start,
            b.len == len,
            b.versions@ =~= Seq::<u16>::empty(),
            b.free@ =~= Seq::<u16>::empty(),
    {
        EntityBlock { start, len, versions: Vec::new(), free: Vec::new() }
    }

    /// The slot position of an absolute index inside this block.
    pub fn index(&self, index: EntityIndex) -> (i: usize)
        requires
            self.start <= index,
        ensures
            i == index - self.start,
    {
        (index - self.start) as usize
    }

    /// Whether the handle is current, or `None` when the index does not fall
    /// into a slot this block has initialized.
    pub fn is_alive(&self, entity: &Entity) -> (r: Option<bool>)
        ensures
            r == (if self.covers(entity.index) {
                Some(self.live(*entity))
            } else {
                None::<bool>
            }),
    {
        if entity.index >= self.start {
            let i = self.index(entity.index);
            if i < self.versions.len() {
                Some(self.versions[i] == entity.version)
            } else {
                None
            }
        } else {
            None
        }
    }

    /// Issue one entity: pop a recycled slot under its current version, or
    /// initialize the next tail slot at version 1. `None` when exhausted.
    pub fn allocate(&mut self) -> (r: Option<Entity>)
        requires
            old(self).wf(),
        ensures
            final(self).wf(),
            final(self).start == old(self).start,
            final(self).len == old(self).len,
            r.is_some() <==> old(self).slack() > 0,
            r.is_none() ==> final(self).eqv(*old(self)),
            r.is_some() ==> {
                let e = r.unwrap();
                &&& final(self).slack() + 1 == old(self).slack()
                &&& final(self).live(e)
                &&& forall|x: Entity| final(self).live(x) <==> (old(self).live(x) || x == e)
                &&& if old(self).free@.len() > 0 {
                    &&& e.index == old(self).free@.last()
                    &&& e.version == old(self).stored_version(e.index)
                    &&& final(self).versions@ =~= old(self).versions@
                    &&& final(self).free@ =~= old(self).free@.drop_last()
                } else {
                    &&& e.index == old(self).start + old(self).versions@.len()
                    &&& e.version == 1u16
                    &&& final(self).versions@ =~= old(self).versions@.push(1u16)
                    &&& final(self).free@ =~= old(self).free@
                }
            },
    {
        if let Some(index) = self.free.pop() {
            let i = self.index(index);
            let e = Entity::new(index, self.versions[i]);
            proof {
                assert(self.live(e));
                assert forall|x: Entity| self.live(x) <==> (old(self).live(x) || x == e) by {
                    assert(old(self).live(e));
                }
            }
            Some(e)
        } else if self.versions.len() < self.len {
            let index = self.start + (self.versions.len() as u16);
            self.versions.push(1u16);
            let e = Entity::new(index, 1u16);
            proof {
                assert(self.covers(e.index));
                assert(self.stored_version(e.index) == 1u16);
                assert forall|x: Entity| self.live(x) implies (old(self).live(x) || x == e) by {
                    if x.index != e.index {
                        assert(old(self).covers(x.index));
                        assert(old(self).stored_version(x.index) == self.stored_version(x.index));
                    } else {
                        assert(x.version == 1u16);
                    }
                }
                assert forall|x: Entity| (old(self).live(x) || x == e) implies self.live(x) by {
                    if old(self).live(x) {
                        assert(self.stored_version(x.index) == old(self).stored_version(x.index));
                    }
                }
            }
            Some(e)
        } else {
            None
        }
    }

    /// Recycle the handle's slot: bump its stored version and queue the index
    /// for reallocation. `None` when the index is outside this block's
    /// initialized slots; `Some(false)` when the handle is stale or its slot
    /// is already queued.
    pub fn free(&mut self, entity: Entity) -> (r: Option<bool>)
        requires
            old(self).wf(),
        ensures
            final(self).wf(),
            final(self).start == old(self).start,
            final(self).len == old(self).len,
            r == (if old(self).covers(entity.index) {
                Some(old(self).live(entity) && !old(self).pending(entity.index))
            } else {
                None::<bool>
            }),
            r != Some(true) ==> final(self).eqv(*old(self)),
            r == Some(true) ==> {
                &&& final(self).versions@ =~= old(self).versions@.update(
                    entity.index - old(self).start,
                    wrap_inc(entity.version),
                )
                &&& final(self).free@ =~= old(self).free@.push(entity.index)
                &&& final(self).slack() == old(self).slack() + 1
                &&& forall|x: Entity|
                    final(self).live(x) <==> ((old(self).live(x) && x != entity) || x
                        == Entity { index: entity.index, version: wrap_inc(entity.version) })
                &&& forall|i: u16|
                    final(self).pending(i) <==> (old(self).pending(i) || i == entity.index)
            },
    {
        if entity.index < self.start {
            return None;
        }
        let i = self.index(entity.index);
        if i >= self.versions.len() {
            return None;
        }
        if self.versions[i] != entity.version {
            return Some(false);
        }
        // A slot already queued for reallocation must not be queued twice:
        // its stored version matches no handle that was ever issued.
        let mut k: usize = 0;
        while k < self.free.len()
            invariant
                self.eqv(*old(self)),
                old(self).wf(),
                old(self).covers(entity.index),
                old(self).live(entity),
                k <= self.free@.len(),
                forall|m: int| 0 <= m < k ==> self.free@[m] != entity.index,
            decreases self.free@.len() - k,
        {
            if self.free[k] == entity.index {
                proof {
                    assert(self.free@.contains(entity.index));
                }
                return Some(false);
            }
            k += 1;
        }
        proof {
            assert(!self.pending(entity.index)) by {
                if self.free@.contains(entity.index) {
                    let m = self.free@.index_of(entity.index);
                    assert(self.free@[m] == entity.index);
                }
            }
        }
        let cur = self.versions[i];
        let next = if cur == 0xffffu16 {
            0u16
        } else {
            cur + 1
        };
        self.versions[i] = next;
        self.free.push(entity.index);
        proof {
            let bumped = Entity { index: entity.index, version: wrap_inc(entity.version) };
            assert forall|x: Entity|
                final(self).live(x) implies ((old(self).live(x) && x != entity) || x
                == bumped) by {
                if x.index != entity.index {
                    assert(old(self).stored_version(x.index) == final(self).stored_version(
                        x.index,
                    ));
                }
            }
            assert forall|x: Entity|
                ((old(self).live(x) && x != entity) || x == bumped) implies final(self).live(
                x,
            ) by {
                if old(self).live(x) && x != entity {
                    assert(x.index != entity.index) by {
                        if x.index == entity.index {
                            assert(x.version == old(self).stored_version(entity.index));
                            assert(x.version == entity.version);
                        }
                    }
                    assert(final(self).stored_version(x.index) == old(self).stored_version(
                        x.index,
                    ));
                }
            }
            assert forall|i2: u16|
                final(self).pending(i2) implies (old(self).pending(i2) || i2
                == entity.index) by {
                if final(self).free@.contains(i2) {
                    let m = choose|m: int|
                        0 <= m < final(self).free@.len() && final(self).free@[m] == i2;
                    if m < old(self).free@.len() {
                        assert(old(self).free@[m] == i2);
                    }
                }
            }
            assert forall|i2: u16|
                (old(self).pending(i2) || i2 == entity.index) implies final(self).pending(
                i2,
            ) by {
                if old(self).free@.contains(i2) {
                    let m = choose|m: int|
                        0 <= m < old(self).free@.len() && old(self).free@[m] == i2;
                    assert(final(self).free@[m] == i2);
                } else {
                    assert(final(self).free@.last() == entity.index);
                }
            }
        }
        Some(true)
    }
}

/// Total slack of a sequence of blocks: how many entities they can still issue.
pub open spec fn blocks_slack(s: Seq<EntityBlock>) -> int
    decreases s.len(),
{
    if s.len() == 0 {
        0
    } else {
        blocks_slack(s.drop_last()) + s.last().slack()
    }
}

/// Slack sums stay nonnegative over well-formed blocks.
pub proof fn lemma_blocks_slack_nonneg(s: Seq<EntityBlock>)
    requires
        forall|k: int| 0 <= k < s.len() ==> (#[trigger] s[k]).slack() >= 0,
    ensures
        blocks_slack(s) >= 0,
    decreases s.len(),
{
    if s.len() > 0 {
        lemma_blocks_slack_nonneg(s.drop_last());
    }
}

/// A sequence of blocks that are all exhausted has no slack in total.
pub proof fn lemma_blocks_slack_zero(s: Seq<EntityBlock>)
    requires
        forall|k: int| 0 <= k < s.len() ==> (#[trigger] s[k]).slack() == 0,
    ensures
        blocks_slack(s) == 0,
    decreases s.len(),
{
    if s.len() > 0 {
        lemma_blocks_slack_zero(s.drop_last());
    }
}

/// Replacing one block changes the total slack by the difference at that spot.
pub proof fn lemma_blocks_slack_update(s: Seq<EntityBlock>, k: int, b: EntityBlock)
    requires
        0 <= k < s.len(),
    ensures
        blocks_slack(s.update(k, b)) == blocks_slack(s) - s[k].slack() + b.slack(),
    decreases s.len(),
{
    if k == s.len() - 1 {
        assert(s.update(k, b).drop_last() =~= s.drop_last());
        assert(s.update(k, b).last() == b);
    } else {
        assert(s.update(k, b).drop_last() =~= s.drop_last().update(k, b));
        assert(s.update(k, b).last() == s.last());
        lemma_blocks_slack_update(s.drop_last(), k, b);
    }
}

/// Appending a block adds its slack to the total.
pub proof fn lemma_blocks_slack_push(s: Seq<EntityBlock>, b: EntityBlock)
    ensures
        blocks_slack(s.push(b)) == blocks_slack(s) + b.slack(),
{
    assert(s.push(b).drop_last() =~= s);
    assert(s.push(b).last() == b);
}

/// The process-wide pool of identifier blocks. It hands out pairwise disjoint
/// ranges: fresh blocks are carved from a monotonically growing watermark,
/// returned blocks are kept on a free-list for reuse.
#[derive(Debug)]
pub struct BlockAllocator {
    pub allocated: usize,
    pub free: Vec<EntityBlock>,
}

impl BlockAllocator {
    pub open spec fn wf(self) -> bool {
        &&& self.allocated <= INDEX_SPACE
        &&& self.allocated as int % BLOCK_SIZE as int == 0
        &&& forall|k: int| 0 <= k < self.free@.len() ==> (#[trigger] self.free@[k]).wf()
        &&& forall|k: int|
            0 <= k < self.free@.len() ==> (#[trigger] self.free@[k]).start as int
                + self.free@[k].len as int <= self.allocated as int
        &&& forall|k1: int, k2: int, idx: u16|
            0 <= k1 < self.free@.len() && 0 <= k2 < self.free@.len() && k1 != k2 ==> !(
            #[trigger] self.free@[k1].range_covers(idx)
                && #[trigger] self.free@[k2].range_covers(idx))
    }

    /// A lease request can be served: a returned block is on hand, or the
    /// watermark leaves room for a fresh range.
    pub open spec fn can_allocate(self) -> bool {
        self.free@.len() > 0 || self.allocated + BLOCK_SIZE <= INDEX_SPACE
    }

    /// How many entities this pool can still supply in total.
    pub open spec fn avail(self) -> int {
        blocks_slack(self.free@) + INDEX_SPACE - self.allocated
    }

    pub fn new() -> (r: BlockAllocator)
        ensures
            r.wf(),
            r.allocated == 0,
            r.free@ =~= Seq::<EntityBlock>::empty(),
            r.avail() == INDEX_SPACE as int,
    {
        BlockAllocator { allocated: 0, free: Vec::new() }
    }

    /// Lease a block: the most recently returned one, else a fresh range at
    /// the watermark. The result is disjoint from every block left in the
    /// pool and from every range the pool can hand out later.
    pub fn allocate(&mut self) -> (b: EntityBlock)
        requires
            old(self).wf(),
            old(self).can_allocate(),
        ensures
            final(self).wf(),
            b.wf(),
            final(self).allocated >= old(self).allocated,
            b.start as int + b.len as int <= final(self).allocated as int,
            forall|k: int, idx: u16|
                0 <= k < final(self).free@.len() ==> !(
                    #[trigger] final(self).free@[k].range_covers(idx)
                    && #[trigger] b.range_covers(idx)),
            final(self).avail() + b.slack() == old(self).avail(),
            if old(self).free@.len() > 0 {
                &&& b.eqv(old(self).free@.last())
                &&& final(self).free@ =~= old(self).free@.drop_last()
                &&& final(self).allocated == old(self).allocated
            } else {
                &&& b.start == old(self).allocated
                &&& b.len == BLOCK_SIZE
                &&& b.versions@ =~= Seq::<u16>::empty()
                &&& b.free@ =~= Seq::<u16>::empty()
                &&& b.slack() == BLOCK_SIZE as int
                &&& final(self).free@ =~= old(self).free@
                &&& final(self).allocated == old(self).allocated + BLOCK_SIZE
            },
    {
        if let Some(block) = self.free.pop() {
            block
        } else {
            let block = EntityBlock::new(self.allocated as EntityIndex, BLOCK_SIZE);
            self.allocated = self.allocated + BLOCK_SIZE;
            block
        }
    }

    /// Take a block back into the pool. It must come from this pool's
    /// identifier space and be disjoint from everything already on hand.
    pub fn free(&mut self, block: EntityBlock)
        requires
            old(self).wf(),
            block.wf(),
            block.start as int + block.len as int <= old(self).allocated as int,
            forall|k: int, idx: u16|
                0 <= k < old(self).free@.len() ==> !(
                    #[trigger] old(self).free@[k].range_covers(idx)
                    && #[trigger] block.range_covers(idx)),
        ensures
            final(self).wf(),
            final(self).allocated == old(self).allocated,
            final(self).free@ =~= old(self).free@.push(block),
            final(self).avail() == old(self).avail() + block.slack(),
    {
        proof {
            lemma_blocks_slack_push(self.free@, block);
        }
        self.free.push(block);
    }
}

/// Pointwise equivalence of two block sequences, field for field.
pub open spec fn blocks_eqv(a: Seq<EntityBlock>, b: Seq<EntityBlock>) -> bool {
    a.len() == b.len() && forall|k: int| 0 <= k < a.len() ==> (#[trigger] a[k]).eqv(b[k])
}

/// Equivalent block sequences have the same total slack.
pub proof fn lemma_blocks_slack_eqv(a: Seq<EntityBlock>, b: Seq<EntityBlock>)
    requires
        blocks_eqv(a, b),
    ensures
        blocks_slack(a) == blocks_slack(b),
    decreases a.len(),
{
    if a.len() > 0 {
        assert(blocks_eqv(a.drop_last(), b.drop_last()));
        lemma_blocks_slack_eqv(a.drop_last(), b.drop_last());
    }
}

/// Equivalent blocks satisfy exactly the same block predicates.
pub proof fn lemma_block_eqv_props(a: EntityBlock, b: EntityBlock)
    requires
        a.eqv(b),
    ensures
        a.wf() == b.wf(),
        a.slack() == b.slack(),
        forall|idx: u16| a.range_covers(idx) == b.range_covers(idx),
        forall|idx: u16| a.covers(idx) == b.covers(idx),
        forall|e: Entity| a.live(e) == b.live(e),
        forall|idx: u16| a.pending(idx) == b.pending(idx),
{
}

/// A per-world allocator: a set of blocks leased from a shared
/// `BlockAllocator` and the buffer of entities issued by the current
/// insertion.
#[derive(Debug)]
pub struct EntityAllocator {
    pub blocks: Vec<EntityBlock>,
    pub entity_buffer: Vec<Entity>,
}

impl EntityAllocator {
    pub open spec fn wf(self) -> bool {
        &&& forall|k: int| 0 <= k < self.blocks@.len() ==> (#[trigger] self.blocks@[k]).wf()
        &&& forall|k1: int, k2: int, idx: u16|
            0 <= k1 < self.blocks@.len() && 0 <= k2 < self.blocks@.len() && k1 != k2 ==> !(
            #[trigger] self.blocks@[k1].range_covers(idx)
                && #[trigger] self.blocks@[k2].range_covers(idx))
    }

    /// Every owned range lies under the pool's watermark and apart from every
    /// block the pool still holds: the pool can never hand the range out again
    /// while this allocator owns it.
    pub open spec fn compat(self, ba: BlockAllocator) -> bool {
        &&& forall|k: int|
            0 <= k < self.blocks@.len() ==> (#[trigger] self.blocks@[k]).start as int
                + self.blocks@[k].len as int <= ba.allocated as int
        &&& forall|k: int, m: int, idx: u16|
            0 <= k < self.blocks@.len() && 0 <= m < ba.free@.len() ==> !(
            #[trigger] self.blocks@[k].range_covers(idx)
                && #[trigger] ba.free@[m].range_covers(idx))
    }

    /// The two allocators' identifier ranges have no index in common.
    pub open spec fn disjoint_from(self, other: EntityAllocator) -> bool {
        forall|k: int, m: int, idx: u16|
            0 <= k < self.blocks@.len() && 0 <= m < other.blocks@.len() ==> !(
            #[trigger] self.blocks@[k].range_covers(idx)
                && #[trigger] other.blocks@[m].range_covers(idx))
    }

    /// Some owned block reports the handle as current.
    pub open spec fn live(self, e: Entity) -> bool {
        exists|k: int| 0 <= k < self.blocks@.len() && (#[trigger] self.blocks@[k]).live(e)
    }

    /// Some owned block has the slot queued for reallocation.
    pub open spec fn pending(self, index: u16) -> bool {
        exists|k: int| 0 <= k < self.blocks@.len() && (#[trigger] self.blocks@[k]).pending(index)
    }

    /// How many entities the owned blocks can still issue.
    pub open spec fn avail(self) -> int {
        blocks_slack(self.blocks@)
    }

    pub fn new() -> (r: EntityAllocator)
        ensures
            r.wf(),
            r.blocks@ =~= Seq::<EntityBlock>::empty(),
            r.entity_buffer@ =~= Seq::<Entity>::empty(),
            r.avail() == 0,
            forall|x: Entity| !r.live(x),
            forall|ba: BlockAllocator| #[trigger] r.compat(ba),
            forall|o: EntityAllocator| #[trigger] r.disjoint_from(o),
    {
        EntityAllocator { blocks: Vec::new(), entity_buffer: Vec::new() }
    }

    /// True exactly when some owned block stores the handle's version.
    pub fn is_alive(&self, entity: &Entity) -> (r: bool)
        requires
            self.wf(),
        ensures
            r == self.live(*entity),
    {
        let n = self.blocks.len();
        let mut k: usize = 0;
        while k < n
            invariant
                self.wf(),
                n == self.blocks@.len(),
                k <= n,
                forall|m: int| 0 <= m < k ==> !(#[trigger] self.blocks@[m]).covers(entity.index),
            decreases n - k,
        {
            let verdict = self.blocks[k].is_alive(entity);
            if let Some(v) = verdict {
                proof {
                    if v {
                        assert(self.blocks@[k as int].live(*entity));
                    } else {
                        assert forall|m: int|
                            0 <= m < self.blocks@.len() implies !(#[trigger] self.blocks@[m]).live(
                            *entity,
                        ) by {
                            if m != k {
                                if self.blocks@[m].live(*entity) {
                                    assert(self.blocks@[m].range_covers(entity.index));
                                    assert(self.blocks@[k as int].range_covers(entity.index));
                                }
                            }
                        }
                    }
                }
                return v;
            }
            k += 1;
        }
        proof {
            assert forall|m: int|
                0 <= m < self.blocks@.len() implies !(#[trigger] self.blocks@[m]).live(
                *entity,
            ) by {}
        }
        false
    }

    /// Issue one entity. Owned blocks are scanned newest first; if all are
    /// exhausted, blocks are leased from the shared pool until one yields.
    /// The new entity is appended to the allocation buffer.
    pub fn create_entity(&mut self, allocator: &mut BlockAllocator) -> (r: Entity)
        requires
            old(self).wf(),
            old(allocator).wf(),
            old(self).compat(*old(allocator)),
            old(self).avail() + old(allocator).avail() >= 1,
        ensures
            final(self).wf(),
            final(allocator).wf(),
            final(self).compat(*final(allocator)),
            final(self).avail() + final(allocator).avail() + 1 == old(self).avail() + old(allocator).avail(),
            final(self).entity_buffer@ =~= old(self).entity_buffer@.push(r),
            final(self).live(r),
            forall|x: Entity| old(self).live(x) ==> final(self).live(x),
            forall|x: Entity|
                final(self).live(x) ==> old(self).live(x) || x == r || exists|m: int|
                    0 <= m < old(allocator).free@.len() && (#[trigger] old(allocator).free@[m]).live(x),
            forall|other: EntityAllocator| #![trigger other.compat(*old(allocator))]
                (other.wf() && other.compat(*old(allocator)) && old(self).disjoint_from(other))
                    ==> (other.compat(*final(allocator)) && final(self).disjoint_from(other)),
            !old(self).live(r) || old(self).pending(r.index),
            !final(self).pending(r.index),
            forall|i: u16|
                final(self).pending(i) ==> old(self).pending(i) || (forall|k: int|
                    0 <= k < old(self).blocks@.len() ==> !(#[trigger] old(self).blocks@[k]).range_covers(i)),
    {
        let ghost self0 = *old(self);
        let ghost ba0 = *old(allocator);
        let n = self.blocks.len();
        let mut i: usize = n;
        while i > 0
            invariant
                self0 == *old(self),
                ba0 == *old(allocator),
                *allocator == ba0,
                self0.wf(),
                ba0.wf(),
                self0.compat(ba0),
                self0.avail() + ba0.avail() >= 1,
                self.blocks@ == self0.blocks@,
                self.entity_buffer@ == self0.entity_buffer@,
                n == self.blocks@.len(),
                i <= n,
                forall|m: int| i <= m < n ==> (#[trigger] self.blocks@[m]).slack() == 0,
            decreases i,
        {
            i -= 1;
            let has_free = self.blocks[i].free.len() > 0;
            let has_tail = self.blocks[i].versions.len() < self.blocks[i].len;
            if has_free || has_tail {
                let e_opt = self.blocks[i].allocate();
                let e = e_opt.unwrap();
                self.entity_buffer.push(e);
                proof {
                    let bs0 = self0.blocks@;
                    let bs1 = self.blocks@;
                    let ki = i as int;
                    assert(bs1 =~= bs0.update(ki, bs1[ki]));
                    lemma_blocks_slack_update(bs0, ki, bs1[ki]);
                    assert(self.live(e)) by {
                        assert(self.blocks@[ki].live(e));
                    }
                    assert forall|x: Entity| self0.live(x) implies self.live(x) by {
                        let m = choose|m: int|
                            0 <= m < bs0.len() && (#[trigger] bs0[m]).live(x);
                        assert(bs1[m].live(x));
                    }
                    assert forall|x: Entity| self.live(x) implies (self0.live(x) || x
                        == e) by {
                        let m = choose|m: int|
                            0 <= m < bs1.len() && (#[trigger] bs1[m]).live(x);
                        if m != ki {
                            assert(bs0[m].live(x));
                        }
                    }
                    assert(self.wf()) by {
                        assert forall|k1: int, k2: int, idx: u16|
                            0 <= k1 < bs1.len() && 0 <= k2 < bs1.len() && k1 != k2 implies !(
                            #[trigger] bs1[k1].range_covers(idx)
                                && #[trigger] bs1[k2].range_covers(idx)) by {
                            assert(bs0[k1].range_covers(idx) == bs1[k1].range_covers(idx));
                            assert(bs0[k2].range_covers(idx) == bs1[k2].range_covers(idx));
                        }
                    }
                    assert(self.compat(*allocator)) by {
                        assert forall|k: int, m: int, idx: u16|
                            0 <= k < bs1.len() && 0 <= m < allocator.free@.len() implies !(
                            #[trigger] bs1[k].range_covers(idx)
                                && #[trigger] allocator.free@[m].range_covers(idx)) by {
                            assert(bs0[k].range_covers(idx) == bs1[k].range_covers(idx));
                        }
                    }
                    assert forall|other: EntityAllocator| #![trigger other.compat(ba0)]
                        (other.wf() && other.compat(ba0) && self0.disjoint_from(other)) implies (
                        other.compat(*allocator) && self.disjoint_from(other)) by {
                        assert forall|k: int, m: int, idx: u16|
                            0 <= k < bs1.len() && 0 <= m < other.blocks@.len() implies !(
                            #[trigger] bs1[k].range_covers(idx)
                                && #[trigger] other.blocks@[m].range_covers(idx)) by {
                            assert(bs0[k].range_covers(idx) == bs1[k].range_covers(idx));
                        }
                    }
                    // Freshness of the issued handle's slot.
                    if bs0[ki].free@.len() > 0 {
                        assert(bs0[ki].free@[bs0[ki].free@.len() - 1] == e.index);
                        assert(bs0[ki].pending(e.index));
                        assert(self0.pending(e.index));
                    } else {
                        assert forall|k: int|
                            0 <= k < bs0.len() implies !(#[trigger] bs0[k]).covers(e.index) by {
                            if k != ki && bs0[k].covers(e.index) {
                                assert(bs0[k].range_covers(e.index));
                                assert(bs0[ki].range_covers(e.index));
                            }
                        }
                        assert(!self0.live(e)) by {
                            if self0.live(e) {
                                let k = choose|k: int|
                                    0 <= k < bs0.len() && (#[trigger] bs0[k]).live(e);
                            }
                        }
                    }
                    assert(bs0[ki].covers(e.index) || e.index == bs0[ki].start
                        + bs0[ki].versions@.len());
                    assert(bs0[ki].range_covers(e.index));
                    assert(!self.pending(e.index)) by {
                        if self.pending(e.index) {
                            let m = choose|m: int|
                                0 <= m < bs1.len() && (#[trigger] bs1[m]).pending(e.index);
                            let j = choose|j: int|
                                0 <= j < bs1[m].free@.len() && bs1[m].free@[j] == e.index;
                            if m == ki {
                                if bs0[ki].free@.len() > 0 {
                                    assert(bs1[ki].free@ =~= bs0[ki].free@.drop_last());
                                    assert(bs0[ki].free@[j] == e.index);
                                    assert(bs0[ki].free@[bs0[ki].free@.len() - 1] == e.index);
                                } else {
                                    assert(bs1[ki].free@ =~= bs0[ki].free@);
                                    assert(bs0[ki].free@[j] == e.index);
                                    assert((bs0[ki].free@[j] as int) < bs0[ki].start as int
                                        + bs0[ki].versions@.len() as int);
                                }
                            } else {
                                assert(bs1[m].free@ == bs0[m].free@);
                                assert(bs0[m].wf());
                                assert(bs0[m].range_covers(e.index));
                                assert(bs0[ki].range_covers(e.index));
                            }
                        }
                    }
                    assert forall|i2: u16|
                        self.pending(i2) implies self0.pending(i2) by {
                        let m = choose|m: int|
                            0 <= m < bs1.len() && (#[trigger] bs1[m]).pending(i2);
                        let j = choose|j: int|
                            0 <= j < bs1[m].free@.len() && bs1[m].free@[j] == i2;
                        if m == ki {
                            if bs0[ki].free@.len() > 0 {
                                assert(bs1[ki].free@ =~= bs0[ki].free@.drop_last());
                                assert(bs0[ki].free@[j] == i2);
                            } else {
                                assert(bs0[ki].free@[j] == i2);
                            }
                            assert(bs0[ki].pending(i2));
                        } else {
                            assert(bs0[m].free@[j] == i2);
                            assert(bs0[m].pending(i2));
                        }
                    }
                }
                return e;
            }
        }
        proof {
            lemma_blocks_slack_zero(self.blocks@);
        }
        let ghost old_len = self0.blocks@.len() as int;
        let ghost old_free_len = ba0.free@.len() as int;
        loop
            invariant
                self0 == *old(self),
                ba0 == *old(allocator),
                self0.wf(),
                ba0.wf(),
                self0.compat(ba0),
                old_len == self0.blocks@.len(),
                old_free_len == ba0.free@.len(),
                self.wf(),
                allocator.wf(),
                self.avail() == 0,
                allocator.avail() >= 1,
                self.entity_buffer@ == self0.entity_buffer@,
                self.avail() + allocator.avail() == self0.avail() + ba0.avail(),
                allocator.allocated >= ba0.allocated,
                allocator.free@.len() <= old_free_len,
                forall|m: int|
                    0 <= m < allocator.free@.len() ==> #[trigger] allocator.free@[m]
                        == ba0.free@[m],
                old_len <= self.blocks@.len(),
                self.blocks@.len() - old_len == old_free_len - allocator.free@.len(),
                forall|k: int| 0 <= k < old_len ==> #[trigger] self.blocks@[k] == self0.blocks@[k],
                forall|k: int|
                    old_len <= k < self.blocks@.len() ==> (#[trigger] self.blocks@[k]).eqv(
                        ba0.free@[old_free_len - 1 - (k - old_len)],
                    ),
                forall|i2: u16|
                    self.pending(i2) ==> self0.pending(i2) || (forall|k: int|
                        0 <= k < old_len ==> !(#[trigger] self0.blocks@[k]).range_covers(i2)),
            decreases allocator.free@.len(),
        {
            let ghost ba_pre = *allocator;
            let ghost bs_pre = self.blocks@;
            proof {
                if allocator.free.len() == 0 {
                    assert(blocks_slack(allocator.free@) == 0);
                    assert(INDEX_SPACE as int - allocator.allocated as int >= 1);
                    let a = allocator.allocated as int;
                    assert(a % 1024int == 0);
                    assert(a < 65536);
                    assert(a + 1024 <= 65536) by {
                        if a > 64512 {
                            assert(a == 1024int * (a / 1024int));
                            if a / 1024int >= 64 {
                                assert(a >= 1024int * 64);
                            } else {
                                assert(a <= 1024int * 63);
                            }
                        }
                    }
                }
            }
            let mut block = allocator.allocate();
            let ghost block0 = block;
            let e_opt = block.allocate();
            proof {
                assert(block.start == block0.start && block.len == block0.len);
                assert(forall|idx: u16|
                    block.range_covers(idx) == block0.range_covers(idx));
            }
            match e_opt {
                Some(e) => {
                    self.blocks.push(block);
                    self.entity_buffer.push(e);
                    proof {
                        let bs1 = self.blocks@;
                        let ki = bs1.len() - 1;
                        lemma_blocks_slack_push(bs_pre, block);
                        assert(self.live(e)) by {
                            assert(bs1[ki].live(e));
                        }
                        // Where the leased range sits, for every branch below.
                        assert(forall|idx: u16| #[trigger] block.range_covers(idx) ==> (
                            (ba_pre.free@.len() > 0 && ba0.free@[ba_pre.free@.len() - 1].range_covers(idx))
                            || (ba_pre.free@.len() == 0 && ba_pre.allocated as int <= idx as int)));
                        assert(block.start as int + block.len as int <= allocator.allocated as int);
                        // Pairwise: the new block is apart from everything owned.
                        assert forall|k: int, idx: u16|
                            0 <= k < ki && #[trigger] bs1[k].range_covers(idx) implies !(
                            #[trigger] block.range_covers(idx)) by {
                            if block.range_covers(idx) {
                                if ba_pre.free@.len() > 0 {
                                    let lm = ba_pre.free@.len() - 1;
                                    assert(ba0.free@[lm].range_covers(idx));
                                    if k < old_len {
                                        assert(self0.blocks@[k].range_covers(idx));
                                    } else {
                                        let m2 = old_free_len - 1 - (k - old_len);
                                        assert(bs_pre[k].eqv(ba0.free@[m2]));
                                        assert(ba0.free@[m2].range_covers(idx));
                                        assert(m2 != lm);
                                    }
                                } else {
                                    assert(ba_pre.allocated as int <= idx as int);
                                    if k < old_len {
                                        assert(self0.blocks@[k].start as int
                                            + self0.blocks@[k].len as int <= ba0.allocated as int);
                                    } else {
                                        let m2 = old_free_len - 1 - (k - old_len);
                                        assert(bs_pre[k].eqv(ba0.free@[m2]));
                                        assert(ba0.free@[m2].start as int
                                            + ba0.free@[m2].len as int <= ba0.allocated as int);
                                    }
                                }
                            }
                        }
                        assert(self.wf()) by {
                            assert forall|k1: int, k2: int, idx: u16|
                                0 <= k1 < bs1.len() && 0 <= k2 < bs1.len() && k1 != k2 implies !(
                                #[trigger] bs1[k1].range_covers(idx)
                                    && #[trigger] bs1[k2].range_covers(idx)) by {
                                if k1 == ki || k2 == ki {
                                    let ko = if k1 == ki { k2 } else { k1 };
                                    if bs1[ko].range_covers(idx) {
                                        assert(!block.range_covers(idx));
                                    }
                                }
                            }
                        }
                        assert(self.compat(*allocator)) by {
                            assert forall|k: int, m: int, idx: u16|
                                0 <= k < bs1.len() && 0 <= m < allocator.free@.len() implies !(
                                #[trigger] bs1[k].range_covers(idx)
                                    && #[trigger] allocator.free@[m].range_covers(idx)) by {
                                if bs1[k].range_covers(idx) && allocator.free@[m].range_covers(idx) {
                                    assert(allocator.free@[m] == ba0.free@[m]);
                                    if k == ki {
                                        assert(!(ba_pre.free@[m].range_covers(idx)
                                            && block0.range_covers(idx)));
                                    } else if k < old_len {
                                        assert(self0.blocks@[k].range_covers(idx));
                                        assert(!ba0.free@[m].range_covers(idx));
                                    } else {
                                        let m2 = old_free_len - 1 - (k - old_len);
                                        assert(bs_pre[k].eqv(ba0.free@[m2]));
                                        assert(ba0.free@[m2].range_covers(idx));
                                        assert(m2 != m);
                                    }
                                }
                            }
                        }
                        assert forall|x: Entity| self0.live(x) implies self.live(x) by {
                            let m = choose|m: int|
                                0 <= m < self0.blocks@.len() && (#[trigger] self0.blocks@[m]).live(
                                x,
                                );
                            assert(bs1[m].live(x));
                        }
                        assert forall|x: Entity|
                            self.live(x) implies (self0.live(x) || x == e || exists|m: int|
                                0 <= m < ba0.free@.len() && (#[trigger] ba0.free@[m]).live(
                                    x,
                                )) by {
                            let m = choose|m: int|
                                0 <= m < bs1.len() && (#[trigger] bs1[m]).live(x);
                            if m < old_len {
                                assert(self0.blocks@[m].live(x));
                            } else if m < ki {
                                let m2 = old_free_len - 1 - (m - old_len);
                                assert(bs_pre[m].eqv(ba0.free@[m2]));
                                assert(ba0.free@[m2].live(x));
                            } else {
                                if x != e {
                                    assert(block0.live(x));
                                    if ba_pre.free@.len() > 0 {
                                        let lm = ba_pre.free@.len() - 1;
                                        assert(block0.eqv(ba0.free@[lm]));
                                        assert(ba0.free@[lm].live(x));
                                    } else {
                                        assert(block0.versions@.len() == 0);
                                    }
                                }
                            }
                        }
                        assert forall|other: EntityAllocator| #![trigger other.compat(ba0)]
                            (other.wf() && other.compat(ba0) && self0.disjoint_from(other))
                                implies (other.compat(*allocator) && self.disjoint_from(
                            other,
                        )) by {
                            assert(other.compat(*allocator)) by {
                                assert forall|k: int, m: int, idx: u16|
                                    0 <= k < other.blocks@.len() && 0 <= m < allocator.free@.len()
                                        implies !(#[trigger] other.blocks@[k].range_covers(idx)
                                        && #[trigger] allocator.free@[m].range_covers(idx)) by {
                                    assert(allocator.free@[m] == ba0.free@[m]);
                                }
                            }
                            assert forall|k: int, m: int, idx: u16|
                                0 <= k < bs1.len() && 0 <= m < other.blocks@.len() implies !(
                                #[trigger] bs1[k].range_covers(idx)
                                    && #[trigger] other.blocks@[m].range_covers(idx)) by {
                                if bs1[k].range_covers(idx) && other.blocks@[m].range_covers(idx) {
                                    if k < old_len {
                                        assert(self0.blocks@[k].range_covers(idx));
                                    } else if k < ki {
                                        let m2 = old_free_len - 1 - (k - old_len);
                                        assert(bs_pre[k].eqv(ba0.free@[m2]));
                                        assert(ba0.free@[m2].range_covers(idx));
                                    } else {
                                        if ba_pre.free@.len() > 0 {
                                            let lm = ba_pre.free@.len() - 1;
                                            assert(ba0.free@[lm].range_covers(idx));
                                        } else {
                                            assert(ba_pre.allocated as int <= idx as int);
                                            assert(ba0.allocated as int <= ba_pre.allocated as int);
                                            assert(other.blocks@[m].start as int
                                                + other.blocks@[m].len as int
                                                <= ba0.allocated as int);
                                        }
                                    }
                                }
                            }
                        }
                        // Freshness of the issued handle's slot.
                        assert(block.live(e));
                        assert(block.range_covers(e.index));
                        assert(!self0.live(e)) by {
                            if self0.live(e) {
                                let k = choose|k: int|
                                    0 <= k < self0.blocks@.len() && (#[trigger] self0.blocks@[k]).live(e);
                                assert(self0.blocks@[k].range_covers(e.index));
                                assert(bs1[k] == self0.blocks@[k]);
                                assert(!(bs1[k].range_covers(e.index) && bs1[ki].range_covers(
                                    e.index,
                                )));
                            }
                        }
                        assert(!self.pending(e.index)) by {
                            if self.pending(e.index) {
                                let m = choose|m: int|
                                    0 <= m < bs1.len() && (#[trigger] bs1[m]).pending(e.index);
                                let j = choose|j: int|
                                    0 <= j < bs1[m].free@.len() && bs1[m].free@[j] == e.index;
                                if m == ki {
                                    if block0.free@.len() > 0 {
                                        assert(block.free@ =~= block0.free@.drop_last());
                                        assert(block0.free@[j] == e.index);
                                        assert(block0.free@[block0.free@.len() - 1] == e.index);
                                    } else {
                                        assert(block.free@ =~= block0.free@);
                                        assert(block0.free@[j] == e.index);
                                        assert((block0.free@[j] as int) < block0.start as int
                                            + block0.versions@.len() as int);
                                        assert(e.index == block0.start + block0.versions@.len());
                                    }
                                } else {
                                    assert(bs1[m].wf());
                                    assert(bs1[m].range_covers(e.index));
                                    assert(!(bs1[m].range_covers(e.index)
                                        && bs1[ki].range_covers(e.index)));
                                }
                            }
                        }
                        assert forall|i2: u16|
                            self.pending(i2) implies (self0.pending(i2) || (forall|k: int|
                                0 <= k < old_len ==> !(#[trigger] self0.blocks@[k]).range_covers(
                                    i2,
                                ))) by {
                            let m = choose|m: int|
                                0 <= m < bs1.len() && (#[trigger] bs1[m]).pending(i2);
                            let j = choose|j: int|
                                0 <= j < bs1[m].free@.len() && bs1[m].free@[j] == i2;
                            if m < old_len {
                                assert(bs1[m] == self0.blocks@[m]);
                                assert(self0.blocks@[m].pending(i2));
                            } else {
                                assert(bs1[m].wf());
                                assert(bs1[m].range_covers(i2));
                                assert forall|k: int|
                                    0 <= k < old_len implies !(#[trigger] self0.blocks@[k]).range_covers(
                                    i2,
                                ) by {
                                    assert(bs1[k] == self0.blocks@[k]);
                                    assert(!(bs1[k].range_covers(i2) && bs1[m].range_covers(i2)));
                                }
                            }
                        }
                    }
                    return e;
                },
                None => {
                    self.blocks.push(block);
                    proof {
                        let bs1 = self.blocks@;
                        let ki = bs1.len() - 1;
                        lemma_blocks_slack_push(bs_pre, block);
                        assert(block.slack() == 0);
                        assert(ba_pre.free@.len() > 0) by {
                            if ba_pre.free@.len() == 0 {
                                assert(block0.slack() == BLOCK_SIZE as int);
                                assert(block.eqv(block0));
                            }
                        }
                        let lm = ba_pre.free@.len() - 1;
                        assert(block.eqv(block0));
                        assert(block0.eqv(ba0.free@[lm]));
                        assert(bs1[ki].eqv(ba0.free@[old_free_len - 1 - (ki - old_len)]));
                        assert forall|k: int, idx: u16|
                            0 <= k < ki && #[trigger] bs1[k].range_covers(idx) implies !(
                            #[trigger] block.range_covers(idx)) by {
                            if block.range_covers(idx) {
                                assert(ba0.free@[lm].range_covers(idx));
                                if k < old_len {
                                    assert(self0.blocks@[k].range_covers(idx));
                                } else {
                                    let m2 = old_free_len - 1 - (k - old_len);
                                    assert(bs_pre[k].eqv(ba0.free@[m2]));
                                    assert(ba0.free@[m2].range_covers(idx));
                                    assert(m2 != lm);
                                }
                            }
                        }
                        assert(self.wf()) by {
                            assert forall|k1: int, k2: int, idx: u16|
                                0 <= k1 < bs1.len() && 0 <= k2 < bs1.len() && k1 != k2 implies !(
                                #[trigger] bs1[k1].range_covers(idx)
                                    && #[trigger] bs1[k2].range_covers(idx)) by {
                                if k1 == ki || k2 == ki {
                                    let ko = if k1 == ki { k2 } else { k1 };
                                    if bs1[ko].range_covers(idx) {
                                        assert(!block.range_covers(idx));
                                    }
                                }
                            }
                        }
                        assert forall|i2: u16|
                            self.pending(i2) implies (self0.pending(i2) || (forall|k: int|
                                0 <= k < old_len ==> !(#[trigger] self0.blocks@[k]).range_covers(
                                    i2,
                                ))) by {
                            let m = choose|m: int|
                                0 <= m < bs1.len() && (#[trigger] bs1[m]).pending(i2);
                            let j = choose|j: int|
                                0 <= j < bs1[m].free@.len() && bs1[m].free@[j] == i2;
                            if m < old_len {
                                assert(bs1[m] == self0.blocks@[m]);
                                assert(self0.blocks@[m].pending(i2));
                            } else if m < ki {
                                assert(bs_pre[m].pending(i2));
                            } else {
                                assert(bs1[m].wf());
                                assert(bs1[m].range_covers(i2));
                                assert forall|k: int|
                                    0 <= k < old_len implies !(#[trigger] self0.blocks@[k]).range_covers(
                                    i2,
                                ) by {
                                    assert(bs1[k] == self0.blocks@[k]);
                                    assert(!(bs1[k].range_covers(i2) && bs1[m].range_covers(i2)));
                                }
                            }
                        }
                    }
                },
            }
        }
    }

    /// Recycle the handle if some owned block holds it live: its slot's
    /// version is bumped and queued for reuse. Returns whether it was.
    pub fn delete_entity(&mut self, entity: Entity) -> (r: bool)
        requires
            old(self).wf(),
        ensures
            final(self).wf(),
            final(self).entity_buffer@ == old(self).entity_buffer@,
            r == (old(self).live(entity) && !old(self).pending(entity.index)),
            final(self).blocks@.len() == old(self).blocks@.len(),
            forall|k: int|
                0 <= k < old(self).blocks@.len() ==> (#[trigger] final(self).blocks@[k]).start
                    == old(self).blocks@[k].start && final(self).blocks@[k].len == old(self).blocks@[k].len,
            !r ==> final(self).avail() == old(self).avail(),
            !r ==> blocks_eqv(final(self).blocks@, old(self).blocks@),
            r ==> {
                &&& final(self).avail() == old(self).avail() + 1
                &&& forall|x: Entity|
                    final(self).live(x) <==> ((old(self).live(x) && x != entity) || x
                        == Entity { index: entity.index, version: wrap_inc(entity.version) })
                &&& forall|i: u16|
                    final(self).pending(i) <==> (old(self).pending(i) || i == entity.index)
            },
    {
        let ghost self0 = *old(self);
        let n = self.blocks.len();
        let mut k: usize = 0;
        while k < n
            invariant
                self0 == *old(self),
                self0.wf(),
                blocks_eqv(self.blocks@, self0.blocks@),
                self.entity_buffer@ == self0.entity_buffer@,
                n == self.blocks@.len(),
                k <= n,
                forall|m: int| 0 <= m < k ==> !(#[trigger] self0.blocks@[m]).covers(entity.index),
            decreases n - k,
        {
            let ghost bs_pre = self.blocks@;
            proof {
                assert(self.blocks@[k as int].wf());
            }
            let verdict = self.blocks[k].free(entity);
            if let Some(was) = verdict {
                proof {
                    let bs0 = self0.blocks@;
                    let bs1 = self.blocks@;
                    let ki = k as int;
                    assert(bs_pre[ki].covers(entity.index));
                    assert(bs0[ki].covers(entity.index));
                    assert forall|m: int|
                        0 <= m < bs0.len() && m != ki implies !(#[trigger] bs0[m]).covers(
                        entity.index,
                    ) by {
                        if bs0[m].covers(entity.index) {
                            assert(bs0[m].range_covers(entity.index));
                            assert(bs0[ki].range_covers(entity.index));
                        }
                    }
                    assert(self0.live(entity) <==> bs0[ki].live(entity)) by {
                        if self0.live(entity) {
                            let m = choose|m: int|
                                0 <= m < bs0.len() && (#[trigger] bs0[m]).live(entity);
                            assert(m == ki);
                        }
                    }
                    assert(self0.pending(entity.index) <==> bs0[ki].pending(entity.index)) by {
                        if self0.pending(entity.index) {
                            let m = choose|m: int|
                                0 <= m < bs0.len() && (#[trigger] bs0[m]).pending(entity.index);
                            if m != ki {
                                let j = choose|j: int|
                                    0 <= j < bs0[m].free@.len() && bs0[m].free@[j] == entity.index;
                                assert(bs0[m].covers(entity.index));
                            }
                        }
                    }
                    assert(bs_pre[ki].live(entity) == bs0[ki].live(entity));
                    assert(bs_pre[ki].pending(entity.index) == bs0[ki].pending(entity.index)) by {
                        assert(bs_pre[ki].free@ == bs0[ki].free@);
                    }
                    if was {
                        assert(bs1 =~= bs_pre.update(ki, bs1[ki]));
                        lemma_blocks_slack_update(bs_pre, ki, bs1[ki]);
                        lemma_blocks_slack_eqv(bs_pre, bs0);
                        let bumped = Entity {
                            index: entity.index,
                            version: wrap_inc(entity.version),
                        };
                        assert(self.wf()) by {
                            assert forall|k2: int| 0 <= k2 < bs1.len() implies (
                                #[trigger] bs1[k2]).wf() by {
                                if k2 != ki {
                                    lemma_block_eqv_props(bs1[k2], bs0[k2]);
                                }
                            }
                            assert(bs1[ki].start == bs0[ki].start && bs1[ki].len == bs0[ki].len);
                            assert forall|k1: int, k2: int, idx: u16|
                                0 <= k1 < bs1.len() && 0 <= k2 < bs1.len() && k1 != k2 implies !(
                                #[trigger] bs1[k1].range_covers(idx)
                                    && #[trigger] bs1[k2].range_covers(idx)) by {
                                if k1 != ki {
                                    lemma_block_eqv_props(bs1[k1], bs0[k1]);
                                } else {
                                    assert(bs1[k1].range_covers(idx) == bs0[k1].range_covers(idx));
                                }
                                if k2 != ki {
                                    lemma_block_eqv_props(bs1[k2], bs0[k2]);
                                } else {
                                    assert(bs1[k2].range_covers(idx) == bs0[k2].range_covers(idx));
                                }
                                assert(!(bs0[k1].range_covers(idx) && bs0[k2].range_covers(idx)));
                            }
                        }
                        assert forall|x: Entity|
                            self.live(x) implies ((self0.live(x) && x != entity) || x
                            == bumped) by {
                            let m = choose|m: int|
                                0 <= m < bs1.len() && (#[trigger] bs1[m]).live(x);
                            if m != ki {
                                assert(bs0[m].live(x));
                                assert(x.index != entity.index) by {
                                    if x.index == entity.index {
                                        assert(bs0[m].covers(entity.index));
                                    }
                                }
                            }
                        }
                        assert forall|x: Entity|
                            ((self0.live(x) && x != entity) || x == bumped) implies self.live(
                            x,
                        ) by {
                            if self0.live(x) && x != entity {
                                let m = choose|m: int|
                                    0 <= m < bs0.len() && (#[trigger] bs0[m]).live(x);
                                if m == ki {
                                    assert(bs_pre[ki].live(x));
                                    assert(bs1[ki].live(x));
                                } else {
                                    assert(bs1[m].live(x));
                                }
                            } else {
                                assert(bs1[ki].live(bumped));
                            }
                        }
                        assert forall|i: u16|
                            self.pending(i) implies (self0.pending(i) || i == entity.index) by {
                            let m = choose|m: int|
                                0 <= m < bs1.len() && (#[trigger] bs1[m]).pending(i);
                            if m != ki {
                                assert(bs0[m].pending(i));
                            }
                        }
                        assert forall|i: u16|
                            (self0.pending(i) || i == entity.index) implies self.pending(i) by {
                            if self0.pending(i) {
                                let m = choose|m: int|
                                    0 <= m < bs0.len() && (#[trigger] bs0[m]).pending(i);
                                if m == ki {
                                    assert(bs_pre[ki].pending(i));
                                    assert(bs1[ki].pending(i));
                                } else {
                                    assert(bs1[m].pending(i));
                                }
                            } else {
                                assert(bs1[ki].pending(i));
                            }
                        }
                    } else {
                        assert(bs1[ki].eqv(bs_pre[ki]));
                        assert(blocks_eqv(bs1, bs0));
                        lemma_blocks_slack_eqv(bs1, bs0);
                        assert(self.wf()) by {
                            assert forall|k2: int| 0 <= k2 < bs1.len() implies (
                                #[trigger] bs1[k2]).wf() by {
                                lemma_block_eqv_props(bs1[k2], bs0[k2]);
                            }
                            assert forall|k1: int, k2: int, idx: u16|
                                0 <= k1 < bs1.len() && 0 <= k2 < bs1.len() && k1 != k2 implies !(
                                #[trigger] bs1[k1].range_covers(idx)
                                    && #[trigger] bs1[k2].range_covers(idx)) by {
                                lemma_block_eqv_props(bs1[k1], bs0[k1]);
                                lemma_block_eqv_props(bs1[k2], bs0[k2]);
                            }
                        }
                    }
                }
                return was;
            }
            proof {
                assert(self.blocks@[k as int].eqv(bs_pre[k as int]));
                assert(!self0.blocks@[k as int].covers(entity.index));
            }
            k += 1;
        }
        proof {
            assert(!self0.live(entity)) by {
                if self0.live(entity) {
                    let m = choose|m: int|
                        0 <= m < self0.blocks@.len() && (#[trigger] self0.blocks@[m]).live(entity);
                }
            }
            lemma_blocks_slack_eqv(self.blocks@, self0.blocks@);
            assert(self.wf()) by {
                let bs1 = self.blocks@;
                let bs0 = self0.blocks@;
                assert forall|k2: int| 0 <= k2 < bs1.len() implies (#[trigger] bs1[k2]).wf() by {
                    lemma_block_eqv_props(bs1[k2], bs0[k2]);
                }
                assert forall|k1: int, k2: int, idx: u16|
                    0 <= k1 < bs1.len() && 0 <= k2 < bs1.len() && k1 != k2 implies !(
                    #[trigger] bs1[k1].range_covers(idx)
                        && #[trigger] bs1[k2].range_covers(idx)) by {
                    lemma_block_eqv_props(bs1[k1], bs0[k1]);
                    lemma_block_eqv_props(bs1[k2], bs0[k2]);
                }
            }
        }
        false
    }

    /// The entities issued by the current insertion, oldest first.
    pub fn allocation_buffer(&self) -> (r: &Vec<Entity>)
        ensures
            r@ == self.entity_buffer@,
    {
        &self.entity_buffer
    }

    /// Forget the previous insertion's entities.
    pub fn clear_allocation_buffer(&mut self)
        ensures
            final(self).blocks@ == old(self).blocks@,
            final(self).entity_buffer@ =~= Seq::<Entity>::empty(),
    {
        self.entity_buffer.clear();
    }

    /// Return every owned block to the shared pool; afterwards this allocator
    /// holds no identifier range at all.
    pub fn release_blocks(&mut self, allocator: &mut BlockAllocator)
        requires
            old(self).wf(),
            old(allocator).wf(),
            old(self).compat(*old(allocator)),
        ensures
            final(self).wf(),
            final(allocator).wf(),
            final(self).blocks@ =~= Seq::<EntityBlock>::empty(),
            final(allocator).avail() == old(allocator).avail() + old(self).avail(),
            final(allocator).allocated == old(allocator).allocated,
    {
        while self.blocks.len() > 0
            invariant
                self.wf(),
                allocator.wf(),
                self.compat(*allocator),
                allocator.avail() + self.avail() == old(allocator).avail() + old(self).avail(),
                allocator.allocated == old(allocator).allocated,
            decreases self.blocks@.len(),
        {
            let ghost bs0 = self.blocks@;
            let ghost ba_pre = *allocator;
            let block = self.blocks.pop().unwrap();
            proof {
                assert(bs0.drop_last().push(block) =~= bs0);
                lemma_blocks_slack_push(bs0.drop_last(), block);
                assert forall|m: int, idx: u16|
                    0 <= m < ba_pre.free@.len() && #[trigger] ba_pre.free@[m].range_covers(idx)
                        implies !(#[trigger] block.range_covers(idx)) by {
                    assert(bs0[bs0.len() - 1] == block);
                }
            }
            allocator.free(block);
            proof {
                assert(self.compat(*allocator)) by {
                    assert forall|k: int, m: int, idx: u16|
                        0 <= k < self.blocks@.len() && 0 <= m < allocator.free@.len() implies !(
                        #[trigger] self.blocks@[k].range_covers(idx)
                            && #[trigger] allocator.free@[m].range_covers(idx)) by {
                        assert(self.blocks@[k] == bs0[k]);
                        if m < ba_pre.free@.len() {
                            assert(allocator.free@[m] == ba_pre.free@[m]);
                        } else {
                            assert(allocator.free@[m] == block);
                            assert(bs0[bs0.len() - 1] == block);
                        }
                    }
                }
            }
        }
    }
}

/// Allocators with pointwise equivalent blocks report the same live handles.
pub proof fn lemma_allocator_eqv_live(a: EntityAllocator, b: EntityAllocator, x: Entity)
    requires
        blocks_eqv(a.blocks@, b.blocks@),
    ensures
        a.live(x) == b.live(x),
{
    if a.live(x) {
        let k = choose|k: int| 0 <= k < a.blocks@.len() && (#[trigger] a.blocks@[k]).live(x);
        lemma_block_eqv_props(a.blocks@[k], b.blocks@[k]);
        assert(b.blocks@[k].live(x));
    }
    if b.live(x) {
        let k = choose|k: int| 0 <= k < b.blocks@.len() && (#[trigger] b.blocks@[k]).live(x);
        lemma_block_eqv_props(a.blocks@[k], b.blocks@[k]);
        assert(a.blocks@[k].live(x));
    }
}

/// Two allocators holding disjoint identifier ranges (as allocators leasing
/// from one shared pool do) never report the same handle live: no entity is
/// ever issued by both.
pub proof fn lemma_cross_allocator_disjointness(
    a: EntityAllocator,
    b: EntityAllocator,
    e: Entity,
)
    requires
        a.wf(),
        b.wf(),
        a.disjoint_from(b),
    ensures
        !(a.live(e) && b.live(e)),
{
    if a.live(e) && b.live(e) {
        let k = choose|k: int| 0 <= k < a.blocks@.len() && (#[trigger] a.blocks@[k]).live(e);
        let m = choose|m: int| 0 <= m < b.blocks@.len() && (#[trigger] b.blocks@[m]).live(e);
        assert(a.blocks@[k].range_covers(e.index));
        assert(b.blocks@[m].range_covers(e.index));
    }
}

} // verus!
