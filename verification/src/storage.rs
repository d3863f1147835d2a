//! Columnar storage: fixed-capacity chunks grouped into archetypes.
//!
//! A chunk holds, for one archetype, a list of entities and one densely
//! packed column per component type, all of identical length, plus one value
//! per shared "tag" type. An archetype owns the chunks of one exact
//! (component-type-set, tag-type-set) signature; its chunks' columns are laid
//! out in the archetype's component order.

use vstd::prelude::*;
use crate::entity::Entity;

verus! {

pub type ComponentTypeId = u32;
pub type TagTypeId = u32;
pub type TagValue = u64;
pub type ArchetypeID = usize;
pub type ChunkID = usize;
pub type ComponentID = usize;

/// Number of entity slots in one chunk. Every chunk is created with this
/// fixed capacity; a fresh chunk is appended once all matching ones are full.
pub const CHUNK_CAPACITY: usize = 1024;

/// The type ids of a chunk's columns, in column order.
pub open spec fn column_ids<C>(columns: Seq<(ComponentTypeId, Vec<C>)>) -> Seq<ComponentTypeId> {
    columns.map_values(|p: (ComponentTypeId, Vec<C>)| p.0)
}

/// The type ids of a chunk's tag cells, in cell order.
pub open spec fn tag_ids(tags: Seq<(TagTypeId, TagValue)>) -> Seq<TagTypeId> {
    tags.map_values(|p: (TagTypeId, TagValue)| p.0)
}

/// The values of a chunk's tag cells, in cell order.
pub open spec fn tag_values(tags: Seq<(TagTypeId, TagValue)>) -> Seq<TagValue> {
    tags.map_values(|p: (TagTypeId, TagValue)| p.1)
}

/// No id occurs twice.
pub open spec fn distinct_ids(ids: Seq<u32>) -> bool {
    forall|i: int, j: int| 0 <= i < j < ids.len() ==> ids[i] != ids[j]
}

/// Two chunks whose columns carry the same type ids in the same order agree
/// on column membership and on the position of every column.
pub proof fn lemma_chunk_same_columns<C>(ch0: Chunk<C>, ch1: Chunk<C>, t: ComponentTypeId)
    requires
        ch0.wf(),
        ch1.wf(),
        ch1.columns@.len() == ch0.columns@.len(),
        forall|j: int|
            0 <= j < ch0.columns@.len() ==> (#[trigger] ch1.columns@[j]).0 == ch0.columns@[j].0,
    ensures
        ch1.has_column(t) == ch0.has_column(t),
        ch1.has_column(t) ==> ch1.col_index_of(t) == ch0.col_index_of(t) && 0 <= ch1.col_index_of(
            t,
        ) < ch1.columns@.len() && ch1.columns@[ch1.col_index_of(t)].0 == t,
{
    assert(column_ids(ch1.columns@) =~= column_ids(ch0.columns@));
    if ch1.has_column(t) {
        let m = choose|m: int|
            0 <= m < column_ids(ch1.columns@).len() && column_ids(ch1.columns@)[m] == t;
        assert(ch1.columns@[m].0 == t);
        let j1 = ch1.col_index_of(t);
        assert(0 <= j1 < ch1.columns@.len() && ch1.columns@[j1].0 == t);
        let j0 = ch0.col_index_of(t);
        assert(ch0.columns@[m].0 == t);
        assert(0 <= j0 < ch0.columns@.len() && ch0.columns@[j0].0 == t);
        if j1 != j0 {
            assert(column_ids(ch1.columns@)[j1] == t);
            assert(column_ids(ch1.columns@)[j0] == t);
        }
    }
}

/// A fixed-capacity column store: parallel entity list and component
/// columns, and one value per tag type.
#[derive(Debug)]
pub struct Chunk<C> {
    pub capacity: usize,
    pub entities: Vec<Entity>,
    pub columns: Vec<(ComponentTypeId, Vec<C>)>,
    pub tags: Vec<(TagTypeId, TagValue)>,
}

impl<C> Chunk<C> {
    /// All columns and the entity list have identical length, at most the
    /// capacity, and no component or tag type occurs twice.
    pub open spec fn wf(self) -> bool {
        &&& self.entities@.len() <= self.capacity
        &&& forall|j: int|
            0 <= j < self.columns@.len() ==> (#[trigger] self.columns@[j]).1@.len()
                == self.entities@.len()
        &&& distinct_ids(column_ids(self.columns@))
        &&& distinct_ids(tag_ids(self.tags@))
    }

    pub open spec fn has_column(self, t: ComponentTypeId) -> bool {
        column_ids(self.columns@).contains(t)
    }

    pub open spec fn col_index_of(self, t: ComponentTypeId) -> int {
        choose|j: int| 0 <= j < self.columns@.len() && self.columns@[j].0 == t
    }

    /// The column of component type `t`, as a sequence of values.
    pub open spec fn column(self, t: ComponentTypeId) -> Seq<C>
        recommends
            self.has_column(t),
    {
        self.columns@[self.col_index_of(t)].1@
    }

    pub open spec fn has_tag(self, t: TagTypeId) -> bool {
        tag_ids(self.tags@).contains(t)
    }

    pub open spec fn tag_index_of(self, t: TagTypeId) -> int {
        choose|j: int| 0 <= j < self.tags@.len() && self.tags@[j].0 == t
    }

    /// The value this chunk carries for tag type `t`.
    pub open spec fn tag_value(self, t: TagTypeId) -> TagValue
        recommends
            self.has_tag(t),
    {
        self.tags@[self.tag_index_of(t)].1
    }

    /// An empty chunk with one column per given component type, in order, and
    /// the given tag cells.
    pub fn new(
        capacity: usize,
        component_types: &Vec<ComponentTypeId>,
        tag_types: &Vec<TagTypeId>,
        tag_vals: &Vec<TagValue>,
    ) -> (c: Chunk<C>)
        requires
            distinct_ids(component_types@),
            distinct_ids(tag_types@),
            tag_types@.len() == tag_vals@.len(),
        ensures
            c.wf(),
            c.capacity == capacity,
            c.entities@ =~= Seq::<Entity>::empty(),
            column_ids(c.columns@) =~= component_types@,
            forall|j: int| 0 <= j < c.columns@.len() ==> (#[trigger] c.columns@[j]).1@.len() == 0,
            tag_ids(c.tags@) =~= tag_types@,
            tag_values(c.tags@) =~= tag_vals@,
    {
        let mut columns: Vec<(ComponentTypeId, Vec<C>)> = Vec::new();
        let mut j: usize = 0;
        while j < component_types.len()
            invariant
                j <= component_types@.len(),
                columns@.len() == j,
                forall|m: int| 0 <= m < j ==> (#[trigger] columns@[m]).0 == component_types@[m],
                forall|m: int| 0 <= m < j ==> (#[trigger] columns@[m]).1@.len() == 0,
            decreases component_types@.len() - j,
        {
            columns.push((component_types[j], Vec::new()));
            j += 1;
        }
        let mut tags: Vec<(TagTypeId, TagValue)> = Vec::new();
        let mut k: usize = 0;
        while k < tag_types.len()
            invariant
                tag_types@.len() == tag_vals@.len(),
                k <= tag_types@.len(),
                tags@.len() == k,
                forall|m: int| 0 <= m < k ==> (#[trigger] tags@[m]).0 == tag_types@[m],
                forall|m: int| 0 <= m < k ==> (#[trigger] tags@[m]).1 == tag_vals@[m],
            decreases tag_types@.len() - k,
        {
            tags.push((tag_types[k], tag_vals[k]));
            k += 1;
        }
        let c = Chunk { capacity, entities: Vec::new(), columns, tags };
        proof {
            assert(column_ids(c.columns@) =~= component_types@);
            assert(tag_ids(c.tags@) =~= tag_types@);
            assert(tag_values(c.tags@) =~= tag_vals@);
        }
        c
    }

    /// Current occupancy.
    pub fn len(&self) -> (r: usize)
        ensures
            r == self.entities@.len(),
    {
        self.entities.len()
    }

    /// No further entity fits.
    pub fn is_full(&self) -> (r: bool)
        ensures
            r == (self.entities@.len() >= self.capacity),
    {
        self.entities.len() >= self.capacity
    }

    /// The entity in each occupied slot, in slot order.
    pub fn entities(&self) -> (r: &Vec<Entity>)
        ensures
            r@ == self.entities@,
    {
        &self.entities
    }

    /// Whether this chunk stores a column for component type `t`.
    pub fn has_component(&self, t: ComponentTypeId) -> (r: bool)
        ensures
            r == self.has_column(t),
    {
        let n = self.columns.len();
        let mut j: usize = 0;
        while j < n
            invariant
                n == self.columns@.len(),
                j <= n,
                forall|m: int| 0 <= m < j ==> (#[trigger] self.columns@[m]).0 != t,
            decreases n - j,
        {
            if self.columns[j].0 == t {
                proof {
                    assert(column_ids(self.columns@)[j as int] == t);
                }
                return true;
            }
            j += 1;
        }
        proof {
            if self.has_column(t) {
                let m = choose|m: int|
                    0 <= m < column_ids(self.columns@).len() && column_ids(self.columns@)[m] == t;
                assert(self.columns@[m].0 == t);
            }
        }
        false
    }

    /// The position of component type `t` among this chunk's columns.
    pub fn column_index(&self, t: ComponentTypeId) -> (j: usize)
        requires
            self.wf(),
            self.has_column(t),
        ensures
            j == self.col_index_of(t),
            j < self.columns@.len(),
            self.columns@[j as int].0 == t,
    {
        let n = self.columns.len();
        let mut j: usize = 0;
        while j < n
            invariant
                self.wf(),
                self.has_column(t),
                n == self.columns@.len(),
                j <= n,
                forall|m: int| 0 <= m < j ==> (#[trigger] self.columns@[m]).0 != t,
            decreases n - j,
        {
            if self.columns[j].0 == t {
                proof {
                    let jj = self.col_index_of(t);
                    assert(0 <= jj < self.columns@.len() && self.columns@[jj].0 == t) by {
                        let m = choose|m: int|
                            0 <= m < column_ids(self.columns@).len() && column_ids(
                                self.columns@,
                            )[m] == t;
                        assert(self.columns@[m].0 == t);
                    }
                    if jj != j {
                        assert(column_ids(self.columns@)[jj] == t);
                        assert(column_ids(self.columns@)[j as int] == t);
                    }
                }
                return j;
            }
            j += 1;
        }
        proof {
            let m = choose|m: int|
                0 <= m < column_ids(self.columns@).len() && column_ids(self.columns@)[m] == t;
            assert(self.columns@[m].0 == t);
            assert(false);
        }
        0
    }

    /// Shared access to the column of component type `t`.
    pub fn component_column(&self, t: ComponentTypeId) -> (r: &Vec<C>)
        requires
            self.wf(),
            self.has_column(t),
        ensures
            r@ == self.column(t),
    {
        let j = self.column_index(t);
        &self.columns[j].1
    }

    /// The tag value this chunk carries for tag type `t`, if any.
    pub fn shared(&self, t: TagTypeId) -> (r: Option<TagValue>)
        requires
            self.wf(),
        ensures
            r == (if self.has_tag(t) {
                Some(self.tag_value(t))
            } else {
                None::<TagValue>
            }),
    {
        let n = self.tags.len();
        let mut j: usize = 0;
        while j < n
            invariant
                self.wf(),
                n == self.tags@.len(),
                j <= n,
                forall|m: int| 0 <= m < j ==> (#[trigger] self.tags@[m]).0 != t,
            decreases n - j,
        {
            if self.tags[j].0 == t {
                proof {
                    assert(tag_ids(self.tags@)[j as int] == t);
                    let jj = self.tag_index_of(t);
                    assert(0 <= jj < self.tags@.len() && self.tags@[jj].0 == t) by {
                        assert(self.tags@[j as int].0 == t);
                    }
                    if jj != j {
                        assert(tag_ids(self.tags@)[jj] == t);
                        assert(tag_ids(self.tags@)[j as int] == t);
                    }
                }
                return Some(self.tags[j].1);
            }
            j += 1;
        }
        proof {
            if self.has_tag(t) {
                let m = choose|m: int|
                    0 <= m < tag_ids(self.tags@).len() && tag_ids(self.tags@)[m] == t;
                assert(self.tags@[m].0 == t);
            }
        }
        None
    }
}

impl<C: Copy> Chunk<C> {
    /// One component value, by type and slot.
    pub fn component_at(&self, t: ComponentTypeId, slot: usize) -> (r: C)
        requires
            self.wf(),
            self.has_column(t),
            slot < self.entities@.len(),
        ensures
            r == self.column(t)[slot as int],
    {
        let j = self.column_index(t);
        self.columns[j].1[slot]
    }

    /// Overwrite one component value, by type and slot.
    pub fn set_component_at(&mut self, t: ComponentTypeId, slot: usize, value: C)
        requires
            old(self).wf(),
            old(self).has_column(t),
            slot < old(self).entities@.len(),
        ensures
            final(self).wf(),
            final(self).capacity == old(self).capacity,
            final(self).entities@ == old(self).entities@,
            final(self).tags@ == old(self).tags@,
            final(self).columns@.len() == old(self).columns@.len(),
            forall|j: int|
                0 <= j < old(self).columns@.len() ==> (#[trigger] final(self).columns@[j]).0
                    == old(self).columns@[j].0,
            forall|j: int|
                0 <= j < old(self).columns@.len() && j != old(self).col_index_of(t)
                    ==> #[trigger] final(self).columns@[j] == old(self).columns@[j],
            final(self).has_column(t),
            final(self).col_index_of(t) == old(self).col_index_of(t),
            final(self).column(t) == old(self).column(t).update(slot as int, value),
            forall|t2: ComponentTypeId|
                old(self).has_column(t2) && t2 != t ==> #[trigger] final(self).column(t2) == old(
                    self,
                ).column(t2) && final(self).has_column(t2),
    {
        let j = self.column_index(t);
        proof {
            assert(old(self).columns@[j as int].1@.len() == old(self).entities@.len());
        }
        self.columns[j].1[slot] = value;
        proof {
            assert(column_ids(self.columns@) =~= column_ids(old(self).columns@));
            lemma_chunk_same_columns(*old(self), *self, t);
            assert forall|t2: ComponentTypeId|
                old(self).has_column(t2) && t2 != t implies #[trigger] self.column(t2) == old(
                self,
            ).column(t2) && self.has_column(t2) by {
                lemma_chunk_same_columns(*old(self), *self, t2);
                let j2 = old(self).col_index_of(t2);
                assert(j2 != j as int) by {
                    if j2 == j as int {
                        assert(old(self).columns@[j2].0 == t2);
                        assert(old(self).columns@[j as int].0 == t);
                    }
                }
                assert(self.columns@[j2] == old(self).columns@[j2]);
            }
        }
    }

    /// Append one entity with one value per column, given in column order.
    pub fn append(&mut self, entity: Entity, row: &Vec<C>)
        requires
            old(self).wf(),
            old(self).entities@.len() < old(self).capacity,
            row@.len() == old(self).columns@.len(),
        ensures
            final(self).wf(),
            final(self).capacity == old(self).capacity,
            final(self).tags@ == old(self).tags@,
            final(self).entities@ == old(self).entities@.push(entity),
            final(self).columns@.len() == old(self).columns@.len(),
            forall|j: int|
                0 <= j < old(self).columns@.len() ==> (#[trigger] final(self).columns@[j]).0 == old(self).columns@[j].0 && final(self).columns@[j].1@ == old(self).columns@[j].1@.push(
                    row@[j],
                ),
    {
        self.entities.push(entity);
        let n = self.columns.len();
        let mut j: usize = 0;
        while j < n
            invariant
                n == self.columns@.len(),
                n == old(self).columns@.len(),
                n == row@.len(),
                j <= n,
                self.capacity == old(self).capacity,
                self.tags@ == old(self).tags@,
                self.entities@ == old(self).entities@.push(entity),
                forall|m: int|
                    0 <= m < n ==> (#[trigger] self.columns@[m]).0 == old(self).columns@[m].0,
                forall|m: int|
                    0 <= m < j ==> (#[trigger] self.columns@[m]).1@ == old(self).columns@[m].1@.push(row@[m]),
                forall|m: int|
                    j <= m < n ==> (#[trigger] self.columns@[m]).1@ == old(self).columns@[m].1@,
                old(self).wf(),
            decreases n - j,
        {
            self.columns[j].1.push(row[j]);
            j += 1;
        }
        proof {
            assert(column_ids(final(self).columns@) =~= column_ids(old(self).columns@));
        }
    }

    /// Remove the entity at `slot`: the tail entity (and its component
    /// values) moves into `slot`. Returns the moved entity, or `None` when
    /// the removed slot was the tail itself.
    pub fn swap_remove(&mut self, slot: usize) -> (r: Option<Entity>)
        requires
            old(self).wf(),
            slot < old(self).entities@.len(),
        ensures
            final(self).wf(),
            final(self).capacity == old(self).capacity,
            final(self).tags@ == old(self).tags@,
            final(self).entities@.len() == old(self).entities@.len() - 1,
            final(self).entities@ == old(self).entities@.update(
                slot as int,
                old(self).entities@.last(),
            ).drop_last(),
            final(self).columns@.len() == old(self).columns@.len(),
            forall|j: int|
                0 <= j < old(self).columns@.len() ==> (#[trigger] final(self).columns@[j]).0 == old(self).columns@[j].0 && final(self).columns@[j].1@ == old(self).columns@[j].1@.update(
                    slot as int,
                    old(self).columns@[j].1@.last(),
                ).drop_last(),
            r == (if slot + 1 == old(self).entities@.len() {
                None::<Entity>
            } else {
                Some(old(self).entities@.last())
            }),
    {
        let last_idx = self.entities.len() - 1;
        let moved = self.entities[last_idx];
        let _removed = self.entities.swap_remove(slot);
        let n = self.columns.len();
        let mut j: usize = 0;
        while j < n
            invariant
                n == self.columns@.len(),
                n == old(self).columns@.len(),
                j <= n,
                slot < old(self).entities@.len(),
                self.capacity == old(self).capacity,
                self.tags@ == old(self).tags@,
                self.entities@ == old(self).entities@.update(
                    slot as int,
                    old(self).entities@.last(),
                ).drop_last(),
                forall|m: int|
                    0 <= m < n ==> (#[trigger] self.columns@[m]).0 == old(self).columns@[m].0,
                forall|m: int|
                    0 <= m < j ==> (#[trigger] self.columns@[m]).1@ == old(self).columns@[m].1@.update(slot as int, old(self).columns@[m].1@.last()).drop_last(),
                forall|m: int|
                    j <= m < n ==> (#[trigger] self.columns@[m]).1@ == old(self).columns@[m].1@,
                old(self).wf(),
            decreases n - j,
        {
            proof {
                assert(self.columns@[j as int].1@ == old(self).columns@[j as int].1@);
                assert(old(self).columns@[j as int].1@.len() == old(self).entities@.len());
            }
            self.columns[j].1.swap_remove(slot);
            j += 1;
        }
        proof {
            assert(column_ids(final(self).columns@) =~= column_ids(old(self).columns@));
        }
        if slot == last_idx {
            None
        } else {
            Some(moved)
        }
    }
}

/// An ordered collection of chunks sharing one exact signature: the set of
/// component types and the set of tag types are fixed for the archetype's
/// lifetime, and every chunk's columns follow the archetype's component
/// order.
#[derive(Debug)]
pub struct Archetype<C> {
    pub components: Vec<ComponentTypeId>,
    pub tags: Vec<TagTypeId>,
    pub chunks: Vec<Chunk<C>>,
}

impl<C> Archetype<C> {
    pub open spec fn wf(self) -> bool {
        &&& distinct_ids(self.components@)
        &&& distinct_ids(self.tags@)
        &&& forall|c: int| 0 <= c < self.chunks@.len() ==> (#[trigger] self.chunks@[c]).wf()
        &&& forall|c: int|
            0 <= c < self.chunks@.len() ==> (#[trigger] self.chunks@[c]).capacity == CHUNK_CAPACITY
        &&& forall|c: int|
            0 <= c < self.chunks@.len() ==> column_ids((#[trigger] self.chunks@[c]).columns@)
                == self.components@
        &&& forall|c: int|
            0 <= c < self.chunks@.len() ==> tag_ids((#[trigger] self.chunks@[c]).tags@)
                == self.tags@
    }

    /// The chunk at `c` carries exactly these tag values, in tag order.
    pub open spec fn chunk_matches_tags(self, c: int, vals: Seq<TagValue>) -> bool
        recommends
            0 <= c < self.chunks@.len(),
    {
        tag_values(self.chunks@[c].tags@) == vals
    }

    pub fn new(components: Vec<ComponentTypeId>, tags: Vec<TagTypeId>) -> (a: Archetype<C>)
        requires
            distinct_ids(components@),
            distinct_ids(tags@),
        ensures
            a.wf(),
            a.components@ == components@,
            a.tags@ == tags@,
            a.chunks@ =~= Seq::<Chunk<C>>::empty(),
    {
        Archetype { components, tags, chunks: Vec::new() }
    }

    /// Whether this archetype's signature includes component type `t`.
    pub fn has_component(&self, t: ComponentTypeId) -> (r: bool)
        ensures
            r == self.components@.contains(t),
    {
        contains_id(&self.components, t)
    }

    /// Whether this archetype's signature includes tag type `t`.
    pub fn has_shared(&self, t: TagTypeId) -> (r: bool)
        ensures
            r == self.tags@.contains(t),
    {
        contains_id(&self.tags, t)
    }

    /// Number of chunks.
    pub fn chunk_count(&self) -> (r: usize)
        ensures
            r == self.chunks@.len(),
    {
        self.chunks.len()
    }

    /// Shared access to one chunk.
    pub fn chunk(&self, id: ChunkID) -> (r: &Chunk<C>)
        requires
            id < self.chunks@.len(),
        ensures
            *r == self.chunks@[id as int],
    {
        &self.chunks[id]
    }

    /// The first chunk that carries exactly these tag values and still has
    /// room; a fresh empty chunk with those values is appended when none
    /// does.
    pub fn get_or_create_chunk(&mut self, tag_vals: &Vec<TagValue>) -> (id: ChunkID)
        requires
            old(self).wf(),
            tag_vals@.len() == old(self).tags@.len(),
        ensures
            final(self).wf(),
            final(self).components@ == old(self).components@,
            final(self).tags@ == old(self).tags@,
            id < final(self).chunks@.len(),
            old(self).chunks@.len() <= final(self).chunks@.len(),
            forall|c: int|
                0 <= c < old(self).chunks@.len() ==> #[trigger] final(self).chunks@[c] == old(self).chunks@[c],
            final(self).chunk_matches_tags(id as int, tag_vals@),
            final(self).chunks@[id as int].entities@.len() < CHUNK_CAPACITY,
            forall|c: int|
                0 <= c < id ==> !(old(self).chunk_matches_tags(c, tag_vals@) && old(self).chunks@[c].entities@.len() < CHUNK_CAPACITY),
            if id < old(self).chunks@.len() {
                final(self).chunks@.len() == old(self).chunks@.len()
            } else {
                &&& id == old(self).chunks@.len()
                &&& final(self).chunks@.len() == old(self).chunks@.len() + 1
                &&& final(self).chunks@[id as int].entities@.len() == 0
            },
    {
        let n = self.chunks.len();
        let mut c: usize = 0;
        while c < n
            invariant
                self == old(self),
                old(self).wf(),
                tag_vals@.len() == old(self).tags@.len(),
                n == self.chunks@.len(),
                c <= n,
                forall|m: int|
                    0 <= m < c ==> !(old(self).chunk_matches_tags(m, tag_vals@) && old(self).chunks@[m].entities@.len() < CHUNK_CAPACITY),
            decreases n - c,
        {
            let chunk = &self.chunks[c];
            if chunk.entities.len() < CHUNK_CAPACITY {
                let mut matches = true;
                let tn = chunk.tags.len();
                let mut j: usize = 0;
                while j < tn
                    invariant
                        self == old(self),
                        c < self.chunks@.len(),
                        chunk == &self.chunks@[c as int],
                        tn == chunk.tags@.len(),
                        tn == tag_vals@.len(),
                        j <= tn,
                        matches == (forall|m: int|
                            0 <= m < j ==> (#[trigger] chunk.tags@[m]).1 == tag_vals@[m]),
                    decreases tn - j,
                {
                    if chunk.tags[j].1 != tag_vals[j] {
                        matches = false;
                        proof {
                            assert(chunk.tags@[j as int].1 != tag_vals@[j as int]);
                        }
                    }
                    j += 1;
                }
                if matches {
                    proof {
                        assert(tag_values(self.chunks@[c as int].tags@) =~= tag_vals@);
                    }
                    return c;
                }
                proof {
                    let m = choose|m: int|
                        0 <= m < tag_vals@.len() && (#[trigger] self.chunks@[c as int].tags@[m]).1
                            != tag_vals@[m];
                    assert(tag_values(self.chunks@[c as int].tags@)[m] != tag_vals@[m]);
                }
            }
            c += 1;
        }
        let chunk = Chunk::new(CHUNK_CAPACITY, &self.components, &self.tags, tag_vals);
        self.chunks.push(chunk);
        proof {
            assert(tag_values(final(self).chunks@[n as int].tags@) =~= tag_vals@);
        }
        n
    }
}

/// Whether `ids` contains `t`.
pub fn contains_id(ids: &Vec<u32>, t: u32) -> (r: bool)
    ensures
        r == ids@.contains(t),
{
    let n = ids.len();
    let mut j: usize = 0;
    while j < n
        invariant
            n == ids@.len(),
            j <= n,
            forall|m: int| 0 <= m < j ==> ids@[m] != t,
        decreases n - j,
    {
        if ids[j] == t {
            return true;
        }
        j += 1;
    }
    proof {
        if ids@.contains(t) {
            let m = choose|m: int| 0 <= m < ids@.len() && ids@[m] == t;
        }
    }
    false
}


} // verus!
