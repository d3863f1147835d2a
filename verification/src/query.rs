//! Queries: a view (which columns, read or written) paired with an
//! archetype-level and a chunk-level filter, evaluated against a world.
//!
//! A query is a plain value and borrows nothing until it is evaluated.
//! Evaluation visits archetypes in insertion order, their chunks in insertion
//! order and slots in order, and yields exactly the entities whose archetype
//! passes the archetype filter and whose chunk passes the chunk filter.

use vstd::prelude::*;
use crate::entity::Entity;
use crate::storage::{
    Chunk, ComponentTypeId, TagTypeId, TagValue, column_ids, tag_ids, tag_values,
};
use crate::world::{Location, World};

verus! {

/// One axis of a view: a component column read, a component column written,
/// or a per-chunk tag value repeated for every slot.
#[derive(Clone, Copy, PartialEq, Eq, Structural, Debug)]
pub enum ViewElement {
    Component(ComponentTypeId),
    ComponentMut(ComponentTypeId),
    Tag(TagTypeId),
}

impl ViewElement {
    /// Whether this axis needs no exclusive access.
    pub open spec fn is_read_only(self) -> bool {
        !(self is ComponentMut)
    }
}

/// A compile-order list of view axes.
#[derive(Debug)]
pub struct DataView {
    pub elements: Vec<ViewElement>,
}

impl DataView {
    /// A view is read-only when none of its axes writes.
    pub open spec fn read_only(self) -> bool {
        forall|m: int|
            0 <= m < self.elements@.len() ==> (#[trigger] self.elements@[m]).is_read_only()
    }

    /// The component types the view touches at all.
    pub open spec fn requires_component(self, t: ComponentTypeId) -> bool {
        exists|m: int|
            0 <= m < self.elements@.len() && ((#[trigger] self.elements@[m]) == ViewElement::Component(t)
                || self.elements@[m] == ViewElement::ComponentMut(t))
    }

    /// The tag types the view touches.
    pub open spec fn requires_tag(self, t: TagTypeId) -> bool {
        exists|m: int| 0 <= m < self.elements@.len() && (#[trigger] self.elements@[m]) == ViewElement::Tag(t)
    }

    pub fn new() -> (r: DataView)
        ensures
            r.elements@ =~= Seq::<ViewElement>::empty(),
    {
        DataView { elements: Vec::new() }
    }

    /// The same view with a shared component-column axis appended.
    pub fn with_read(self, t: ComponentTypeId) -> (r: DataView)
        ensures
            r.elements@ == self.elements@.push(ViewElement::Component(t)),
    {
        let DataView { mut elements } = self;
        elements.push(ViewElement::Component(t));
        DataView { elements }
    }

    /// The same view with an exclusive component-column axis appended.
    pub fn with_write(self, t: ComponentTypeId) -> (r: DataView)
        ensures
            r.elements@ == self.elements@.push(ViewElement::ComponentMut(t)),
    {
        let DataView { mut elements } = self;
        elements.push(ViewElement::ComponentMut(t));
        DataView { elements }
    }

    /// The same view with a tag axis appended.
    pub fn with_shared(self, t: TagTypeId) -> (r: DataView)
        ensures
            r.elements@ == self.elements@.push(ViewElement::Tag(t)),
    {
        let DataView { mut elements } = self;
        elements.push(ViewElement::Tag(t));
        DataView { elements }
    }
}

/// Selects archetypes by their signature.
pub trait ArchetypeFilter: Sized {
    /// What the filter accepts, over the archetype's component and tag type
    /// lists.
    spec fn amatches(&self, components: Seq<ComponentTypeId>, tags: Seq<TagTypeId>) -> bool;

    /// Evaluate the filter on one archetype's signature.
    fn filter(&self, components: &Vec<ComponentTypeId>, tags: &Vec<TagTypeId>) -> (r: bool)
        ensures
            r == self.amatches(components@, tags@),
    ;
}

/// Selects chunks by their tag values.
pub trait ChunkFilter: Sized {
    /// What the filter accepts, over the chunk's tag cells.
    spec fn cmatches(&self, ids: Seq<TagTypeId>, values: Seq<TagValue>) -> bool;

    /// Evaluate the filter on one chunk's tag cells.
    fn filter(&self, tags: &Vec<(TagTypeId, TagValue)>) -> (r: bool)
        ensures
            r == self.cmatches(tag_ids(tags@), tag_values(tags@)),
    ;
}

/// Accepts everything.
#[derive(Clone, Copy, Debug)]
pub struct Passthrough;

impl ArchetypeFilter for Passthrough {
    open spec fn amatches(&self, components: Seq<ComponentTypeId>, tags: Seq<TagTypeId>) -> bool {
        true
    }

    fn filter(&self, components: &Vec<ComponentTypeId>, tags: &Vec<TagTypeId>) -> (r: bool) {
        true
    }
}

impl ChunkFilter for Passthrough {
    open spec fn cmatches(&self, ids: Seq<TagTypeId>, values: Seq<TagValue>) -> bool {
        true
    }

    fn filter(&self, tags: &Vec<(TagTypeId, TagValue)>) -> (r: bool) {
        true
    }
}

/// Accepts exactly what its inner filter rejects.
#[derive(Clone, Copy, Debug)]
pub struct Not<F> {
    pub filter: F,
}

impl<F: ArchetypeFilter> ArchetypeFilter for Not<F> {
    open spec fn amatches(&self, components: Seq<ComponentTypeId>, tags: Seq<TagTypeId>) -> bool {
        !self.filter.amatches(components, tags)
    }

    fn filter(&self, components: &Vec<ComponentTypeId>, tags: &Vec<TagTypeId>) -> (r: bool) {
        !self.filter.filter(components, tags)
    }
}

impl<F: ChunkFilter> ChunkFilter for Not<F> {
    open spec fn cmatches(&self, ids: Seq<TagTypeId>, values: Seq<TagValue>) -> bool {
        !self.filter.cmatches(ids, values)
    }

    fn filter(&self, tags: &Vec<(TagTypeId, TagValue)>) -> (r: bool) {
        !self.filter.filter(tags)
    }
}

/// Accepts what both of its parts accept.
#[derive(Clone, Copy, Debug)]
pub struct And<A, B> {
    pub a: A,
    pub b: B,
}

impl<A: ArchetypeFilter, B: ArchetypeFilter> ArchetypeFilter for And<A, B> {
    open spec fn amatches(&self, components: Seq<ComponentTypeId>, tags: Seq<TagTypeId>) -> bool {
        self.a.amatches(components, tags) && self.b.amatches(components, tags)
    }

    fn filter(&self, components: &Vec<ComponentTypeId>, tags: &Vec<TagTypeId>) -> (r: bool) {
        let ra = self.a.filter(components, tags);
        let rb = self.b.filter(components, tags);
        ra && rb
    }
}

impl<A: ChunkFilter, B: ChunkFilter> ChunkFilter for And<A, B> {
    open spec fn cmatches(&self, ids: Seq<TagTypeId>, values: Seq<TagValue>) -> bool {
        self.a.cmatches(ids, values) && self.b.cmatches(ids, values)
    }

    fn filter(&self, tags: &Vec<(TagTypeId, TagValue)>) -> (r: bool) {
        let ra = self.a.filter(tags);
        let rb = self.b.filter(tags);
        ra && rb
    }
}

/// Accepts archetypes that carry a component type.
#[derive(Clone, Copy, Debug)]
pub struct EntityDataFilter(pub ComponentTypeId);

impl EntityDataFilter {
    pub fn new(t: ComponentTypeId) -> (r: EntityDataFilter)
        ensures
            r == EntityDataFilter(t),
    {
        EntityDataFilter(t)
    }
}

impl ArchetypeFilter for EntityDataFilter {
    open spec fn amatches(&self, components: Seq<ComponentTypeId>, tags: Seq<TagTypeId>) -> bool {
        components.contains(self.0)
    }

    fn filter(&self, components: &Vec<ComponentTypeId>, tags: &Vec<TagTypeId>) -> (r: bool) {
        crate::storage::contains_id(components, self.0)
    }
}

/// Accepts archetypes that carry a tag type.
#[derive(Clone, Copy, Debug)]
pub struct SharedDataFilter(pub TagTypeId);

impl SharedDataFilter {
    pub fn new(t: TagTypeId) -> (r: SharedDataFilter)
        ensures
            r == SharedDataFilter(t),
    {
        SharedDataFilter(t)
    }
}

impl ArchetypeFilter for SharedDataFilter {
    open spec fn amatches(&self, components: Seq<ComponentTypeId>, tags: Seq<TagTypeId>) -> bool {
        tags.contains(self.0)
    }

    fn filter(&self, components: &Vec<ComponentTypeId>, tags: &Vec<TagTypeId>) -> (r: bool) {
        crate::storage::contains_id(tags, self.0)
    }
}

/// Accepts chunks whose cell for a tag type holds one exact value.
#[derive(Clone, Copy, Debug)]
pub struct SharedDataValueFilter {
    pub tag: TagTypeId,
    pub value: TagValue,
}

impl SharedDataValueFilter {
    pub fn new(tag: TagTypeId, value: TagValue) -> (r: SharedDataValueFilter)
        ensures
            r == (SharedDataValueFilter { tag, value }),
    {
        SharedDataValueFilter { tag, value }
    }
}

impl ChunkFilter for SharedDataValueFilter {
    open spec fn cmatches(&self, ids: Seq<TagTypeId>, values: Seq<TagValue>) -> bool {
        exists|m: int| 0 <= m < ids.len() && (#[trigger] ids[m]) == self.tag && values[m] == self.value
    }

    fn filter(&self, tags: &Vec<(TagTypeId, TagValue)>) -> (r: bool) {
        let n = tags.len();
        let mut m: usize = 0;
        while m < n
            invariant
                n == tags@.len(),
                m <= n,
                forall|q: int|
                    0 <= q < m ==> !((#[trigger] tags@[q]).0 == self.tag && tags@[q].1
                        == self.value),
            decreases n - m,
        {
            if tags[m].0 == self.tag && tags[m].1 == self.value {
                proof {
                    assert(tag_ids(tags@)[m as int] == self.tag);
                    assert(tag_values(tags@)[m as int] == self.value);
                }
                return true;
            }
            m += 1;
        }
        proof {
            if self.cmatches(tag_ids(tags@), tag_values(tags@)) {
                let q = choose|q: int|
                    0 <= q < tag_ids(tags@).len() && (#[trigger] tag_ids(tags@)[q]) == self.tag
                        && tag_values(tags@)[q] == self.value;
                assert(tags@[q].0 == self.tag && tags@[q].1 == self.value);
            }
        }
        false
    }
}

/// Accepts archetypes that carry every component and tag type a view needs.
#[derive(Debug)]
pub struct ViewFilter {
    pub components: Vec<ComponentTypeId>,
    pub tags: Vec<TagTypeId>,
}

impl ArchetypeFilter for ViewFilter {
    open spec fn amatches(&self, components: Seq<ComponentTypeId>, tags: Seq<TagTypeId>) -> bool {
        &&& forall|m: int|
            0 <= m < self.components@.len() ==> components.contains(#[trigger] self.components@[m])
        &&& forall|m: int| 0 <= m < self.tags@.len() ==> tags.contains(#[trigger] self.tags@[m])
    }

    fn filter(&self, components: &Vec<ComponentTypeId>, tags: &Vec<TagTypeId>) -> (r: bool) {
        let n = self.components.len();
        let mut m: usize = 0;
        while m < n
            invariant
                n == self.components@.len(),
                m <= n,
                forall|q: int| 0 <= q < m ==> components@.contains(#[trigger] self.components@[q]),
            decreases n - m,
        {
            if !crate::storage::contains_id(components, self.components[m]) {
                return false;
            }
            m += 1;
        }
        let tn = self.tags.len();
        let mut k: usize = 0;
        while k < tn
            invariant
                n == self.components@.len(),
                forall|q: int| 0 <= q < n ==> components@.contains(#[trigger] self.components@[q]),
                tn == self.tags@.len(),
                k <= tn,
                forall|q: int| 0 <= q < k ==> tags@.contains(#[trigger] self.tags@[q]),
            decreases tn - k,
        {
            if !crate::storage::contains_id(tags, self.tags[k]) {
                return false;
            }
            k += 1;
        }
        true
    }
}

/// One produced cell: a component value, or the chunk's tag value repeated
/// for the slot.
#[derive(Clone, Copy, PartialEq, Eq, Structural, Debug)]
pub enum ViewItem<C> {
    Component(C),
    Tag(TagValue),
}

/// The chunk stores every column and tag cell the view asks for.
pub open spec fn view_applicable<C>(view: DataView, chunk: Chunk<C>) -> bool {
    forall|m: int|
        0 <= m < view.elements@.len() ==> match #[trigger] view.elements@[m] {
            ViewElement::Component(t) => chunk.has_column(t),
            ViewElement::ComponentMut(t) => chunk.has_column(t),
            ViewElement::Tag(t) => chunk.has_tag(t),
        }
}

/// The cell the view's axis `m` produces for slot `s` of a chunk.
pub open spec fn view_item_of<C>(view: DataView, chunk: Chunk<C>, s: int, m: int) -> ViewItem<C>
    recommends
        0 <= m < view.elements@.len(),
{
    match view.elements@[m] {
        ViewElement::Component(t) => ViewItem::Component(chunk.column(t)[s]),
        ViewElement::ComponentMut(t) => ViewItem::Component(chunk.column(t)[s]),
        ViewElement::Tag(t) => ViewItem::Tag(chunk.tag_value(t)),
    }
}

/// The row a view produces for one slot of one chunk.
pub fn row_of_slot<C: Copy>(view: &DataView, chunk: &Chunk<C>, s: usize) -> (r: Vec<ViewItem<C>>)
    requires
        chunk.wf(),
        view_applicable(*view, *chunk),
        s < chunk.entities@.len(),
    ensures
        r@.len() == view.elements@.len(),
        forall|m: int|
            0 <= m < view.elements@.len() ==> r@[m] == view_item_of(*view, *chunk, s as int, m),
{
    let mut r: Vec<ViewItem<C>> = Vec::new();
    let n = view.elements.len();
    let mut m: usize = 0;
    while m < n
        invariant
            chunk.wf(),
            view_applicable(*view, *chunk),
            s < chunk.entities@.len(),
            n == view.elements@.len(),
            m <= n,
            r@.len() == m,
            forall|q: int|
                0 <= q < m ==> r@[q] == view_item_of(*view, *chunk, s as int, q),
        decreases n - m,
    {
        let item = match view.elements[m] {
            ViewElement::Component(t) => {
                proof {
                    assert(chunk.has_column(t));
                    assert(chunk.column(t).len() == chunk.entities@.len()) by {
                        let j = chunk.col_index_of(t);
                        assert(0 <= j < chunk.columns@.len() && chunk.columns@[j].0 == t) by {
                            let q = choose|q: int|
                                0 <= q < column_ids(chunk.columns@).len() && column_ids(
                                    chunk.columns@,
                                )[q] == t;
                            assert(chunk.columns@[q].0 == t);
                        }
                    }
                }
                ViewItem::Component(chunk.component_at(t, s))
            },
            ViewElement::ComponentMut(t) => {
                proof {
                    assert(chunk.has_column(t));
                    assert(chunk.column(t).len() == chunk.entities@.len()) by {
                        let j = chunk.col_index_of(t);
                        assert(0 <= j < chunk.columns@.len() && chunk.columns@[j].0 == t) by {
                            let q = choose|q: int|
                                0 <= q < column_ids(chunk.columns@).len() && column_ids(
                                    chunk.columns@,
                                )[q] == t;
                            assert(chunk.columns@[q].0 == t);
                        }
                    }
                }
                ViewItem::Component(chunk.component_at(t, s))
            },
            ViewElement::Tag(t) => {
                let v = chunk.shared(t);
                ViewItem::Tag(v.unwrap())
            },
        };
        r.push(item);
        m += 1;
    }
    r
}

/// A view bound to one chunk: produces that chunk's rows.
#[derive(Debug)]
pub struct ChunkView<'a, C> {
    pub chunk: &'a Chunk<C>,
    pub view: &'a DataView,
}

impl<'a, C: Copy> ChunkView<'a, C> {
    /// The entities of the chunk, in slot order.
    pub fn entities(&self) -> (r: &Vec<Entity>)
        ensures
            r@ == self.chunk.entities@,
    {
        self.chunk.entities()
    }

    /// One row per slot, each row one cell per view axis.
    pub fn data(&self) -> (r: Vec<Vec<ViewItem<C>>>)
        requires
            self.chunk.wf(),
            view_applicable(*self.view, *self.chunk),
        ensures
            r@.len() == self.chunk.entities@.len(),
            forall|s: int, m: int|
                0 <= s < r@.len() && 0 <= m < self.view.elements@.len()
                    ==> #[trigger] r@[s]@[m] == view_item_of(
                    *self.view,
                    *self.chunk,
                    s,
                    m,
                ) && r@[s]@.len() == self.view.elements@.len(),
    {
        let mut r: Vec<Vec<ViewItem<C>>> = Vec::new();
        let n = self.chunk.len();
        let mut s: usize = 0;
        while s < n
            invariant
                self.chunk.wf(),
                view_applicable(*self.view, *self.chunk),
                n == self.chunk.entities@.len(),
                s <= n,
                r@.len() == s,
                forall|s2: int, m: int|
                    0 <= s2 < s && 0 <= m < self.view.elements@.len() ==> #[trigger] r@[s2]@[m]
                        == view_item_of(*self.view, *self.chunk, s2, m) && r@[s2]@.len()
                        == self.view.elements@.len(),
            decreases n - s,
        {
            let row = row_of_slot(self.view, self.chunk, s);
            r.push(row);
            s += 1;
        }
        r
    }

    /// The rows zipped with the chunk's entities.
    pub fn data_with_entities(&self) -> (r: Vec<(Entity, Vec<ViewItem<C>>)>)
        requires
            self.chunk.wf(),
            view_applicable(*self.view, *self.chunk),
        ensures
            r@.len() == self.chunk.entities@.len(),
            forall|s: int|
                0 <= s < r@.len() ==> (#[trigger] r@[s]).0 == self.chunk.entities@[s],
            forall|s: int, m: int|
                0 <= s < r@.len() && 0 <= m < self.view.elements@.len()
                    ==> #[trigger] r@[s].1@[m] == view_item_of(
                    *self.view,
                    *self.chunk,
                    s,
                    m,
                ) && r@[s].1@.len() == self.view.elements@.len(),
    {
        let mut r: Vec<(Entity, Vec<ViewItem<C>>)> = Vec::new();
        let n = self.chunk.len();
        let mut s: usize = 0;
        while s < n
            invariant
                self.chunk.wf(),
                view_applicable(*self.view, *self.chunk),
                n == self.chunk.entities@.len(),
                s <= n,
                r@.len() == s,
                forall|s2: int|
                    0 <= s2 < s ==> (#[trigger] r@[s2]).0 == self.chunk.entities@[s2],
                forall|s2: int, m: int|
                    0 <= s2 < s && 0 <= m < self.view.elements@.len() ==> #[trigger] r@[s2].1@[m]
                        == view_item_of(*self.view, *self.chunk, s2, m) && r@[s2].1@.len()
                        == self.view.elements@.len(),
            decreases n - s,
        {
            let row = row_of_slot(self.view, self.chunk, s);
            let e = self.chunk.entities[s];
            r.push((e, row));
            s += 1;
        }
        r
    }
}

/// A view paired with its filters; a plain value until evaluated.
#[derive(Debug)]
pub struct Query<A, F> {
    pub view: DataView,
    pub arch_filter: A,
    pub chunk_filter: F,
}

/// A shared read of one component column.
#[derive(Clone, Copy, Debug)]
pub struct Read(pub ComponentTypeId);

/// An exclusive write of one component column.
#[derive(Clone, Copy, Debug)]
pub struct Write(pub ComponentTypeId);

/// A read of one per-chunk tag value.
#[derive(Clone, Copy, Debug)]
pub struct Shared(pub TagTypeId);

impl Read {
    /// A query over this single column, filtered to archetypes that have it.
    pub fn query(self) -> (q: Query<EntityDataFilter, Passthrough>)
        ensures
            q.view.elements@ == seq![ViewElement::Component(self.0)],
            q.arch_filter == EntityDataFilter(self.0),
    {
        Query {
            view: DataView::new().with_read(self.0),
            arch_filter: EntityDataFilter(self.0),
            chunk_filter: Passthrough,
        }
    }
}

impl Write {
    /// A query writing this single column, filtered to archetypes that have
    /// it.
    pub fn query(self) -> (q: Query<EntityDataFilter, Passthrough>)
        ensures
            q.view.elements@ == seq![ViewElement::ComponentMut(self.0)],
            q.arch_filter == EntityDataFilter(self.0),
    {
        Query {
            view: DataView::new().with_write(self.0),
            arch_filter: EntityDataFilter(self.0),
            chunk_filter: Passthrough,
        }
    }
}

impl Shared {
    /// A query over this tag value, filtered to archetypes that carry it.
    pub fn query(self) -> (q: Query<SharedDataFilter, Passthrough>)
        ensures
            q.view.elements@ == seq![ViewElement::Tag(self.0)],
            q.arch_filter == SharedDataFilter(self.0),
    {
        Query {
            view: DataView::new().with_shared(self.0),
            arch_filter: SharedDataFilter(self.0),
            chunk_filter: Passthrough,
        }
    }
}

impl DataView {
    /// A query over this view, with the view's own default archetype filter:
    /// every component and tag the view touches must be present.
    pub fn query(self) -> (q: Query<ViewFilter, Passthrough>)
        ensures
            q.view == self,
            forall|t: ComponentTypeId|
                q.arch_filter.components@.contains(t) == self.requires_component(t),
            forall|t: TagTypeId| q.arch_filter.tags@.contains(t) == self.requires_tag(t),
    {
        let mut components: Vec<ComponentTypeId> = Vec::new();
        let mut tags: Vec<TagTypeId> = Vec::new();
        let n = self.elements.len();
        let mut m: usize = 0;
        while m < n
            invariant
                n == self.elements@.len(),
                m <= n,
                forall|t: ComponentTypeId|
                    components@.contains(t) == (exists|q2: int|
                        0 <= q2 < m && ((#[trigger] self.elements@[q2])
                            == ViewElement::Component(t) || self.elements@[q2]
                            == ViewElement::ComponentMut(t))),
                forall|t: TagTypeId|
                    tags@.contains(t) == (exists|q2: int|
                        0 <= q2 < m && (#[trigger] self.elements@[q2]) == ViewElement::Tag(t)),
            decreases n - m,
        {
            let ghost comps0 = components@;
            let ghost tags0 = tags@;
            match self.elements[m] {
                ViewElement::Component(t) => {
                    components.push(t);
                },
                ViewElement::ComponentMut(t) => {
                    components.push(t);
                },
                ViewElement::Tag(t) => {
                    tags.push(t);
                },
            }
            proof {
                let mi = m as int;
                assert forall|t: ComponentTypeId|
                    components@.contains(t) == (exists|q2: int|
                        0 <= q2 < mi + 1 && ((#[trigger] self.elements@[q2])
                            == ViewElement::Component(t) || self.elements@[q2]
                            == ViewElement::ComponentMut(t))) by {
                    if components@.contains(t) {
                        let w = choose|w: int|
                            0 <= w < components@.len() && components@[w] == t;
                        if w < comps0.len() {
                            assert(comps0[w] == t);
                            assert(comps0.contains(t));
                        } else {
                            assert(self.elements@[mi] == ViewElement::Component(t)
                                || self.elements@[mi] == ViewElement::ComponentMut(t));
                        }
                    }
                    if exists|q2: int|
                        0 <= q2 < mi + 1 && ((#[trigger] self.elements@[q2])
                            == ViewElement::Component(t) || self.elements@[q2]
                            == ViewElement::ComponentMut(t)) {
                        let q2 = choose|q2: int|
                            0 <= q2 < mi + 1 && ((#[trigger] self.elements@[q2])
                                == ViewElement::Component(t) || self.elements@[q2]
                                == ViewElement::ComponentMut(t));
                        if q2 < mi {
                            assert(comps0.contains(t));
                            let w = choose|w: int| 0 <= w < comps0.len() && comps0[w] == t;
                            assert(components@[w] == t);
                        } else {
                            assert(components@[components@.len() - 1] == t);
                        }
                    }
                }
                assert forall|t: TagTypeId|
                    tags@.contains(t) == (exists|q2: int|
                        0 <= q2 < mi + 1 && (#[trigger] self.elements@[q2]) == ViewElement::Tag(
                            t,
                        )) by {
                    if tags@.contains(t) {
                        let w = choose|w: int| 0 <= w < tags@.len() && tags@[w] == t;
                        if w < tags0.len() {
                            assert(tags0[w] == t);
                            assert(tags0.contains(t));
                        } else {
                            assert(self.elements@[mi] == ViewElement::Tag(t));
                        }
                    }
                    if exists|q2: int|
                        0 <= q2 < mi + 1 && (#[trigger] self.elements@[q2]) == ViewElement::Tag(
                            t,
                        ) {
                        let q2 = choose|q2: int|
                            0 <= q2 < mi + 1 && (#[trigger] self.elements@[q2])
                                == ViewElement::Tag(t);
                        if q2 < mi {
                            assert(tags0.contains(t));
                            let w = choose|w: int| 0 <= w < tags0.len() && tags0[w] == t;
                            assert(tags@[w] == t);
                        } else {
                            assert(tags@[tags@.len() - 1] == t);
                        }
                    }
                }
            }
            m += 1;
        }
        Query { view: self, arch_filter: ViewFilter { components, tags }, chunk_filter: Passthrough }
    }
}

impl<A: ArchetypeFilter, F: ChunkFilter> Query<A, F> {
    /// Narrow to archetypes that also carry component type `t`.
    pub fn with_entity_data(self, t: ComponentTypeId) -> (q: Query<And<A, EntityDataFilter>, F>)
        ensures
            q.view == self.view,
            q.arch_filter == (And { a: self.arch_filter, b: EntityDataFilter(t) }),
            q.chunk_filter == self.chunk_filter,
    {
        Query {
            view: self.view,
            arch_filter: And { a: self.arch_filter, b: EntityDataFilter::new(t) },
            chunk_filter: self.chunk_filter,
        }
    }

    /// Narrow to archetypes that do not carry component type `t`.
    pub fn without_entity_data(self, t: ComponentTypeId) -> (q: Query<
        And<A, Not<EntityDataFilter>>,
        F,
    >)
        ensures
            q.view == self.view,
            q.arch_filter == (And {
                a: self.arch_filter,
                b: Not { filter: EntityDataFilter(t) },
            }),
            q.chunk_filter == self.chunk_filter,
    {
        Query {
            view: self.view,
            arch_filter: And { a: self.arch_filter, b: Not { filter: EntityDataFilter::new(t) } },
            chunk_filter: self.chunk_filter,
        }
    }

    /// Narrow to archetypes that also carry tag type `t`.
    pub fn with_shared_data(self, t: TagTypeId) -> (q: Query<And<A, SharedDataFilter>, F>)
        ensures
            q.view == self.view,
            q.arch_filter == (And { a: self.arch_filter, b: SharedDataFilter(t) }),
            q.chunk_filter == self.chunk_filter,
    {
        Query {
            view: self.view,
            arch_filter: And { a: self.arch_filter, b: SharedDataFilter::new(t) },
            chunk_filter: self.chunk_filter,
        }
    }

    /// Narrow to archetypes that do not carry tag type `t`.
    pub fn without_shared_data(self, t: TagTypeId) -> (q: Query<
        And<A, Not<SharedDataFilter>>,
        F,
    >)
        ensures
            q.view == self.view,
            q.arch_filter == (And {
                a: self.arch_filter,
                b: Not { filter: SharedDataFilter(t) },
            }),
            q.chunk_filter == self.chunk_filter,
    {
        Query {
            view: self.view,
            arch_filter: And { a: self.arch_filter, b: Not { filter: SharedDataFilter::new(t) } },
            chunk_filter: self.chunk_filter,
        }
    }

    /// Narrow to chunks whose cell for tag type `t` holds `value`.
    pub fn with_shared_data_value(self, t: TagTypeId, value: TagValue) -> (q: Query<
        A,
        And<F, SharedDataValueFilter>,
    >)
        ensures
            q.view == self.view,
            q.arch_filter == self.arch_filter,
            q.chunk_filter == (And {
                a: self.chunk_filter,
                b: SharedDataValueFilter { tag: t, value },
            }),
    {
        Query {
            view: self.view,
            arch_filter: self.arch_filter,
            chunk_filter: And { a: self.chunk_filter, b: SharedDataValueFilter::new(t, value) },
        }
    }

    /// Narrow to chunks whose cell for tag type `t` does not hold `value`.
    pub fn without_shared_data_value(self, t: TagTypeId, value: TagValue) -> (q: Query<
        A,
        And<F, Not<SharedDataValueFilter>>,
    >)
        ensures
            q.view == self.view,
            q.arch_filter == self.arch_filter,
            q.chunk_filter == (And {
                a: self.chunk_filter,
                b: Not { filter: SharedDataValueFilter { tag: t, value } },
            }),
    {
        Query {
            view: self.view,
            arch_filter: self.arch_filter,
            chunk_filter: And {
                a: self.chunk_filter,
                b: Not { filter: SharedDataValueFilter::new(t, value) },
            },
        }
    }
}

/// Whether archetype `a` of the world passes the archetype filter.
pub open spec fn arch_passes<C, A: ArchetypeFilter>(f: A, w: World<C>, a: int) -> bool
    recommends
        0 <= a < w.archetypes@.len(),
{
    f.amatches(w.archetypes@[a].components@, w.archetypes@[a].tags@)
}

/// Whether chunk `c` of archetype `a` passes the chunk filter.
pub open spec fn chunk_passes<C, F: ChunkFilter>(f: F, w: World<C>, a: int, c: int) -> bool
    recommends
        0 <= a < w.archetypes@.len(),
        0 <= c < w.archetypes@[a].chunks@.len(),
{
    f.cmatches(
        tag_ids(w.archetypes@[a].chunks@[c].tags@),
        tag_values(w.archetypes@[a].chunks@[c].tags@),
    )
}

/// Strict order of storage locations: archetype, then chunk, then slot.
pub open spec fn loc_lt(l1: Location, l2: Location) -> bool {
    ||| l1.archetype < l2.archetype
    ||| (l1.archetype == l2.archetype && l1.chunk < l2.chunk)
    ||| (l1.archetype == l2.archetype && l1.chunk == l2.chunk && l1.slot < l2.slot)
}

impl<A: ArchetypeFilter, F: ChunkFilter> Query<A, F> {
    /// The coordinates of every chunk the query selects: exactly the pairs
    /// whose archetype passes the archetype filter and whose chunk passes
    /// the chunk filter, in (archetype insertion order) x (chunk insertion
    /// order).
    pub fn into_chunks<C>(&self, world: &World<C>) -> (r: Vec<(usize, usize)>)
        requires
            world.wf(),
        ensures
            forall|k: int|
                0 <= k < r@.len() ==> {
                    let (a, c) = #[trigger] r@[k];
                    &&& (a as int) < world.archetypes@.len()
                    &&& (c as int) < world.archetypes@[a as int].chunks@.len()
                    &&& arch_passes(self.arch_filter, *world, a as int)
                    &&& chunk_passes(self.chunk_filter, *world, a as int, c as int)
                },
            forall|a: int, c: int|
                0 <= a < world.archetypes@.len() && 0 <= c < world.archetypes@[a].chunks@.len()
                    && arch_passes(self.arch_filter, *world, a) && chunk_passes(
                    self.chunk_filter,
                    *world,
                    a,
                    c,
                ) ==> r@.contains((a as usize, c as usize)),
            forall|k1: int, k2: int|
                0 <= k1 < k2 < r@.len() ==> (r@[k1].0 < r@[k2].0 || (r@[k1].0 == r@[k2].0
                    && r@[k1].1 < r@[k2].1)),
    {
        let mut r: Vec<(usize, usize)> = Vec::new();
        let na = world.archetypes.len();
        let mut a: usize = 0;
        while a < na
            invariant
                world.wf(),
                na == world.archetypes@.len(),
                a <= na,
                forall|k: int|
                    0 <= k < r@.len() ==> {
                        let (a2, c2) = #[trigger] r@[k];
                        &&& (a2 as int) < world.archetypes@.len()
                        &&& (c2 as int) < world.archetypes@[a2 as int].chunks@.len()
                        &&& (a2 as int) < a
                        &&& arch_passes(self.arch_filter, *world, a2 as int)
                        &&& chunk_passes(self.chunk_filter, *world, a2 as int, c2 as int)
                    },
                forall|a2: int, c2: int|
                    0 <= a2 < a && 0 <= c2 < world.archetypes@[a2].chunks@.len() && arch_passes(
                        self.arch_filter,
                        *world,
                        a2,
                    ) && chunk_passes(self.chunk_filter, *world, a2, c2) ==> r@.contains((
                        a2 as usize,
                        c2 as usize,
                    )),
                forall|k1: int, k2: int|
                    0 <= k1 < k2 < r@.len() ==> (r@[k1].0 < r@[k2].0 || (r@[k1].0 == r@[k2].0
                        && r@[k1].1 < r@[k2].1)),
            decreases na - a,
        {
            let passes_arch = self.arch_filter.filter(
                &world.archetypes[a].components,
                &world.archetypes[a].tags,
            );
            if passes_arch {
                let nc = world.archetypes[a].chunk_count();
                let mut c: usize = 0;
                while c < nc
                    invariant
                        world.wf(),
                        na == world.archetypes@.len(),
                        a < na,
                        nc == world.archetypes@[a as int].chunks@.len(),
                        c <= nc,
                        arch_passes(self.arch_filter, *world, a as int),
                        forall|k: int|
                            0 <= k < r@.len() ==> {
                                let (a2, c2) = #[trigger] r@[k];
                                &&& (a2 as int) < world.archetypes@.len()
                                &&& (c2 as int) < world.archetypes@[a2 as int].chunks@.len()
                                &&& ((a2 as int) < a || (a2 == a && (c2 as int) < c))
                                &&& arch_passes(self.arch_filter, *world, a2 as int)
                                &&& chunk_passes(self.chunk_filter, *world, a2 as int, c2 as int)
                            },
                        forall|a2: int, c2: int|
                            0 <= a2 < a && 0 <= c2 < world.archetypes@[a2].chunks@.len()
                                && arch_passes(self.arch_filter, *world, a2) && chunk_passes(
                                self.chunk_filter,
                                *world,
                                a2,
                                c2,
                            ) ==> r@.contains((a2 as usize, c2 as usize)),
                        forall|c2: int|
                            0 <= c2 < c && chunk_passes(self.chunk_filter, *world, a as int, c2)
                                ==> r@.contains((a, c2 as usize)),
                        forall|k1: int, k2: int|
                            0 <= k1 < k2 < r@.len() ==> (r@[k1].0 < r@[k2].0 || (r@[k1].0
                                == r@[k2].0 && r@[k1].1 < r@[k2].1)),
                    decreases nc - c,
                {
                    let passes_chunk = self.chunk_filter.filter(
                        &world.archetypes[a].chunks[c].tags,
                    );
                    if passes_chunk {
                        let ghost r0 = r@;
                        r.push((a, c));
                        proof {
                            assert forall|a2: int, c2: int|
                                0 <= a2 < a && 0 <= c2 < world.archetypes@[a2].chunks@.len()
                                    && arch_passes(self.arch_filter, *world, a2) && chunk_passes(
                                    self.chunk_filter,
                                    *world,
                                    a2,
                                    c2,
                                ) implies r@.contains((a2 as usize, c2 as usize)) by {
                                assert(r0.contains((a2 as usize, c2 as usize)));
                                let k = choose|k: int|
                                    0 <= k < r0.len() && r0[k] == (a2 as usize, c2 as usize);
                                assert(r@[k] == (a2 as usize, c2 as usize));
                            }
                            assert forall|c2: int|
                                0 <= c2 < c + 1 && chunk_passes(
                                    self.chunk_filter,
                                    *world,
                                    a as int,
                                    c2,
                                ) implies r@.contains((a, c2 as usize)) by {
                                if c2 < c {
                                    assert(r0.contains((a, c2 as usize)));
                                    let k = choose|k: int|
                                        0 <= k < r0.len() && r0[k] == (a, c2 as usize);
                                    assert(r@[k] == (a, c2 as usize));
                                } else {
                                    assert(r@[r@.len() - 1] == (a, c as usize));
                                }
                            }
                        }
                    } else {
                        proof {
                            assert forall|c2: int|
                                0 <= c2 < c + 1 && chunk_passes(
                                    self.chunk_filter,
                                    *world,
                                    a as int,
                                    c2,
                                ) implies r@.contains((a, c2 as usize)) by {
                                if c2 == c as int {
                                    assert(!chunk_passes(self.chunk_filter, *world, a as int, c2));
                                }
                            }
                        }
                    }
                    c += 1;
                }
            }
            a += 1;
        }
        r
    }
}

impl<A: ArchetypeFilter, F: ChunkFilter> Query<A, F> {
    /// Evaluate the query: every located entity whose archetype passes the
    /// archetype filter and whose chunk passes the chunk filter, each
    /// exactly once, in storage order, paired with the view's row for its
    /// slot.
    pub fn into_data_with_entities<C: Copy>(&self, world: &World<C>) -> (r: Vec<
        (Entity, Vec<ViewItem<C>>),
    >)
        requires
            world.wf(),
            forall|a: int, c: int|
                0 <= a < world.archetypes@.len() && 0 <= c < world.archetypes@[a].chunks@.len()
                    && arch_passes(self.arch_filter, *world, a) && #[trigger] chunk_passes(
                    self.chunk_filter,
                    *world,
                    a,
                    c,
                ) ==> view_applicable(self.view, world.archetypes@[a].chunks@[c]),
        ensures
            forall|k: int|
                0 <= k < r@.len() ==> {
                    let e = (#[trigger] r@[k]).0;
                    let l = world.entities.loc_of(e);
                    &&& world.entities.has(e)
                    &&& arch_passes(self.arch_filter, *world, l.archetype as int)
                    &&& chunk_passes(self.chunk_filter, *world, l.archetype as int, l.chunk as int)
                    &&& r@[k].1@.len() == self.view.elements@.len()
                    &&& forall|m: int|
                        0 <= m < self.view.elements@.len() ==> #[trigger] r@[k].1@[m]
                            == view_item_of(
                            self.view,
                            world.archetypes@[l.archetype as int].chunks@[l.chunk as int],
                            l.slot as int,
                            m,
                        )
                },
            forall|e: Entity| #![trigger world.entities.has(e)]
                world.entities.has(e) && arch_passes(
                    self.arch_filter,
                    *world,
                    world.entities.loc_of(e).archetype as int,
                ) && chunk_passes(
                    self.chunk_filter,
                    *world,
                    world.entities.loc_of(e).archetype as int,
                    world.entities.loc_of(e).chunk as int,
                ) ==> exists|k: int| 0 <= k < r@.len() && (#[trigger] r@[k]).0 == e,
            forall|k1: int, k2: int|
                0 <= k1 < k2 < r@.len() ==> loc_lt(
                    world.entities.loc_of(r@[k1].0),
                    world.entities.loc_of(r@[k2].0),
                ),
    {
        let pairs = self.into_chunks(world);
        let mut r: Vec<(Entity, Vec<ViewItem<C>>)> = Vec::new();
        let np = pairs.len();
        let mut p: usize = 0;
        while p < np
            invariant
                world.wf(),
                forall|a: int, c: int|
                    0 <= a < world.archetypes@.len() && 0 <= c < world.archetypes@[a].chunks@.len()
                        && arch_passes(self.arch_filter, *world, a) && #[trigger] chunk_passes(
                        self.chunk_filter,
                        *world,
                        a,
                        c,
                    ) ==> view_applicable(self.view, world.archetypes@[a].chunks@[c]),
                np == pairs@.len(),
                p <= np,
                forall|k: int|
                    0 <= k < pairs@.len() ==> {
                        let (a, c) = #[trigger] pairs@[k];
                        &&& (a as int) < world.archetypes@.len()
                        &&& (c as int) < world.archetypes@[a as int].chunks@.len()
                        &&& arch_passes(self.arch_filter, *world, a as int)
                        &&& chunk_passes(self.chunk_filter, *world, a as int, c as int)
                    },
                forall|a: int, c: int|
                    0 <= a < world.archetypes@.len() && 0 <= c < world.archetypes@[a].chunks@.len()
                        && arch_passes(self.arch_filter, *world, a) && chunk_passes(
                        self.chunk_filter,
                        *world,
                        a,
                        c,
                    ) ==> pairs@.contains((a as usize, c as usize)),
                forall|k1: int, k2: int|
                    0 <= k1 < k2 < pairs@.len() ==> (pairs@[k1].0 < pairs@[k2].0 || (pairs@[k1].0
                        == pairs@[k2].0 && pairs@[k1].1 < pairs@[k2].1)),
                forall|k: int|
                    0 <= k < r@.len() ==> {
                        let e = (#[trigger] r@[k]).0;
                        let l = world.entities.loc_of(e);
                        &&& world.entities.has(e)
                        &&& (exists|q: int|
                            0 <= q < p && (#[trigger] pairs@[q]) == (
                                l.archetype,
                                l.chunk,
                            ))
                        &&& r@[k].1@.len() == self.view.elements@.len()
                        &&& forall|m: int|
                            0 <= m < self.view.elements@.len() ==> #[trigger] r@[k].1@[m]
                                == view_item_of(
                                self.view,
                                world.archetypes@[l.archetype as int].chunks@[l.chunk as int],
                                l.slot as int,
                                m,
                            )
                    },
                forall|e: Entity| #![trigger world.entities.has(e)]
                    world.entities.has(e) && (exists|q: int|
                        0 <= q < p && (#[trigger] pairs@[q]) == (
                            world.entities.loc_of(e).archetype,
                            world.entities.loc_of(e).chunk,
                        )) ==> exists|k: int| 0 <= k < r@.len() && (#[trigger] r@[k]).0 == e,
                forall|k1: int, k2: int|
                    0 <= k1 < k2 < r@.len() ==> loc_lt(
                        world.entities.loc_of(r@[k1].0),
                        world.entities.loc_of(r@[k2].0),
                    ),
            decreases np - p,
        {
            let (a, c) = pairs[p];
            proof {
                assert(pairs@[p as int] == (a, c));
            }
            let ns = world.archetypes[a].chunks[c].len();
            let mut sidx: usize = 0;
            while sidx < ns
                invariant
                    world.wf(),
                    forall|a2: int, c2: int|
                        0 <= a2 < world.archetypes@.len() && 0 <= c2
                            < world.archetypes@[a2].chunks@.len() && arch_passes(
                            self.arch_filter,
                            *world,
                            a2,
                        ) && #[trigger] chunk_passes(self.chunk_filter, *world, a2, c2)
                            ==> view_applicable(self.view, world.archetypes@[a2].chunks@[c2]),
                    np == pairs@.len(),
                    p < np,
                    pairs@[p as int] == (a, c),
                    (a as int) < world.archetypes@.len(),
                    (c as int) < world.archetypes@[a as int].chunks@.len(),
                    arch_passes(self.arch_filter, *world, a as int),
                    chunk_passes(self.chunk_filter, *world, a as int, c as int),
                    ns == world.archetypes@[a as int].chunks@[c as int].entities@.len(),
                    sidx <= ns,
                    forall|k1: int, k2: int|
                        0 <= k1 < k2 < pairs@.len() ==> (pairs@[k1].0 < pairs@[k2].0 || (
                        pairs@[k1].0 == pairs@[k2].0 && pairs@[k1].1 < pairs@[k2].1)),
                    forall|k: int|
                        0 <= k < r@.len() ==> {
                            let e = (#[trigger] r@[k]).0;
                            let l = world.entities.loc_of(e);
                            &&& world.entities.has(e)
                            &&& ((exists|q: int|
                                0 <= q < p && (#[trigger] pairs@[q]) == (l.archetype, l.chunk))
                                || (l.archetype == a && l.chunk == c && l.slot < sidx))
                            &&& r@[k].1@.len() == self.view.elements@.len()
                            &&& forall|m: int|
                                0 <= m < self.view.elements@.len() ==> #[trigger] r@[k].1@[m]
                                    == view_item_of(
                                    self.view,
                                    world.archetypes@[l.archetype as int].chunks@[l.chunk as int],
                                    l.slot as int,
                                    m,
                                )
                        },
                    forall|e: Entity| #[trigger]
                        world.entities.has(e) && ((exists|q: int|
                            0 <= q < p && (#[trigger] pairs@[q]) == (
                                world.entities.loc_of(e).archetype,
                                world.entities.loc_of(e).chunk,
                            )) || (world.entities.loc_of(e).archetype == a
                            && world.entities.loc_of(e).chunk == c && world.entities.loc_of(
                            e,
                        ).slot < sidx)) ==> exists|k: int|
                            0 <= k < r@.len() && (#[trigger] r@[k]).0 == e,
                    forall|k1: int, k2: int|
                        0 <= k1 < k2 < r@.len() ==> loc_lt(
                            world.entities.loc_of(r@[k1].0),
                            world.entities.loc_of(r@[k2].0),
                        ),
                decreases ns - sidx,
            {
                let ghost r0 = r@;
                proof {
                    assert(world.archetypes@[a as int].wf());
                    assert(world.archetypes@[a as int].chunks@[c as int].wf());
                    assert(view_applicable(
                        self.view,
                        world.archetypes@[a as int].chunks@[c as int],
                    ));
                }
                let chunk_ref = &world.archetypes[a].chunks[c];
                let row = row_of_slot(&self.view, chunk_ref, sidx);
                let e = chunk_ref.entities[sidx];
                proof {
                    assert(world.archetypes@[a as int].chunks@[c as int].entities@[sidx as int]
                        == e);
                    assert(world.entities.has(e));
                    assert(world.entities.loc_of(e) == Location {
                        archetype: a,
                        chunk: c,
                        slot: sidx,
                    });
                }
                r.push((e, row));
                proof {
                    let le = world.entities.loc_of(e);
                    assert forall|k1: int, k2: int|
                        0 <= k1 < k2 < r@.len() implies loc_lt(
                        world.entities.loc_of(r@[k1].0),
                        world.entities.loc_of(r@[k2].0),
                    ) by {
                        if k2 == r@.len() - 1 {
                            assert(r@[k1] == r0[k1]);
                            let e1 = r0[k1].0;
                            let l1 = world.entities.loc_of(e1);
                            if exists|q: int|
                                0 <= q < p && (#[trigger] pairs@[q]) == (l1.archetype, l1.chunk) {
                                let q = choose|q: int|
                                    0 <= q < p && (#[trigger] pairs@[q]) == (
                                        l1.archetype,
                                        l1.chunk,
                                    );
                                assert(pairs@[q].0 < pairs@[p as int].0 || (pairs@[q].0
                                    == pairs@[p as int].0 && pairs@[q].1 < pairs@[p as int].1));
                            } else {
                                assert(l1.archetype == a && l1.chunk == c && l1.slot < sidx);
                            }
                        } else {
                            assert(r@[k1] == r0[k1]);
                            assert(r@[k2] == r0[k2]);
                        }
                    }
                    assert forall|e2: Entity| #![trigger world.entities.has(e2)]
                        world.entities.has(e2) && ((exists|q: int|
                            0 <= q < p && (#[trigger] pairs@[q]) == (
                                world.entities.loc_of(e2).archetype,
                                world.entities.loc_of(e2).chunk,
                            )) || (world.entities.loc_of(e2).archetype == a
                            && world.entities.loc_of(e2).chunk == c && world.entities.loc_of(
                            e2,
                        ).slot < sidx + 1)) implies exists|k: int|
                            0 <= k < r@.len() && (#[trigger] r@[k]).0 == e2 by {
                        let l2 = world.entities.loc_of(e2);
                        if l2.archetype == a && l2.chunk == c && l2.slot == sidx {
                            assert(world.archetypes@[a as int].chunks@[c as int].entities@[sidx as int]
                                == e2) by {
                                assert(world.loc_valid(l2, e2));
                            }
                            assert(e2 == e);
                            assert(r@[r@.len() - 1].0 == e2);
                        } else {
                            let k = choose|k: int| 0 <= k < r0.len() && (#[trigger] r0[k]).0 == e2;
                            assert(r@[k].0 == e2);
                        }
                    }
                    assert forall|k: int|
                        0 <= k < r@.len() implies {
                        let e2 = (#[trigger] r@[k]).0;
                        let l = world.entities.loc_of(e2);
                        &&& world.entities.has(e2)
                        &&& ((exists|q: int|
                            0 <= q < p && (#[trigger] pairs@[q]) == (l.archetype, l.chunk)) || (
                        l.archetype == a && l.chunk == c && l.slot < sidx + 1))
                        &&& r@[k].1@.len() == self.view.elements@.len()
                        &&& forall|m: int|
                            0 <= m < self.view.elements@.len() ==> #[trigger] r@[k].1@[m]
                                == view_item_of(
                                self.view,
                                world.archetypes@[l.archetype as int].chunks@[l.chunk as int],
                                l.slot as int,
                                m,
                            )
                    } by {
                        if k < r@.len() - 1 {
                            assert(r@[k] == r0[k]);
                        }
                    }
                }
                sidx += 1;
            }
            proof {
                assert forall|e2: Entity| #![trigger world.entities.has(e2)]
                    world.entities.has(e2) && (exists|q: int|
                        0 <= q < p + 1 && (#[trigger] pairs@[q]) == (
                            world.entities.loc_of(e2).archetype,
                            world.entities.loc_of(e2).chunk,
                        )) implies exists|k: int|
                        0 <= k < r@.len() && (#[trigger] r@[k]).0 == e2 by {
                    let l2 = world.entities.loc_of(e2);
                    let q = choose|q: int|
                        0 <= q < p + 1 && (#[trigger] pairs@[q]) == (l2.archetype, l2.chunk);
                    if q == p as int {
                        assert(l2.archetype == a && l2.chunk == c);
                        assert(world.loc_valid(l2, e2));
                        assert(l2.slot < ns);
                    }
                }
            }
            p += 1;
        }
        proof {
            assert forall|e: Entity| #![trigger world.entities.has(e)]
                world.entities.has(e) && arch_passes(
                    self.arch_filter,
                    *world,
                    world.entities.loc_of(e).archetype as int,
                ) && chunk_passes(
                    self.chunk_filter,
                    *world,
                    world.entities.loc_of(e).archetype as int,
                    world.entities.loc_of(e).chunk as int,
                ) implies exists|k: int| 0 <= k < r@.len() && (#[trigger] r@[k]).0 == e by {
                let l = world.entities.loc_of(e);
                assert(world.loc_valid(l, e));
                assert(pairs@.contains((l.archetype, l.chunk)));
                let q = choose|q: int|
                    0 <= q < pairs@.len() && pairs@[q] == (l.archetype, l.chunk);
            }
        }
        r
    }

    /// Evaluate the query, keeping only the rows: one row per matching
    /// entity, in the same storage order as `into_data_with_entities`.
    pub fn into_data<C: Copy>(&self, world: &World<C>) -> (r: Vec<Vec<ViewItem<C>>>)
        requires
            world.wf(),
            forall|a: int, c: int|
                0 <= a < world.archetypes@.len() && 0 <= c < world.archetypes@[a].chunks@.len()
                    && arch_passes(self.arch_filter, *world, a) && #[trigger] chunk_passes(
                    self.chunk_filter,
                    *world,
                    a,
                    c,
                ) ==> view_applicable(self.view, world.archetypes@[a].chunks@[c]),
        ensures
            exists|es: Seq<Entity>|
                {
                    &&& es.len() == r@.len()
                    &&& (forall|k: int|
                        0 <= k < r@.len() ==> {
                            let e = #[trigger] es[k];
                            let l = world.entities.loc_of(e);
                            &&& world.entities.has(e)
                            &&& arch_passes(self.arch_filter, *world, l.archetype as int)
                            &&& chunk_passes(
                                self.chunk_filter,
                                *world,
                                l.archetype as int,
                                l.chunk as int,
                            )
                            &&& (#[trigger] r@[k])@.len() == self.view.elements@.len()
                            &&& forall|m: int|
                                0 <= m < self.view.elements@.len() ==> #[trigger] r@[k]@[m]
                                    == view_item_of(
                                    self.view,
                                    world.archetypes@[l.archetype as int].chunks@[l.chunk as int],
                                    l.slot as int,
                                    m,
                                )
                        })
                    &&& (forall|e: Entity| #![trigger world.entities.has(e)]
                        world.entities.has(e) && arch_passes(
                            self.arch_filter,
                            *world,
                            world.entities.loc_of(e).archetype as int,
                        ) && chunk_passes(
                            self.chunk_filter,
                            *world,
                            world.entities.loc_of(e).archetype as int,
                            world.entities.loc_of(e).chunk as int,
                        ) ==> es.contains(e))
                },
    {
        let full = self.into_data_with_entities(world);
        let mut r: Vec<Vec<ViewItem<C>>> = Vec::new();
        let n = full.len();
        let mut k: usize = 0;
        while k < n
            invariant
                n == full@.len(),
                k <= n,
                r@.len() == k,
                forall|k2: int| 0 <= k2 < k ==> (#[trigger] r@[k2])@ == full@[k2].1@,
            decreases n - k,
        {
            let row = copy_row(&full[k].1);
            r.push(row);
            k += 1;
        }
        proof {
            let es = Seq::new(full@.len(), |k2: int| full@[k2].0);
            assert forall|e: Entity| #![trigger world.entities.has(e)]
                world.entities.has(e) && arch_passes(
                    self.arch_filter,
                    *world,
                    world.entities.loc_of(e).archetype as int,
                ) && chunk_passes(
                    self.chunk_filter,
                    *world,
                    world.entities.loc_of(e).archetype as int,
                    world.entities.loc_of(e).chunk as int,
                ) implies es.contains(e) by {
                let k2 = choose|k2: int| 0 <= k2 < full@.len() && (#[trigger] full@[k2]).0 == e;
                assert(es[k2] == e);
            }
            assert(es.len() == r@.len());
        }
        r
    }
}

/// A copy of one produced row.
pub fn copy_row<C: Copy>(row: &Vec<ViewItem<C>>) -> (r: Vec<ViewItem<C>>)
    ensures
        r@ == row@,
{
    let mut r: Vec<ViewItem<C>> = Vec::new();
    let n = row.len();
    let mut m: usize = 0;
    while m < n
        invariant
            n == row@.len(),
            m <= n,
            r@ =~= row@.subrange(0, m as int),
        decreases n - m,
    {
        r.push(row[m]);
        m += 1;
    }
    proof {
        assert(r@ =~= row@);
    }
    r
}

} // verus!



