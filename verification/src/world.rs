//! The world: an entity allocator, the archetype list, and the index from
//! each located entity to its (archetype, chunk, slot) position.
//!
//! The world maintains, at every observable point: location consistency (a
//! located entity is exactly the one stored in its slot's entity column),
//! column length parity inside every chunk, and archetype signature
//! uniqueness (no two archetypes share the same component-type-set and
//! tag-type-set pair).

use vstd::prelude::*;
use crate::entity::{BlockAllocator, Entity, EntityAllocator};
use crate::storage::{
    Archetype, ArchetypeID, ChunkID, ComponentID, ComponentTypeId, TagTypeId, TagValue,
    CHUNK_CAPACITY, column_ids, distinct_ids, lemma_chunk_same_columns, tag_ids, tag_values,
};

verus! {

/// Where a located entity lives: which archetype, which chunk, which slot.
#[derive(Clone, Copy, PartialEq, Eq, Structural, Debug)]
pub struct Location {
    pub archetype: ArchetypeID,
    pub chunk: ChunkID,
    pub slot: ComponentID,
}

/// An association from entities to locations, with each entity at most once.
#[derive(Debug)]
pub struct LocationMap {
    pub keys: Vec<Entity>,
    pub locs: Vec<Location>,
}

impl LocationMap {
    pub open spec fn wf(self) -> bool {
        &&& self.keys@.len() == self.locs@.len()
        &&& forall|i: int, j: int| 0 <= i < j < self.keys@.len() ==> self.keys@[i] != self.keys@[j]
    }

    pub open spec fn has(self, e: Entity) -> bool {
        self.keys@.contains(e)
    }

    pub open spec fn index_of(self, e: Entity) -> int {
        choose|i: int| 0 <= i < self.keys@.len() && self.keys@[i] == e
    }

    /// The location recorded for `e`.
    pub open spec fn loc_of(self, e: Entity) -> Location
        recommends
            self.has(e),
    {
        self.locs@[self.index_of(e)]
    }

    pub fn new() -> (r: LocationMap)
        ensures
            r.wf(),
            forall|e: Entity| !r.has(e),
    {
        let r = LocationMap { keys: Vec::new(), locs: Vec::new() };
        proof {
            assert forall|e: Entity| !r.has(e) by {
                if r.keys@.contains(e) {
                    let i = choose|i: int| 0 <= i < r.keys@.len() && r.keys@[i] == e;
                }
            }
        }
        r
    }

    /// The recorded location of `e`, if any.
    pub fn get(&self, e: Entity) -> (r: Option<Location>)
        requires
            self.wf(),
        ensures
            r == (if self.has(e) {
                Some(self.loc_of(e))
            } else {
                None::<Location>
            }),
    {
        let n = self.keys.len();
        let mut i: usize = 0;
        while i < n
            invariant
                self.wf(),
                n == self.keys@.len(),
                i <= n,
                forall|m: int| 0 <= m < i ==> self.keys@[m] != e,
            decreases n - i,
        {
            if self.keys[i] == e {
                proof {
                    assert(self.keys@.contains(e));
                    let ii = self.index_of(e);
                    assert(self.keys@[ii] == e);
                    if ii != i {
                        assert(self.keys@[ii] != self.keys@[i as int]);
                    }
                }
                return Some(self.locs[i]);
            }
            i += 1;
        }
        proof {
            if self.has(e) {
                let ii = self.index_of(e);
                assert(self.keys@[ii] == e);
            }
        }
        None
    }

    /// Record `loc` for `e`, replacing any earlier record.
    pub fn set(&mut self, e: Entity, loc: Location)
        requires
            old(self).wf(),
        ensures
            final(self).wf(),
            forall|x: Entity| final(self).has(x) == (old(self).has(x) || x == e),
            final(self).loc_of(e) == loc,
            forall|x: Entity|
                old(self).has(x) && x != e ==> final(self).loc_of(x) == old(self).loc_of(x),
    {
        let ghost m0 = *old(self);
        let n = self.keys.len();
        let mut i: usize = 0;
        while i < n
            invariant
                m0 == *old(self),
                *self == m0,
                m0.wf(),
                n == self.keys@.len(),
                i <= n,
                forall|m: int| 0 <= m < i ==> self.keys@[m] != e,
            decreases n - i,
        {
            if self.keys[i] == e {
                self.locs[i] = loc;
                proof {
                    let ii = i as int;
                    assert(self.keys@ == m0.keys@);
                    assert(self.locs@ == m0.locs@.update(ii, loc));
                    assert(m0.keys@[ii] == e);
                    assert(m0.has(e));
                    assert forall|x: Entity| self.has(x) == (m0.has(x) || x == e) by {}
                    assert(self.index_of(e) == ii) by {
                        let jj = self.index_of(e);
                        assert(self.keys@.contains(e));
                        assert(self.keys@[jj] == e);
                        if jj != ii {
                            assert(m0.keys@[jj] != m0.keys@[ii]);
                        }
                    }
                    assert forall|x: Entity|
                        m0.has(x) && x != e implies self.loc_of(x) == m0.loc_of(x) by {
                        let jj = m0.index_of(x);
                        assert(m0.keys@[jj] == x);
                        assert(self.index_of(x) == jj) by {
                            let kk = self.index_of(x);
                            assert(self.keys@.contains(x));
                            assert(self.keys@[kk] == x);
                            if kk != jj {
                                assert(m0.keys@[kk] != m0.keys@[jj]);
                            }
                        }
                        assert(jj != ii);
                    }
                }
                return ;
            }
            i += 1;
        }
        self.keys.push(e);
        self.locs.push(loc);
        proof {
            let ii = m0.keys@.len() as int;
            assert(self.keys@ == m0.keys@.push(e));
            assert(self.locs@ == m0.locs@.push(loc));
            assert(self.wf()) by {
                assert forall|i1: int, j1: int|
                    0 <= i1 < j1 < self.keys@.len() implies
                    self.keys@[i1] != self.keys@[j1] by {
                    if j1 == ii {
                        assert(self.keys@[j1] == e);
                        assert(self.keys@[i1] == m0.keys@[i1]);
                    }
                }
            }
            assert(self.keys@[ii] == e);
            assert forall|x: Entity| self.has(x) == (m0.has(x) || x == e) by {
                if self.has(x) {
                    let jj = choose|jj: int|
                        0 <= jj < self.keys@.len() && self.keys@[jj] == x;
                    if jj < ii {
                        assert(m0.keys@[jj] == x);
                    }
                }
                if m0.has(x) {
                    let jj = m0.index_of(x);
                    assert(self.keys@[jj] == x);
                }
            }
            assert(self.index_of(e) == ii) by {
                let jj = self.index_of(e);
                assert(self.keys@.contains(e));
                assert(self.keys@[jj] == e);
                if jj != ii {
                    assert(m0.keys@[jj] == e);
                }
            }
            assert forall|x: Entity|
                m0.has(x) && x != e implies self.loc_of(x) == m0.loc_of(x) by {
                let jj = m0.index_of(x);
                assert(m0.keys@[jj] == x);
                assert(self.index_of(x) == jj) by {
                    let kk = self.index_of(x);
                    assert(self.keys@.contains(x));
                    assert(self.keys@[kk] == x);
                    if kk != jj {
                        if kk < ii && jj < ii {
                            assert(m0.keys@[kk] != m0.keys@[jj]);
                        }
                    }
                }
            }
        }
    }

    /// Drop any record for `e`.
    pub fn remove(&mut self, e: Entity)
        requires
            old(self).wf(),
        ensures
            final(self).wf(),
            forall|x: Entity| final(self).has(x) == (old(self).has(x) && x != e),
            forall|x: Entity|
                old(self).has(x) && x != e ==> final(self).loc_of(x) == old(self).loc_of(x),
    {
        let ghost m0 = *old(self);
        let n = self.keys.len();
        let mut i: usize = 0;
        while i < n
            invariant
                m0 == *old(self),
                *self == m0,
                m0.wf(),
                n == self.keys@.len(),
                i <= n,
                forall|m: int| 0 <= m < i ==> self.keys@[m] != e,
            decreases n - i,
        {
            if self.keys[i] == e {
                self.keys.swap_remove(i);
                self.locs.swap_remove(i);
                proof {
                    let ii = i as int;
                    let k1 = self.keys@;
                    let l1 = self.locs@;
                    assert(k1 == m0.keys@.update(ii, m0.keys@.last()).drop_last());
                    assert(l1 == m0.locs@.update(ii, m0.locs@.last()).drop_last());
                    assert(self.wf()) by {
                        assert forall|i1: int, j1: int|
                            0 <= i1 < j1 < k1.len() implies k1[i1] != k1[j1] by {
                            if i1 == ii || j1 == ii {
                                assert(m0.keys@.last() == m0.keys@[m0.keys@.len() - 1]);
                            }
                        }
                    }
                    assert forall|x: Entity| self.has(x) == (m0.has(x) && x != e) by {
                        if self.has(x) {
                            let jj = choose|jj: int| 0 <= jj < k1.len() && k1[jj] == x;
                            if jj == ii {
                                assert(m0.keys@[m0.keys@.len() - 1] == x);
                            } else {
                                assert(m0.keys@[jj] == x);
                            }
                            assert(x != e) by {
                                if x == e {
                                    if jj == ii {
                                        assert(m0.keys@.len() - 1 != ii);
                                        assert(m0.keys@[m0.keys@.len() - 1] != m0.keys@[ii]);
                                    } else {
                                        assert(m0.keys@[jj] != m0.keys@[ii]);
                                    }
                                }
                            }
                        }
                        if m0.has(x) && x != e {
                            let jj = m0.index_of(x);
                            assert(m0.keys@[jj] == x);
                            assert(jj != ii);
                            if jj == m0.keys@.len() - 1 {
                                if ii < m0.keys@.len() - 1 {
                                    assert(k1[ii] == x);
                                } else {
                                    assert(false);
                                }
                            } else {
                                assert(k1[jj] == x);
                            }
                        }
                    }
                    assert forall|x: Entity|
                        m0.has(x) && x != e implies self.loc_of(x) == m0.loc_of(x) by {
                        let jj = m0.index_of(x);
                        assert(m0.keys@[jj] == x);
                        assert(jj != ii);
                        let kk = self.index_of(x);
                        assert(self.has(x));
                        assert(0 <= kk < k1.len() && k1[kk] == x);
                        if jj == m0.keys@.len() - 1 {
                            assert(kk == ii) by {
                                if kk != ii {
                                    assert(k1[kk] == m0.keys@[kk]);
                                    assert(m0.keys@[kk] != m0.keys@[jj]);
                                }
                            }
                            assert(l1[ii] == m0.locs@[jj]);
                        } else {
                            assert(kk == jj) by {
                                if kk == ii {
                                    assert(k1[ii] == m0.keys@[m0.keys@.len() - 1]);
                                    assert(m0.keys@[m0.keys@.len() - 1] != m0.keys@[jj]);
                                } else if kk != jj {
                                    assert(m0.keys@[kk] != m0.keys@[jj]);
                                }
                            }
                            assert(l1[jj] == m0.locs@[jj]);
                        }
                    }
                }
                return ;
            }
            i += 1;
        }
        proof {
            assert forall|x: Entity| self.has(x) == (m0.has(x) && x != e) by {
                if m0.has(x) && x == e {
                    let jj = m0.index_of(x);
                    assert(m0.keys@[jj] == e);
                }
                if m0.has(e) {
                    let jj = m0.index_of(e);
                    assert(m0.keys@[jj] == e);
                }
            }
        }
    }
}

/// Two id lists denote the same set of types.
pub open spec fn same_type_set(a: Seq<u32>, b: Seq<u32>) -> bool {
    forall|t: u32| a.contains(t) == b.contains(t)
}

/// Whether both lists contain exactly the same ids, checked in both
/// directions.
pub fn same_id_set(a: &Vec<u32>, b: &Vec<u32>) -> (r: bool)
    ensures
        r == same_type_set(a@, b@),
{
    let mut forward = true;
    let n = a.len();
    let mut j: usize = 0;
    while j < n
        invariant
            n == a@.len(),
            j <= n,
            forward == (forall|m: int| 0 <= m < j ==> b@.contains(a@[m])),
        decreases n - j,
    {
        if !crate::storage::contains_id(b, a[j]) {
            forward = false;
        }
        j += 1;
    }
    let mut backward = true;
    let bn = b.len();
    let mut k: usize = 0;
    while k < bn
        invariant
            bn == b@.len(),
            k <= bn,
            backward == (forall|m: int| 0 <= m < k ==> a@.contains(b@[m])),
        decreases bn - k,
    {
        if !crate::storage::contains_id(a, b[k]) {
            backward = false;
        }
        k += 1;
    }
    proof {
        if forward && backward {
            assert forall|t: u32| a@.contains(t) == b@.contains(t) by {
                if a@.contains(t) {
                    let m = choose|m: int| 0 <= m < a@.len() && a@[m] == t;
                }
                if b@.contains(t) {
                    let m = choose|m: int| 0 <= m < b@.len() && b@[m] == t;
                }
            }
        }
        if same_type_set(a@, b@) {
            assert forall|m: int| 0 <= m < a@.len() implies b@.contains(a@[m]) by {
                assert(a@.contains(a@[m]));
            }
            assert forall|m: int| 0 <= m < b@.len() implies a@.contains(b@[m]) by {
                assert(b@.contains(b@[m]));
            }
        }
    }
    forward && backward
}

/// Copy an id list.
pub fn copy_ids(v: &Vec<u32>) -> (r: Vec<u32>)
    ensures
        r@ == v@,
{
    let mut r: Vec<u32> = Vec::new();
    let n = v.len();
    let mut j: usize = 0;
    while j < n
        invariant
            n == v@.len(),
            j <= n,
            r@ =~= v@.subrange(0, j as int),
        decreases n - j,
    {
        r.push(v[j]);
        j += 1;
    }
    proof {
        assert(r@ =~= v@);
    }
    r
}

/// The set of tag values an insertion carries: one value per tag type.
#[derive(Debug)]
pub struct SharedDataSet {
    pub types: Vec<TagTypeId>,
    pub values: Vec<TagValue>,
}

impl SharedDataSet {
    pub open spec fn wf(self) -> bool {
        &&& distinct_ids(self.types@)
        &&& self.types@.len() == self.values@.len()
    }

    /// The value carried for tag type `t`.
    pub open spec fn value_of(self, t: TagTypeId) -> TagValue
        recommends
            self.types@.contains(t),
    {
        self.values@[choose|j: int| 0 <= j < self.types@.len() && self.types@[j] == t]
    }

    /// No tags at all.
    pub fn new() -> (r: SharedDataSet)
        ensures
            r.wf(),
            r.types@ =~= Seq::<TagTypeId>::empty(),
            r.values@ =~= Seq::<TagValue>::empty(),
    {
        SharedDataSet { types: Vec::new(), values: Vec::new() }
    }

    /// The same set with one more tag.
    pub fn with(self, t: TagTypeId, value: TagValue) -> (r: SharedDataSet)
        requires
            self.wf(),
            !self.types@.contains(t),
        ensures
            r.wf(),
            r.types@ == self.types@.push(t),
            r.values@ == self.values@.push(value),
            forall|t2: u32| r.types@.contains(t2) == (self.types@.contains(t2) || t2 == t),
    {
        let ghost s0 = self;
        let SharedDataSet { mut types, mut values } = self;
        types.push(t);
        values.push(value);
        let r = SharedDataSet { types, values };
        proof {
            assert(r.types@ == s0.types@.push(t));
            assert forall|i: int, j: int|
                0 <= i < j < r.types@.len() implies r.types@[i] != r.types@[j] by {
                if j == r.types@.len() - 1 {
                    assert(r.types@[i] == s0.types@[i]);
                    assert(s0.types@.contains(s0.types@[i]));
                }
            }
            assert forall|t2: u32|
                r.types@.contains(t2) == (s0.types@.contains(t2) || t2 == t) by {
                if r.types@.contains(t2) {
                    let m = choose|m: int| 0 <= m < r.types@.len() && r.types@[m] == t2;
                    if m < s0.types@.len() {
                        assert(s0.types@[m] == t2);
                    }
                }
                if s0.types@.contains(t2) {
                    let m = choose|m: int| 0 <= m < s0.types@.len() && s0.types@[m] == t2;
                    assert(r.types@[m] == t2);
                }
                if t2 == t {
                    assert(r.types@[r.types@.len() - 1] == t2);
                }
            }
        }
        r
    }

    /// The values reordered to a given tag order.
    pub fn values_for(&self, order: &Vec<TagTypeId>) -> (r: Vec<TagValue>)
        requires
            self.wf(),
            forall|m: int| 0 <= m < order@.len() ==> self.types@.contains(#[trigger] order@[m]),
        ensures
            r@.len() == order@.len(),
            forall|m: int| 0 <= m < order@.len() ==> r@[m] == self.value_of(#[trigger] order@[m]),
    {
        let mut r: Vec<TagValue> = Vec::new();
        let n = order.len();
        let mut m: usize = 0;
        while m < n
            invariant
                self.wf(),
                forall|q: int| 0 <= q < n ==> self.types@.contains(#[trigger] order@[q]),
                n == order@.len(),
                m <= n,
                r@.len() == m,
                forall|q: int| 0 <= q < m ==> r@[q] == self.value_of(#[trigger] order@[q]),
            decreases n - m,
        {
            let t = order[m];
            let tn = self.types.len();
            let mut j: usize = 0;
            let mut found: usize = 0;
            let mut ok = false;
            while j < tn
                invariant
                    self.wf(),
                    tn == self.types@.len(),
                    j <= tn,
                    !ok ==> forall|q: int| 0 <= q < j ==> self.types@[q] != t,
                    ok ==> found < tn && self.types@[found as int] == t,
                decreases tn - j,
            {
                if !ok && self.types[j] == t {
                    found = j;
                    ok = true;
                }
                j += 1;
            }
            proof {
                assert(self.types@.contains(t));
                if !ok {
                    let q = choose|q: int| 0 <= q < self.types@.len() && self.types@[q] == t;
                }
                let jj = choose|j2: int| 0 <= j2 < self.types@.len() && self.types@[j2] == t;
                if jj != found {
                    assert(self.types@[jj] != self.types@[found as int]);
                }
            }
            r.push(self.values[found]);
            m += 1;
        }
        r
    }
}

/// The rows of components an insertion carries: one column per component
/// type, all of equal length; row `i` holds entity `i`'s values.
#[derive(Debug)]
pub struct IterComponentSource<C> {
    pub types: Vec<ComponentTypeId>,
    pub columns: Vec<Vec<C>>,
}

impl<C> IterComponentSource<C> {
    pub open spec fn rows(self) -> nat {
        if self.columns@.len() == 0 {
            0
        } else {
            self.columns@[0]@.len()
        }
    }

    pub open spec fn wf(self) -> bool {
        &&& distinct_ids(self.types@)
        &&& self.types@.len() == self.columns@.len()
        &&& forall|j: int|
            0 <= j < self.columns@.len() ==> (#[trigger] self.columns@[j])@.len() == self.rows()
    }

    /// The value in row `i` for component type `t`.
    pub open spec fn value_of(self, t: ComponentTypeId, i: int) -> C
        recommends
            self.types@.contains(t),
            0 <= i < self.rows(),
    {
        self.columns@[choose|j: int| 0 <= j < self.types@.len() && self.types@[j] == t]@[i]
    }

    pub fn new(types: Vec<ComponentTypeId>, columns: Vec<Vec<C>>) -> (r: IterComponentSource<C>)
        requires
            distinct_ids(types@),
            types@.len() == columns@.len(),
            forall|j: int, k: int|
                0 <= j < columns@.len() && 0 <= k < columns@.len() ==> (#[trigger] columns@[j])@.len()
                    == (#[trigger] columns@[k])@.len(),
        ensures
            r.wf(),
            r.types@ == types@,
            r.columns@ == columns@,
    {
        IterComponentSource { types, columns }
    }

    /// Whether there is nothing to insert.
    pub fn is_empty(&self) -> (r: bool)
        ensures
            r == (self.rows() == 0),
    {
        self.columns.len() == 0 || self.columns[0].len() == 0
    }

    /// Number of entities described.
    pub fn row_count(&self) -> (r: usize)
        ensures
            r == self.rows(),
    {
        if self.columns.len() == 0 {
            0
        } else {
            self.columns[0].len()
        }
    }
}

impl<C: Copy> IterComponentSource<C> {
    /// Row `i`'s values, reordered to a given component order.
    pub fn row(&self, i: usize, order: &Vec<ComponentTypeId>) -> (r: Vec<C>)
        requires
            self.wf(),
            i < self.rows(),
            forall|m: int| 0 <= m < order@.len() ==> self.types@.contains(#[trigger] order@[m]),
        ensures
            r@.len() == order@.len(),
            forall|m: int|
                0 <= m < order@.len() ==> r@[m] == self.value_of(#[trigger] order@[m], i as int),
    {
        let mut r: Vec<C> = Vec::new();
        let n = order.len();
        let mut m: usize = 0;
        while m < n
            invariant
                self.wf(),
                i < self.rows(),
                forall|q: int| 0 <= q < n ==> self.types@.contains(#[trigger] order@[q]),
                n == order@.len(),
                m <= n,
                r@.len() == m,
                forall|q: int| 0 <= q < m ==> r@[q] == self.value_of(#[trigger] order@[q], i as int),
            decreases n - m,
        {
            let t = order[m];
            let tn = self.types.len();
            let mut j: usize = 0;
            let mut found: usize = 0;
            let mut ok = false;
            while j < tn
                invariant
                    self.wf(),
                    tn == self.types@.len(),
                    j <= tn,
                    !ok ==> forall|q: int| 0 <= q < j ==> self.types@[q] != t,
                    ok ==> found < tn && self.types@[found as int] == t,
                decreases tn - j,
            {
                if !ok && self.types[j] == t {
                    found = j;
                    ok = true;
                }
                j += 1;
            }
            proof {
                assert(self.types@.contains(t));
                if !ok {
                    let q = choose|q: int| 0 <= q < self.types@.len() && self.types@[q] == t;
                }
                let jj = choose|j2: int| 0 <= j2 < self.types@.len() && self.types@[j2] == t;
                if jj != found {
                    assert(self.types@[jj] != self.types@[found as int]);
                }
                assert(self.columns@[found as int]@.len() == self.rows());
            }
            r.push(self.columns[found][i]);
            m += 1;
        }
        r
    }
}

/// Growing an archetype by a fresh empty chunk (or leaving it unchanged)
/// leaves every located entity's component and tag values unchanged.
pub proof fn lemma_grow_frame<C>(wrem: World<C>, wchunk: World<C>, ai: int, ci: int, x: Entity)
    requires
        wrem.wf(),
        0 <= ai < wrem.archetypes@.len(),
        wchunk.entities == wrem.entities,
        wchunk.archetypes@.len() == wrem.archetypes@.len(),
        forall|a2: int|
            0 <= a2 < wrem.archetypes@.len() && a2 != ai ==> #[trigger] wchunk.archetypes@[a2]
                == wrem.archetypes@[a2],
        wrem.archetypes@[ai].chunks@.len() <= wchunk.archetypes@[ai].chunks@.len(),
        forall|c2: int|
            0 <= c2 < wrem.archetypes@[ai].chunks@.len() ==> #[trigger] wchunk.archetypes@[ai].chunks@[c2]
                == wrem.archetypes@[ai].chunks@[c2],
        wrem.entities.has(x),
    ensures
        forall|t: ComponentTypeId| wchunk.component_of(x, t) == wrem.component_of(x, t),
        forall|t: TagTypeId| wchunk.shared_of(x, t) == wrem.shared_of(x, t),
{
    let l2 = wrem.entities.loc_of(x);
    assert(wrem.loc_valid(l2, x));
    assert(wchunk.archetypes@[l2.archetype as int].chunks@[l2.chunk as int]
        == wrem.archetypes@[l2.archetype as int].chunks@[l2.chunk as int]);
}

/// Appending one entity to a chunk leaves every other located entity's
/// component and tag values unchanged.
pub proof fn lemma_append_frame<C>(wpre: World<C>, w1: World<C>, e: Entity, ai: int, ci: int, x: Entity)
    requires
        wpre.wf(),
        0 <= ai < wpre.archetypes@.len(),
        0 <= ci < wpre.archetypes@[ai].chunks@.len(),
        w1.archetypes@.len() == wpre.archetypes@.len(),
        forall|a2: int|
            0 <= a2 < wpre.archetypes@.len() && a2 != ai ==> #[trigger] w1.archetypes@[a2]
                == wpre.archetypes@[a2],
        w1.archetypes@[ai].chunks@.len() == wpre.archetypes@[ai].chunks@.len(),
        forall|c2: int|
            0 <= c2 < wpre.archetypes@[ai].chunks@.len() && c2 != ci
                ==> #[trigger] w1.archetypes@[ai].chunks@[c2] == wpre.archetypes@[ai].chunks@[c2],
        w1.archetypes@[ai].chunks@[ci].wf(),
        w1.archetypes@[ai].chunks@[ci].entities@ == wpre.archetypes@[ai].chunks@[ci].entities@.push(
            e,
        ),
        w1.archetypes@[ai].chunks@[ci].columns@.len()
            == wpre.archetypes@[ai].chunks@[ci].columns@.len(),
        forall|j: int|
            0 <= j < wpre.archetypes@[ai].chunks@[ci].columns@.len() ==> (#[trigger] w1.archetypes@[ai].chunks@[ci].columns@[j]).0
                == wpre.archetypes@[ai].chunks@[ci].columns@[j].0
                && w1.archetypes@[ai].chunks@[ci].columns@[j].1@.len()
                == wpre.archetypes@[ai].chunks@[ci].columns@[j].1@.len() + 1
                && forall|s2: int|
                0 <= s2 < wpre.archetypes@[ai].chunks@[ci].columns@[j].1@.len()
                    ==> w1.archetypes@[ai].chunks@[ci].columns@[j].1@[s2]
                    == wpre.archetypes@[ai].chunks@[ci].columns@[j].1@[s2],
        w1.archetypes@[ai].chunks@[ci].tags@ == wpre.archetypes@[ai].chunks@[ci].tags@,
        wpre.entities.has(x),
        x != e,
        w1.entities.has(x),
        w1.entities.loc_of(x) == wpre.entities.loc_of(x),
    ensures
        forall|t: ComponentTypeId| w1.component_of(x, t) == wpre.component_of(x, t),
        forall|t: TagTypeId| w1.shared_of(x, t) == wpre.shared_of(x, t),
{
    let l2 = wpre.entities.loc_of(x);
    assert(wpre.loc_valid(l2, x));
    let ch0 = wpre.archetypes@[ai].chunks@[ci];
    let ch1 = w1.archetypes@[ai].chunks@[ci];
    if l2.archetype as int == ai && l2.chunk as int == ci {
        assert(l2.slot < ch0.entities@.len());
        assert forall|t: ComponentTypeId|
            w1.component_of(x, t) == wpre.component_of(x, t) by {
            lemma_chunk_same_columns(ch0, ch1, t);
            if ch0.has_column(t) {
                let j = ch0.col_index_of(t);
                assert(ch1.column(t)[l2.slot as int] == ch0.column(t)[l2.slot as int]);
            }
        }
        assert forall|t: TagTypeId| w1.shared_of(x, t) == wpre.shared_of(x, t) by {
            assert(ch1.tags@ == ch0.tags@);
        }
    } else {
        assert(w1.archetypes@[l2.archetype as int].chunks@[l2.chunk as int]
            == wpre.archetypes@[l2.archetype as int].chunks@[l2.chunk as int]) by {
            if l2.archetype as int == ai {
                assert(l2.chunk as int != ci);
            }
        }
    }
}

/// The data store: an entity allocator, the archetype list, and the index
/// from located entities to their storage position.
#[derive(Debug)]
pub struct World<C> {
    pub allocator: EntityAllocator,
    pub archetypes: Vec<Archetype<C>>,
    pub entities: LocationMap,
}

impl<C> World<C> {
    /// The location points at an existing slot that stores exactly `e`.
    pub open spec fn loc_valid(self, l: Location, e: Entity) -> bool {
        &&& l.archetype < self.archetypes@.len()
        &&& l.chunk < self.archetypes@[l.archetype as int].chunks@.len()
        &&& l.slot < self.archetypes@[l.archetype as int].chunks@[l.chunk as int].entities@.len()
        &&& self.archetypes@[l.archetype as int].chunks@[l.chunk as int].entities@[l.slot as int]
            == e
    }

    /// The world invariant: every archetype is well formed (all columns of a
    /// chunk share one length), no two archetypes share a signature, every
    /// located entity's record points at the slot that stores it, and every
    /// occupied slot belongs to exactly the entity recorded for it.
    pub open spec fn wf(self) -> bool {
        &&& self.allocator.wf()
        &&& self.entities.wf()
        &&& forall|a: int| 0 <= a < self.archetypes@.len() ==> (#[trigger] self.archetypes@[a]).wf()
        &&& forall|a1: int, a2: int|
            0 <= a1 < a2 < self.archetypes@.len() ==> !(same_type_set(
                self.archetypes@[a1].components@,
                self.archetypes@[a2].components@,
            ) && same_type_set(self.archetypes@[a1].tags@, self.archetypes@[a2].tags@))
        &&& forall|e: Entity|
            #[trigger] self.entities.has(e) ==> self.loc_valid(self.entities.loc_of(e), e)
        &&& forall|a: int, c: int, s: int|
            0 <= a < self.archetypes@.len() && 0 <= c < self.archetypes@[a].chunks@.len() && 0 <= s
                < self.archetypes@[a].chunks@[c].entities@.len() ==> {
                let ent = #[trigger] self.archetypes@[a].chunks@[c].entities@[s];
                &&& self.entities.has(ent)
                &&& self.entities.loc_of(ent) == Location {
                    archetype: a as usize,
                    chunk: c as usize,
                    slot: s as usize,
                }
            }
    }

    /// The component value of type `t` stored for `e`, if `e` is located and
    /// its archetype has such a column.
    pub open spec fn component_of(self, e: Entity, t: ComponentTypeId) -> Option<C> {
        if self.entities.has(e) {
            let l = self.entities.loc_of(e);
            let chunk = self.archetypes@[l.archetype as int].chunks@[l.chunk as int];
            if chunk.has_column(t) {
                Some(chunk.column(t)[l.slot as int])
            } else {
                None
            }
        } else {
            None
        }
    }

    /// The tag value of type `t` for `e`'s chunk, if `e` is located and its
    /// archetype has that tag.
    pub open spec fn shared_of(self, e: Entity, t: TagTypeId) -> Option<TagValue> {
        if self.entities.has(e) {
            let l = self.entities.loc_of(e);
            let chunk = self.archetypes@[l.archetype as int].chunks@[l.chunk as int];
            if chunk.has_tag(t) {
                Some(chunk.tag_value(t))
            } else {
                None
            }
        } else {
            None
        }
    }

    /// An empty world: no archetypes, no located entities, no leased blocks.
    pub fn new() -> (w: World<C>)
        ensures
            w.wf(),
            w.archetypes@ =~= Seq::<Archetype<C>>::empty(),
            forall|e: Entity| !w.entities.has(e),
            forall|e: Entity| !w.allocator.live(e),
            w.allocator.avail() == 0,
            w.allocator.blocks@ =~= Seq::<crate::entity::EntityBlock>::empty(),
            w.allocator.entity_buffer@ =~= Seq::<Entity>::empty(),
            forall|ba: BlockAllocator| #[trigger] w.allocator.compat(ba),
    {
        let w = World {
            allocator: EntityAllocator::new(),
            archetypes: Vec::new(),
            entities: LocationMap::new(),
        };
        w
    }

    /// Whether the allocator currently reports the handle as live.
    pub fn is_alive(&self, entity: &Entity) -> (r: bool)
        requires
            self.wf(),
        ensures
            r == self.allocator.live(*entity),
    {
        self.allocator.is_alive(entity)
    }

    /// The tag value of type `t` on `e`'s chunk, or `None` when `e` is not
    /// located or its archetype has no such tag.
    pub fn shared(&self, entity: Entity, t: TagTypeId) -> (r: Option<TagValue>)
        requires
            self.wf(),
        ensures
            r == self.shared_of(entity, t),
    {
        match self.entities.get(entity) {
            None => None,
            Some(loc) => {
                proof {
                    assert(self.loc_valid(self.entities.loc_of(entity), entity));
                }
                let arch = &self.archetypes[loc.archetype];
                let chunk = arch.chunk(loc.chunk);
                chunk.shared(t)
            },
        }
    }
}

impl<C: Copy> World<C> {
    /// The component value of type `t` stored for `e`, or `None` when `e` is
    /// not located or its archetype has no such column.
    pub fn component(&self, entity: Entity, t: ComponentTypeId) -> (r: Option<C>)
        requires
            self.wf(),
        ensures
            r == self.component_of(entity, t),
    {
        match self.entities.get(entity) {
            None => None,
            Some(loc) => {
                proof {
                    assert(self.loc_valid(self.entities.loc_of(entity), entity));
                }
                let arch = &self.archetypes[loc.archetype];
                let chunk = arch.chunk(loc.chunk);
                if chunk.has_component(t) {
                    Some(chunk.component_at(t, loc.slot))
                } else {
                    None
                }
            },
        }
    }
}

impl<C: Copy> World<C> {
    /// Remove a located entity from its chunk by swap-remove, moving the
    /// tail entity of that chunk into its slot and re-recording the moved
    /// entity's location. A no-op when `entity` has no location.
    fn remove_located(&mut self, entity: Entity)
        requires
            old(self).wf(),
        ensures
            final(self).wf(),
            final(self).allocator == old(self).allocator,
            forall|x: Entity|
                final(self).entities.has(x) == (old(self).entities.has(x) && x != entity),
            forall|x: Entity, t: ComponentTypeId|
                old(self).entities.has(x) && x != entity ==> final(self).component_of(x, t) == old(self).component_of(x, t),
            forall|x: Entity, t: TagTypeId|
                old(self).entities.has(x) && x != entity ==> final(self).shared_of(x, t) == old(self).shared_of(x, t),
            final(self).archetypes@.len() == old(self).archetypes@.len(),
            forall|a: int|
                0 <= a < old(self).archetypes@.len() ==> (#[trigger] final(self).archetypes@[a]).components@ == old(self).archetypes@[a].components@ && final(self).archetypes@[a].tags@ == old(self).archetypes@[a].tags@ && final(self).archetypes@[a].chunks@.len() == old(self).archetypes@[a].chunks@.len(),
    {
        let ghost w0 = *old(self);
        let found = self.entities.get(entity);
        match found {
            None => {
                proof {
                    assert forall|x: Entity|
                        self.entities.has(x) == (w0.entities.has(x) && x != entity) by {}
                }
            },
            Some(loc) => {
                proof {
                    assert(w0.entities.has(entity));
                    assert(loc == w0.entities.loc_of(entity));
                    assert(w0.loc_valid(w0.entities.loc_of(entity), entity));
                }
                self.entities.remove(entity);
                let a = loc.archetype;
                let c = loc.chunk;
                let s = loc.slot;
                proof {
                    assert(w0.archetypes@[a as int].wf());
                    assert(w0.archetypes@[a as int].chunks@[c as int].wf());
                }
                let moved = self.archetypes[a].chunks[c].swap_remove(s);
                if let Some(sw) = moved {
                    proof {
                        let ch0 = w0.archetypes@[a as int].chunks@[c as int];
                        assert(sw == ch0.entities@.last());
                        assert(w0.entities.has(sw));
                        assert(w0.entities.loc_of(sw) == Location {
                            archetype: a,
                            chunk: c,
                            slot: (ch0.entities@.len() - 1) as usize,
                        });
                        assert(sw != entity) by {
                            if sw == entity {
                                assert(w0.entities.loc_of(entity).slot == s);
                            }
                        }
                    }
                    self.entities.set(sw, loc);
                }
                proof {
                    let w1 = *self;
                    let ai = a as int;
                    let ci = c as int;
                    let si = s as int;
                    let ch0 = w0.archetypes@[ai].chunks@[ci];
                    let ch1 = w1.archetypes@[ai].chunks@[ci];
                    let li = (ch0.entities@.len() - 1) as int;
                    let swapped = si < li;
                    // Shape of the post state.
                    assert(w1.archetypes@.len() == w0.archetypes@.len());
                    assert(w1.archetypes@[ai].components@ == w0.archetypes@[ai].components@);
                    assert(w1.archetypes@[ai].tags@ == w0.archetypes@[ai].tags@);
                    assert(forall|a2: int|
                        0 <= a2 < w0.archetypes@.len() && a2 != ai ==> #[trigger] w1.archetypes@[a2]
                            == w0.archetypes@[a2]);
                    assert(forall|c2: int|
                        0 <= c2 < w0.archetypes@[ai].chunks@.len() && c2 != ci
                            ==> #[trigger] w1.archetypes@[ai].chunks@[c2]
                            == w0.archetypes@[ai].chunks@[c2]);
                    assert(ch1.entities@ == ch0.entities@.update(si, ch0.entities@.last()).drop_last());
                    // Map content.
                    assert forall|x: Entity|
                        w1.entities.has(x) == (w0.entities.has(x) && x != entity) by {}
                    // The moved entity, if any.
                    if swapped {
                        assert(w1.entities.loc_of(ch0.entities@[li]) == loc);
                    }
                    assert forall|x: Entity|
                        w0.entities.has(x) && x != entity && !(swapped && x == ch0.entities@[li])
                            implies w1.entities.has(x) && w1.entities.loc_of(x)
                            == w0.entities.loc_of(x) by {}
                    // Location validity and bijectivity.
                    assert(w1.wf()) by {
                        assert(w1.allocator.wf());
                        assert(w1.entities.wf());
                        assert forall|a2: int|
                            0 <= a2 < w1.archetypes@.len() implies (
                        #[trigger] w1.archetypes@[a2]).wf() by {
                            if a2 == ai {
                                assert(w1.archetypes@[ai].wf()) by {
                                    assert forall|c2: int|
                                        0 <= c2 < w1.archetypes@[ai].chunks@.len() implies (
                                    #[trigger] w1.archetypes@[ai].chunks@[c2]).wf() by {
                                        if c2 != ci {
                                            assert(w0.archetypes@[ai].chunks@[c2].wf());
                                        }
                                    }
                                    assert forall|c2: int|
                                        0 <= c2 < w1.archetypes@[ai].chunks@.len() implies column_ids(
                                        (#[trigger] w1.archetypes@[ai].chunks@[c2]).columns@,
                                    ) == w1.archetypes@[ai].components@ && tag_ids(
                                        w1.archetypes@[ai].chunks@[c2].tags@,
                                    ) == w1.archetypes@[ai].tags@ && w1.archetypes@[ai].chunks@[c2].capacity == CHUNK_CAPACITY by {
                                        if c2 == ci {
                                            assert(column_ids(ch1.columns@) =~= column_ids(
                                                ch0.columns@,
                                            ));
                                        }
                                    }
                                }
                            }
                        }
                        assert forall|e2: Entity| #[trigger]
                            w1.entities.has(e2) implies w1.loc_valid(
                            w1.entities.loc_of(e2),
                            e2,
                        ) by {
                            if swapped && e2 == ch0.entities@[li] {
                                assert(ch1.entities@[si] == e2);
                            } else {
                                let l2 = w0.entities.loc_of(e2);
                                assert(w0.loc_valid(l2, e2));
                                assert(w1.entities.loc_of(e2) == l2);
                                if l2.archetype as int == ai && l2.chunk as int == ci {
                                    assert(l2.slot as int != si) by {
                                        if l2.slot as int == si {
                                            assert(ch0.entities@[si] == e2);
                                            assert(w0.entities.loc_of(ch0.entities@[si]) == Location {
                                                archetype: a,
                                                chunk: c,
                                                slot: s,
                                            });
                                            assert(e2 == entity);
                                        }
                                    }
                                    assert(l2.slot as int != li) by {
                                        if l2.slot as int == li {
                                            assert(ch0.entities@[li] == e2);
                                        }
                                    }
                                    assert(ch1.entities@[l2.slot as int] == ch0.entities@[l2.slot as int]);
                                }
                            }
                        }
                        assert forall|a2: int, c2: int, s2: int|
                            0 <= a2 < w1.archetypes@.len() && 0 <= c2 < w1.archetypes@[a2].chunks@.len()
                                && 0 <= s2 < w1.archetypes@[a2].chunks@[c2].entities@.len() implies {
                            let ent = #[trigger] w1.archetypes@[a2].chunks@[c2].entities@[s2];
                            &&& w1.entities.has(ent)
                            &&& w1.entities.loc_of(ent) == Location {
                                archetype: a2 as usize,
                                chunk: c2 as usize,
                                slot: s2 as usize,
                            }
                        } by {
                            let ent = w1.archetypes@[a2].chunks@[c2].entities@[s2];
                            if a2 == ai && c2 == ci {
                                if s2 == si && swapped {
                                    assert(ent == ch0.entities@[li]);
                                } else {
                                    assert(ent == ch0.entities@[s2]);
                                    assert(w0.entities.has(ent));
                                    assert(w0.entities.loc_of(ent) == Location {
                                        archetype: a2 as usize,
                                        chunk: c2 as usize,
                                        slot: s2 as usize,
                                    });
                                    assert(ent != entity) by {
                                        if ent == entity {
                                            assert(w0.entities.loc_of(entity).slot as int == s2);
                                        }
                                    }
                                    assert(!(swapped && ent == ch0.entities@[li])) by {
                                        if swapped && ent == ch0.entities@[li] {
                                            assert(w0.entities.loc_of(ent).slot as int == li);
                                        }
                                    }
                                    assert(w1.entities.loc_of(ent) == w0.entities.loc_of(ent));
                                }
                            } else {
                                assert(w1.archetypes@[a2].chunks@[c2] == w0.archetypes@[a2].chunks@[c2]);
                                assert(ent == w0.archetypes@[a2].chunks@[c2].entities@[s2]);
                                assert(w0.entities.has(ent));
                                assert(w0.entities.loc_of(ent) == Location {
                                    archetype: a2 as usize,
                                    chunk: c2 as usize,
                                    slot: s2 as usize,
                                });
                                assert(ent != entity) by {
                                    if ent == entity {
                                        assert(w0.entities.loc_of(entity) == Location {
                                            archetype: a2 as usize,
                                            chunk: c2 as usize,
                                            slot: s2 as usize,
                                        });
                                        assert(loc.archetype == a2 as usize);
                                        assert(loc.chunk == c2 as usize);
                                        assert(w0.archetypes@.len() == w0.archetypes.len());
                                        assert(w0.archetypes@[a2].chunks@.len()
                                            == w0.archetypes@[a2].chunks.len());
                                        assert(ai == a2 && ci == c2);
                                        assert(false);
                                    }
                                }
                                assert(!(swapped && ent == ch0.entities@[li])) by {
                                    if swapped && ent == ch0.entities@[li] {
                                        assert(ent == w0.archetypes@[ai].chunks@[ci].entities@[li]);
                                        assert(w0.entities.loc_of(ent) == Location {
                                            archetype: a,
                                            chunk: c,
                                            slot: li as usize,
                                        });
                                        assert(w0.entities.loc_of(ent) == Location {
                                            archetype: a2 as usize,
                                            chunk: c2 as usize,
                                            slot: s2 as usize,
                                        });
                                        assert(a == a2 as usize && c == c2 as usize);
                                        assert(w0.archetypes@.len() == w0.archetypes.len());
                                        assert(w0.archetypes@[a2].chunks@.len()
                                            == w0.archetypes@[a2].chunks.len());
                                        assert(ai == a2 && ci == c2);
                                        assert(false);
                                    }
                                }
                                assert(w1.entities.loc_of(ent) == w0.entities.loc_of(ent));
                            }
                        }
                    }
                    // Values of all other located entities are preserved.
                    assert forall|x: Entity, t: ComponentTypeId|
                        w0.entities.has(x) && x != entity implies w1.component_of(x, t)
                            == w0.component_of(x, t) by {
                        assert(w1.entities.has(x));
                        if swapped && x == ch0.entities@[li] {
                            let l0 = w0.entities.loc_of(x);
                            assert(l0 == Location { archetype: a, chunk: c, slot: li as usize });
                            assert(w1.entities.loc_of(x) == loc);
                            lemma_chunk_same_columns(ch0, ch1, t);
                            if ch0.has_column(t) {
                                let j = ch0.col_index_of(t);
                                assert(ch1.columns@[j].1@ == ch0.columns@[j].1@.update(
                                    si,
                                    ch0.columns@[j].1@.last(),
                                ).drop_last());
                                assert(ch0.columns@[j].1@.len() == ch0.entities@.len());
                                assert(ch1.column(t)[si] == ch0.column(t)[li]);
                            }
                        } else {
                            let l2 = w0.entities.loc_of(x);
                            assert(w0.loc_valid(l2, x));
                            assert(w1.entities.loc_of(x) == l2);
                            if l2.archetype as int == ai && l2.chunk as int == ci {
                                let s2 = l2.slot as int;
                                assert(s2 != si) by {
                                    if s2 == si {
                                        assert(ch0.entities@[si] == x);
                                        assert(x == entity);
                                    }
                                }
                                assert(s2 != li) by {
                                    if s2 == li {
                                        assert(ch0.entities@[li] == x);
                                        if swapped {
                                        } else {
                                            assert(si == li);
                                        }
                                    }
                                }
                                lemma_chunk_same_columns(ch0, ch1, t);
                                if ch0.has_column(t) {
                                    let j = ch0.col_index_of(t);
                                    assert(ch1.columns@[j].1@ == ch0.columns@[j].1@.update(
                                        si,
                                        ch0.columns@[j].1@.last(),
                                    ).drop_last());
                                    assert(ch0.columns@[j].1@.len() == ch0.entities@.len());
                                    assert(ch1.column(t)[s2] == ch0.column(t)[s2]);
                                }
                            } else {
                                assert(w1.archetypes@[l2.archetype as int].chunks@[l2.chunk as int]
                                    == w0.archetypes@[l2.archetype as int].chunks@[l2.chunk as int]);
                            }
                        }
                    }
                    assert forall|x: Entity, t: TagTypeId|
                        w0.entities.has(x) && x != entity implies w1.shared_of(x, t)
                            == w0.shared_of(x, t) by {
                        assert(w1.entities.has(x));
                        if swapped && x == ch0.entities@[li] {
                            assert(w1.entities.loc_of(x) == loc);
                            assert(ch1.tags@ == ch0.tags@);
                        } else {
                            let l2 = w0.entities.loc_of(x);
                            assert(w0.loc_valid(l2, x));
                            assert(w1.entities.loc_of(x) == l2);
                            if l2.archetype as int == ai && l2.chunk as int == ci {
                                assert(ch1.tags@ == ch0.tags@);
                            } else {
                                assert(w1.archetypes@[l2.archetype as int].chunks@[l2.chunk as int]
                                    == w0.archetypes@[l2.archetype as int].chunks@[l2.chunk as int]);
                            }
                        }
                    }
                }
            },
        }
    }
}

impl<C: Copy> World<C> {
    /// Delete an entity: recycle its handle and swap-remove it from its
    /// chunk. Returns whether it was live. Every other located entity stays
    /// located with unchanged component and tag values.
    pub fn delete(&mut self, entity: Entity) -> (r: bool)
        requires
            old(self).wf(),
        ensures
            final(self).wf(),
            r == (old(self).allocator.live(entity) && !old(self).allocator.pending(entity.index)),
            final(self).allocator.avail() >= old(self).allocator.avail(),
            forall|ba: BlockAllocator| #[trigger]
                old(self).allocator.compat(ba) ==> final(self).allocator.compat(ba),
            !r ==> {
                &&& forall|x: Entity|
                    final(self).entities.has(x) == old(self).entities.has(x)
                &&& forall|x: Entity, t: ComponentTypeId|
                    final(self).component_of(x, t) == old(self).component_of(x, t)
                &&& forall|x: Entity, t: TagTypeId|
                    final(self).shared_of(x, t) == old(self).shared_of(x, t)
                &&& forall|x: Entity| final(self).allocator.live(x) == old(self).allocator.live(x)
            },
            r ==> {
                &&& !final(self).entities.has(entity)
                &&& forall|x: Entity|
                    final(self).entities.has(x) == (old(self).entities.has(x) && x != entity)
                &&& forall|x: Entity, t: ComponentTypeId|
                    old(self).entities.has(x) && x != entity ==> final(self).component_of(x, t)
                        == old(self).component_of(x, t)
                &&& forall|x: Entity, t: TagTypeId|
                    old(self).entities.has(x) && x != entity ==> final(self).shared_of(x, t)
                        == old(self).shared_of(x, t)
                &&& forall|x: Entity|
                    final(self).allocator.live(x) == ((old(self).allocator.live(x) && x != entity)
                        || x == Entity {
                        index: entity.index,
                        version: crate::entity::wrap_inc(entity.version),
                    })
            },
    {
        let ghost w0 = *old(self);
        let deleted = self.allocator.delete_entity(entity);
        proof {
            assert forall|ba: BlockAllocator| #[trigger]
                w0.allocator.compat(ba) implies self.allocator.compat(ba) by {
                if !deleted {
                    assert forall|k: int, m: int, idx: u16|
                        0 <= k < self.allocator.blocks@.len() && 0 <= m < ba.free@.len() implies !(
                        #[trigger] self.allocator.blocks@[k].range_covers(idx)
                            && #[trigger] ba.free@[m].range_covers(idx)) by {
                        crate::entity::lemma_block_eqv_props(
                            self.allocator.blocks@[k],
                            w0.allocator.blocks@[k],
                        );
                    }
                    assert forall|k: int|
                        0 <= k < self.allocator.blocks@.len() implies (
                    #[trigger] self.allocator.blocks@[k]).start as int
                        + self.allocator.blocks@[k].len as int <= ba.allocated as int by {
                        crate::entity::lemma_block_eqv_props(
                            self.allocator.blocks@[k],
                            w0.allocator.blocks@[k],
                        );
                    }
                } else {
                    assert forall|k: int, m: int, idx: u16|
                        0 <= k < self.allocator.blocks@.len() && 0 <= m < ba.free@.len() implies !(
                        #[trigger] self.allocator.blocks@[k].range_covers(idx)
                            && #[trigger] ba.free@[m].range_covers(idx)) by {
                        assert(self.allocator.blocks@[k].range_covers(idx)
                            == w0.allocator.blocks@[k].range_covers(idx));
                    }
                    assert forall|k: int|
                        0 <= k < self.allocator.blocks@.len() implies (
                    #[trigger] self.allocator.blocks@[k]).start as int
                        + self.allocator.blocks@[k].len as int <= ba.allocated as int by {
                        assert(self.allocator.blocks@[k].start == w0.allocator.blocks@[k].start);
                    }
                }
            }
            if !deleted {
                assert forall|x: Entity|
                    self.allocator.live(x) == w0.allocator.live(x) by {
                    crate::entity::lemma_allocator_eqv_live(self.allocator, w0.allocator, x);
                }
            }
            assert(self.wf()) by {
                assert(self.entities == w0.entities);
                assert(self.archetypes@ == w0.archetypes@);
            }
        }
        if deleted {
            let ghost w1 = *self;
            self.remove_located(entity);
            proof {
                assert forall|x: Entity, t: ComponentTypeId|
                    w0.entities.has(x) && x != entity implies self.component_of(x, t)
                        == w0.component_of(x, t) by {
                    assert(w1.component_of(x, t) == w0.component_of(x, t));
                }
                assert forall|x: Entity, t: TagTypeId|
                    w0.entities.has(x) && x != entity implies self.shared_of(x, t)
                        == w0.shared_of(x, t) by {
                    assert(w1.shared_of(x, t) == w0.shared_of(x, t));
                }
            }
        }
        deleted
    }
}

impl<C: Copy> World<C> {
    /// The archetype whose signature is exactly the source's component type
    /// set and the shared set's tag type set; a fresh empty archetype is
    /// appended when none matches.
    fn archetype(
        &mut self,
        shared: &SharedDataSet,
        components: &IterComponentSource<C>,
    ) -> (a: ArchetypeID)
        requires
            old(self).wf(),
            shared.wf(),
            components.wf(),
        ensures
            final(self).wf(),
            final(self).allocator == old(self).allocator,
            final(self).entities == old(self).entities,
            a < final(self).archetypes@.len(),
            same_type_set(final(self).archetypes@[a as int].components@, components.types@),
            same_type_set(final(self).archetypes@[a as int].tags@, shared.types@),
            forall|a2: int|
                0 <= a2 < old(self).archetypes@.len() ==> #[trigger] final(self).archetypes@[a2]
                    == old(self).archetypes@[a2],
            final(self).archetypes@.len() == old(self).archetypes@.len() || (a == old(self).archetypes@.len() && final(self).archetypes@.len() == old(self).archetypes@.len() + 1
                && final(self).archetypes@[a as int].chunks@.len() == 0),
            forall|a2: int|
                0 <= a2 < a ==> !(same_type_set(
                    (#[trigger] final(self).archetypes@[a2]).components@,
                    components.types@,
                ) && same_type_set(final(self).archetypes@[a2].tags@, shared.types@)),
    {
        let ghost w0 = *old(self);
        let n = self.archetypes.len();
        let mut a: usize = 0;
        while a < n
            invariant
                w0 == *old(self),
                *self == w0,
                w0.wf(),
                n == self.archetypes@.len(),
                a <= n,
                forall|a2: int|
                    0 <= a2 < a ==> !(same_type_set(
                        (#[trigger] self.archetypes@[a2]).components@,
                        components.types@,
                    ) && same_type_set(self.archetypes@[a2].tags@, shared.types@)),
            decreases n - a,
        {
            let ok_c = same_id_set(&self.archetypes[a].components, &components.types);
            let ok_t = same_id_set(&self.archetypes[a].tags, &shared.types);
            if ok_c && ok_t {
                return a;
            }
            a += 1;
        }
        let arch = Archetype::new(copy_ids(&components.types), copy_ids(&shared.types));
        self.archetypes.push(arch);
        proof {
            let w1 = *self;
            assert(w1.archetypes@.len() == w0.archetypes@.len() + 1);
            assert(forall|a2: int|
                0 <= a2 < w0.archetypes@.len() ==> #[trigger] w1.archetypes@[a2]
                    == w0.archetypes@[a2]);
            assert(w1.wf()) by {
                assert(w1.archetypes@[n as int].wf());
                assert forall|a1: int, a2: int|
                    0 <= a1 < a2 < w1.archetypes@.len() implies !(same_type_set(
                    w1.archetypes@[a1].components@,
                    w1.archetypes@[a2].components@,
                ) && same_type_set(w1.archetypes@[a1].tags@, w1.archetypes@[a2].tags@)) by {
                    if a2 == n as int {
                        if same_type_set(w1.archetypes@[a1].components@, components.types@)
                            && same_type_set(w1.archetypes@[a1].tags@, shared.types@) {
                            assert(false);
                        }
                    }
                }
                assert forall|e2: Entity| #[trigger]
                    w1.entities.has(e2) implies w1.loc_valid(w1.entities.loc_of(e2), e2) by {
                    assert(w0.loc_valid(w0.entities.loc_of(e2), e2));
                }
                assert forall|a2: int, c2: int, s2: int|
                    0 <= a2 < w1.archetypes@.len() && 0 <= c2 < w1.archetypes@[a2].chunks@.len()
                        && 0 <= s2 < w1.archetypes@[a2].chunks@[c2].entities@.len() implies {
                    let ent = #[trigger] w1.archetypes@[a2].chunks@[c2].entities@[s2];
                    &&& w1.entities.has(ent)
                    &&& w1.entities.loc_of(ent) == Location {
                        archetype: a2 as usize,
                        chunk: c2 as usize,
                        slot: s2 as usize,
                    }
                } by {
                    assert(a2 < n as int);
                    assert(w1.archetypes@[a2].chunks@[c2].entities@[s2]
                        == w0.archetypes@[a2].chunks@[c2].entities@[s2]);
                }
            }
        }
        n
    }

    /// Insert one entity per source row: allocate handles, find or create
    /// the archetype and chunks matching the shared set's tag values, append
    /// the component values columnwise, and record every new entity's
    /// location. Returns the new entities, oldest first; the allocation
    /// buffer holds the same list until the next insertion.
    pub fn insert(
        &mut self,
        blocks: &mut BlockAllocator,
        shared: &SharedDataSet,
        components: &IterComponentSource<C>,
    ) -> (out: Vec<Entity>)
        requires
            old(self).wf(),
            old(blocks).wf(),
            old(self).allocator.compat(*old(blocks)),
            shared.wf(),
            components.wf(),
            components.types@.len() > 0,
            old(self).allocator.avail() + old(blocks).avail() >= components.rows(),
        ensures
            final(self).wf(),
            final(blocks).wf(),
            final(self).allocator.compat(*final(blocks)),
            final(self).allocator.avail() + final(blocks).avail() == old(self).allocator.avail()
                + old(blocks).avail() - components.rows(),
            out@.len() == components.rows(),
            final(self).allocator.entity_buffer@ == out@,
            forall|i: int, j: int| 0 <= i < j < out@.len() ==> out@[i] != out@[j],
            forall|i: int|
                0 <= i < out@.len() ==> final(self).entities.has(#[trigger] out@[i]) && final(self).allocator.live(out@[i]) && !final(self).allocator.pending(out@[i].index),
            forall|i: int, j: int|
                0 <= i < out@.len() && 0 <= j < components.types@.len() ==> final(self).component_of(#[trigger] out@[i], #[trigger] components.types@[j]) == Some(
                    components.value_of(components.types@[j], i),
                ),
            forall|i: int, j: int|
                0 <= i < out@.len() && 0 <= j < shared.types@.len() ==> final(self).shared_of(
                    #[trigger] out@[i],
                    #[trigger] shared.types@[j],
                ) == Some(shared.values@[j]),
            forall|x: Entity|
                old(self).entities.has(x) && !out@.contains(x) ==> final(self).entities.has(x),
            forall|x: Entity|
                final(self).entities.has(x) ==> old(self).entities.has(x) || out@.contains(x),
            forall|x: Entity, t: ComponentTypeId|
                old(self).entities.has(x) && !out@.contains(x) ==> final(self).component_of(x, t)
                    == old(self).component_of(x, t),
            forall|x: Entity, t: TagTypeId|
                old(self).entities.has(x) && !out@.contains(x) ==> final(self).shared_of(x, t)
                    == old(self).shared_of(x, t),
    {
        let ghost w0 = *old(self);
        let ghost b0 = *old(blocks);
        self.allocator.clear_allocation_buffer();
        let arch_id = self.archetype(shared, components);
        let ghost wa = *self;
        let total = components.row_count();
        let mut out: Vec<Entity> = Vec::new();
        let mut i: usize = 0;
        while i < total
            invariant
                w0 == *old(self),
                b0 == *old(blocks),
                w0.wf(),
                shared.wf(),
                components.wf(),
                components.types@.len() > 0,
                total == components.rows(),
                i <= total,
                self.wf(),
                blocks.wf(),
                self.allocator.compat(*blocks),
                out@.len() == i,
                self.allocator.entity_buffer@ == out@,
                old(self).allocator.avail() + old(blocks).avail() >= total,
                self.allocator.avail() + blocks.avail() == old(self).allocator.avail() + old(blocks).avail() - i,
                arch_id < self.archetypes@.len(),
                same_type_set(self.archetypes@[arch_id as int].components@, components.types@),
                same_type_set(self.archetypes@[arch_id as int].tags@, shared.types@),
                forall|q1: int, q2: int| 0 <= q1 < q2 < out@.len() ==> out@[q1] != out@[q2],
                forall|q: int|
                    0 <= q < i ==> self.entities.has(#[trigger] out@[q]) && self.allocator.live(
                        out@[q],
                    ) && !self.allocator.pending(out@[q].index),
                forall|q: int, j: int|
                    0 <= q < i && 0 <= j < components.types@.len() ==> self.component_of(
                        #[trigger] out@[q],
                        #[trigger] components.types@[j],
                    ) == Some(components.value_of(components.types@[j], q)),
                forall|q: int, j: int|
                    0 <= q < i && 0 <= j < shared.types@.len() ==> self.shared_of(
                        #[trigger] out@[q],
                        #[trigger] shared.types@[j],
                    ) == Some(shared.values@[j]),
                forall|x: Entity|
                    w0.entities.has(x) && !out@.contains(x) ==> self.entities.has(x),
                forall|x: Entity|
                    self.entities.has(x) ==> w0.entities.has(x) || out@.contains(x),
                forall|x: Entity, t: ComponentTypeId|
                    w0.entities.has(x) && !out@.contains(x) ==> self.component_of(x, t)
                        == w0.component_of(x, t),
                forall|x: Entity, t: TagTypeId|
                    w0.entities.has(x) && !out@.contains(x) ==> self.shared_of(x, t)
                        == w0.shared_of(x, t),
            decreases total - i,
        {
            let ghost wpre = *self;
            let ghost out_pre = out@;
            let e = self.allocator.create_entity(blocks);
            proof {
                assert(self.wf()) by {
                    assert(self.entities == wpre.entities);
                    assert(self.archetypes@ == wpre.archetypes@);
                }
                assert forall|q: int| 0 <= q < i implies out@[q] != e by {
                    assert(wpre.allocator.live(out@[q]));
                    assert(!wpre.allocator.pending(out@[q].index));
                    if !wpre.allocator.live(e) {
                    } else {
                        assert(wpre.allocator.pending(e.index));
                    }
                }
            }
            let ghost wcreated = *self;
            self.remove_located(e);
            proof {
                assert(self.allocator == wcreated.allocator);
                assert forall|q: int|
                    0 <= q < i implies self.entities.has(#[trigger] out@[q]) by {
                    assert(out@[q] != e);
                }
            }
            let ghost wrem = *self;
            let tag_vals = shared.values_for(&self.archetypes[arch_id].tags);
            proof {
                assert forall|m: int|
                    0 <= m < self.archetypes@[arch_id as int].tags@.len() implies shared.types@.contains(
                    #[trigger] self.archetypes@[arch_id as int].tags@[m],
                ) by {
                    assert(self.archetypes@[arch_id as int].tags@.contains(
                        self.archetypes@[arch_id as int].tags@[m],
                    ));
                }
            }
            let chunk_id = self.archetypes[arch_id].get_or_create_chunk(&tag_vals);
            let ghost wchunk = *self;
            proof {
                assert(self.wf()) by {
                    assert forall|e2: Entity| #[trigger]
                        self.entities.has(e2) implies self.loc_valid(
                        self.entities.loc_of(e2),
                        e2,
                    ) by {
                        assert(wrem.loc_valid(wrem.entities.loc_of(e2), e2));
                        let l2 = wrem.entities.loc_of(e2);
                        if l2.archetype as int == arch_id as int {
                            assert(self.archetypes@[arch_id as int].chunks@[l2.chunk as int]
                                == wrem.archetypes@[arch_id as int].chunks@[l2.chunk as int]);
                        } else {
                            assert(self.archetypes@[l2.archetype as int]
                                == wrem.archetypes@[l2.archetype as int]);
                        }
                    }
                    assert forall|a2: int, c2: int, s2: int|
                        0 <= a2 < self.archetypes@.len() && 0 <= c2
                            < self.archetypes@[a2].chunks@.len() && 0 <= s2
                            < self.archetypes@[a2].chunks@[c2].entities@.len() implies {
                        let ent = #[trigger] self.archetypes@[a2].chunks@[c2].entities@[s2];
                        &&& self.entities.has(ent)
                        &&& self.entities.loc_of(ent) == Location {
                            archetype: a2 as usize,
                            chunk: c2 as usize,
                            slot: s2 as usize,
                        }
                    } by {
                        if a2 == arch_id as int && c2 >= wrem.archetypes@[a2].chunks@.len() {
                            assert(self.archetypes@[a2].chunks@[c2].entities@.len() == 0);
                        } else {
                            assert(self.archetypes@[a2].chunks@[c2]
                                == wrem.archetypes@[a2].chunks@[c2]);
                        }
                    }
                }
            }
            let row = components.row(i, &self.archetypes[arch_id].components);
            proof {
                assert forall|m: int|
                    0 <= m < self.archetypes@[arch_id as int].components@.len() implies components.types@.contains(
                    #[trigger] self.archetypes@[arch_id as int].components@[m],
                ) by {
                    assert(self.archetypes@[arch_id as int].components@.contains(
                        self.archetypes@[arch_id as int].components@[m],
                    ));
                }
                assert(row@.len()
                    == self.archetypes@[arch_id as int].chunks@[chunk_id as int].columns@.len()) by {
                    assert(column_ids(
                        self.archetypes@[arch_id as int].chunks@[chunk_id as int].columns@,
                    ) == self.archetypes@[arch_id as int].components@);
                }
            }
            let slot = self.archetypes[arch_id].chunks[chunk_id].len();
            self.archetypes[arch_id].chunks[chunk_id].append(e, &row);
            self.entities.set(
                e,
                Location { archetype: arch_id, chunk: chunk_id, slot },
            );
            out.push(e);
            proof {
                let w1 = *self;
                let ai = arch_id as int;
                let ci = chunk_id as int;
                let si = slot as int;
                let ch0 = wchunk.archetypes@[ai].chunks@[ci];
                let ch1 = w1.archetypes@[ai].chunks@[ci];
                let arch = wchunk.archetypes@[ai];
                assert(!wchunk.entities.has(e));
                assert(ch1.entities@ == ch0.entities@.push(e));
                assert(w1.entities.loc_of(e) == Location {
                    archetype: arch_id,
                    chunk: chunk_id,
                    slot,
                });
                // The whole world is well formed again.
                assert(w1.wf()) by {
                    assert(ch1.wf()) by {
                        assert(column_ids(ch1.columns@) =~= column_ids(ch0.columns@));
                    }
                    assert forall|a2: int|
                        0 <= a2 < w1.archetypes@.len() implies (#[trigger] w1.archetypes@[a2]).wf() by {
                        if a2 == ai {
                            assert(column_ids(ch1.columns@) =~= column_ids(ch0.columns@));
                        }
                    }
                    assert forall|e2: Entity| #[trigger]
                        w1.entities.has(e2) implies w1.loc_valid(w1.entities.loc_of(e2), e2) by {
                        if e2 == e {
                            assert(ch1.entities@[si] == e);
                        } else {
                            let l2 = wchunk.entities.loc_of(e2);
                            assert(wchunk.loc_valid(l2, e2));
                            assert(w1.entities.loc_of(e2) == l2);
                            if l2.archetype as int == ai && l2.chunk as int == ci {
                                assert(ch1.entities@[l2.slot as int] == ch0.entities@[l2.slot as int]);
                            }
                        }
                    }
                    assert forall|a2: int, c2: int, s2: int|
                        0 <= a2 < w1.archetypes@.len() && 0 <= c2 < w1.archetypes@[a2].chunks@.len()
                            && 0 <= s2 < w1.archetypes@[a2].chunks@[c2].entities@.len() implies {
                        let ent = #[trigger] w1.archetypes@[a2].chunks@[c2].entities@[s2];
                        &&& w1.entities.has(ent)
                        &&& w1.entities.loc_of(ent) == Location {
                            archetype: a2 as usize,
                            chunk: c2 as usize,
                            slot: s2 as usize,
                        }
                    } by {
                        let ent = w1.archetypes@[a2].chunks@[c2].entities@[s2];
                        if a2 == ai && c2 == ci && s2 == si {
                            assert(ent == e);
                        } else {
                            if a2 == ai && c2 == ci {
                                assert(ent == ch0.entities@[s2]);
                            } else {
                                assert(w1.archetypes@[a2].chunks@[c2]
                                    == wchunk.archetypes@[a2].chunks@[c2]);
                            }
                            assert(ent == wchunk.archetypes@[a2].chunks@[c2].entities@[s2]);
                            assert(wchunk.entities.has(ent));
                            assert(wchunk.entities.loc_of(ent) == Location {
                                archetype: a2 as usize,
                                chunk: c2 as usize,
                                slot: s2 as usize,
                            });
                            assert(ent != e);
                            assert(w1.entities.loc_of(ent) == wchunk.entities.loc_of(ent));
                        }
                    }
                }
                // The new entity carries exactly row `i` and the shared values.
                assert forall|j: int|
                    0 <= j < components.types@.len() implies w1.component_of(
                    e,
                    #[trigger] components.types@[j],
                ) == Some(components.value_of(components.types@[j], i as int)) by {
                    let t = components.types@[j];
                    assert(components.types@.contains(t));
                    assert(arch.components@.contains(t));
                    let m = choose|m: int|
                        0 <= m < arch.components@.len() && arch.components@[m] == t;
                    assert(column_ids(ch1.columns@) == arch.components@);
                    assert(column_ids(ch1.columns@)[m] == t);
                    assert(ch1.columns@[m].0 == t);
                    assert(ch1.has_column(t));
                    let jj = ch1.col_index_of(t);
                    assert(0 <= jj < ch1.columns@.len() && ch1.columns@[jj].0 == t);
                    if jj != m {
                        assert(column_ids(ch1.columns@)[jj] == t);
                        assert(distinct_ids(column_ids(ch1.columns@)));
                        assert(false);
                    }
                    assert(ch1.columns@[m].1@ == ch0.columns@[m].1@.push(row@[m]));
                    assert(ch0.columns@[m].1@.len() == si);
                    assert(ch1.column(t)[si] == row@[m]);
                    assert(row@[m] == components.value_of(arch.components@[m], i as int));
                }
                assert forall|j: int|
                    0 <= j < shared.types@.len() implies w1.shared_of(
                    e,
                    #[trigger] shared.types@[j],
                ) == Some(shared.values@[j]) by {
                    let t = shared.types@[j];
                    assert(shared.types@.contains(t));
                    assert(arch.tags@.contains(t));
                    let m = choose|m: int| 0 <= m < arch.tags@.len() && arch.tags@[m] == t;
                    assert(tag_ids(ch1.tags@) == arch.tags@);
                    assert(tag_ids(ch1.tags@)[m] == t);
                    assert(ch1.tags@[m].0 == t);
                    assert(ch1.has_tag(t));
                    let jj = ch1.tag_index_of(t);
                    assert(0 <= jj < ch1.tags@.len() && ch1.tags@[jj].0 == t);
                    if jj != m {
                        assert(tag_ids(ch1.tags@)[jj] == t);
                        assert(distinct_ids(tag_ids(ch1.tags@)));
                        assert(false);
                    }
                    assert(tag_values(ch1.tags@) == tag_vals@) by {
                        assert(ch1.tags@ == ch0.tags@);
                        assert(wchunk.archetypes@[ai].chunk_matches_tags(ci, tag_vals@));
                    }
                    assert(ch1.tag_value(t) == tag_values(ch1.tags@)[m]);
                    assert(tag_vals@[m] == shared.value_of(arch.tags@[m]));
                    assert(shared.value_of(t) == shared.values@[j]) by {
                        let q = choose|q: int|
                            0 <= q < shared.types@.len() && shared.types@[q] == t;
                        if q != j {
                            assert(shared.types@[q] != shared.types@[j]);
                        }
                    }
                }
                // Older rows and previously located entities are untouched.
                assert forall|q1: int, q2: int|
                    0 <= q1 < q2 < out@.len() implies out@[q1] != out@[q2] by {
                    if q2 == out@.len() - 1 {
                        assert(out@[q1] == out_pre[q1]);
                        assert(out@[q2] == e);
                    } else {
                        assert(out@[q1] == out_pre[q1]);
                        assert(out@[q2] == out_pre[q2]);
                    }
                }
                assert(!self.allocator.pending(e.index));
                assert forall|q: int|
                    0 <= q < i implies self.entities.has(#[trigger] out@[q])
                        && self.allocator.live(out@[q]) && !self.allocator.pending(
                        out@[q].index,
                    ) by {
                    assert(out@[q] == out_pre[q]);
                    assert(out@[q] != e);
                    assert(wpre.allocator.live(out@[q]));
                    assert(wcreated.allocator.live(out@[q]));
                    assert(!wcreated.allocator.pending(out@[q].index)) by {
                        if wcreated.allocator.pending(out@[q].index) {
                            assert(wpre.allocator.pending(out@[q].index) || (forall|k: int|
                                0 <= k < wpre.allocator.blocks@.len() ==> !(
                                #[trigger] wpre.allocator.blocks@[k]).range_covers(
                                    out@[q].index,
                                )));
                            let k = choose|k: int|
                                0 <= k < wpre.allocator.blocks@.len() && (
                                #[trigger] wpre.allocator.blocks@[k]).live(out@[q]);
                            assert(wpre.allocator.blocks@[k].wf());
                            assert(wpre.allocator.blocks@[k].range_covers(out@[q].index));
                        }
                    }
                    assert(self.allocator == wcreated.allocator);
                }
                assert forall|q: int, j: int|
                    0 <= q < i && 0 <= j < components.types@.len() implies self.component_of(
                    #[trigger] out@[q],
                    #[trigger] components.types@[j],
                ) == Some(components.value_of(components.types@[j], q)) by {
                    assert(out@[q] == out_pre[q]);
                    assert(out@[q] != e);
                    assert(wrem.component_of(out@[q], components.types@[j])
                        == wpre.component_of(out@[q], components.types@[j]));
                    assert(wchunk.component_of(out@[q], components.types@[j])
                        == wrem.component_of(out@[q], components.types@[j])) by {
                        lemma_grow_frame(wrem, wchunk, ai, ci, out@[q]);
                    }
                    lemma_append_frame(wchunk, w1, e, ai, ci, out@[q]);
                }
                assert forall|q: int, j: int|
                    0 <= q < i && 0 <= j < shared.types@.len() implies self.shared_of(
                    #[trigger] out@[q],
                    #[trigger] shared.types@[j],
                ) == Some(shared.values@[j]) by {
                    assert(out@[q] == out_pre[q]);
                    assert(out@[q] != e);
                    assert(wrem.shared_of(out@[q], shared.types@[j]) == wpre.shared_of(
                        out@[q],
                        shared.types@[j],
                    ));
                    lemma_grow_frame(wrem, wchunk, ai, ci, out@[q]);
                    lemma_append_frame(wchunk, w1, e, ai, ci, out@[q]);
                }
                assert forall|x: Entity|
                    w0.entities.has(x) && !out@.contains(x) implies self.entities.has(x) by {
                    assert(!out_pre.contains(x)) by {
                        if out_pre.contains(x) {
                            let q = choose|q: int| 0 <= q < out_pre.len() && out_pre[q] == x;
                            assert(out@[q] == x);
                        }
                    }
                    assert(x != e) by {
                        assert(out@[out@.len() - 1] == e);
                    }
                }
                assert forall|x: Entity|
                    self.entities.has(x) implies w0.entities.has(x) || out@.contains(x) by {
                    if x == e {
                        assert(out@[out@.len() - 1] == e);
                    } else {
                        if wpre.entities.has(x) {
                            if !out_pre.contains(x) {
                            } else {
                                let q = choose|q: int| 0 <= q < out_pre.len() && out_pre[q] == x;
                                assert(out@[q] == x);
                            }
                        }
                    }
                }
                assert forall|x: Entity, t: ComponentTypeId|
                    w0.entities.has(x) && !out@.contains(x) implies self.component_of(x, t)
                        == w0.component_of(x, t) by {
                    assert(!out_pre.contains(x)) by {
                        if out_pre.contains(x) {
                            let q = choose|q: int| 0 <= q < out_pre.len() && out_pre[q] == x;
                            assert(out@[q] == x);
                        }
                    }
                    assert(x != e) by {
                        assert(out@[out@.len() - 1] == e);
                    }
                    assert(wpre.component_of(x, t) == w0.component_of(x, t));
                    assert(wpre.entities.has(x));
                    lemma_grow_frame(wrem, wchunk, ai, ci, x);
                    lemma_append_frame(wchunk, w1, e, ai, ci, x);
                }
                assert forall|x: Entity, t: TagTypeId|
                    w0.entities.has(x) && !out@.contains(x) implies self.shared_of(x, t)
                        == w0.shared_of(x, t) by {
                    assert(!out_pre.contains(x)) by {
                        if out_pre.contains(x) {
                            let q = choose|q: int| 0 <= q < out_pre.len() && out_pre[q] == x;
                            assert(out@[q] == x);
                        }
                    }
                    assert(x != e) by {
                        assert(out@[out@.len() - 1] == e);
                    }
                    assert(wpre.shared_of(x, t) == w0.shared_of(x, t));
                    assert(wpre.entities.has(x));
                    lemma_grow_frame(wrem, wchunk, ai, ci, x);
                    lemma_append_frame(wchunk, w1, e, ai, ci, x);
                }
            }
            i += 1;
        }
        out
    }
}

impl<C: Copy> World<C> {
    /// Overwrite the component of type `t` stored for `entity`. Returns
    /// whether the entity is located and carries such a column; nothing else
    /// changes either way.
    pub fn set_component(&mut self, entity: Entity, t: ComponentTypeId, value: C) -> (r: bool)
        requires
            old(self).wf(),
        ensures
            final(self).wf(),
            r == old(self).component_of(entity, t).is_some(),
            final(self).entities == old(self).entities,
            final(self).allocator == old(self).allocator,
            forall|x: Entity, t2: TagTypeId|
                final(self).shared_of(x, t2) == old(self).shared_of(x, t2),
            forall|x: Entity, t2: ComponentTypeId|
                final(self).component_of(x, t2) == (if r && x == entity && t2 == t {
                    Some(value)
                } else {
                    old(self).component_of(x, t2)
                }),
    {
        let ghost w0 = *old(self);
        let found = self.entities.get(entity);
        match found {
            None => {
                proof {
                    assert(!w0.entities.has(entity));
                }
                false
            },
            Some(loc) => {
                proof {
                    assert(w0.entities.has(entity));
                    assert(loc == w0.entities.loc_of(entity));
                    assert(w0.loc_valid(loc, entity));
                }
                let a = loc.archetype;
                let c = loc.chunk;
                let s = loc.slot;
                proof {
                    assert(w0.archetypes@[a as int].wf());
                    assert(w0.archetypes@[a as int].chunks@[c as int].wf());
                }
                let present = self.archetypes[a].chunks[c].has_component(t);
                if !present {
                    return false;
                }
                self.archetypes[a].chunks[c].set_component_at(t, s, value);
                proof {
                    let w1 = *self;
                    let ai = a as int;
                    let ci = c as int;
                    let si = s as int;
                    let ch0 = w0.archetypes@[ai].chunks@[ci];
                    let ch1 = w1.archetypes@[ai].chunks@[ci];
                    assert(w1.wf()) by {
                        assert forall|a2: int|
                            0 <= a2 < w1.archetypes@.len() implies (
                        #[trigger] w1.archetypes@[a2]).wf() by {
                            if a2 == ai {
                                assert(column_ids(ch1.columns@) =~= column_ids(ch0.columns@));
                            }
                        }
                        assert forall|e2: Entity| #[trigger]
                            w1.entities.has(e2) implies w1.loc_valid(
                            w1.entities.loc_of(e2),
                            e2,
                        ) by {
                            let l2 = w0.entities.loc_of(e2);
                            assert(w0.loc_valid(l2, e2));
                            if l2.archetype as int == ai && l2.chunk as int == ci {
                                assert(ch1.entities@ == ch0.entities@);
                            } else {
                                assert(w1.archetypes@[l2.archetype as int].chunks@[l2.chunk as int]
                                    == w0.archetypes@[l2.archetype as int].chunks@[l2.chunk as int]);
                            }
                        }
                        assert forall|a2: int, c2: int, s2: int|
                            0 <= a2 < w1.archetypes@.len() && 0 <= c2
                                < w1.archetypes@[a2].chunks@.len() && 0 <= s2
                                < w1.archetypes@[a2].chunks@[c2].entities@.len() implies {
                            let ent = #[trigger] w1.archetypes@[a2].chunks@[c2].entities@[s2];
                            &&& w1.entities.has(ent)
                            &&& w1.entities.loc_of(ent) == Location {
                                archetype: a2 as usize,
                                chunk: c2 as usize,
                                slot: s2 as usize,
                            }
                        } by {
                            if a2 == ai && c2 == ci {
                                assert(w1.archetypes@[a2].chunks@[c2].entities@[s2]
                                    == w0.archetypes@[a2].chunks@[c2].entities@[s2]);
                            } else {
                                assert(w1.archetypes@[a2].chunks@[c2]
                                    == w0.archetypes@[a2].chunks@[c2]);
                            }
                        }
                    }
                    assert forall|x: Entity, t2: TagTypeId|
                        w1.shared_of(x, t2) == w0.shared_of(x, t2) by {
                        if w0.entities.has(x) {
                            let l2 = w0.entities.loc_of(x);
                            assert(w0.loc_valid(l2, x));
                            if l2.archetype as int == ai && l2.chunk as int == ci {
                                assert(ch1.tags@ == ch0.tags@);
                            } else {
                                assert(w1.archetypes@[l2.archetype as int].chunks@[l2.chunk as int]
                                    == w0.archetypes@[l2.archetype as int].chunks@[l2.chunk as int]);
                            }
                        }
                    }
                    assert forall|x: Entity, t2: ComponentTypeId|
                        w1.component_of(x, t2) == (if x == entity && t2 == t {
                            Some(value)
                        } else {
                            w0.component_of(x, t2)
                        }) by {
                        if w0.entities.has(x) {
                            let l2 = w0.entities.loc_of(x);
                            assert(w0.loc_valid(l2, x));
                            if l2.archetype as int == ai && l2.chunk as int == ci {
                                if t2 == t {
                                    assert(ch1.column(t)
                                        == ch0.column(t).update(si, value));
                                    if x == entity {
                                        assert(l2.slot as int == si) by {
                                            assert(ch0.entities@[l2.slot as int] == x);
                                            assert(w0.entities.loc_of(ch0.entities@[l2.slot as int])
                                                == Location {
                                                archetype: ai as usize,
                                                chunk: ci as usize,
                                                slot: l2.slot as usize,
                                            });
                                        }
                                        assert(ch1.column(t)[si] == value);
                                    } else {
                                        assert(l2.slot as int != si) by {
                                            if l2.slot as int == si {
                                                assert(ch0.entities@[si] == x);
                                                assert(ch0.entities@[si] == entity);
                                            }
                                        }
                                        assert(ch1.column(t)[l2.slot as int]
                                            == ch0.column(t)[l2.slot as int]);
                                    }
                                } else {
                                    if ch0.has_column(t2) {
                                        assert(ch1.column(t2) == ch0.column(t2));
                                    } else {
                                        lemma_chunk_same_columns(ch0, ch1, t2);
                                    }
                                }
                            } else {
                                assert(x != entity);
                                assert(w1.archetypes@[l2.archetype as int].chunks@[l2.chunk as int]
                                    == w0.archetypes@[l2.archetype as int].chunks@[l2.chunk as int]);
                            }
                        } else {
                            assert(x != entity);
                        }
                    }
                }
                true
            },
        }
    }
}

/// Location consistency: in a well-formed world, every entity the location
/// index records is exactly the entity stored in the slot its record points
/// at.
pub proof fn lemma_location_consistency<C>(w: World<C>, e: Entity)
    requires
        w.wf(),
        w.entities.has(e),
    ensures
        w.entities.loc_of(e).archetype < w.archetypes@.len(),
        w.entities.loc_of(e).chunk < w.archetypes@[w.entities.loc_of(e).archetype as int].chunks@.len(),
        w.entities.loc_of(e).slot < w.archetypes@[w.entities.loc_of(e).archetype as int].chunks@[w.entities.loc_of(e).chunk as int].entities@.len(),
        w.archetypes@[w.entities.loc_of(e).archetype as int].chunks@[w.entities.loc_of(e).chunk as int].entities@[w.entities.loc_of(e).slot as int] == e,
{
    assert(w.loc_valid(w.entities.loc_of(e), e));
}

/// Column length parity: in a well-formed world, every column of every
/// chunk has exactly the length of that chunk's entity list.
pub proof fn lemma_column_length_parity<C>(w: World<C>, a: int, c: int, j: int)
    requires
        w.wf(),
        0 <= a < w.archetypes@.len(),
        0 <= c < w.archetypes@[a].chunks@.len(),
        0 <= j < w.archetypes@[a].chunks@[c].columns@.len(),
    ensures
        w.archetypes@[a].chunks@[c].columns@[j].1@.len()
            == w.archetypes@[a].chunks@[c].entities@.len(),
{
    assert(w.archetypes@[a].wf());
    assert(w.archetypes@[a].chunks@[c].wf());
}

/// Archetype uniqueness: in a well-formed world, no two archetypes share
/// both the same component type set and the same tag type set.
pub proof fn lemma_archetype_uniqueness<C>(w: World<C>, a1: int, a2: int)
    requires
        w.wf(),
        0 <= a1 < w.archetypes@.len(),
        0 <= a2 < w.archetypes@.len(),
        a1 != a2,
    ensures
        !(same_type_set(w.archetypes@[a1].components@, w.archetypes@[a2].components@)
            && same_type_set(w.archetypes@[a1].tags@, w.archetypes@[a2].tags@)),
{
    if a2 < a1 {
        if same_type_set(w.archetypes@[a1].components@, w.archetypes@[a2].components@)
            && same_type_set(w.archetypes@[a1].tags@, w.archetypes@[a2].tags@) {
            assert(same_type_set(w.archetypes@[a2].components@, w.archetypes@[a1].components@));
            assert(same_type_set(w.archetypes@[a2].tags@, w.archetypes@[a1].tags@));
        }
    }
}

/// The owner of the shared block pool from which every world created under
/// it leases its entity identifier ranges.
#[derive(Debug)]
pub struct Universe {
    pub allocator: BlockAllocator,
}

impl Universe {
    pub fn new() -> (u: Universe)
        ensures
            u.allocator.wf(),
            u.allocator.allocated == 0,
            u.allocator.free@ =~= Seq::<crate::entity::EntityBlock>::empty(),
            u.allocator.avail() == crate::entity::INDEX_SPACE as int,
    {
        Universe { allocator: BlockAllocator::new() }
    }

    /// A fresh, empty world. Its allocator leases blocks from this
    /// universe's pool as entities are inserted.
    pub fn create_world<C>(&self) -> (w: World<C>)
        ensures
            w.wf(),
            w.archetypes@ =~= Seq::<Archetype<C>>::empty(),
            forall|e: Entity| !w.entities.has(e),
            forall|e: Entity| !w.allocator.live(e),
            w.allocator.avail() == 0,
            w.allocator.entity_buffer@ =~= Seq::<Entity>::empty(),
            forall|ba: BlockAllocator| #[trigger] w.allocator.compat(ba),
    {
        World::new()
    }
}

} // verus!
