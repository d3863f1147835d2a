//! The stage scheduler: dependency analysis over the declared accesses of a
//! batch of systems.
//!
//! A system's declaration lists the resource and component types it reads
//! and writes; its archetype set (kept in a `bit_set::BitSet`) says which
//! archetypes its queries touch. Stage construction derives, in declaration
//! order, static edges from resource accesses (from the most recent prior
//! writer) and provisional edges from component accesses (from every prior
//! writer); before execution the provisional edges whose archetype sets
//! intersect are promoted to static ones. A worker pool may then run the
//! systems in any order that respects the static edges.

use vstd::prelude::*;
use crate::query::{ArchetypeFilter, ChunkFilter, Query, ViewElement, arch_passes};
use crate::world::World;

verus! {

/// The archetype-set container of the dependency analysis, a
/// `bit_set::BitSet`. Verus refuses the container type's own declaration
/// (its generic block parameter), so the set is held opaquely here and its
/// contents are named by `bitset_elems`.
#[verifier::external_body]
pub struct ArchetypeSet {
    set: bit_set::BitSet,
}

/// What the held `bit_set::BitSet` contains, as a set of small integers.
pub uninterp spec fn bitset_elems(s: ArchetypeSet) -> Set<u32>;

/// Relies on bit_set::BitSet::new: the fresh set has no elements.
#[verifier::external_body]
pub fn bitset_new() -> (r: ArchetypeSet)
    ensures
        bitset_elems(r) == Set::<u32>::empty(),
{
    ArchetypeSet { set: bit_set::BitSet::new() }
}

/// Relies on bit_set::BitSet::insert: afterwards the set holds the value
/// too; the result says whether it was absent before. The bound keeps the
/// backing bit vector's growth inside the address space.
#[verifier::external_body]
pub fn bitset_insert(s: &mut ArchetypeSet, value: usize) -> (r: bool)
    requires
        value < 0x1000_0000,
    ensures
        bitset_elems(*final(s)) == bitset_elems(*old(s)).insert(value as u32),
        r == !bitset_elems(*old(s)).contains(value as u32),
{
    s.set.insert(value)
}

/// Relies on bit_set::BitSet::is_disjoint: true exactly when the two sets
/// share no element.
#[verifier::external_body]
pub fn bitset_is_disjoint(a: &ArchetypeSet, b: &ArchetypeSet) -> (r: bool)
    ensures
        r == bitset_elems(*a).disjoint(bitset_elems(*b)),
{
    a.set.is_disjoint(&b.set)
}

/// Mark every archetype the query's archetype filter accepts in the given
/// archetype set.
pub fn filter_archetypes<C, A: ArchetypeFilter, F: ChunkFilter>(
    query: &Query<A, F>,
    world: &World<C>,
    bitset: &mut ArchetypeSet,
)
    requires
        world.wf(),
        world.archetypes@.len() < 0x1000_0000,
    ensures
        forall|v: u32|
            bitset_elems(*final(bitset)).contains(v) == (bitset_elems(*old(bitset)).contains(v)
                || ((v as int) < world.archetypes@.len() && arch_passes(
                query.arch_filter,
                *world,
                v as int,
            ))),
{
    let n = world.archetypes.len();
    let mut a: usize = 0;
    while a < n
        invariant
            world.wf(),
            n == world.archetypes@.len(),
            n < 0x1000_0000,
            a <= n,
            forall|v: u32|
                bitset_elems(*bitset).contains(v) == (bitset_elems(*old(bitset)).contains(v) || ((
                v as int) < a && arch_passes(query.arch_filter, *world, v as int))),
        decreases n - a,
    {
        let passes = query.arch_filter.filter(
            &world.archetypes[a].components,
            &world.archetypes[a].tags,
        );
        if passes {
            let ghost pre = *bitset;
            bitset_insert(bitset, a);
            proof {
                assert forall|v: u32|
                    bitset_elems(*bitset).contains(v) == (bitset_elems(*old(bitset)).contains(v)
                        || ((v as int) < a + 1 && arch_passes(
                        query.arch_filter,
                        *world,
                        v as int,
                    ))) by {
                    assert(bitset_elems(*bitset) == bitset_elems(pre).insert(a as u32));
                }
            }
        }
        a += 1;
    }
}

/// The read and write lists for one kind of access.
#[derive(Debug)]
pub struct Access<T> {
    pub reads: Vec<T>,
    pub writes: Vec<T>,
}

impl<T> Access<T> {
    pub fn new() -> (r: Access<T>)
        ensures
            r.reads@ =~= Seq::<T>::empty(),
            r.writes@ =~= Seq::<T>::empty(),
    {
        Access { reads: Vec::new(), writes: Vec::new() }
    }
}

/// Everything a system declares about its accesses: resource reads and
/// writes, component reads and writes, and tag reads and writes.
#[derive(Debug)]
pub struct SystemAccess {
    pub resources: Access<u32>,
    pub components: Access<u32>,
    pub tags: Access<u32>,
}

impl SystemAccess {
    pub open spec fn reads_res(self, r: u32) -> bool {
        self.resources.reads@.contains(r)
    }

    pub open spec fn writes_res(self, r: u32) -> bool {
        self.resources.writes@.contains(r)
    }

    pub open spec fn reads_comp(self, c: u32) -> bool {
        self.components.reads@.contains(c)
    }

    pub open spec fn writes_comp(self, c: u32) -> bool {
        self.components.writes@.contains(c)
    }
}

/// Builds one system's access declaration: each call records what the
/// system's closure will read or write.
#[derive(Debug)]
pub struct SystemBuilder {
    pub name: String,
    pub resource_access: Access<u32>,
    pub component_access: Access<u32>,
}

impl SystemBuilder {
    pub fn new(name: String) -> (r: SystemBuilder)
        ensures
            r.resource_access.reads@ =~= Seq::<u32>::empty(),
            r.resource_access.writes@ =~= Seq::<u32>::empty(),
            r.component_access.reads@ =~= Seq::<u32>::empty(),
            r.component_access.writes@ =~= Seq::<u32>::empty(),
    {
        SystemBuilder { name, resource_access: Access::new(), component_access: Access::new() }
    }

    /// Record the component accesses a query's view makes: its read axes as
    /// component reads, its write axes as component writes.
    pub fn with_query<A, F>(self, query: &Query<A, F>) -> (r: SystemBuilder)
        ensures
            r.resource_access.reads@ == self.resource_access.reads@,
            r.resource_access.writes@ == self.resource_access.writes@,
            forall|t: u32|
                r.component_access.reads@.contains(t) == (self.component_access.reads@.contains(t)
                    || exists|m: int|
                    0 <= m < query.view.elements@.len() && (#[trigger] query.view.elements@[m])
                        == ViewElement::Component(t)),
            forall|t: u32|
                r.component_access.writes@.contains(t) == (self.component_access.writes@.contains(
                    t,
                ) || exists|m: int|
                    0 <= m < query.view.elements@.len() && (#[trigger] query.view.elements@[m])
                        == ViewElement::ComponentMut(t)),
    {
        let SystemBuilder { name, resource_access, mut component_access } = self;
        let n = query.view.elements.len();
        let mut m: usize = 0;
        while m < n
            invariant
                n == query.view.elements@.len(),
                m <= n,
                forall|t: u32|
                    component_access.reads@.contains(t) == (self.component_access.reads@.contains(
                        t,
                    ) || exists|q: int|
                        0 <= q < m && (#[trigger] query.view.elements@[q])
                            == ViewElement::Component(t)),
                forall|t: u32|
                    component_access.writes@.contains(t) == (
                    self.component_access.writes@.contains(t) || exists|q: int|
                        0 <= q < m && (#[trigger] query.view.elements@[q])
                            == ViewElement::ComponentMut(t)),
            decreases n - m,
        {
            let ghost reads0 = component_access.reads@;
            let ghost writes0 = component_access.writes@;
            match query.view.elements[m] {
                ViewElement::Component(t) => {
                    component_access.reads.push(t);
                },
                ViewElement::ComponentMut(t) => {
                    component_access.writes.push(t);
                },
                ViewElement::Tag(_t) => {},
            }
            proof {
                let mi = m as int;
                assert forall|t: u32|
                    component_access.reads@.contains(t) == (self.component_access.reads@.contains(
                        t,
                    ) || exists|q: int|
                        0 <= q < mi + 1 && (#[trigger] query.view.elements@[q])
                            == ViewElement::Component(t)) by {
                    if component_access.reads@.contains(t) {
                        let w = choose|w: int|
                            0 <= w < component_access.reads@.len() && component_access.reads@[w]
                                == t;
                        if w < reads0.len() {
                            assert(reads0[w] == t);
                            assert(reads0.contains(t));
                        } else {
                            assert(query.view.elements@[mi] == ViewElement::Component(t));
                        }
                    }
                    if exists|q: int|
                        0 <= q < mi + 1 && (#[trigger] query.view.elements@[q])
                            == ViewElement::Component(t) {
                        let q = choose|q: int|
                            0 <= q < mi + 1 && (#[trigger] query.view.elements@[q])
                                == ViewElement::Component(t);
                        if q < mi {
                            assert(reads0.contains(t));
                            let w = choose|w: int| 0 <= w < reads0.len() && reads0[w] == t;
                            assert(component_access.reads@[w] == t);
                        } else {
                            assert(component_access.reads@[component_access.reads@.len() - 1]
                                == t);
                        }
                    }
                    if reads0.contains(t) {
                        let w = choose|w: int| 0 <= w < reads0.len() && reads0[w] == t;
                        assert(component_access.reads@[w] == t);
                    }
                }
                assert forall|t: u32|
                    component_access.writes@.contains(t) == (
                    self.component_access.writes@.contains(t) || exists|q: int|
                        0 <= q < mi + 1 && (#[trigger] query.view.elements@[q])
                            == ViewElement::ComponentMut(t)) by {
                    if component_access.writes@.contains(t) {
                        let w = choose|w: int|
                            0 <= w < component_access.writes@.len() && component_access.writes@[w]
                                == t;
                        if w < writes0.len() {
                            assert(writes0[w] == t);
                            assert(writes0.contains(t));
                        } else {
                            assert(query.view.elements@[mi] == ViewElement::ComponentMut(t));
                        }
                    }
                    if exists|q: int|
                        0 <= q < mi + 1 && (#[trigger] query.view.elements@[q])
                            == ViewElement::ComponentMut(t) {
                        let q = choose|q: int|
                            0 <= q < mi + 1 && (#[trigger] query.view.elements@[q])
                                == ViewElement::ComponentMut(t);
                        if q < mi {
                            assert(writes0.contains(t));
                            let w = choose|w: int| 0 <= w < writes0.len() && writes0[w] == t;
                            assert(component_access.writes@[w] == t);
                        } else {
                            assert(component_access.writes@[component_access.writes@.len() - 1]
                                == t);
                        }
                    }
                    if writes0.contains(t) {
                        let w = choose|w: int| 0 <= w < writes0.len() && writes0[w] == t;
                        assert(component_access.writes@[w] == t);
                    }
                }
            }
            m += 1;
        }
        SystemBuilder { name, resource_access, component_access }
    }

    /// Declare a shared read of a resource type.
    pub fn read_resource(self, t: u32) -> (r: SystemBuilder)
        ensures
            r.resource_access.reads@ == self.resource_access.reads@.push(t),
            r.resource_access.writes@ == self.resource_access.writes@,
            r.component_access.reads@ == self.component_access.reads@,
            r.component_access.writes@ == self.component_access.writes@,
    {
        let SystemBuilder { name, mut resource_access, component_access } = self;
        resource_access.reads.push(t);
        SystemBuilder { name, resource_access, component_access }
    }

    /// Declare an exclusive write of a resource type.
    pub fn write_resource(self, t: u32) -> (r: SystemBuilder)
        ensures
            r.resource_access.reads@ == self.resource_access.reads@,
            r.resource_access.writes@ == self.resource_access.writes@.push(t),
            r.component_access.reads@ == self.component_access.reads@,
            r.component_access.writes@ == self.component_access.writes@,
    {
        let SystemBuilder { name, mut resource_access, component_access } = self;
        resource_access.writes.push(t);
        SystemBuilder { name, resource_access, component_access }
    }

    /// Declare a shared read of a component type.
    pub fn read_component(self, t: u32) -> (r: SystemBuilder)
        ensures
            r.resource_access.reads@ == self.resource_access.reads@,
            r.resource_access.writes@ == self.resource_access.writes@,
            r.component_access.reads@ == self.component_access.reads@.push(t),
            r.component_access.writes@ == self.component_access.writes@,
    {
        let SystemBuilder { name, resource_access, mut component_access } = self;
        component_access.reads.push(t);
        SystemBuilder { name, resource_access, component_access }
    }

    /// Declare an exclusive write of a component type.
    pub fn write_component(self, t: u32) -> (r: SystemBuilder)
        ensures
            r.resource_access.reads@ == self.resource_access.reads@,
            r.resource_access.writes@ == self.resource_access.writes@,
            r.component_access.reads@ == self.component_access.reads@,
            r.component_access.writes@ == self.component_access.writes@.push(t),
    {
        let SystemBuilder { name, resource_access, mut component_access } = self;
        component_access.writes.push(t);
        SystemBuilder { name, resource_access, component_access }
    }

    /// The finished declaration the scheduler consumes. The closure itself
    /// stays with the caller, to be run when the schedule says so.
    pub fn build(self) -> (r: SystemAccess)
        ensures
            r.resources.reads@ == self.resource_access.reads@,
            r.resources.writes@ == self.resource_access.writes@,
            r.components.reads@ == self.component_access.reads@,
            r.components.writes@ == self.component_access.writes@,
            r.tags.reads@ =~= Seq::<u32>::empty(),
            r.tags.writes@ =~= Seq::<u32>::empty(),
    {
        let SystemBuilder { name: _, resource_access, component_access } = self;
        SystemAccess {
            resources: resource_access,
            components: component_access,
            tags: Access::new(),
        }
    }
}

/// The most recent system before `i` that writes resource `r`, or -1 when
/// none does.
pub open spec fn last_res_writer(systems: Seq<SystemAccess>, r: u32, i: int) -> int
    decreases i,
{
    if i <= 0 {
        -1
    } else if systems[i - 1].writes_res(r) {
        i - 1
    } else {
        last_res_writer(systems, r, i - 1)
    }
}

/// The result of `last_res_writer` is the largest writer index below `i`.
pub proof fn lemma_last_res_writer_props(systems: Seq<SystemAccess>, r: u32, i: int)
    requires
        0 <= i <= systems.len(),
    ensures
        last_res_writer(systems, r, i) >= -1,
        last_res_writer(systems, r, i) == -1 ==> forall|m: int|
            0 <= m < i ==> !(#[trigger] systems[m]).writes_res(r),
        last_res_writer(systems, r, i) >= 0 ==> {
            let k = last_res_writer(systems, r, i);
            &&& k < i
            &&& systems[k].writes_res(r)
            &&& forall|m: int| k < m < i ==> !(#[trigger] systems[m]).writes_res(r)
        },
    decreases i,
{
    if i > 0 {
        lemma_last_res_writer_props(systems, r, i - 1);
    }
}

/// A static resource dependency: some resource `i` touches was most
/// recently written by `j`.
pub open spec fn res_dep(systems: Seq<SystemAccess>, i: int, j: int) -> bool {
    &&& 0 <= j
    &&& exists|r: u32| #![trigger last_res_writer(systems, r, i)]
        (systems[i].reads_res(r) || systems[i].writes_res(r)) && last_res_writer(
            systems,
            r,
            i,
        ) == j
}

/// A provisional component dependency: `j` writes a component `i` reads or
/// writes. Whether it must be honoured depends on the two systems' archetype
/// sets.
pub open spec fn comp_dep(systems: Seq<SystemAccess>, i: int, j: int) -> bool {
    &&& 0 <= j < i
    &&& exists|c: u32| #![trigger systems[j].writes_comp(c)]
        (systems[i].reads_comp(c) || systems[i].writes_comp(c)) && systems[j].writes_comp(c)
}

/// Whether `v` contains `x`.
pub fn contains_usize(v: &Vec<usize>, x: usize) -> (r: bool)
    ensures
        r == v@.contains(x),
{
    let n = v.len();
    let mut m: usize = 0;
    while m < n
        invariant
            n == v@.len(),
            m <= n,
            forall|q: int| 0 <= q < m ==> v@[q] != x,
        decreases n - m,
    {
        if v[m] == x {
            return true;
        }
        m += 1;
    }
    proof {
        if v@.contains(x) {
            let q = choose|q: int| 0 <= q < v@.len() && v@[q] == x;
        }
    }
    false
}

/// Whether system `b` writes any component `a` reads or writes.
pub fn comp_conflict(a: &SystemAccess, b: &SystemAccess) -> (r: bool)
    ensures
        r == exists|c: u32| #![trigger b.writes_comp(c)]
            (a.reads_comp(c) || a.writes_comp(c)) && b.writes_comp(c),
{
    let nr = a.components.reads.len();
    let mut m: usize = 0;
    while m < nr
        invariant
            nr == a.components.reads@.len(),
            m <= nr,
            forall|q: int| 0 <= q < m ==> !b.writes_comp(#[trigger] a.components.reads@[q]),
        decreases nr - m,
    {
        let c = a.components.reads[m];
        if crate::storage::contains_id(&b.components.writes, c) {
            proof {
                assert(a.components.reads@.contains(c));
                assert(a.reads_comp(c));
                assert(exists|c2: u32| #![trigger b.writes_comp(c2)]
                    (a.reads_comp(c2) || a.writes_comp(c2)) && b.writes_comp(c2)) by {
                    assert((a.reads_comp(c) || a.writes_comp(c)) && b.writes_comp(c));
                }
            }
            return true;
        }
        m += 1;
    }
    let nw = a.components.writes.len();
    let mut k: usize = 0;
    while k < nw
        invariant
            nr == a.components.reads@.len(),
            forall|q: int| 0 <= q < nr ==> !b.writes_comp(#[trigger] a.components.reads@[q]),
            nw == a.components.writes@.len(),
            k <= nw,
            forall|q: int| 0 <= q < k ==> !b.writes_comp(#[trigger] a.components.writes@[q]),
        decreases nw - k,
    {
        let c = a.components.writes[k];
        if crate::storage::contains_id(&b.components.writes, c) {
            proof {
                assert(a.components.writes@.contains(c));
                assert(a.writes_comp(c));
                assert(exists|c2: u32| #![trigger b.writes_comp(c2)]
                    (a.reads_comp(c2) || a.writes_comp(c2)) && b.writes_comp(c2)) by {
                    assert((a.reads_comp(c) || a.writes_comp(c)) && b.writes_comp(c));
                }
            }
            return true;
        }
        k += 1;
    }
    proof {
        if exists|c: u32| #![trigger b.writes_comp(c)]
            (a.reads_comp(c) || a.writes_comp(c)) && b.writes_comp(c) {
            let c = choose|c: u32| #![trigger b.writes_comp(c)]
                (a.reads_comp(c) || a.writes_comp(c)) && b.writes_comp(c);
            if a.reads_comp(c) {
                let q = choose|q: int|
                    0 <= q < a.components.reads@.len() && a.components.reads@[q] == c;
            } else {
                let q = choose|q: int|
                    0 <= q < a.components.writes@.len() && a.components.writes@[q] == c;
            }
        }
    }
    false
}

/// The most recent writer before `i` of resource `r`, as executable code.
pub fn last_writer_exec(systems: &Vec<SystemAccess>, r: u32, i: usize) -> (res: Option<usize>)
    requires
        i <= systems@.len(),
    ensures
        res == (if last_res_writer(systems@, r, i as int) >= 0 {
            Some(last_res_writer(systems@, r, i as int) as usize)
        } else {
            None::<usize>
        }),
{
    let mut j: usize = i;
    while j > 0
        invariant
            i <= systems@.len(),
            j <= i,
            last_res_writer(systems@, r, i as int) == last_res_writer(systems@, r, j as int),
        decreases j,
    {
        j -= 1;
        let writes = crate::storage::contains_id(&systems[j].resources.writes, r);
        if writes {
            proof {
                assert(systems@[j as int].writes_res(r));
                assert(last_res_writer(systems@, r, j as int + 1) == j as int);
            }
            return Some(j);
        }
        proof {
            assert(!systems@[j as int].writes_res(r));
            assert(last_res_writer(systems@, r, j as int + 1) == last_res_writer(
                systems@,
                r,
                j as int,
            ));
        }
    }
    proof {
        assert(last_res_writer(systems@, r, 0) == -1);
    }
    None
}

/// The distinct static dependencies of system `i`: every most recent prior
/// writer of a resource it reads or writes.
pub fn collect_res_deps(systems: &Vec<SystemAccess>, i: usize) -> (deps: Vec<usize>)
    requires
        i < systems@.len(),
    ensures
        forall|d: usize|
            (#[trigger] deps@.contains(d)) <==> res_dep(systems@, i as int, d as int),
        forall|q1: int, q2: int| 0 <= q1 < q2 < deps@.len() ==> deps@[q1] != deps@[q2],
        forall|q: int| 0 <= q < deps@.len() ==> (#[trigger] deps@[q] as int) < i,
{
    let mut deps: Vec<usize> = Vec::new();
    let nr = systems[i].resources.reads.len();
    let mut m: usize = 0;
    while m < nr
        invariant
            i < systems@.len(),
            nr == systems@[i as int].resources.reads@.len(),
            m <= nr,
            forall|d: usize|
                (#[trigger] deps@.contains(d)) <==> exists|q: int|
                    0 <= q < m && last_res_writer(
                        systems@,
                        #[trigger] systems@[i as int].resources.reads@[q],
                        i as int,
                    ) == d as int,
            forall|q1: int, q2: int| 0 <= q1 < q2 < deps@.len() ==> deps@[q1] != deps@[q2],
        decreases nr - m,
    {
        let r = systems[i].resources.reads[m];
        let found = last_writer_exec(systems, r, i);
        let ghost deps0 = deps@;
        let ghost mi = m as int;
        let ghost rr = systems@[i as int].resources.reads@[mi];
        match found {
            None => {
                proof {
                    lemma_last_res_writer_props(systems@, rr, i as int);
                    assert(last_res_writer(systems@, rr, i as int) == -1);
                    assert forall|d: usize|
                        (#[trigger] deps@.contains(d)) <==> exists|q: int|
                            0 <= q < mi + 1 && last_res_writer(
                                systems@,
                                #[trigger] systems@[i as int].resources.reads@[q],
                                i as int,
                            ) == d as int by {
                        if exists|q: int|
                            0 <= q < mi + 1 && last_res_writer(
                                systems@,
                                #[trigger] systems@[i as int].resources.reads@[q],
                                i as int,
                            ) == d as int {
                            let q = choose|q: int|
                                0 <= q < mi + 1 && last_res_writer(
                                    systems@,
                                    #[trigger] systems@[i as int].resources.reads@[q],
                                    i as int,
                                ) == d as int;
                            assert(q < mi) by {
                                if q == mi {
                                    assert(d as int >= 0);
                                }
                            }
                        }
                    }
                }
            },
            Some(jw) => {
                let already = contains_usize(&deps, jw);
                if !already {
                    deps.push(jw);
                }
                proof {
                    lemma_last_res_writer_props(systems@, rr, i as int);
                    assert(jw as int == last_res_writer(systems@, rr, i as int));
                    assert forall|d: usize|
                        (#[trigger] deps@.contains(d)) <==> exists|q: int|
                            0 <= q < mi + 1 && last_res_writer(
                                systems@,
                                #[trigger] systems@[i as int].resources.reads@[q],
                                i as int,
                            ) == d as int by {
                        if deps@.contains(d) {
                            if deps0.contains(d) {
                                let q = choose|q: int|
                                    0 <= q < mi && last_res_writer(
                                        systems@,
                                        #[trigger] systems@[i as int].resources.reads@[q],
                                        i as int,
                                    ) == d as int;
                                assert(0 <= q < mi + 1);
                            } else {
                                assert(!already);
                                assert(deps@ == deps0.push(jw));
                                let w = choose|w: int| 0 <= w < deps@.len() && deps@[w] == d;
                                assert(w == deps@.len() - 1) by {
                                    if w < deps0.len() {
                                        assert(deps0[w] == d);
                                    }
                                }
                                assert(d == jw);
                                assert(last_res_writer(systems@, rr, i as int) == d as int);
                            }
                        }
                        if exists|q: int|
                            0 <= q < mi + 1 && last_res_writer(
                                systems@,
                                #[trigger] systems@[i as int].resources.reads@[q],
                                i as int,
                            ) == d as int {
                            let q = choose|q: int|
                                0 <= q < mi + 1 && last_res_writer(
                                    systems@,
                                    #[trigger] systems@[i as int].resources.reads@[q],
                                    i as int,
                                ) == d as int;
                            if q < mi {
                                assert(deps0.contains(d));
                                let w = choose|w: int| 0 <= w < deps0.len() && deps0[w] == d;
                                if !already {
                                    assert(deps@ == deps0.push(jw));
                                }
                                assert(deps@[w] == d);
                            } else {
                                assert(d == jw);
                                if already {
                                    assert(deps0.contains(jw));
                                } else {
                                    assert(deps@ == deps0.push(jw));
                                    assert(deps@[deps@.len() - 1] == jw);
                                }
                                assert(deps@.contains(jw));
                            }
                        }
                    }
                }
            },
        }
        m += 1;
    }
    let nw = systems[i].resources.writes.len();
    let mut m2: usize = 0;
    while m2 < nw
        invariant
            i < systems@.len(),
            nr == systems@[i as int].resources.reads@.len(),
            nw == systems@[i as int].resources.writes@.len(),
            m2 <= nw,
            forall|d: usize|
                (#[trigger] deps@.contains(d)) <==> ((exists|q: int|
                    0 <= q < nr && last_res_writer(
                        systems@,
                        #[trigger] systems@[i as int].resources.reads@[q],
                        i as int,
                    ) == d as int) || (exists|q: int|
                    0 <= q < m2 && last_res_writer(
                        systems@,
                        #[trigger] systems@[i as int].resources.writes@[q],
                        i as int,
                    ) == d as int)),
            forall|q1: int, q2: int| 0 <= q1 < q2 < deps@.len() ==> deps@[q1] != deps@[q2],
        decreases nw - m2,
    {
        let r = systems[i].resources.writes[m2];
        let found = last_writer_exec(systems, r, i);
        let ghost deps0 = deps@;
        let ghost mi = m2 as int;
        let ghost rr = systems@[i as int].resources.writes@[mi];
        match found {
            None => {
                proof {
                    lemma_last_res_writer_props(systems@, rr, i as int);
                    assert(last_res_writer(systems@, rr, i as int) == -1);
                    assert forall|d: usize|
                        (#[trigger] deps@.contains(d)) <==> ((exists|q: int|
                            0 <= q < nr && last_res_writer(
                                systems@,
                                #[trigger] systems@[i as int].resources.reads@[q],
                                i as int,
                            ) == d as int) || (exists|q: int|
                            0 <= q < mi + 1 && last_res_writer(
                                systems@,
                                #[trigger] systems@[i as int].resources.writes@[q],
                                i as int,
                            ) == d as int)) by {
                        if exists|q: int|
                            0 <= q < mi + 1 && last_res_writer(
                                systems@,
                                #[trigger] systems@[i as int].resources.writes@[q],
                                i as int,
                            ) == d as int {
                            let q = choose|q: int|
                                0 <= q < mi + 1 && last_res_writer(
                                    systems@,
                                    #[trigger] systems@[i as int].resources.writes@[q],
                                    i as int,
                                ) == d as int;
                            assert(q < mi) by {
                                if q == mi {
                                    assert(d as int >= 0);
                                }
                            }
                        }
                    }
                }
            },
            Some(jw) => {
                let already = contains_usize(&deps, jw);
                if !already {
                    deps.push(jw);
                }
                proof {
                    lemma_last_res_writer_props(systems@, rr, i as int);
                    assert(jw as int == last_res_writer(systems@, rr, i as int));
                    assert forall|d: usize|
                        (#[trigger] deps@.contains(d)) <==> ((exists|q: int|
                            0 <= q < nr && last_res_writer(
                                systems@,
                                #[trigger] systems@[i as int].resources.reads@[q],
                                i as int,
                            ) == d as int) || (exists|q: int|
                            0 <= q < mi + 1 && last_res_writer(
                                systems@,
                                #[trigger] systems@[i as int].resources.writes@[q],
                                i as int,
                            ) == d as int)) by {
                        if deps@.contains(d) {
                            if deps0.contains(d) {
                            } else {
                                assert(!already);
                                assert(deps@ == deps0.push(jw));
                                let w = choose|w: int| 0 <= w < deps@.len() && deps@[w] == d;
                                assert(w == deps@.len() - 1) by {
                                    if w < deps0.len() {
                                        assert(deps0[w] == d);
                                    }
                                }
                                assert(d == jw);
                                assert(last_res_writer(systems@, rr, i as int) == d as int);
                            }
                        } else {
                            assert(!deps0.contains(d)) by {
                                if deps0.contains(d) {
                                    let w = choose|w: int| 0 <= w < deps0.len() && deps0[w] == d;
                                    if !already {
                                        assert(deps@ == deps0.push(jw));
                                    }
                                    assert(deps@[w] == d);
                                }
                            }
                            if exists|q: int|
                                0 <= q < mi + 1 && last_res_writer(
                                    systems@,
                                    #[trigger] systems@[i as int].resources.writes@[q],
                                    i as int,
                                ) == d as int {
                                let q = choose|q: int|
                                    0 <= q < mi + 1 && last_res_writer(
                                        systems@,
                                        #[trigger] systems@[i as int].resources.writes@[q],
                                        i as int,
                                    ) == d as int;
                                if q == mi {
                                    assert(d == jw);
                                    if already {
                                        assert(deps0.contains(jw));
                                        let w = choose|w: int|
                                            0 <= w < deps0.len() && deps0[w] == jw;
                                        assert(deps@[w] == jw);
                                    } else {
                                        assert(deps@ == deps0.push(jw));
                                        assert(deps@[deps@.len() - 1] == jw);
                                    }
                                    assert(deps@.contains(d));
                                    assert(false);
                                }
                            }
                        }
                    }
                }
            },
        }
        m2 += 1;
    }
    proof {
        assert forall|d: usize|
            (#[trigger] deps@.contains(d)) <==> res_dep(systems@, i as int, d as int) by {
            if deps@.contains(d) {
                if exists|q: int|
                    0 <= q < nr && last_res_writer(
                        systems@,
                        #[trigger] systems@[i as int].resources.reads@[q],
                        i as int,
                    ) == d as int {
                    let q = choose|q: int|
                        0 <= q < nr && last_res_writer(
                            systems@,
                            #[trigger] systems@[i as int].resources.reads@[q],
                            i as int,
                        ) == d as int;
                    let r = systems@[i as int].resources.reads@[q];
                    assert(systems@[i as int].resources.reads@.contains(r));
                    assert(systems@[i as int].reads_res(r));
                    assert(res_dep(systems@, i as int, d as int)) by {
                        assert((systems@[i as int].reads_res(r) || systems@[i as int].writes_res(
                            r,
                        )) && last_res_writer(systems@, r, i as int) == d as int);
                    }
                } else {
                    let q = choose|q: int|
                        0 <= q < nw && last_res_writer(
                            systems@,
                            #[trigger] systems@[i as int].resources.writes@[q],
                            i as int,
                        ) == d as int;
                    let r = systems@[i as int].resources.writes@[q];
                    assert(systems@[i as int].resources.writes@.contains(r));
                    assert(systems@[i as int].writes_res(r));
                    assert(res_dep(systems@, i as int, d as int)) by {
                        assert((systems@[i as int].reads_res(r) || systems@[i as int].writes_res(
                            r,
                        )) && last_res_writer(systems@, r, i as int) == d as int);
                    }
                }
            }
            if res_dep(systems@, i as int, d as int) {
                let r = choose|r: u32| #![trigger last_res_writer(systems@, r, i as int)]
                    (systems@[i as int].reads_res(r) || systems@[i as int].writes_res(r))
                        && last_res_writer(systems@, r, i as int) == d as int;
                if systems@[i as int].reads_res(r) {
                    let q = choose|q: int|
                        0 <= q < systems@[i as int].resources.reads@.len()
                            && systems@[i as int].resources.reads@[q] == r;
                    assert(last_res_writer(
                        systems@,
                        systems@[i as int].resources.reads@[q],
                        i as int,
                    ) == d as int);
                } else {
                    let q = choose|q: int|
                        0 <= q < systems@[i as int].resources.writes@.len()
                            && systems@[i as int].resources.writes@[q] == r;
                    assert(last_res_writer(
                        systems@,
                        systems@[i as int].resources.writes@[q],
                        i as int,
                    ) == d as int);
                }
            }
        }
        assert forall|q: int| 0 <= q < deps@.len() implies (#[trigger] deps@[q] as int) < i by {
            let d = deps@[q];
            assert(deps@.contains(d));
            assert(res_dep(systems@, i as int, d as int));
            let r = choose|r: u32| #![trigger last_res_writer(systems@, r, i as int)]
                (systems@[i as int].reads_res(r) || systems@[i as int].writes_res(r))
                    && last_res_writer(systems@, r, i as int) == d as int;
            lemma_last_res_writer_props(systems@, r, i as int);
        }
    }
    deps
}

/// Executes the systems of one stage: derives the dependency graph from the
/// systems' declared accesses and hands out an order (and readiness tests)
/// that a worker pool must respect.
#[derive(Debug)]
pub struct StageExecutor {
    pub n: usize,
    pub static_dependants: Vec<Vec<usize>>,
    pub dynamic_dependants: Vec<Vec<usize>>,
    pub static_dependancy_counts: Vec<usize>,
    pub awaiting: Vec<usize>,
}

impl StageExecutor {
    /// Edge lists have one entry slot per system and every edge points
    /// forward: a dependant's index is above its dependency's.
    pub open spec fn wf(self) -> bool {
        &&& self.static_dependants@.len() == self.n
        &&& self.dynamic_dependants@.len() == self.n
        &&& self.static_dependancy_counts@.len() == self.n
        &&& self.awaiting@.len() == self.n
        &&& forall|j: int, k: int|
            0 <= j < self.n && 0 <= k < self.static_dependants@[j]@.len() ==> j < ((
            #[trigger] self.static_dependants@[j]@[k]) as int) < self.n
        &&& forall|j: int, k: int|
            0 <= j < self.n && 0 <= k < self.dynamic_dependants@[j]@.len() ==> j < ((
            #[trigger] self.dynamic_dependants@[j]@[k]) as int) < self.n
    }

    /// Whether the stage records a static edge from `j` to `i`.
    pub open spec fn static_edge(self, j: int, i: int) -> bool {
        0 <= j < self.static_dependants@.len() && self.static_dependants@[j]@.contains(
            i as usize,
        )
    }

    /// Whether the stage records a provisional edge from `j` to `i`.
    pub open spec fn dynamic_edge(self, j: int, i: int) -> bool {
        0 <= j < self.dynamic_dependants@.len() && self.dynamic_dependants@[j]@.contains(
            i as usize,
        )
    }
}

impl StageExecutor {
    /// Build the stage graph for systems given in declaration order. A
    /// static edge runs from the most recent prior writer of each resource a
    /// system touches; a provisional edge runs from every prior writer of
    /// each component a system touches.
    pub fn new(systems: &Vec<SystemAccess>) -> (ex: StageExecutor)
        ensures
            ex.wf(),
            ex.n == systems@.len(),
            forall|j: int, i: usize|
                0 <= j < ex.n ==> ((#[trigger] ex.static_dependants@[j]@.contains(i)) <==> ((
                i as int) < ex.n && res_dep(systems@, i as int, j))),
            forall|j: int, i: usize|
                0 <= j < ex.n ==> ((#[trigger] ex.dynamic_dependants@[j]@.contains(i)) <==> ((
                i as int) < ex.n && comp_dep(systems@, i as int, j))),
            forall|i: int|
                0 <= i < ex.n ==> ((#[trigger] ex.static_dependancy_counts@[i] == 0) <==> (
                forall|j: int| !res_dep(systems@, i, j))),
            forall|i: int| 0 <= i < ex.n ==> #[trigger] ex.awaiting@[i] == 0,
    {
        let n = systems.len();
        let mut static_dependants: Vec<Vec<usize>> = Vec::new();
        let mut dynamic_dependants: Vec<Vec<usize>> = Vec::new();
        let mut counts: Vec<usize> = Vec::new();
        let mut awaiting: Vec<usize> = Vec::new();
        let mut k0: usize = 0;
        while k0 < n
            invariant
                k0 <= n,
                static_dependants@.len() == k0,
                dynamic_dependants@.len() == k0,
                awaiting@.len() == k0,
                forall|j: int|
                    0 <= j < k0 ==> (#[trigger] static_dependants@[j])@.len() == 0,
                forall|j: int|
                    0 <= j < k0 ==> (#[trigger] dynamic_dependants@[j])@.len() == 0,
                forall|j: int| 0 <= j < k0 ==> #[trigger] awaiting@[j] == 0,
            decreases n - k0,
        {
            static_dependants.push(Vec::new());
            dynamic_dependants.push(Vec::new());
            awaiting.push(0);
            k0 += 1;
        }
        let mut i: usize = 0;
        while i < n
            invariant
                n == systems@.len(),
                i <= n,
                static_dependants@.len() == n,
                dynamic_dependants@.len() == n,
                awaiting@.len() == n,
                counts@.len() == i,
                forall|j: int| 0 <= j < n ==> #[trigger] awaiting@[j] == 0,
                forall|j: int, i2: usize|
                    0 <= j < n ==> ((#[trigger] static_dependants@[j]@.contains(i2)) <==> ((
                    i2 as int) < i && res_dep(systems@, i2 as int, j))),
                forall|j: int, i2: usize|
                    0 <= j < n ==> ((#[trigger] dynamic_dependants@[j]@.contains(i2)) <==> ((
                    i2 as int) < i && comp_dep(systems@, i2 as int, j))),
                forall|i2: int|
                    0 <= i2 < i ==> ((#[trigger] counts@[i2] == 0) <==> (forall|j: int|
                        !res_dep(systems@, i2, j))),
            decreases n - i,
        {
            // Static resource dependencies of system i: the most recent
            // prior writer of anything it reads or writes, deduplicated.
            let deps = collect_res_deps(systems, i);
            counts.push(deps.len());
            proof {
                assert(counts@[i as int] == deps@.len());
                if deps@.len() == 0 {
                    assert forall|j: int| !res_dep(systems@, i as int, j) by {
                        if res_dep(systems@, i as int, j) {
                            assert(j >= 0);
                            assert(j < n) by {
                                let r = choose|r: u32| #![trigger last_res_writer(systems@, r, i as int)]
                                    (systems@[i as int].reads_res(r)
                                        || systems@[i as int].writes_res(r)) && last_res_writer(
                                        systems@,
                                        r,
                                        i as int,
                                    ) == j;
                                lemma_last_res_writer_props(systems@, r, i as int);
                            }
                            assert(deps@.contains(j as usize));
                        }
                    }
                } else {
                    assert(deps@.contains(deps@[0]));
                    assert(res_dep(systems@, i as int, deps@[0] as int));
                }
            }
            // Record the static edges.
            let nd = deps.len();
            let mut k: usize = 0;
            while k < nd
                invariant
                    n == systems@.len(),
                    i < n,
                    nd == deps@.len(),
                    k <= nd,
                    static_dependants@.len() == n,
                    forall|d: usize|
                        (#[trigger] deps@.contains(d)) <==> res_dep(
                            systems@,
                            i as int,
                            d as int,
                        ),
                    forall|q1: int, q2: int|
                        0 <= q1 < q2 < deps@.len() ==> deps@[q1] != deps@[q2],
                    forall|q: int| 0 <= q < nd ==> (#[trigger] deps@[q] as int) < n,
                    forall|j: int, i2: usize|
                        0 <= j < n ==> ((#[trigger] static_dependants@[j]@.contains(i2)) <==> (((
                        i2 as int) < i && res_dep(systems@, i2 as int, j)) || (i2 == i && exists|
                            q: int,
                        |
                            0 <= q < k && deps@[q] == j))),
                decreases nd - k,
            {
                let d = deps[k];
                let ghost lists0 = static_dependants@;
                static_dependants[d].push(i);
                proof {
                    let ki = k as int;
                    let di = d as int;
                    assert(static_dependants@[di]@ == lists0[di]@.push(i));
                    assert forall|j: int, i2: usize|
                        0 <= j < n implies ((#[trigger] static_dependants@[j]@.contains(i2)) <==> (((
                        i2 as int) < i && res_dep(systems@, i2 as int, j)) || (i2 == i && exists|
                            q: int,
                        |
                            0 <= q < ki + 1 && deps@[q] == j))) by {
                        if j == di {
                            if static_dependants@[j]@.contains(i2) {
                                let w = choose|w: int|
                                    0 <= w < static_dependants@[j]@.len()
                                        && static_dependants@[j]@[w] == i2;
                                if w < lists0[j]@.len() {
                                    assert(lists0[j]@[w] == i2);
                                    assert(lists0[j]@.contains(i2));
                                } else {
                                    assert(i2 == i);
                                    assert(deps@[ki] == j);
                                }
                            }
                            if ((i2 as int) < i && res_dep(systems@, i2 as int, j)) || (i2 == i
                                && exists|q: int| 0 <= q < ki + 1 && deps@[q] == j) {
                                if (i2 as int) < i && res_dep(systems@, i2 as int, j) {
                                    assert(lists0[j]@.contains(i2));
                                    let w = choose|w: int|
                                        0 <= w < lists0[j]@.len() && lists0[j]@[w] == i2;
                                    assert(static_dependants@[j]@[w] == i2);
                                } else {
                                    assert(static_dependants@[j]@.last() == i);
                                }
                            }
                        } else {
                            assert(static_dependants@[j]@ == lists0[j]@);
                            if i2 == i && exists|q: int| 0 <= q < ki + 1 && deps@[q] == j {
                                let q = choose|q: int| 0 <= q < ki + 1 && deps@[q] == j;
                                assert(q < ki);
                            }
                        }
                    }
                }
                k += 1;
            }
            proof {
                assert forall|j: int, i2: usize|
                    0 <= j < n implies ((#[trigger] static_dependants@[j]@.contains(i2)) <==> ((
                    i2 as int) < i + 1 && res_dep(systems@, i2 as int, j))) by {
                    if static_dependants@[j]@.contains(i2) {
                        if !((i2 as int) < i && res_dep(systems@, i2 as int, j)) {
                            assert(i2 == i);
                            let q = choose|q: int| 0 <= q < nd && deps@[q] == j;
                            assert(deps@.contains(deps@[q]));
                            assert(res_dep(systems@, i as int, j));
                        }
                    }
                    if (i2 as int) < i + 1 && res_dep(systems@, i2 as int, j) {
                        if (i2 as int) == i as int {
                            assert(j < n) by {
                                let r = choose|r: u32| #![trigger last_res_writer(systems@, r, i2 as int)]
                                    (systems@[i2 as int].reads_res(r)
                                        || systems@[i2 as int].writes_res(r)) && last_res_writer(
                                        systems@,
                                        r,
                                        i2 as int,
                                    ) == j;
                                lemma_last_res_writer_props(systems@, r, i2 as int);
                            }
                            assert(deps@.contains(j as usize));
                            let q = choose|q: int| 0 <= q < deps@.len() && deps@[q] == j as usize;
                        }
                    }
                }
            }
            // Provisional component edges from every prior writer.
            let mut j: usize = 0;
            while j < i
                invariant
                    n == systems@.len(),
                    i < n,
                    j <= i,
                    dynamic_dependants@.len() == n,
                    static_dependants@.len() == n,
                    forall|j2: int, i2: usize|
                        0 <= j2 < n ==> ((#[trigger] dynamic_dependants@[j2]@.contains(i2)) <==> (((
                        i2 as int) < i && comp_dep(systems@, i2 as int, j2)) || (i2 == i && j2 < j
                            && comp_dep(systems@, i as int, j2)))),
                decreases i - j,
            {
                let conflict = comp_conflict(&systems[i], &systems[j]);
                let ghost lists0 = dynamic_dependants@;
                if conflict {
                    dynamic_dependants[j].push(i);
                }
                proof {
                    let ji = j as int;
                    assert forall|j2: int, i2: usize|
                        0 <= j2 < n implies ((#[trigger] dynamic_dependants@[j2]@.contains(i2))
                        <==> (((i2 as int) < i && comp_dep(systems@, i2 as int, j2)) || (i2 == i
                            && j2 < ji + 1 && comp_dep(systems@, i as int, j2)))) by {
                        if j2 == ji && conflict {
                            assert(dynamic_dependants@[j2]@ == lists0[j2]@.push(i));
                            if dynamic_dependants@[j2]@.contains(i2) {
                                let w = choose|w: int|
                                    0 <= w < dynamic_dependants@[j2]@.len()
                                        && dynamic_dependants@[j2]@[w] == i2;
                                if w < lists0[j2]@.len() {
                                    assert(lists0[j2]@[w] == i2);
                                    assert(lists0[j2]@.contains(i2));
                                } else {
                                    assert(i2 == i);
                                    assert(comp_dep(systems@, i as int, j2));
                                }
                            }
                            if ((i2 as int) < i && comp_dep(systems@, i2 as int, j2)) || (i2 == i
                                && j2 < ji + 1 && comp_dep(systems@, i as int, j2)) {
                                if (i2 as int) < i && comp_dep(systems@, i2 as int, j2) {
                                    assert(lists0[j2]@.contains(i2));
                                    let w = choose|w: int|
                                        0 <= w < lists0[j2]@.len() && lists0[j2]@[w] == i2;
                                    assert(dynamic_dependants@[j2]@[w] == i2);
                                } else {
                                    assert(dynamic_dependants@[j2]@.last() == i);
                                }
                            }
                        } else {
                            assert(dynamic_dependants@[j2]@ == lists0[j2]@);
                            if i2 == i && j2 < ji + 1 && comp_dep(systems@, i as int, j2) {
                                assert(j2 != ji);
                            }
                        }
                    }
                }
                j += 1;
            }
            proof {
                assert forall|j2: int, i2: usize|
                    0 <= j2 < n implies ((#[trigger] dynamic_dependants@[j2]@.contains(i2)) <==> ((
                    i2 as int) < i + 1 && comp_dep(systems@, i2 as int, j2))) by {
                    if (i2 as int) == i as int && comp_dep(systems@, i as int, j2) {
                        assert(j2 < i as int);
                    }
                }
            }
            i += 1;
        }
        let ex = StageExecutor {
            n,
            static_dependants,
            dynamic_dependants,
            static_dependancy_counts: counts,
            awaiting,
        };
        proof {
            assert(ex.wf()) by {
                assert forall|j: int, k: int|
                    0 <= j < ex.n && 0 <= k < ex.static_dependants@[j]@.len() implies j < ((
                #[trigger] ex.static_dependants@[j]@[k]) as int) < ex.n by {
                    let i2 = ex.static_dependants@[j]@[k];
                    assert(ex.static_dependants@[j]@.contains(i2));
                    assert(res_dep(systems@, i2 as int, j));
                    let r = choose|r: u32| #![trigger last_res_writer(systems@, r, i2 as int)]
                        (systems@[i2 as int].reads_res(r) || systems@[i2 as int].writes_res(r))
                            && last_res_writer(systems@, r, i2 as int) == j;
                    lemma_last_res_writer_props(systems@, r, i2 as int);
                }
                assert forall|j: int, k: int|
                    0 <= j < ex.n && 0 <= k < ex.dynamic_dependants@[j]@.len() implies j < ((
                #[trigger] ex.dynamic_dependants@[j]@[k]) as int) < ex.n by {
                    let i2 = ex.dynamic_dependants@[j]@[k];
                    assert(ex.dynamic_dependants@[j]@.contains(i2));
                    assert(comp_dep(systems@, i2 as int, j));
                }
            }
        }
        ex
    }
}

impl StageExecutor {
    /// Refine the provisional component edges against the systems' current
    /// archetype sets: an edge whose two systems touch intersecting
    /// archetype sets becomes a static edge, the others stay provisional.
    /// Run before every execution, because archetype membership grows.
    pub fn prepare(&mut self, archetype_sets: &Vec<ArchetypeSet>)
        requires
            old(self).wf(),
            archetype_sets@.len() == old(self).n,
        ensures
            final(self).wf(),
            final(self).n == old(self).n,
            forall|j: int, i: usize|
                0 <= j < final(self).n ==> ((#[trigger] final(self).static_dependants@[j]@.contains(
                    i,
                )) <==> (old(self).static_dependants@[j]@.contains(i) || (old(
                    self,
                ).dynamic_dependants@[j]@.contains(i) && !bitset_elems(
                    archetype_sets@[i as int],
                ).disjoint(bitset_elems(archetype_sets@[j]))))),
            forall|j: int, i: usize|
                0 <= j < final(self).n ==> ((#[trigger] final(self).dynamic_dependants@[j]@.contains(
                    i,
                )) <==> (old(self).dynamic_dependants@[j]@.contains(i) && bitset_elems(
                    archetype_sets@[i as int],
                ).disjoint(bitset_elems(archetype_sets@[j])))),
    {
        let ghost ex0 = *old(self);
        let n = self.n;
        let mut j: usize = 0;
        while j < n
            invariant
                ex0 == *old(self),
                ex0.wf(),
                archetype_sets@.len() == n,
                n == ex0.n,
                self.n == n,
                j <= n,
                self.static_dependants@.len() == n,
                self.dynamic_dependants@.len() == n,
                self.static_dependancy_counts@ == ex0.static_dependancy_counts@,
                self.awaiting@ == ex0.awaiting@,
                forall|j2: int, i: usize|
                    j <= j2 < n ==> ((#[trigger] self.static_dependants@[j2]@.contains(i)) <==> ex0.static_dependants@[j2]@.contains(i)),
                forall|j2: int|
                    j <= j2 < n ==> ((#[trigger] self.dynamic_dependants@[j2]@) == ex0.dynamic_dependants@[j2]@),
                forall|j2: int, i: usize|
                    0 <= j2 < j ==> ((#[trigger] self.static_dependants@[j2]@.contains(i)) <==> (
                    ex0.static_dependants@[j2]@.contains(i)
                        || (ex0.dynamic_dependants@[j2]@.contains(i) && !bitset_elems(
                        archetype_sets@[i as int],
                    ).disjoint(bitset_elems(archetype_sets@[j2]))))),
                forall|j2: int, i: usize|
                    0 <= j2 < j ==> ((#[trigger] self.dynamic_dependants@[j2]@.contains(i)) <==> (
                    ex0.dynamic_dependants@[j2]@.contains(i) && bitset_elems(
                        archetype_sets@[i as int],
                    ).disjoint(bitset_elems(archetype_sets@[j2])))),
                forall|j2: int, k: int|
                    0 <= j2 < n && 0 <= k < self.static_dependants@[j2]@.len() ==> j2 < ((
                    #[trigger] self.static_dependants@[j2]@[k]) as int) < n,
                forall|j2: int, k: int|
                    0 <= j2 < n && 0 <= k < self.dynamic_dependants@[j2]@.len() ==> j2 < ((
                    #[trigger] self.dynamic_dependants@[j2]@[k]) as int) < n,
            decreases n - j,
        {
            let mut kept: Vec<usize> = Vec::new();
            let nd = self.dynamic_dependants[j].len();
            let mut k: usize = 0;
            while k < nd
                invariant
                    ex0.wf(),
                    archetype_sets@.len() == n,
                    n == ex0.n,
                    self.n == n,
                    j < n,
                    self.static_dependants@.len() == n,
                    self.dynamic_dependants@.len() == n,
                    nd == self.dynamic_dependants@[j as int]@.len(),
                    self.dynamic_dependants@[j as int]@ == ex0.dynamic_dependants@[j as int]@,
                    k <= nd,
                    forall|q: int|
                        0 <= q < nd ==> (j as int) < ((
                        #[trigger] self.dynamic_dependants@[j as int]@[q]) as int) < n,
                    forall|j2: int, k2: int|
                        0 <= j2 < n && 0 <= k2 < self.dynamic_dependants@[j2]@.len() ==> j2 < ((
                        #[trigger] self.dynamic_dependants@[j2]@[k2]) as int) < n,
                    forall|j2: int, k2: int|
                        0 <= j2 < n && 0 <= k2 < self.static_dependants@[j2]@.len() ==> j2 < ((
                        #[trigger] self.static_dependants@[j2]@[k2]) as int) < n,
                    forall|j2: int, i: usize|
                        j < j2 < n ==> ((#[trigger] self.static_dependants@[j2]@.contains(i))
                            <==> ex0.static_dependants@[j2]@.contains(i)),
                    forall|j2: int|
                        j < j2 < n ==> ((#[trigger] self.dynamic_dependants@[j2]@)
                            == ex0.dynamic_dependants@[j2]@),
                    forall|j2: int, i: usize|
                        0 <= j2 < j ==> ((#[trigger] self.static_dependants@[j2]@.contains(i))
                            <==> (ex0.static_dependants@[j2]@.contains(i)
                            || (ex0.dynamic_dependants@[j2]@.contains(i) && !bitset_elems(
                            archetype_sets@[i as int],
                        ).disjoint(bitset_elems(archetype_sets@[j2]))))),
                    forall|j2: int, i: usize|
                        0 <= j2 < j ==> ((#[trigger] self.dynamic_dependants@[j2]@.contains(i))
                            <==> (ex0.dynamic_dependants@[j2]@.contains(i) && bitset_elems(
                            archetype_sets@[i as int],
                        ).disjoint(bitset_elems(archetype_sets@[j2])))),
                    self.static_dependancy_counts@ == ex0.static_dependancy_counts@,
                    self.awaiting@ == ex0.awaiting@,
                    // what j's own lists hold mid-split
                    forall|i: usize|
                        (#[trigger] kept@.contains(i)) <==> (exists|q: int|
                            0 <= q < k && ex0.dynamic_dependants@[j as int]@[q] == i
                                && bitset_elems(archetype_sets@[i as int]).disjoint(
                                bitset_elems(archetype_sets@[j as int]),
                            )),
                    forall|i: usize|
                        (#[trigger] self.static_dependants@[j as int]@.contains(i)) <==> (
                        ex0.static_dependants@[j as int]@.contains(i) || (exists|q: int|
                            0 <= q < k && ex0.dynamic_dependants@[j as int]@[q] == i
                                && !bitset_elems(archetype_sets@[i as int]).disjoint(
                                bitset_elems(archetype_sets@[j as int]),
                            ))),
                    forall|q: int| 0 <= q < kept@.len() ==> (j as int) < ((#[trigger] kept@[q]) as int) < n,
                decreases nd - k,
            {
                let i = self.dynamic_dependants[j][k];
                let disjoint = bitset_is_disjoint(&archetype_sets[i], &archetype_sets[j]);
                let ghost kept0 = kept@;
                let ghost stat0 = self.static_dependants@;
                if disjoint {
                    kept.push(i);
                } else {
                    self.static_dependants[j].push(i);
                }
                proof {
                    let ki = k as int;
                    let ji = j as int;
                    assert(self.dynamic_dependants@[ji]@[ki] == i);
                    if disjoint {
                        assert(kept@ == kept0.push(i));
                        assert forall|i2: usize|
                            (#[trigger] kept@.contains(i2)) <==> (exists|q: int|
                                0 <= q < ki + 1 && ex0.dynamic_dependants@[ji]@[q] == i2
                                    && bitset_elems(archetype_sets@[i2 as int]).disjoint(
                                    bitset_elems(archetype_sets@[ji]),
                                )) by {
                            if kept@.contains(i2) {
                                let w = choose|w: int| 0 <= w < kept@.len() && kept@[w] == i2;
                                if w < kept0.len() {
                                    assert(kept0[w] == i2);
                                    assert(kept0.contains(i2));
                                } else {
                                    assert(i2 == i);
                                    assert(ex0.dynamic_dependants@[ji]@[ki] == i2);
                                }
                            }
                            if exists|q: int|
                                0 <= q < ki + 1 && ex0.dynamic_dependants@[ji]@[q] == i2
                                    && bitset_elems(archetype_sets@[i2 as int]).disjoint(
                                    bitset_elems(archetype_sets@[ji]),
                                ) {
                                let q = choose|q: int|
                                    0 <= q < ki + 1 && ex0.dynamic_dependants@[ji]@[q] == i2
                                        && bitset_elems(archetype_sets@[i2 as int]).disjoint(
                                        bitset_elems(archetype_sets@[ji]),
                                    );
                                if q < ki {
                                    assert(kept0.contains(i2));
                                    let w = choose|w: int|
                                        0 <= w < kept0.len() && kept0[w] == i2;
                                    assert(kept@[w] == i2);
                                } else {
                                    assert(i2 == i);
                                    assert(kept@[kept@.len() - 1] == i);
                                }
                            }
                        }
                    } else {
                        assert(self.static_dependants@[ji]@ == stat0[ji]@.push(i));
                        assert forall|i2: usize|
                            (#[trigger] self.static_dependants@[ji]@.contains(i2)) <==> (
                            ex0.static_dependants@[ji]@.contains(i2) || (exists|q: int|
                                0 <= q < ki + 1 && ex0.dynamic_dependants@[ji]@[q] == i2
                                    && !bitset_elems(archetype_sets@[i2 as int]).disjoint(
                                    bitset_elems(archetype_sets@[ji]),
                                ))) by {
                            if self.static_dependants@[ji]@.contains(i2) {
                                let w = choose|w: int|
                                    0 <= w < self.static_dependants@[ji]@.len()
                                        && self.static_dependants@[ji]@[w] == i2;
                                if w < stat0[ji]@.len() {
                                    assert(stat0[ji]@[w] == i2);
                                    assert(stat0[ji]@.contains(i2));
                                } else {
                                    assert(i2 == i);
                                    assert(ex0.dynamic_dependants@[ji]@[ki] == i2);
                                }
                            }
                            if ex0.static_dependants@[ji]@.contains(i2) || (exists|q: int|
                                0 <= q < ki + 1 && ex0.dynamic_dependants@[ji]@[q] == i2
                                    && !bitset_elems(archetype_sets@[i2 as int]).disjoint(
                                    bitset_elems(archetype_sets@[ji]),
                                )) {
                                if stat0[ji]@.contains(i2) {
                                    let w = choose|w: int|
                                        0 <= w < stat0[ji]@.len() && stat0[ji]@[w] == i2;
                                    assert(self.static_dependants@[ji]@[w] == i2);
                                } else {
                                    let q = choose|q: int|
                                        0 <= q < ki + 1 && ex0.dynamic_dependants@[ji]@[q] == i2
                                            && !bitset_elems(archetype_sets@[i2 as int]).disjoint(
                                            bitset_elems(archetype_sets@[ji]),
                                        );
                                    if q < ki {
                                        assert(kept0.contains(i2) == false);
                                        assert(exists|q2: int|
                                            0 <= q2 < ki && ex0.dynamic_dependants@[ji]@[q2] == i2
                                                && !bitset_elems(
                                                archetype_sets@[i2 as int],
                                            ).disjoint(bitset_elems(archetype_sets@[ji])));
                                        assert(stat0[ji]@.contains(i2));
                                        assert(false);
                                    } else {
                                        assert(i2 == i);
                                        assert(self.static_dependants@[ji]@.last() == i);
                                    }
                                }
                            }
                        }
                    }
                }
                k += 1;
            }
            let ghost dyn0 = self.dynamic_dependants@;
            let ghost kept_v = kept@;
            self.dynamic_dependants[j] = kept;
            proof {
                let ji = j as int;
                assert(self.dynamic_dependants@ == dyn0.update(ji, self.dynamic_dependants@[ji]));
                assert(self.dynamic_dependants@[ji]@ == kept_v);
                assert forall|k2: int|
                    0 <= k2 < self.dynamic_dependants@[ji]@.len() implies ji < ((
                #[trigger] self.dynamic_dependants@[ji]@[k2]) as int) < n by {
                    assert(kept_v[k2] == self.dynamic_dependants@[ji]@[k2]);
                }
                assert forall|i2: usize|
                    (#[trigger] self.dynamic_dependants@[ji]@.contains(i2)) <==> (
                    ex0.dynamic_dependants@[ji]@.contains(i2) && bitset_elems(
                        archetype_sets@[i2 as int],
                    ).disjoint(bitset_elems(archetype_sets@[ji]))) by {
                    if self.dynamic_dependants@[ji]@.contains(i2) {
                        let q = choose|q: int|
                            0 <= q < nd && ex0.dynamic_dependants@[ji]@[q] == i2 && bitset_elems(
                                archetype_sets@[i2 as int],
                            ).disjoint(bitset_elems(archetype_sets@[ji]));
                        assert(ex0.dynamic_dependants@[ji]@.contains(i2));
                    }
                    if ex0.dynamic_dependants@[ji]@.contains(i2) && bitset_elems(
                        archetype_sets@[i2 as int],
                    ).disjoint(bitset_elems(archetype_sets@[ji])) {
                        let q = choose|q: int|
                            0 <= q < nd && ex0.dynamic_dependants@[ji]@[q] == i2;
                        assert(exists|q2: int|
                            0 <= q2 < nd && ex0.dynamic_dependants@[ji]@[q2] == i2
                                && bitset_elems(archetype_sets@[i2 as int]).disjoint(
                                bitset_elems(archetype_sets@[ji]),
                            ));
                    }
                }
            }
            j += 1;
        }
    }

    /// Reset the run-state counters: each system starts out awaiting as
    /// many completions as it has static dependencies.
    pub fn init_awaiting(&mut self)
        requires
            old(self).wf(),
        ensures
            final(self).wf(),
            final(self).n == old(self).n,
            final(self).static_dependants@ == old(self).static_dependants@,
            final(self).dynamic_dependants@ == old(self).dynamic_dependants@,
            final(self).static_dependancy_counts@ == old(self).static_dependancy_counts@,
            final(self).awaiting@ == old(self).static_dependancy_counts@,
    {
        let ghost ex0 = *old(self);
        let mut awaiting: Vec<usize> = Vec::new();
        let n = self.n;
        let mut i: usize = 0;
        while i < n
            invariant
                ex0 == *old(self),
                ex0.wf(),
                *self == ex0,
                n == self.n,
                i <= n,
                awaiting@.len() == i,
                forall|k: int|
                    0 <= k < i ==> #[trigger] awaiting@[k] == ex0.static_dependancy_counts@[k],
            decreases n - i,
        {
            awaiting.push(self.static_dependancy_counts[i]);
            i += 1;
        }
        self.awaiting = awaiting;
        proof {
            assert(self.awaiting@ =~= ex0.static_dependancy_counts@);
        }
    }

    /// One order in which a single worker may run the whole stage: systems
    /// in declaration order. Every static edge's dependency comes before its
    /// dependant, because all edges point forward.
    pub fn execute_order(&self) -> (r: Vec<usize>)
        requires
            self.wf(),
        ensures
            r@.len() == self.n,
            forall|k: int| 0 <= k < r@.len() ==> #[trigger] r@[k] == k,
            forall|j: int, i: usize|
                0 <= j < self.n && #[trigger] self.static_dependants@[j]@.contains(i) ==> {
                    &&& 0 <= j < r@.len()
                    &&& (i as int) < r@.len()
                    &&& r@[j] == j
                    &&& r@[i as int] == i
                    &&& j < i as int
                },
    {
        let mut r: Vec<usize> = Vec::new();
        let mut k: usize = 0;
        while k < self.n
            invariant
                k <= self.n,
                r@.len() == k,
                forall|q: int| 0 <= q < k ==> #[trigger] r@[q] == q,
            decreases self.n - k,
        {
            r.push(k);
            k += 1;
        }
        proof {
            assert forall|j: int, i: usize|
                0 <= j < self.n && #[trigger] self.static_dependants@[j]@.contains(i) implies {
                &&& 0 <= j < r@.len()
                &&& (i as int) < r@.len()
                &&& r@[j] == j
                &&& r@[i as int] == i
                &&& j < i as int
            } by {
                let w = choose|w: int|
                    0 <= w < self.static_dependants@[j]@.len() && self.static_dependants@[j]@[w]
                        == i;
            }
        }
        r
    }

    /// Whether system `i` may start: every system with a static edge into
    /// `i` is marked complete.
    pub fn ready(&self, i: usize, completed: &Vec<bool>) -> (r: bool)
        requires
            self.wf(),
            completed@.len() == self.n,
            i < self.n,
        ensures
            r == forall|j: int|
                0 <= j < self.n && (#[trigger] self.static_dependants@[j]@.contains(i))
                    ==> completed@[j],
    {
        let n = self.n;
        let mut j: usize = 0;
        while j < n
            invariant
                self.wf(),
                completed@.len() == n,
                n == self.n,
                i < n,
                j <= n,
                forall|j2: int|
                    0 <= j2 < j && (#[trigger] self.static_dependants@[j2]@.contains(i))
                        ==> completed@[j2],
            decreases n - j,
        {
            if !completed[j] {
                let depends = contains_usize(&self.static_dependants[j], i);
                if depends {
                    return false;
                }
            }
            j += 1;
        }
        true
    }
}

/// A path of static edges from `j` to `i`: a chain of dependants each
/// waiting on the previous.
pub open spec fn reaches(lists: Seq<Seq<usize>>, j: int, i: int) -> bool
    decreases i - j when j < i
{
    ||| (0 <= j < lists.len() && lists[j].contains(i as usize))
    ||| exists|k: int|
        j < k < i && 0 <= j < lists.len() && (#[trigger] lists[j].contains(k as usize))
            && reaches(lists, k, i)
}

/// A path from `j` to `k` extends by the edge `k -> i` into a path from `j`
/// to `i`.
pub proof fn lemma_reaches_extend(lists: Seq<Seq<usize>>, j: int, k: int, i: int)
    requires
        0 <= j < k < i,
        k < lists.len(),
        reaches(lists, j, k),
        lists[k].contains(i as usize),
    ensures
        reaches(lists, j, i),
    decreases k - j,
{
    reveal_with_fuel(reaches, 2);
    if 0 <= j < lists.len() && lists[j].contains(k as usize) {
        assert(reaches(lists, k, i));
        assert(j < k < i && lists[j].contains(k as usize) && reaches(lists, k, i));
    } else {
        let k2 = choose|k2: int|
            j < k2 < k && 0 <= j < lists.len() && (#[trigger] lists[j].contains(k2 as usize))
                && reaches(lists, k2, k);
        lemma_reaches_extend(lists, k2, k, i);
        assert(j < k2 < i && lists[j].contains(k2 as usize) && reaches(lists, k2, i));
    }
}

/// Scheduler safety, resource side: whenever an earlier system writes a
/// resource that a later system reads or writes, the stage graph orders
/// them: a chain of static edges runs from the writer to the later system.
/// So the two can never be scheduled concurrently.
pub proof fn lemma_resource_dependency_path(
    systems: Seq<SystemAccess>,
    lists: Seq<Seq<usize>>,
    j: int,
    i: int,
    r: u32,
)
    requires
        lists.len() == systems.len(),
        systems.len() <= usize::MAX,
        forall|j2: int, i2: usize|
            0 <= j2 < systems.len() ==> ((#[trigger] lists[j2].contains(i2)) <== ((i2 as int)
                < systems.len() && res_dep(systems, i2 as int, j2))),
        0 <= j < i < systems.len(),
        systems[j].writes_res(r),
        systems[i].reads_res(r) || systems[i].writes_res(r),
    ensures
        reaches(lists, j, i),
    decreases i - j,
{
    let k = last_res_writer(systems, r, i);
    lemma_last_res_writer_props(systems, r, i);
    assert(k >= 0) by {
        if k == -1 {
            assert(!systems[j].writes_res(r));
        }
    }
    assert(k >= j) by {
        if k < j {
            assert(!systems[j].writes_res(r));
        }
    }
    assert(res_dep(systems, i, k)) by {
        assert((systems[i].reads_res(r) || systems[i].writes_res(r)) && last_res_writer(
            systems,
            r,
            i,
        ) == k);
    }
    assert(lists[k].contains(i as usize));
    if k == j {
        assert(reaches(lists, j, i));
    } else {
        assert(systems[k].writes_res(r));
        lemma_resource_dependency_path(systems, lists, j, k, r);
        lemma_reaches_extend(lists, j, k, i);
    }
}

/// Scheduler safety, component side: whenever an earlier system writes a
/// component that a later system reads or writes, and the two systems'
/// archetype sets intersect, the prepared stage graph holds a direct static
/// edge from the writer to the later system. Systems without such an edge
/// either touch no common written component or work on disjoint archetype
/// sets.
pub proof fn lemma_component_dependency_edge(
    systems: Seq<SystemAccess>,
    prepared: StageExecutor,
    sets: Seq<ArchetypeSet>,
    j: int,
    i: int,
    c: u32,
)
    requires
        prepared.n == systems.len(),
        sets.len() == systems.len(),
        forall|j2: int, i2: usize|
            0 <= j2 < prepared.n ==> ((#[trigger] prepared.static_dependants@[j2]@.contains(i2))
                <== ((i2 as int) < prepared.n && comp_dep(systems, i2 as int, j2) && !bitset_elems(
                sets[i2 as int],
            ).disjoint(bitset_elems(sets[j2])))),
        0 <= j < i < systems.len(),
        systems[j].writes_comp(c),
        systems[i].reads_comp(c) || systems[i].writes_comp(c),
        !bitset_elems(sets[i]).disjoint(bitset_elems(sets[j])),
    ensures
        prepared.static_dependants@[j]@.contains(i as usize),
{
    assert(comp_dep(systems, i, j)) by {
        assert((systems[i].reads_comp(c) || systems[i].writes_comp(c)) && systems[j].writes_comp(
            c,
        ));
    }
}

} // verus!




