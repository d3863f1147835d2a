//! Resources: one singleton value per resource type id, owned by the map.
//!
//! Shared and exclusive access are statically separated: a shared borrow of
//! the map yields shared access to a cell, an exclusive borrow yields
//! exclusive access, so conflicting borrows cannot exist at once.

use vstd::prelude::*;

verus! {

pub type ResourceTypeId = u32;

/// A typed singleton map keyed by resource type id.
#[derive(Debug)]
pub struct Resources<R> {
    pub keys: Vec<ResourceTypeId>,
    pub vals: Vec<R>,
}

impl<R> Resources<R> {
    pub open spec fn wf(self) -> bool {
        &&& self.keys@.len() == self.vals@.len()
        &&& forall|i: int, j: int| 0 <= i < j < self.keys@.len() ==> self.keys@[i] != self.keys@[j]
    }

    pub open spec fn has(self, t: ResourceTypeId) -> bool {
        self.keys@.contains(t)
    }

    pub open spec fn index_of(self, t: ResourceTypeId) -> int {
        choose|i: int| 0 <= i < self.keys@.len() && self.keys@[i] == t
    }

    /// The value stored for resource type `t`.
    pub open spec fn value_of(self, t: ResourceTypeId) -> R
        recommends
            self.has(t),
    {
        self.vals@[self.index_of(t)]
    }

    pub fn new() -> (r: Resources<R>)
        ensures
            r.wf(),
            forall|t: ResourceTypeId| !r.has(t),
    {
        let r = Resources { keys: Vec::new(), vals: Vec::new() };
        proof {
            assert forall|t: ResourceTypeId| !r.has(t) by {
                if r.keys@.contains(t) {
                    let i = choose|i: int| 0 <= i < r.keys@.len() && r.keys@[i] == t;
                }
            }
        }
        r
    }

    /// Whether a value is stored for resource type `t`.
    pub fn contains(&self, t: ResourceTypeId) -> (r: bool)
        requires
            self.wf(),
        ensures
            r == self.has(t),
    {
        let n = self.keys.len();
        let mut i: usize = 0;
        while i < n
            invariant
                n == self.keys@.len(),
                i <= n,
                forall|m: int| 0 <= m < i ==> self.keys@[m] != t,
            decreases n - i,
        {
            if self.keys[i] == t {
                return true;
            }
            i += 1;
        }
        proof {
            if self.has(t) {
                let ii = self.index_of(t);
                assert(self.keys@[ii] == t);
            }
        }
        false
    }

    /// Store `value` for resource type `t`, replacing any prior value.
    pub fn insert(&mut self, t: ResourceTypeId, value: R)
        requires
            old(self).wf(),
        ensures
            final(self).wf(),
            forall|t2: ResourceTypeId| final(self).has(t2) == (old(self).has(t2) || t2 == t),
            final(self).value_of(t) == value,
            forall|t2: ResourceTypeId|
                old(self).has(t2) && t2 != t ==> final(self).value_of(t2) == old(self).value_of(
                    t2,
                ),
    {
        let ghost m0 = *old(self);
        let n = self.keys.len();
        let mut i: usize = 0;
        while i < n
            invariant
                m0 == *old(self),
                *self == m0,
                m0.wf(),
                n == self.keys@.len(),
                i <= n,
                forall|m: int| 0 <= m < i ==> self.keys@[m] != t,
            decreases n - i,
        {
            if self.keys[i] == t {
                self.vals[i] = value;
                proof {
                    let ii = i as int;
                    assert(self.keys@[ii] == t);
                    assert(m0.has(t));
                    assert(self.index_of(t) == ii) by {
                        let jj = self.index_of(t);
                        assert(self.keys@.contains(t));
                        assert(self.keys@[jj] == t);
                        if jj != ii {
                            assert(m0.keys@[jj] != m0.keys@[ii]);
                        }
                    }
                    assert forall|t2: ResourceTypeId|
                        m0.has(t2) && t2 != t implies self.value_of(t2) == m0.value_of(t2) by {
                        let jj = m0.index_of(t2);
                        assert(m0.keys@[jj] == t2);
                        assert(self.index_of(t2) == jj) by {
                            let kk = self.index_of(t2);
                            assert(self.keys@.contains(t2));
                            assert(self.keys@[kk] == t2);
                            if kk != jj {
                                assert(m0.keys@[kk] != m0.keys@[jj]);
                            }
                        }
                        assert(jj != ii);
                    }
                }
                return ;
            }
            i += 1;
        }
        self.keys.push(t);
        self.vals.push(value);
        proof {
            let ii = m0.keys@.len() as int;
            assert(self.keys@ == m0.keys@.push(t));
            assert(self.vals@ == m0.vals@.push(value));
            assert(self.wf()) by {
                assert forall|i1: int, j1: int|
                    0 <= i1 < j1 < self.keys@.len() implies self.keys@[i1] != self.keys@[j1] by {
                    if j1 == ii {
                        assert(self.keys@[i1] == m0.keys@[i1]);
                    }
                }
            }
            assert(self.keys@[ii] == t);
            assert forall|t2: ResourceTypeId| self.has(t2) == (m0.has(t2) || t2 == t) by {
                if self.has(t2) {
                    let jj = choose|jj: int| 0 <= jj < self.keys@.len() && self.keys@[jj] == t2;
                    if jj < ii {
                        assert(m0.keys@[jj] == t2);
                    }
                }
                if m0.has(t2) {
                    let jj = m0.index_of(t2);
                    assert(self.keys@[jj] == t2);
                }
            }
            assert(self.index_of(t) == ii) by {
                let jj = self.index_of(t);
                assert(self.keys@.contains(t));
                assert(self.keys@[jj] == t);
                if jj != ii {
                    assert(m0.keys@[jj] == t);
                }
            }
            assert forall|t2: ResourceTypeId|
                m0.has(t2) && t2 != t implies self.value_of(t2) == m0.value_of(t2) by {
                let jj = m0.index_of(t2);
                assert(m0.keys@[jj] == t2);
                assert(self.index_of(t2) == jj) by {
                    let kk = self.index_of(t2);
                    assert(self.keys@.contains(t2));
                    assert(self.keys@[kk] == t2);
                    if kk != jj && kk < ii && jj < ii {
                        assert(m0.keys@[kk] != m0.keys@[jj]);
                    }
                }
            }
        }
    }

    /// Remove and return the value stored for resource type `t`, if any.
    pub fn remove(&mut self, t: ResourceTypeId) -> (r: Option<R>)
        requires
            old(self).wf(),
        ensures
            final(self).wf(),
            r is Some <==> old(self).has(t),
            old(self).has(t) ==> r == Some(old(self).value_of(t)),
            forall|t2: ResourceTypeId| final(self).has(t2) == (old(self).has(t2) && t2 != t),
            forall|t2: ResourceTypeId|
                old(self).has(t2) && t2 != t ==> final(self).value_of(t2) == old(self).value_of(
                    t2,
                ),
    {
        let ghost m0 = *old(self);
        let n = self.keys.len();
        let mut i: usize = 0;
        while i < n
            invariant
                m0 == *old(self),
                *self == m0,
                m0.wf(),
                n == self.keys@.len(),
                i <= n,
                forall|m: int| 0 <= m < i ==> self.keys@[m] != t,
            decreases n - i,
        {
            if self.keys[i] == t {
                proof {
                    let ii = i as int;
                    assert(m0.keys@[ii] == t);
                    assert(m0.has(t));
                    assert(m0.index_of(t) == ii) by {
                        let jj = m0.index_of(t);
                        assert(m0.keys@[jj] == t);
                        if jj != ii {
                            assert(m0.keys@[jj] != m0.keys@[ii]);
                        }
                    }
                }
                self.keys.swap_remove(i);
                let value = self.vals.swap_remove(i);
                proof {
                    let ii = i as int;
                    let k1 = self.keys@;
                    assert(k1 == m0.keys@.update(ii, m0.keys@.last()).drop_last());
                    assert(self.vals@ == m0.vals@.update(ii, m0.vals@.last()).drop_last());
                    assert(self.wf()) by {
                        assert forall|i1: int, j1: int|
                            0 <= i1 < j1 < k1.len() implies k1[i1] != k1[j1] by {
                            if i1 == ii || j1 == ii {
                                assert(m0.keys@.last() == m0.keys@[m0.keys@.len() - 1]);
                            }
                        }
                    }
                    assert forall|t2: ResourceTypeId|
                        self.has(t2) == (m0.has(t2) && t2 != t) by {
                        if self.has(t2) {
                            let jj = choose|jj: int| 0 <= jj < k1.len() && k1[jj] == t2;
                            if jj == ii {
                                assert(m0.keys@[m0.keys@.len() - 1] == t2);
                            } else {
                                assert(m0.keys@[jj] == t2);
                            }
                            assert(t2 != t) by {
                                if t2 == t {
                                    if jj == ii {
                                        assert(m0.keys@[m0.keys@.len() - 1] != m0.keys@[ii]);
                                    } else {
                                        assert(m0.keys@[jj] != m0.keys@[ii]);
                                    }
                                }
                            }
                        }
                        if m0.has(t2) && t2 != t {
                            let jj = m0.index_of(t2);
                            assert(m0.keys@[jj] == t2);
                            assert(jj != ii);
                            if jj == m0.keys@.len() - 1 {
                                assert(k1[ii] == t2);
                            } else {
                                assert(k1[jj] == t2);
                            }
                        }
                    }
                    assert forall|t2: ResourceTypeId|
                        m0.has(t2) && t2 != t implies self.value_of(t2) == m0.value_of(t2) by {
                        let jj = m0.index_of(t2);
                        assert(m0.keys@[jj] == t2);
                        assert(jj != ii);
                        let kk = self.index_of(t2);
                        assert(self.has(t2));
                        assert(0 <= kk < k1.len() && k1[kk] == t2);
                        if jj == m0.keys@.len() - 1 {
                            assert(kk == ii) by {
                                if kk != ii {
                                    assert(k1[kk] == m0.keys@[kk]);
                                    assert(m0.keys@[kk] != m0.keys@[jj]);
                                }
                            }
                        } else {
                            assert(kk == jj) by {
                                if kk == ii {
                                    assert(k1[ii] == m0.keys@[m0.keys@.len() - 1]);
                                    assert(m0.keys@[m0.keys@.len() - 1] != m0.keys@[jj]);
                                } else if kk != jj {
                                    assert(m0.keys@[kk] != m0.keys@[jj]);
                                }
                            }
                        }
                    }
                }
                return Some(value);
            }
            i += 1;
        }
        proof {
            if m0.has(t) {
                let jj = m0.index_of(t);
                assert(m0.keys@[jj] == t);
            }
            assert forall|t2: ResourceTypeId| self.has(t2) == (m0.has(t2) && t2 != t) by {}
        }
        None
    }

    /// Shared access to the value stored for resource type `t`, if any.
    pub fn get(&self, t: ResourceTypeId) -> (r: Option<&R>)
        requires
            self.wf(),
        ensures
            r is Some <==> self.has(t),
            self.has(t) ==> r == Some(&self.value_of(t)),
    {
        let n = self.keys.len();
        let mut i: usize = 0;
        while i < n
            invariant
                self.wf(),
                n == self.keys@.len(),
                i <= n,
                forall|m: int| 0 <= m < i ==> self.keys@[m] != t,
            decreases n - i,
        {
            if self.keys[i] == t {
                proof {
                    let ii = i as int;
                    assert(self.keys@[ii] == t);
                    assert(self.index_of(t) == ii) by {
                        let jj = self.index_of(t);
                        assert(self.keys@.contains(t));
                        assert(self.keys@[jj] == t);
                        if jj != ii {
                            assert(self.keys@[jj] != self.keys@[ii]);
                        }
                    }
                }
                return Some(&self.vals[i]);
            }
            i += 1;
        }
        proof {
            if self.has(t) {
                let ii = self.index_of(t);
                assert(self.keys@[ii] == t);
            }
        }
        None
    }

    /// Replace the value stored for resource type `t`. Returns whether a
    /// value was stored at all; nothing changes when none was.
    pub fn get_mut(&mut self, t: ResourceTypeId, value: R) -> (r: bool)
        requires
            old(self).wf(),
        ensures
            final(self).wf(),
            r == old(self).has(t),
            forall|t2: ResourceTypeId| final(self).has(t2) == old(self).has(t2),
            r ==> final(self).value_of(t) == value,
            forall|t2: ResourceTypeId|
                old(self).has(t2) && t2 != t ==> final(self).value_of(t2) == old(self).value_of(
                    t2,
                ),
            !r ==> *final(self) == *old(self),
    {
        let ghost m0 = *old(self);
        let n = self.keys.len();
        let mut i: usize = 0;
        while i < n
            invariant
                m0 == *old(self),
                *self == m0,
                m0.wf(),
                n == self.keys@.len(),
                i <= n,
                forall|m: int| 0 <= m < i ==> self.keys@[m] != t,
            decreases n - i,
        {
            if self.keys[i] == t {
                self.vals[i] = value;
                proof {
                    let ii = i as int;
                    assert(m0.keys@[ii] == t);
                    assert(m0.has(t));
                    assert(self.index_of(t) == ii) by {
                        let jj = self.index_of(t);
                        assert(self.keys@.contains(t));
                        assert(self.keys@[jj] == t);
                        if jj != ii {
                            assert(m0.keys@[jj] != m0.keys@[ii]);
                        }
                    }
                    assert forall|t2: ResourceTypeId|
                        m0.has(t2) && t2 != t implies self.value_of(t2) == m0.value_of(t2) by {
                        let jj = m0.index_of(t2);
                        assert(m0.keys@[jj] == t2);
                        assert(self.index_of(t2) == jj) by {
                            let kk = self.index_of(t2);
                            assert(self.keys@.contains(t2));
                            assert(self.keys@[kk] == t2);
                            if kk != jj {
                                assert(m0.keys@[kk] != m0.keys@[jj]);
                            }
                        }
                        assert(jj != ii);
                    }
                }
                return true;
            }
            i += 1;
        }
        proof {
            if m0.has(t) {
                let jj = m0.index_of(t);
                assert(m0.keys@[jj] == t);
            }
        }
        false
    }
}

} // verus!
