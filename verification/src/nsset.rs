//! Finite sets of namespace ids, viewed as mathematical sets of integers.

use vstd::prelude::*;

verus! {

/// A namespace id: wikis partition titles into integer-tagged namespaces.
pub type NamespaceID = i64;

/// The namespace holding categories.
pub const NS_CATEGORY: i64 = 14;

/// The namespace holding files.
pub const NS_FILE: i64 = 6;

/// The set of integers named by a vector of namespace ids.
pub open spec fn ns_set_of(s: Seq<i64>) -> Set<int> {
    s.map_values(|n: i64| n as int).to_set()
}

/// A finite set of namespace ids, stored as a duplicate-free vector.
pub struct NsSet {
    items: Vec<i64>,
}

impl View for NsSet {
    type V = Set<int>;

    closed spec fn view(&self) -> Set<int> {
        self.items@.map_values(|n: i64| n as int).to_set()
    }
}

impl NsSet {
    /// No namespace id occurs twice in the backing vector.
    pub closed spec fn wf(&self) -> bool {
        forall|i: int, j: int|
            0 <= i < j < self.items@.len() ==> self.items@[i] != self.items@[j]
    }

    /// Membership in the view coincides with membership in the backing vector.
    proof fn lemma_view_contains(&self, n: i64)
        ensures
            self@.contains(n as int) == self.items@.contains(n),
    {
        let m = self.items@.map_values(|x: i64| x as int);
        if self.items@.contains(n) {
            let i = choose|i: int| 0 <= i < self.items@.len() && self.items@[i] == n;
            assert(m[i] == n as int);
            assert(m.contains(n as int));
        }
        if m.contains(n as int) {
            let i = choose|i: int| 0 <= i < m.len() && m[i] == n as int;
            assert(self.items@[i] as int == n as int);
            assert(self.items@.contains(n));
        }
    }

    /// Every element of the view is the value of some backing entry.
    proof fn lemma_view_elems(&self)
        ensures
            forall|x: int|
                self@.contains(x) ==> exists|i: int|
                    0 <= i < self.items@.len() && (#[trigger] self.items@[i]) as int == x,
    {
        let m = self.items@.map_values(|y: i64| y as int);
        assert forall|x: int| self@.contains(x) implies exists|i: int|
            0 <= i < self.items@.len() && (#[trigger] self.items@[i]) as int == x by {
            assert(m.contains(x));
            let i = choose|i: int| 0 <= i < m.len() && m[i] == x;
            assert(self.items@[i] as int == x);
        }
    }

    /// The empty namespace set.
    pub fn new() -> (s: NsSet)
        ensures
            s.wf(),
            s@ == Set::<int>::empty(),
    {
        let s = NsSet { items: Vec::new() };
        proof {
            assert(s@ =~= Set::<int>::empty()) by {
                s.lemma_view_elems();
            }
        }
        s
    }

    /// Whether `n` belongs to the set.
    pub fn contains(&self, n: i64) -> (r: bool)
        ensures
            r == self@.contains(n as int),
    {
        let mut i: usize = 0;
        let len = self.items.len();
        while i < len
            invariant
                len == self.items@.len(),
                0 <= i <= len,
                forall|k: int| 0 <= k < i ==> self.items@[k] != n,
            decreases len - i,
        {
            if self.items[i] == n {
                proof {
                    assert(self.items@.contains(n));
                    self.lemma_view_contains(n);
                }
                return true;
            }
            i += 1;
        }
        proof {
            assert(!self.items@.contains(n));
            self.lemma_view_contains(n);
        }
        false
    }

    /// Add `n` to the set (no effect if already present).
    pub fn insert(&mut self, n: i64)
        requires
            old(self).wf(),
        ensures
            final(self).wf(),
            final(self)@ == old(self)@.insert(n as int),
    {
        let present = self.contains(n);
        if !present {
            proof {
                self.lemma_view_contains(n);
            }
            self.items.push(n);
            proof {
                assert forall|i: int, j: int|
                    0 <= i < j < self.items@.len() implies self.items@[i] != self.items@[j] by {
                    if j == self.items@.len() - 1 {
                        assert(self.items@[j] == n);
                        if self.items@[i] == n {
                            assert(old(self).items@[i] == n);
                            assert(old(self).items@.contains(n));
                        }
                    }
                }
                assert(self@ =~= old(self)@.insert(n as int)) by {
                    self.lemma_view_elems();
                    old(self).lemma_view_elems();
                    assert forall|x: int| self@.contains(x) implies old(self)@.insert(
                        n as int,
                    ).contains(x) by {
                        let i = choose|i: int|
                            0 <= i < self.items@.len() && (#[trigger] self.items@[i]) as int == x;
                        if i < old(self).items@.len() {
                            assert(old(self).items@.contains(old(self).items@[i]));
                            old(self).lemma_view_contains(old(self).items@[i]);
                        }
                    }
                    assert forall|x: int| old(self)@.insert(n as int).contains(x) implies
                        self@.contains(x) by {
                        if x == n as int {
                            assert(self.items@[self.items@.len() - 1] == n);
                            assert(self.items@.contains(n));
                            self.lemma_view_contains(n);
                        } else {
                            let i = choose|i: int|
                                0 <= i < old(self).items@.len() && (
                                #[trigger] old(self).items@[i]) as int == x;
                            assert(self.items@[i] as int == x);
                            assert(self.items@.contains(self.items@[i]));
                            self.lemma_view_contains(self.items@[i]);
                        }
                    }
                }
            }
        } else {
            proof {
                assert(self@ =~= old(self)@.insert(n as int));
            }
        }
    }

    /// Build a set from a list of ids, dropping duplicates.
    pub fn from_vec(v: &Vec<i64>) -> (s: NsSet)
        ensures
            s.wf(),
            s@ == ns_set_of(v@),
    {
        let mut s = NsSet::new();
        let mut i: usize = 0;
        let len = v.len();
        while i < len
            invariant
                len == v@.len(),
                0 <= i <= len,
                s.wf(),
                forall|n: i64| s@.contains(n as int) == v@.take(i as int).contains(n),
                forall|x: int|
                    s@.contains(x) ==> exists|n: i64| #[trigger] v@.take(i as int).contains(n)
                        && n as int == x,
            decreases len - i,
        {
            let ghost prev = s@;
            let n = v[i];
            s.insert(n);
            proof {
                assert(v@.take(i + 1 as int) =~= v@.take(i as int).push(v@[i as int]));
                assert forall|m: i64| s@.contains(m as int) == v@.take(i + 1 as int).contains(m) by {
                    if m != n {
                        assert(s@.contains(m as int) == prev.contains(m as int));
                        assert(v@.take(i + 1 as int).contains(m) == v@.take(i as int).contains(m));
                    } else {
                        assert(s@.contains(n as int));
                        assert(v@.take(i + 1 as int)[i as int] == n);
                        assert(v@.take(i + 1 as int).contains(n));
                    }
                }
                assert forall|x: int| s@.contains(x) implies exists|m: i64|
                    #[trigger] v@.take(i + 1 as int).contains(m) && m as int == x by {
                    if x == n as int {
                        assert(v@.take(i + 1 as int).contains(n));
                    } else {
                        assert(prev.contains(x));
                        let m = choose|m: i64| #[trigger] v@.take(i as int).contains(m)
                            && m as int == x;
                        assert(v@.take(i + 1 as int).contains(m));
                    }
                }
            }
            i += 1;
        }
        proof {
            assert(v@.take(len as int) =~= v@);
            let m = v@.map_values(|n: i64| n as int);
            assert(s@ =~= ns_set_of(v@)) by {
                assert forall|x: int| s@.contains(x) implies m.to_set().contains(x) by {
                    let n = choose|n: i64| #[trigger] v@.contains(n) && n as int == x;
                    let i = choose|i: int| 0 <= i < v@.len() && v@[i] == n;
                    assert(m[i] == x);
                    assert(m.contains(x));
                }
                assert forall|x: int| m.to_set().contains(x) implies s@.contains(x) by {
                    let i = choose|i: int| 0 <= i < m.len() && m[i] == x;
                    let n = v@[i];
                    assert(v@.contains(n));
                    assert(s@.contains(n as int));
                }
            }
        }
        s
    }

    /// Intersection of two sets.
    pub fn intersect(&self, other: &NsSet) -> (r: NsSet)
        requires
            self.wf(),
        ensures
            r.wf(),
            r@ == self@.intersect(other@),
    {
        let mut r = NsSet::new();
        let mut i: usize = 0;
        let len = self.items.len();
        while i < len
            invariant
                len == self.items@.len(),
                0 <= i <= len,
                self.wf(),
                r.wf(),
                forall|x: int|
                    r@.contains(x) == (self@.contains(x) && other@.contains(x) && exists|k: int|
                        0 <= k < i && (#[trigger] self.items@[k]) as int == x),
            decreases len - i,
        {
            let n = self.items[i];
            proof {
                assert(self.items@.contains(n));
                self.lemma_view_contains(n);
            }
            if other.contains(n) {
                r.insert(n);
            }
            proof {
                assert forall|x: int|
                    r@.contains(x) == (self@.contains(x) && other@.contains(x) && exists|k: int|
                        0 <= k < i + 1 && (#[trigger] self.items@[k]) as int == x) by {
                    if x == n as int {
                        assert(self.items@[i as int] as int == x);
                    }
                }
            }
            i += 1;
        }
        proof {
            assert(r@ =~= self@.intersect(other@)) by {
                self.lemma_view_elems();
                assert forall|x: int| self@.contains(x) && other@.contains(x) implies r@.contains(
                    x,
                ) by {
                    let k = choose|k: int|
                        0 <= k < self.items@.len() && (#[trigger] self.items@[k]) as int == x;
                    assert(0 <= k < len && self.items@[k] as int == x);
                }
            }
        }
        r
    }

    /// The set without `n`.
    pub fn remove(&self, n: i64) -> (r: NsSet)
        requires
            self.wf(),
        ensures
            r.wf(),
            r@ == self@.remove(n as int),
    {
        let mut r = NsSet::new();
        let mut i: usize = 0;
        let len = self.items.len();
        while i < len
            invariant
                len == self.items@.len(),
                0 <= i <= len,
                self.wf(),
                r.wf(),
                forall|x: int|
                    r@.contains(x) == (x != n as int && exists|k: int|
                        0 <= k < i && (#[trigger] self.items@[k]) as int == x),
            decreases len - i,
        {
            let v = self.items[i];
            if v != n {
                r.insert(v);
            }
            proof {
                assert forall|x: int|
                    r@.contains(x) == (x != n as int && exists|k: int|
                        0 <= k < i + 1 && (#[trigger] self.items@[k]) as int == x) by {
                    if x == v as int {
                        assert(self.items@[i as int] as int == x);
                    }
                }
            }
            i += 1;
        }
        proof {
            self.lemma_view_elems();
            assert(r@ =~= self@.remove(n as int)) by {
                assert forall|x: int| self@.contains(x) && x != n as int implies r@.contains(x) by {
                    let k = choose|k: int|
                        0 <= k < self.items@.len() && (#[trigger] self.items@[k]) as int == x;
                    assert(0 <= k < len && self.items@[k] as int == x);
                }
                assert forall|x: int| r@.contains(x) implies self@.contains(x) && x != n as int by {
                    let k = choose|k: int|
                        0 <= k < len && (#[trigger] self.items@[k]) as int == x;
                    assert(self.items@.contains(self.items@[k]));
                    self.lemma_view_contains(self.items@[k]);
                }
            }
        }
        r
    }

    /// Whether the set is empty.
    pub fn is_empty(&self) -> (r: bool)
        ensures
            r == self@.is_empty(),
    {
        let r = self.items.len() == 0;
        proof {
            if self.items@.len() == 0 {
                self.lemma_view_elems();
                assert(self@ =~= Set::<int>::empty());
            } else {
                let n = self.items@[0];
                assert(self.items@.contains(n));
                self.lemma_view_contains(n);
                assert(self@.contains(n as int));
            }
        }
        r
    }

    /// The ids as a plain vector, duplicate-free.
    pub fn as_vec(&self) -> (v: &Vec<i64>)
        ensures
            forall|n: i64| v@.contains(n) == self@.contains(n as int),
            self.wf() ==> forall|i: int, j: int| 0 <= i < j < v@.len() ==> v@[i] != v@[j],
    {
        proof {
            assert forall|n: i64| self.items@.contains(n) == self@.contains(n as int) by {
                self.lemma_view_contains(n);
            }
        }
        &self.items
    }

    /// An exact copy.
    pub fn duplicate(&self) -> (r: NsSet)
        ensures
            r@ == self@,
            r.wf() == self.wf(),
    {
        let mut items: Vec<i64> = Vec::new();
        let mut i: usize = 0;
        let len = self.items.len();
        while i < len
            invariant
                len == self.items@.len(),
                0 <= i <= len,
                items@ == self.items@.take(i as int),
            decreases len - i,
        {
            items.push(self.items[i]);
            proof {
                assert(items@ =~= self.items@.take(i + 1 as int));
            }
            i += 1;
        }
        proof {
            assert(self.items@.take(len as int) =~= self.items@);
        }
        let r = NsSet { items };
        proof {
            assert(r.items@ == self.items@);
        }
        r
    }
}

} // verus!
