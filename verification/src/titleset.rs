//! Finite sets of titles, viewed as mathematical sets of title values.

use vstd::prelude::*;
use crate::ir::{toggle_key, Title, TitleKey};

verus! {

/// The talk/subject toggle applied to a whole set of title values.
pub open spec fn toggle_set(s: Set<TitleKey>) -> Set<TitleKey> {
    s.map(|k: TitleKey| toggle_key(k))
}

/// Membership in a toggled set is membership of the toggled element.
pub proof fn lemma_toggle_set_contains(s: Set<TitleKey>, x: TitleKey)
    ensures
        toggle_set(s).contains(x) == s.contains(toggle_key(x)),
{
    let f = |k: TitleKey| toggle_key(k);
    if s.contains(toggle_key(x)) {
        assert(toggle_set(s).contains(f(toggle_key(x))));
    }
}

/// A finite set of titles, stored as a vector free of duplicate values.
pub struct TitleSet {
    items: Vec<Title>,
}

impl View for TitleSet {
    type V = Set<TitleKey>;

    closed spec fn view(&self) -> Set<TitleKey> {
        self.items@.map_values(|t: Title| t@).to_set()
    }
}

impl TitleSet {
    /// No title value occurs twice in the backing vector.
    pub closed spec fn wf(&self) -> bool {
        forall|i: int, j: int|
            0 <= i < j < self.items@.len() ==> self.items@[i]@ != self.items@[j]@
    }

    /// Every element of the view is the value of some backing entry, and
    /// each backing entry's value is in the view.
    proof fn lemma_view_elems(&self)
        ensures
            forall|k: TitleKey|
                self@.contains(k) ==> exists|i: int|
                    0 <= i < self.items@.len() && (#[trigger] self.items@[i])@ == k,
            forall|i: int| 0 <= i < self.items@.len() ==> self@.contains((#[trigger] self.items@[i])@),
    {
        let m = self.items@.map_values(|t: Title| t@);
        assert forall|k: TitleKey| self@.contains(k) implies exists|i: int|
            0 <= i < self.items@.len() && (#[trigger] self.items@[i])@ == k by {
            assert(m.contains(k));
            let i = choose|i: int| 0 <= i < m.len() && m[i] == k;
            assert(self.items@[i]@ == k);
        }
        assert forall|i: int| 0 <= i < self.items@.len() implies self@.contains(
            (#[trigger] self.items@[i])@,
        ) by {
            assert(m[i] == self.items@[i]@);
            assert(m.contains(self.items@[i]@));
        }
    }

    /// The empty title set.
    pub fn new() -> (s: TitleSet)
        ensures
            s.wf(),
            s@ == Set::<TitleKey>::empty(),
    {
        let s = TitleSet { items: Vec::new() };
        proof {
            s.lemma_view_elems();
            assert(s@ =~= Set::<TitleKey>::empty());
        }
        s
    }

    /// Whether the set holds a title with the same value.
    pub fn contains(&self, t: &Title) -> (r: bool)
        ensures
            r == self@.contains(t@),
    {
        let mut i: usize = 0;
        let len = self.items.len();
        while i < len
            invariant
                len == self.items@.len(),
                0 <= i <= len,
                forall|k: int| 0 <= k < i ==> (#[trigger] self.items@[k])@ != t@,
            decreases len - i,
        {
            if self.items[i].key_eq(t) {
                proof {
                    self.lemma_view_elems();
                }
                return true;
            }
            i += 1;
        }
        proof {
            self.lemma_view_elems();
            if self@.contains(t@) {
                let i = choose|i: int|
                    0 <= i < self.items@.len() && (#[trigger] self.items@[i])@ == t@;
            }
        }
        false
    }

    /// Add a title (no effect if an equal one is present).
    pub fn insert(&mut self, t: Title)
        requires
            old(self).wf(),
        ensures
            final(self).wf(),
            final(self)@ == old(self)@.insert(t@),
    {
        let present = self.contains(&t);
        if !present {
            let ghost prev = *self;
            self.items.push(t);
            proof {
                prev.lemma_view_elems();
                assert forall|i: int, j: int|
                    0 <= i < j < self.items@.len() implies self.items@[i]@ != self.items@[j]@ by {
                    if j == self.items@.len() - 1 {
                        assert(prev@.contains(prev.items@[i]@));
                    }
                }
                assert(self@ =~= prev@.insert(t@)) by {
                    self.lemma_view_elems();
                    assert forall|k: TitleKey| self@.contains(k) implies prev@.insert(t@).contains(
                        k,
                    ) by {
                        let i = choose|i: int|
                            0 <= i < self.items@.len() && (#[trigger] self.items@[i])@ == k;
                        if i < prev.items@.len() {
                            assert(prev@.contains(prev.items@[i]@));
                        }
                    }
                    assert forall|k: TitleKey| prev@.insert(t@).contains(k) implies self@.contains(
                        k,
                    ) by {
                        if k == t@ {
                            assert(self.items@[self.items@.len() - 1]@ == k);
                        } else {
                            let i = choose|i: int|
                                0 <= i < prev.items@.len() && (#[trigger] prev.items@[i])@ == k;
                            assert(self.items@[i]@ == k);
                        }
                    }
                }
            }
        } else {
            proof {
                assert(self@ =~= old(self)@.insert(t@));
            }
        }
    }

    /// An exact copy.
    pub fn duplicate(&self) -> (r: TitleSet)
        ensures
            r@ == self@,
            r.wf() == self.wf(),
    {
        let mut items: Vec<Title> = Vec::new();
        let mut i: usize = 0;
        let len = self.items.len();
        while i < len
            invariant
                len == self.items@.len(),
                0 <= i <= len,
                items@.len() == i,
                forall|k: int| 0 <= k < i ==> (#[trigger] items@[k])@ == self.items@[k]@,
            decreases len - i,
        {
            items.push(self.items[i].duplicate());
            i += 1;
        }
        let r = TitleSet { items };
        proof {
            let m1 = r.items@.map_values(|t: Title| t@);
            let m2 = self.items@.map_values(|t: Title| t@);
            assert(m1 =~= m2);
            if self.wf() {
                assert forall|i: int, j: int|
                    0 <= i < j < r.items@.len() implies r.items@[i]@ != r.items@[j]@ by {
                    assert(r.items@[i]@ == self.items@[i]@);
                    assert(r.items@[j]@ == self.items@[j]@);
                }
            }
            if r.wf() {
                assert forall|i: int, j: int|
                    0 <= i < j < self.items@.len() implies self.items@[i]@ != self.items@[j]@ by {
                    assert(r.items@[i]@ == self.items@[i]@);
                    assert(r.items@[j]@ == self.items@[j]@);
                }
            }
        }
        r
    }

    /// How many titles the set holds.
    pub fn count(&self) -> (r: usize)
        requires
            self.wf(),
        ensures
            r as int == self@.len(),
    {
        proof {
            let m = self.items@.map_values(|t: Title| t@);
            assert forall|i: int, j: int| 0 <= i < j < m.len() implies m[i] != m[j] by {}
            m.unique_seq_to_set();
        }
        self.items.len()
    }

    /// Whether the set is empty.
    pub fn is_empty(&self) -> (r: bool)
        ensures
            r == self@.is_empty(),
    {
        let r = self.items.len() == 0;
        proof {
            self.lemma_view_elems();
            if self.items@.len() == 0 {
                assert(self@ =~= Set::<TitleKey>::empty());
            } else {
                assert(self@.contains(self.items@[0]@));
            }
        }
        r
    }

    /// The sole title of a one-element set.
    pub fn single(&self) -> (t: &Title)
        requires
            self.wf(),
            self@.len() == 1,
        ensures
            self@.contains(t@),
            self@ == Set::<TitleKey>::empty().insert(t@),
    {
        proof {
            let m = self.items@.map_values(|t: Title| t@);
            m.unique_seq_to_set();
            assert(self.items@.len() == 1);
            self.lemma_view_elems();
            assert(self@.contains(self.items@[0]@));
            assert(self@ =~= Set::<TitleKey>::empty().insert(self.items@[0]@)) by {
                assert forall|k: TitleKey| self@.contains(k) implies k == self.items@[0]@ by {
                    let i = choose|i: int|
                        0 <= i < self.items@.len() && (#[trigger] self.items@[i])@ == k;
                }
            }
        }
        &self.items[0]
    }

    /// The titles as a plain vector, free of duplicate values.
    pub fn as_vec(&self) -> (v: &Vec<Title>)
        ensures
            v@.map_values(|t: Title| t@).to_set() == self@,
            forall|i: int| 0 <= i < v@.len() ==> self@.contains((#[trigger] v@[i])@),
            forall|k: TitleKey|
                self@.contains(k) ==> exists|j: int|
                    0 <= j < v@.len() && (#[trigger] v@[j])@ == k,
    {
        proof {
            self.lemma_view_elems();
        }
        &self.items
    }

    /// Union of two sets.
    pub fn union(&self, other: &TitleSet) -> (r: TitleSet)
        requires
            self.wf(),
        ensures
            r.wf(),
            r@ == self@.union(other@),
    {
        let mut r = self.duplicate();
        let ov = other.as_vec();
        let mut i: usize = 0;
        let len = ov.len();
        while i < len
            invariant
                len == ov@.len(),
                0 <= i <= len,
                r.wf(),
                forall|j: int| 0 <= j < len ==> other@.contains((#[trigger] ov@[j])@),
                forall|k: TitleKey|
                    r@.contains(k) == (self@.contains(k) || exists|j: int|
                        0 <= j < i && (#[trigger] ov@[j])@ == k),
            decreases len - i,
        {
            r.insert(ov[i].duplicate());
            proof {
                assert forall|k: TitleKey|
                    r@.contains(k) == (self@.contains(k) || exists|j: int|
                        0 <= j < i + 1 && (#[trigger] ov@[j])@ == k) by {
                    if k == ov@[i as int]@ {
                        assert(ov@[i as int]@ == k);
                    }
                }
            }
            i += 1;
        }
        proof {
            other.lemma_view_elems();
            assert(r@ =~= self@.union(other@)) by {
                assert forall|k: TitleKey| other@.contains(k) implies r@.contains(k) by {
                    let j = choose|j: int|
                        0 <= j < other.items@.len() && (#[trigger] other.items@[j])@ == k;
                }
            }
        }
        r
    }

    /// Intersection of two sets.
    pub fn intersect(&self, other: &TitleSet) -> (r: TitleSet)
        requires
            self.wf(),
        ensures
            r.wf(),
            r@ == self@.intersect(other@),
    {
        let mut r = TitleSet::new();
        let v = self.as_vec();
        let mut i: usize = 0;
        let len = v.len();
        while i < len
            invariant
                len == v@.len(),
                0 <= i <= len,
                r.wf(),
                forall|j: int| 0 <= j < len ==> self@.contains((#[trigger] v@[j])@),
                forall|k: TitleKey|
                    r@.contains(k) == (other@.contains(k) && exists|j: int|
                        0 <= j < i && (#[trigger] v@[j])@ == k),
            decreases len - i,
        {
            if other.contains(&v[i]) {
                r.insert(v[i].duplicate());
            }
            proof {
                assert forall|k: TitleKey|
                    r@.contains(k) == (other@.contains(k) && exists|j: int|
                        0 <= j < i + 1 && (#[trigger] v@[j])@ == k) by {
                    if k == v@[i as int]@ {
                        assert(v@[i as int]@ == k);
                    }
                }
            }
            i += 1;
        }
        proof {
            self.lemma_view_elems();
            assert(r@ =~= self@.intersect(other@)) by {
                assert forall|k: TitleKey| self@.contains(k) && other@.contains(k) implies r@
                    .contains(k) by {
                    let j = choose|j: int|
                        0 <= j < self.items@.len() && (#[trigger] self.items@[j])@ == k;
                }
            }
        }
        r
    }

    /// Difference: the titles of `self` not in `other`.
    pub fn difference(&self, other: &TitleSet) -> (r: TitleSet)
        requires
            self.wf(),
        ensures
            r.wf(),
            r@ == self@.difference(other@),
    {
        let mut r = TitleSet::new();
        let v = self.as_vec();
        let mut i: usize = 0;
        let len = v.len();
        while i < len
            invariant
                len == v@.len(),
                0 <= i <= len,
                r.wf(),
                forall|j: int| 0 <= j < len ==> self@.contains((#[trigger] v@[j])@),
                forall|k: TitleKey|
                    r@.contains(k) == (!other@.contains(k) && exists|j: int|
                        0 <= j < i && (#[trigger] v@[j])@ == k),
            decreases len - i,
        {
            if !other.contains(&v[i]) {
                r.insert(v[i].duplicate());
            }
            proof {
                assert forall|k: TitleKey|
                    r@.contains(k) == (!other@.contains(k) && exists|j: int|
                        0 <= j < i + 1 && (#[trigger] v@[j])@ == k) by {
                    if k == v@[i as int]@ {
                        assert(v@[i as int]@ == k);
                    }
                }
            }
            i += 1;
        }
        proof {
            self.lemma_view_elems();
            assert(r@ =~= self@.difference(other@)) by {
                assert forall|k: TitleKey| self@.contains(k) && !other@.contains(k) implies r@
                    .contains(k) by {
                    let j = choose|j: int|
                        0 <= j < self.items@.len() && (#[trigger] self.items@[j])@ == k;
                }
            }
        }
        r
    }

    /// Symmetric difference: titles in exactly one of the two sets.
    pub fn symmetric_difference(&self, other: &TitleSet) -> (r: TitleSet)
        requires
            self.wf(),
            other.wf(),
        ensures
            r.wf(),
            r@ == self@.difference(other@).union(other@.difference(self@)),
    {
        let left = self.difference(other);
        let right = other.difference(self);
        left.union(&right)
    }

    /// The talk/subject toggle applied to every title.
    pub fn toggle_all(&self) -> (r: TitleSet)
        requires
            self.wf(),
        ensures
            r.wf(),
            r@ == toggle_set(self@),
    {
        let mut r = TitleSet::new();
        let v = self.as_vec();
        let mut i: usize = 0;
        let len = v.len();
        while i < len
            invariant
                len == v@.len(),
                0 <= i <= len,
                r.wf(),
                forall|j: int| 0 <= j < len ==> self@.contains((#[trigger] v@[j])@),
                forall|k: TitleKey|
                    r@.contains(k) == exists|j: int|
                        0 <= j < i && toggle_key((#[trigger] v@[j])@) == k,
            decreases len - i,
        {
            r.insert(v[i].duplicate().toggle_talk());
            proof {
                assert forall|k: TitleKey|
                    r@.contains(k) == exists|j: int|
                        0 <= j < i + 1 && toggle_key((#[trigger] v@[j])@) == k by {
                    if k == toggle_key(v@[i as int]@) {
                        assert(toggle_key(v@[i as int]@) == k);
                    }
                }
            }
            i += 1;
        }
        proof {
            self.lemma_view_elems();
            assert(r@ =~= toggle_set(self@)) by {
                assert forall|k: TitleKey| r@.contains(k) implies toggle_set(self@).contains(k) by {
                    let j = choose|j: int| 0 <= j < len && toggle_key((#[trigger] v@[j])@) == k;
                    lemma_toggle_set_contains(self@, k);
                    crate::ir::lemma_toggle_involution(v@[j]@);
                }
                assert forall|k: TitleKey| toggle_set(self@).contains(k) implies r@.contains(k) by {
                    lemma_toggle_set_contains(self@, k);
                    let j = choose|j: int|
                        0 <= j < v@.len() && (#[trigger] v@[j])@ == toggle_key(k);
                    crate::ir::lemma_toggle_involution(k);
                    assert(toggle_key(v@[j]@) == k);
                }
            }
        }
        r
    }
}

} // verus!
