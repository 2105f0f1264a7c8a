//! Relations as duplicate-free sets of tuples.
use vstd::prelude::*;
use crate::value::{Tuple, Val, tv, rows, copy_tuple, tuple_eq};

verus! {

/// The content of one relation: a set of distinct tuples.
pub struct TupleSet {
    pub items: Vec<Tuple>,
}

impl TupleSet {
    /// The set of abstract tuples held.
    pub open spec fn view(&self) -> Set<Seq<Val>> {
        rows(self.items@)
    }

    /// No tuple is held twice.
    pub open spec fn wf(&self) -> bool {
        forall|i: int, j: int|
            0 <= i < self.items@.len() && 0 <= j < self.items@.len() && i != j
                ==> tv(#[trigger] self.items@[i]) != tv(#[trigger] self.items@[j])
    }

    /// An empty relation.
    pub fn new() -> (r: TupleSet)
        ensures
            r.wf(),
            r.view() == Set::<Seq<Val>>::empty(),
    {
        let r = TupleSet { items: Vec::new() };
        assert(r.view() =~= Set::<Seq<Val>>::empty());
        r
    }

    /// Number of tuples held.
    pub fn len(&self) -> (r: usize)
        ensures
            r == self.items@.len(),
    {
        self.items.len()
    }

    /// Position of `t`, if held.
    pub fn find(&self, t: &Tuple) -> (r: Option<usize>)
        ensures
            match r {
                Some(i) => i < self.items@.len() && tv(self.items@[i as int]) == tv(*t),
                None => !self.view().contains(tv(*t)),
            },
    {
        let mut i: usize = 0;
        while i < self.items.len()
            invariant
                i <= self.items@.len(),
                forall|j: int| 0 <= j < i ==> tv(#[trigger] self.items@[j]) != tv(*t),
            decreases self.items@.len() - i,
        {
            if tuple_eq(&self.items[i], t) {
                return Some(i);
            }
            i += 1;
        }
        None
    }

    /// Whether `t` is held.
    pub fn contains(&self, t: &Tuple) -> (r: bool)
        ensures
            r == self.view().contains(tv(*t)),
    {
        match self.find(t) {
            Some(i) => {
                assert(self.view().contains(tv(self.items@[i as int])));
                true
            },
            None => false,
        }
    }

    /// Whether no tuple is held.
    pub fn is_empty(&self) -> (r: bool)
        ensures
            r == (self.view() == Set::<Seq<Val>>::empty()),
    {
        if self.items.len() == 0 {
            assert(self.view() =~= Set::<Seq<Val>>::empty());
            true
        } else {
            assert(self.view().contains(tv(self.items@[0])));
            false
        }
    }

    /// Adds `t`; returns whether it was absent.
    pub fn insert(&mut self, t: Tuple) -> (r: bool)
        requires
            old(self).wf(),
        ensures
            final(self).wf(),
            final(self).view() == old(self).view().insert(tv(t)),
            r == !old(self).view().contains(tv(t)),
    {
        if self.contains(&t) {
            assert(self.view() =~= self.view().insert(tv(t)));
            false
        } else {
            let ghost before = self.items@;
            let ghost x = tv(t);
            self.items.push(t);
            assert(self.items@[before.len() as int] == t);
            assert(self.view() =~= rows(before).insert(x)) by {
                assert forall|y: Seq<Val>| self.view().contains(y) implies rows(before).insert(x).contains(y) by {
                    let i = choose|i: int| 0 <= i < self.items@.len() && tv(self.items@[i]) == y;
                    if i < before.len() {
                        assert(before[i] == self.items@[i]);
                    }
                }
                assert forall|y: Seq<Val>| rows(before).insert(x).contains(y) implies self.view().contains(y) by {
                    if y != x {
                        let i = choose|i: int| 0 <= i < before.len() && tv(before[i]) == y;
                        assert(self.items@[i] == before[i]);
                    }
                }
            }
            true
        }
    }

    /// Removes `t`; returns whether it was present.
    pub fn remove(&mut self, t: &Tuple) -> (r: bool)
        requires
            old(self).wf(),
        ensures
            final(self).wf(),
            final(self).view() == old(self).view().remove(tv(*t)),
            r == old(self).view().contains(tv(*t)),
    {
        match self.find(t) {
            None => {
                assert(self.view() =~= self.view().remove(tv(*t)));
                false
            },
            Some(k) => {
                let ghost before = self.items@;
                let ghost x = tv(*t);
                assert(rows(before).contains(x));
                self.items.remove(k);
                assert(self.items@ == before.remove(k as int));
                assert forall|i: int, j: int|
                    0 <= i < self.items@.len() && 0 <= j < self.items@.len() && i != j
                        implies tv(#[trigger] self.items@[i]) != tv(#[trigger] self.items@[j]) by {
                    let bi = if i < k { i } else { i + 1 };
                    let bj = if j < k { j } else { j + 1 };
                    assert(self.items@[i] == before[bi]);
                    assert(self.items@[j] == before[bj]);
                }
                assert(self.view() =~= rows(before).remove(x)) by {
                    assert forall|y: Seq<Val>| self.view().contains(y) implies rows(before).remove(x).contains(y) by {
                        let i = choose|i: int| 0 <= i < self.items@.len() && tv(self.items@[i]) == y;
                        let bi = if i < k { i } else { i + 1 };
                        assert(self.items@[i] == before[bi]);
                        assert(bi != k);
                    }
                    assert forall|y: Seq<Val>| rows(before).remove(x).contains(y) implies self.view().contains(y) by {
                        let i = choose|i: int| 0 <= i < before.len() && tv(before[i]) == y;
                        assert(i != k);
                        let ni = if i < k { i } else { i - 1 };
                        assert(self.items@[ni] == before[i]);
                    }
                }
                true
            },
        }
    }

    /// A copy of every tuple held.
    pub fn enumerate(&self) -> (r: Vec<Tuple>)
        ensures
            rows(r@) == self.view(),
            r@.len() == self.items@.len(),
            forall|j: int| 0 <= j < r@.len() ==> tv(#[trigger] r@[j]) == tv(self.items@[j]),
    {
        let mut r: Vec<Tuple> = Vec::new();
        let mut i: usize = 0;
        while i < self.items.len()
            invariant
                i <= self.items@.len(),
                r@.len() == i,
                forall|j: int| 0 <= j < i ==> tv(#[trigger] r@[j]) == tv(self.items@[j]),
            decreases self.items@.len() - i,
        {
            r.push(copy_tuple(&self.items[i]));
            i += 1;
        }
        assert(rows(r@) =~= self.view()) by {
            assert forall|y: Seq<Val>| rows(r@).contains(y) implies self.view().contains(y) by {
                let j = choose|j: int| 0 <= j < r@.len() && tv(r@[j]) == y;
                assert(tv(self.items@[j]) == y);
            }
            assert forall|y: Seq<Val>| self.view().contains(y) implies rows(r@).contains(y) by {
                let j = choose|j: int| 0 <= j < self.items@.len() && tv(self.items@[j]) == y;
                assert(tv(r@[j]) == y);
            }
        }
        r
    }

    /// A copy of the relation.
    pub fn copy(&self) -> (r: TupleSet)
        requires
            self.wf(),
        ensures
            r.wf(),
            r.view() == self.view(),
    {
        let items = self.enumerate();
        let r = TupleSet { items };
        assert forall|i: int, j: int|
            0 <= i < r.items@.len() && 0 <= j < r.items@.len() && i != j
                implies tv(#[trigger] r.items@[i]) != tv(#[trigger] r.items@[j]) by {
            assert(tv(r.items@[i]) == tv(self.items@[i]));
            assert(tv(r.items@[j]) == tv(self.items@[j]));
        }
        r
    }

    /// The set of the tuples of `v`, duplicates dropped.
    pub fn from_rows(v: &Vec<Tuple>) -> (r: TupleSet)
        ensures
            r.wf(),
            r.view() == rows(v@),
    {
        let mut r = TupleSet::new();
        let mut i: usize = 0;
        proof { crate::plan::lemma_rows_empty(v@); }
        while i < v.len()
            invariant
                i <= v@.len(),
                r.wf(),
                r.view() == rows(v@.take(i as int)),
            decreases v@.len() - i,
        {
            assert(v@.take(i + 1) =~= v@.take(i as int).push(v@[i as int]));
            proof { crate::plan::lemma_rows_push(v@.take(i as int), v@[i as int]); }
            r.insert(copy_tuple(&v[i]));
            i += 1;
        }
        assert(v@.take(v@.len() as int) =~= v@);
        r
    }

    /// Whether every tuple held is also held by `other`.
    pub fn subset_of(&self, other: &TupleSet) -> (r: bool)
        ensures
            r == self.view().subset_of(other.view()),
    {
        let mut i: usize = 0;
        while i < self.items.len()
            invariant
                i <= self.items@.len(),
                forall|j: int| 0 <= j < i ==> other.view().contains(tv(#[trigger] self.items@[j])),
            decreases self.items@.len() - i,
        {
            if !other.contains(&self.items[i]) {
                assert(self.view().contains(tv(self.items@[i as int])));
                return false;
            }
            i += 1;
        }
        assert forall|x: Seq<Val>| self.view().contains(x) implies other.view().contains(x) by {
            let j = choose|j: int| 0 <= j < self.items@.len() && tv(self.items@[j]) == x;
        }
        true
    }

    /// Whether both relations hold the same tuples.
    pub fn same(&self, other: &TupleSet) -> (r: bool)
        ensures
            r == (self.view() == other.view()),
    {
        let a = self.subset_of(other);
        let b = other.subset_of(self);
        if a && b {
            assert(self.view() =~= other.view());
        }
        a && b
    }
}

} // verus!
