//! Signed, coalescing accumulators of tuple changes.
use vstd::prelude::*;
use crate::value::{Tuple, Val, tv};
use crate::store::TupleSet;

verus! {

/// A map from tuple to a weight in {-1, 0, +1}, held as the set of tuples of
/// weight +1 and the set of tuples of weight -1.
pub struct Accum {
    pub plus: TupleSet,
    pub minus: TupleSet,
}

/// The weight after one more change: an insertion raises it, a deletion
/// lowers it, and it never leaves {-1, 0, +1}.
pub open spec fn coalesced(w: int, insert: bool) -> int {
    if insert {
        if w < 1 { w + 1 } else { 1 }
    } else {
        if w > -1 { w - 1 } else { -1 }
    }
}

impl Accum {
    pub open spec fn wf(&self) -> bool {
        &&& self.plus.wf()
        &&& self.minus.wf()
        &&& self.plus.view().disjoint(self.minus.view())
    }

    /// The weight of a tuple; zero when it has no entry.
    pub open spec fn weight(&self, x: Seq<Val>) -> int {
        (if self.plus.view().contains(x) { 1int } else { 0int })
            - (if self.minus.view().contains(x) { 1int } else { 0int })
    }

    /// An accumulator with every weight zero.
    pub fn new() -> (r: Accum)
        ensures
            r.wf(),
            r.plus.view() == Set::<Seq<Val>>::empty(),
            r.minus.view() == Set::<Seq<Val>>::empty(),
    {
        Accum { plus: TupleSet::new(), minus: TupleSet::new() }
    }

    /// Records one insertion (`insert`) or deletion of `t`.
    pub fn bump(&mut self, t: Tuple, insert: bool)
        requires
            old(self).wf(),
        ensures
            final(self).wf(),
            final(self).weight(tv(t)) == coalesced(old(self).weight(tv(t)), insert),
            forall|y: Seq<Val>| y != tv(t) ==> final(self).weight(y) == old(self).weight(y),
            insert && old(self).minus.view().contains(tv(t)) ==> final(self).minus.view()
                == old(self).minus.view().remove(tv(t)) && final(self).plus.view() == old(self).plus.view(),
            insert && !old(self).minus.view().contains(tv(t)) ==> final(self).plus.view()
                == old(self).plus.view().insert(tv(t)) && final(self).minus.view() == old(self).minus.view(),
            !insert && old(self).plus.view().contains(tv(t)) ==> final(self).plus.view()
                == old(self).plus.view().remove(tv(t)) && final(self).minus.view() == old(self).minus.view(),
            !insert && !old(self).plus.view().contains(tv(t)) ==> final(self).minus.view()
                == old(self).minus.view().insert(tv(t)) && final(self).plus.view() == old(self).plus.view(),
    {
        if insert {
            if self.minus.contains(&t) {
                self.minus.remove(&t);
            } else {
                self.plus.insert(t);
            }
        } else {
            if self.plus.contains(&t) {
                self.plus.remove(&t);
            } else {
                self.minus.insert(t);
            }
        }
    }

    /// Resets every weight to zero.
    pub fn clear(&mut self)
        ensures
            final(self).wf(),
            final(self).plus.view() == Set::<Seq<Val>>::empty(),
            final(self).minus.view() == Set::<Seq<Val>>::empty(),
    {
        self.plus = TupleSet::new();
        self.minus = TupleSet::new();
    }
}

} // verus!
