//! The sweep line held in a sorted linked list instead of a splay tree.
use core::cmp::Ordering;
use vstd::prelude::*;

use crate::order::{agrees, first_index, is_comparator, orders, sorted_by};
use crate::sorted_list::{ElementRef, SortedList};
use crate::sweep_event::SweepEventId;

verus! {

/// The sweep line, held in a sorted linked list.
pub struct TreeByCompareSegments(pub SortedList<SweepEventId>);

impl View for TreeByCompareSegments {
    type V = Seq<SweepEventId>;

    /// The events of the sweep line, in order.
    open spec fn view(&self) -> Seq<SweepEventId> {
        self.0@
    }
}

impl TreeByCompareSegments {
    /// The list underneath is well formed.
    pub open spec fn wf(&self) -> bool {
        self.0.wf()
    }

    /// The nodes of the list underneath, in order.
    pub open spec fn order(&self) -> Seq<usize> {
        self.0.order()
    }

    pub fn new() -> (t: Self)
        ensures
            t.wf(),
            t@ == Seq::<SweepEventId>::empty(),
    {
        Self(SortedList::new())
    }

    /// Adds `se` before the first event that `cmp` puts after it.
    pub fn insert<F: Fn(&SweepEventId, &SweepEventId) -> Ordering>(&mut self, se: SweepEventId, cmp: F) -> (e: ElementRef<SweepEventId>)
        requires
            old(self).wf(),
            is_comparator(cmp),
        ensures
            final(self).wf(),
            exists|k: int|
                #![trigger old(self)@.insert(k, se)]
                0 <= k <= old(self)@.len() && final(self)@ == old(self)@.insert(k, se) && final(self).order()
                    == old(self).order().insert(k, e.id) && forall|ord: spec_fn(SweepEventId, SweepEventId) -> Ordering|
                    #[trigger] agrees(cmp, ord) ==> k == first_index(
                        old(self)@,
                        |x: SweepEventId| ord(x, se) == Ordering::Greater,
                    ),
            e.value == se,
            forall|ord: spec_fn(SweepEventId, SweepEventId) -> Ordering|
                #[trigger] orders(cmp, ord) && sorted_by(old(self)@, ord) ==> sorted_by(final(self)@, ord),
    {
        let e = self.0.insert(se, cmp);
        proof {
            let k = choose|k: int|
                #![trigger old(self).0@.insert(k, se)]
                0 <= k <= old(self).0@.len() && self.0@ == old(self).0@.insert(k, se) && self.0.order()
                    == old(self).0.order().insert(k, e.id) && forall|ord: spec_fn(SweepEventId, SweepEventId) -> Ordering|
                    #[trigger] agrees(cmp, ord) ==> k == first_index(
                        old(self).0@,
                        |x: SweepEventId| ord(x, se) == Ordering::Greater,
                    );
            assert(old(self)@.insert(k, se) == self@);
        }
        e
    }

    /// Takes the node of `e` out of the sweep line.
    pub fn remove(&mut self, e: ElementRef<SweepEventId>)
        requires
            old(self).wf(),
            old(self).order().contains(e.id),
        ensures
            final(self).wf(),
            forall|i: int|
                0 <= i < old(self).order().len() && old(self).order()[i] == e.id ==> {
                    &&& final(self).order() == old(self).order().remove(i)
                    &&& final(self)@ == old(self)@.remove(i)
                },
    {
        self.0.remove(e);
    }

    /// The first event that `cmp` finds equal to `se`, or `None`.
    pub fn find<F: Fn(&SweepEventId, &SweepEventId) -> Ordering>(&mut self, se: SweepEventId, cmp: F) -> (r: Option<ElementRef<SweepEventId>>)
        requires
            old(self).wf(),
            is_comparator(cmp),
        ensures
            *final(self) == *old(self),
            forall|ord: spec_fn(SweepEventId, SweepEventId) -> Ordering|
                #[trigger] agrees(cmp, ord) ==> {
                    let k = first_index(old(self)@, |x: SweepEventId| ord(x, se) == Ordering::Equal);
                    &&& k < old(self)@.len() ==> (r matches Some(e) && e.id == old(self).order()[k]
                        && e.value == old(self)@[k])
                    &&& k == old(self)@.len() ==> r is None
                },
    {
        self.0.find(&se, cmp)
    }

    /// The event after `e`'s, or `None`.
    pub fn next(&self, e: &ElementRef<SweepEventId>) -> (r: Option<ElementRef<SweepEventId>>)
        requires
            self.wf(),
            self.order().contains(e.id),
        ensures
            forall|i: int|
                0 <= i < self.order().len() && self.order()[i] == e.id ==> {
                    &&& i + 1 < self.order().len() ==> (r matches Some(x) && x.id == self.order()[i
                        + 1] && x.value == self@[i + 1])
                    &&& i + 1 == self.order().len() ==> r is None
                },
    {
        self.0.next(e)
    }

    /// The event before `e`'s, or `None`.
    pub fn prev(&self, e: &ElementRef<SweepEventId>) -> (r: Option<ElementRef<SweepEventId>>)
        requires
            self.wf(),
            self.order().contains(e.id),
        ensures
            forall|i: int|
                0 <= i < self.order().len() && self.order()[i] == e.id ==> {
                    &&& i > 0 ==> (r matches Some(x) && x.id == self.order()[i - 1] && x.value == self@[i
                        - 1])
                    &&& i == 0 ==> r is None
                },
    {
        self.0.prev(e)
    }

    /// The first event, or `None` when the sweep line is empty.
    pub fn min(&mut self) -> (r: Option<ElementRef<SweepEventId>>)
        requires
            old(self).wf(),
        ensures
            *final(self) == *old(self),
            old(self)@.len() == 0 ==> r is None,
            old(self)@.len() > 0 ==> (r matches Some(x) && x.id == old(self).order()[0] && x.value
                == old(self)@[0]),
    {
        self.0.min()
    }

    /// The last event, or `None` when the sweep line is empty.
    pub fn max(&mut self) -> (r: Option<ElementRef<SweepEventId>>)
        requires
            old(self).wf(),
        ensures
            *final(self) == *old(self),
            old(self)@.len() == 0 ==> r is None,
            old(self)@.len() > 0 ==> (r matches Some(x) && x.id == old(self).order().last()
                && x.value == old(self)@.last()),
    {
        self.0.max()
    }
}

} // verus!
