//! The sweep line: the segments that cross it, kept in a splay tree of event
//! identifiers ordered by a comparator on segments.
pub mod list;

use core::cmp::Ordering;
use vstd::prelude::*;

use crate::order::{agrees, equivalent, is_comparator, orders, sorted_by};
use crate::splay_tree::insert_pos;
use crate::splay_tree::{NodeRef, SplayTree};
use crate::sweep_event::SweepEventId;

verus! {

/// The sweep line, held in a splay tree.
pub struct TreeByCompareSegments(pub SplayTree<SweepEventId>);

impl View for TreeByCompareSegments {
    type V = Seq<SweepEventId>;

    /// The events of the sweep line, in order.
    open spec fn view(&self) -> Seq<SweepEventId> {
        self.0@
    }
}

impl TreeByCompareSegments {
    /// The tree underneath is well formed.
    pub open spec fn wf(&self) -> bool {
        self.0.wf()
    }

    /// The nodes of the tree underneath, in order.
    pub open spec fn order(&self) -> Seq<usize> {
        self.0.order()
    }

    pub fn new() -> (t: Self)
        ensures
            t.wf(),
            t@ == Seq::<SweepEventId>::empty(),
    {
        Self(SplayTree::new())
    }

    /// Empties the sweep line.
    pub fn clear(&mut self)
        ensures
            final(self).wf(),
            final(self)@ == Seq::<SweepEventId>::empty(),
    {
        self.0.clear();
    }

    /// Adds `se` at the end of the walk down the tree; when the line is
    /// sorted by a total order that `cmp` answers as, after every event that
    /// `se` does not come strictly before.
    pub fn insert<F: Fn(&SweepEventId, &SweepEventId) -> Ordering>(&mut self, se: SweepEventId, cmp: F) -> (r: NodeRef<SweepEventId>)
        requires
            old(self).wf(),
            is_comparator(cmp),
        ensures
            final(self).wf(),
            exists|k: int|
                #![trigger old(self)@.insert(k, se)]
                0 <= k <= old(self)@.len() && final(self)@ == old(self)@.insert(k, se) && final(self).order()
                    == old(self).order().insert(k, r.id) && forall|ord: spec_fn(SweepEventId, SweepEventId) -> Ordering|
                    #[trigger] orders(cmp, ord) && sorted_by(old(self)@, ord) ==> k == insert_pos(
                        old(self)@,
                        ord,
                        se,
                    ),
            forall|ord: spec_fn(SweepEventId, SweepEventId) -> Ordering|
                #[trigger] orders(cmp, ord) && sorted_by(old(self)@, ord) ==> sorted_by(final(self)@, ord),
            r.value == se,
    {
        let r = self.0.insert(se, cmp);
        proof {
            let k = choose|k: int|
                #![trigger old(self).0@.insert(k, se)]
                0 <= k <= old(self).0@.len() && self.0@ == old(self).0@.insert(k, se) && self.0.order()
                    == old(self).0.order().insert(k, r.id) && forall|ord: spec_fn(SweepEventId, SweepEventId) -> Ordering|
                    #[trigger] orders(cmp, ord) && sorted_by(old(self).0@, ord) ==> k == insert_pos(
                        old(self).0@,
                        ord,
                        se,
                    );
            assert(old(self)@.insert(k, se) == self@);
        }
        r
    }

    /// Takes the node of `node_ref` out of the sweep line.
    pub fn remove(&mut self, node_ref: NodeRef<SweepEventId>)
        requires
            old(self).wf(),
            old(self).order().contains(node_ref.id),
        ensures
            final(self).wf(),
            forall|i: int|
                0 <= i < old(self).order().len() && old(self).order()[i] == node_ref.id ==> {
                    &&& final(self).order() == old(self).order().remove(i)
                    &&& final(self)@ == old(self)@.remove(i)
                },
    {
        self.0.remove(node_ref);
    }

    /// A node whose event `cmp` finds equal to `se`, splayed to the root, or
    /// `None`.
    pub fn find<F: Fn(&SweepEventId, &SweepEventId) -> Ordering>(&mut self, se: SweepEventId, cmp: F) -> (r: Option<NodeRef<SweepEventId>>)
        requires
            old(self).wf(),
            is_comparator(cmp),
        ensures
            final(self).wf(),
            final(self).order() == old(self).order(),
            final(self)@ == old(self)@,
            r matches Some(x) ==> old(self).order().contains(x.id) && forall|i: int|
                0 <= i < old(self).order().len() && old(self).order()[i] == x.id ==> x.value
                    == old(self)@[i] && forall|ord: spec_fn(SweepEventId, SweepEventId) -> Ordering|
                    #[trigger] agrees(cmp, ord) ==> equivalent(ord, se, old(self)@[i]),
            r is None ==> forall|ord: spec_fn(SweepEventId, SweepEventId) -> Ordering|
                #[trigger] orders(cmp, ord) && sorted_by(old(self)@, ord) ==> forall|i: int|
                    0 <= i < old(self)@.len() ==> !equivalent(ord, se, #[trigger] old(self)@[i]),
    {
        self.0.find(&se, cmp)
    }

    /// The node after `node_ref`'s in order, or `None`.
    pub fn next(&self, node_ref: &NodeRef<SweepEventId>) -> (r: Option<NodeRef<SweepEventId>>)
        requires
            self.wf(),
            self.order().contains(node_ref.id),
        ensures
            forall|i: int|
                0 <= i < self.order().len() && self.order()[i] == node_ref.id ==> {
                    &&& i + 1 < self.order().len() ==> (r matches Some(x) && x.id == self.order()[i
                        + 1] && x.value == self@[i + 1])
                    &&& i + 1 == self.order().len() ==> r is None
                },
    {
        self.0.next(node_ref)
    }

    /// The node before `node_ref`'s in order, or `None`.
    pub fn prev(&self, node_ref: &NodeRef<SweepEventId>) -> (r: Option<NodeRef<SweepEventId>>)
        requires
            self.wf(),
            self.order().contains(node_ref.id),
        ensures
            forall|i: int|
                0 <= i < self.order().len() && self.order()[i] == node_ref.id ==> {
                    &&& i > 0 ==> (r matches Some(x) && x.id == self.order()[i - 1] && x.value == self@[i
                        - 1])
                    &&& i == 0 ==> r is None
                },
    {
        self.0.prev(node_ref)
    }

    /// The first node, or `None` when the sweep line is empty.
    pub fn min(&mut self) -> (r: Option<NodeRef<SweepEventId>>)
        requires
            old(self).wf(),
        ensures
            *final(self) == *old(self),
            old(self)@.len() == 0 ==> r is None,
            old(self)@.len() > 0 ==> (r matches Some(x) && x.id == old(self).order()[0] && x.value
                == old(self)@[0]),
    {
        self.0.min()
    }

    /// The last node, or `None` when the sweep line is empty.
    pub fn max(&mut self) -> (r: Option<NodeRef<SweepEventId>>)
        requires
            old(self).wf(),
        ensures
            *final(self) == *old(self),
            old(self)@.len() == 0 ==> r is None,
            old(self)@.len() > 0 ==> (r matches Some(x) && x.id == old(self).order().last()
                && x.value == old(self)@.last()),
    {
        self.0.max()
    }
}

} // verus!
