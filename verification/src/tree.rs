//! The sweep line held in a vector of event identifiers kept sorted by a
//! comparator on segments.
use core::cmp::Ordering;
use vstd::prelude::*;

use crate::order::{
    agrees, first_index, is_comparator, lemma_first_index, lemma_strict_chain,
    lemma_total_order_facts, orders, precedes, sorted_by,
};
use crate::sweep_event::SweepEventId;
use crate::vec_ops::pos;

verus! {

/// A handle on an entry of the sweep line: its event and its position.
#[derive(Clone, Copy)]
pub struct Node {
    pub value: SweepEventId,
    pub index: usize,
}

/// The sweep line, held in a vector.
pub struct TreeByCompareSegments(pub Vec<SweepEventId>);

impl View for TreeByCompareSegments {
    type V = Seq<SweepEventId>;

    /// The events of the sweep line, in order.
    closed spec fn view(&self) -> Seq<SweepEventId> {
        self.0@
    }
}

impl TreeByCompareSegments {
    pub fn new() -> (t: Self)
        ensures
            t@ == Seq::<SweepEventId>::empty(),
    {
        Self(Vec::new())
    }

    /// Inserts `se` at the place that a binary search by `cmp` finds; when
    /// the line is sorted by a total order that `cmp` answers as, that is
    /// before the first event that does not come strictly before `se`.
    pub fn insert<F: Fn(&SweepEventId, &SweepEventId) -> Ordering>(&mut self, se: SweepEventId, cmp: F) -> (node: Node)
        requires
            is_comparator(cmp),
        ensures
            node.index <= old(self)@.len(),
            final(self)@ == old(self)@.insert(pos(node.index), se),
            node.value == se,
            forall|ord: spec_fn(SweepEventId, SweepEventId) -> Ordering|
                #[trigger] orders(cmp, ord) && sorted_by(old(self)@, ord) ==> {
                    &&& node.index == first_index(old(self)@, |e: SweepEventId| ord(e, se) != Ordering::Less)
                    &&& sorted_by(final(self)@, ord)
                },
    {
        let mut lo: usize = 0;
        let mut hi: usize = self.0.len();
        while lo < hi
            invariant
                is_comparator(cmp),
                0 <= lo <= hi <= self@.len(),
                forall|ord: spec_fn(SweepEventId, SweepEventId) -> Ordering|
                    #[trigger] orders(cmp, ord) && sorted_by(self@, ord) ==> {
                        &&& forall|i: int| 0 <= i < lo ==> ord(#[trigger] self@[i], se) == Ordering::Less
                        &&& forall|i: int| hi <= i < self@.len() ==> ord(#[trigger] self@[i], se) != Ordering::Less
                    },
            decreases hi - lo,
        {
            let mid = lo + (hi - lo) / 2;
            let o = cmp(&self.0[mid], &se);
            let ghost m = pos(mid);
            match o {
                Ordering::Less => {
                    proof {
                        assert forall|ord: spec_fn(SweepEventId, SweepEventId) -> Ordering|
                            #[trigger] orders(cmp, ord) && sorted_by(self@, ord) implies forall|i: int|
                            0 <= i <= mid ==> ord(#[trigger] self@[i], se) == Ordering::Less by {
                            assert(o == ord(self@[m], se));
                            assert forall|i: int| 0 <= i <= mid implies ord(#[trigger] self@[i], se) == Ordering::Less by {
                                if i < mid {
                                    assert(precedes(ord, self@[i], self@[m]));
                                    lemma_strict_chain(ord, self@[i], self@[m], se);
                                }
                            }
                        }
                    }
                    lo = mid + 1;
                },
                _ => {
                    proof {
                        assert forall|ord: spec_fn(SweepEventId, SweepEventId) -> Ordering|
                            #[trigger] orders(cmp, ord) && sorted_by(self@, ord) implies forall|i: int|
                            mid <= i < self@.len() ==> ord(#[trigger] self@[i], se) != Ordering::Less by {
                            assert(o == ord(self@[m], se));
                            assert forall|i: int| mid <= i < self@.len() implies ord(#[trigger] self@[i], se) != Ordering::Less by {
                                lemma_total_order_facts(ord, self@[m], se);
                                lemma_total_order_facts(ord, self@[i], se);
                                if i > mid {
                                    assert(precedes(ord, self@[m], self@[i]));
                                    lemma_strict_chain(ord, self@[i], se, self@[m]);
                                    lemma_total_order_facts(ord, self@[m], self@[i]);
                                }
                            }
                        }
                    }
                    hi = mid;
                },
            }
        }
        proof {
            assert forall|ord: spec_fn(SweepEventId, SweepEventId) -> Ordering|
                #[trigger] orders(cmp, ord) && sorted_by(self@, ord) implies {
                &&& pos(lo) == first_index(self@, |e: SweepEventId| ord(e, se) != Ordering::Less)
                &&& sorted_by(self@.insert(pos(lo), se), ord)
            } by {
                let p = |e: SweepEventId| ord(e, se) != Ordering::Less;
                lemma_first_index(self@, p, pos(lo));
                assert forall|i: int| 0 <= i < lo implies precedes(ord, #[trigger] self@[i], se) by {
                    lemma_total_order_facts(ord, self@[i], se);
                }
                assert forall|i: int| lo <= i < self@.len() implies precedes(ord, se, #[trigger] self@[i]) by {
                    lemma_total_order_facts(ord, self@[i], se);
                    lemma_total_order_facts(ord, se, self@[i]);
                }
                crate::order::lemma_insert_at_keeps_sorted(self@, se, pos(lo), ord);
            }
        }
        let index = lo;
        self.0.insert(index, se);
        Node { value: se, index }
    }

    /// Takes the entry at `node.index` out.
    pub fn remove(&mut self, node_id: Node)
        requires
            node_id.index < old(self)@.len(),
        ensures
            final(self)@ == old(self)@.remove(pos(node_id.index)),
    {
        self.0.remove(node_id.index);
    }

    /// The first position whose event `cmp` finds equal to `se` (asked as
    /// `cmp(entry, se)`), handed out with `se` as its value, or `None`.
    pub fn find<F: Fn(&SweepEventId, &SweepEventId) -> Ordering>(&self, se: SweepEventId, cmp: F) -> (r: Option<Node>)
        requires
            is_comparator(cmp),
        ensures
            forall|ord: spec_fn(SweepEventId, SweepEventId) -> Ordering|
                #[trigger] agrees(cmp, ord) ==> {
                    let k = first_index(self@, |e: SweepEventId| ord(e, se) == Ordering::Equal);
                    &&& k < self@.len() ==> (r matches Some(n) && n.value == se && n.index == k)
                    &&& k == self@.len() ==> r is None
                },
    {
        let mut i: usize = 0;
        while i < self.0.len()
            invariant
                is_comparator(cmp),
                0 <= i <= self@.len(),
                forall|j: int, ord: spec_fn(SweepEventId, SweepEventId) -> Ordering|
                    #![trigger agrees(cmp, ord), self@[j]]
                    0 <= j < i && agrees(cmp, ord) ==> ord(self@[j], se) != Ordering::Equal,
            decreases self@.len() - i,
        {
            let o = cmp(&self.0[i], &se);
            match o {
                Ordering::Equal => {
                    proof {
                        assert forall|ord: spec_fn(SweepEventId, SweepEventId) -> Ordering|
                            #[trigger] agrees(cmp, ord) implies pos(i) == first_index(
                            self@,
                            |e: SweepEventId| ord(e, se) == Ordering::Equal,
                        ) by {
                            let p = |e: SweepEventId| ord(e, se) == Ordering::Equal;
                            assert forall|j: int| 0 <= j < i implies !p(#[trigger] self@[j]) by {
                                assert(agrees(cmp, ord));
                            }
                            lemma_first_index(self@, p, pos(i));
                        }
                    }
                    return Some(Node { value: se, index: i });
                },
                _ => {},
            }
            i = i + 1;
        }
        proof {
            assert forall|ord: spec_fn(SweepEventId, SweepEventId) -> Ordering|
                #[trigger] agrees(cmp, ord) implies pos(i) == first_index(
                self@,
                |e: SweepEventId| ord(e, se) == Ordering::Equal,
            ) by {
                let p = |e: SweepEventId| ord(e, se) == Ordering::Equal;
                assert forall|j: int| 0 <= j < i implies !p(#[trigger] self@[j]) by {
                    assert(agrees(cmp, ord));
                }
                lemma_first_index(self@, p, pos(i));
            }
        }
        None
    }

    /// The entry after `node`, or `None` at the end.
    pub fn next(&self, node: Node) -> (r: Option<Node>)
        requires
            node.index < usize::MAX,
        ensures
            node.index + 1 < self@.len() ==> (r matches Some(n) && n.value == self@[node.index + 1] && n.index == node.index + 1),
            node.index + 1 >= self@.len() ==> r is None,
    {
        if node.index + 1 < self.0.len() {
            Some(Node { value: self.0[node.index + 1], index: node.index + 1 })
        } else {
            None
        }
    }

    /// The entry before `node`, or `None` at the start.
    pub fn prev(&self, node: Node) -> (r: Option<Node>)
        requires
            node.index <= self@.len(),
        ensures
            node.index > 0 ==> (r matches Some(n) && n.value == self@[node.index - 1] && n.index == node.index - 1),
            node.index == 0 ==> r is None,
    {
        if node.index > 0 {
            Some(Node { value: self.0[node.index - 1], index: node.index - 1 })
        } else {
            None
        }
    }

    /// The first event, or `None` when the sweep line is empty.
    pub fn min(&self) -> (r: Option<SweepEventId>)
        ensures
            self@.len() == 0 ==> r is None,
            self@.len() > 0 ==> r == Some(self@[0]),
    {
        if self.0.len() > 0 {
            Some(self.0[0])
        } else {
            None
        }
    }

    /// The last event, or `None` when the sweep line is empty.
    pub fn max(&self) -> (r: Option<SweepEventId>)
        ensures
            self@.len() == 0 ==> r is None,
            self@.len() > 0 ==> r == Some(self@.last()),
    {
        if self.0.len() > 0 {
            Some(self.0[self.0.len() - 1])
        } else {
            None
        }
    }
}

} // verus!

verus! {

/// Removing the entry that an insert handed out gives the sweep line back as
/// it was before the insert.
pub proof fn law_remove_undoes_insert(
    before: Seq<SweepEventId>,
    inserted: Seq<SweepEventId>,
    removed: Seq<SweepEventId>,
    node: Node,
    se: SweepEventId,
)
    requires
        node.index <= before.len(),
        inserted == before.insert(pos(node.index), se),
        removed == inserted.remove(pos(node.index)),
    ensures
        removed == before,
{
    assert(before.insert(pos(node.index), se).remove(pos(node.index)) =~= before);
}

} // verus!
