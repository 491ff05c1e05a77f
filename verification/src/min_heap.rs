//! A binary min-heap stored in a vector, ordered by a comparator closure.
use core::cmp::Ordering;
use vstd::prelude::*;
use vstd::multiset::Multiset;

use crate::order::{
    is_comparator, is_total_order, lemma_total_order_facts, orders, precedes, strictly_precedes,
};
use crate::vec_ops::{pos, swap_items};

verus! {

broadcast use vstd::seq_lib::group_to_multiset_ensures;

/// Position of the parent of the item at position `i > 0`.
pub open spec fn parent_of(i: int) -> int {
    (i - 1) / 2
}

/// Every item comes no earlier than its parent.
pub open spec fn heap_ordered<T>(s: Seq<T>, ord: spec_fn(T, T) -> Ordering) -> bool {
    forall|i: int| 0 < i < s.len() ==> precedes(ord, s[parent_of(i)], #[trigger] s[i])
}

/// The heap order holds everywhere but between `k` and its parent, and `k`'s
/// parent comes no later than `k`'s children.
spec fn ordered_above<T>(s: Seq<T>, ord: spec_fn(T, T) -> Ordering, k: int) -> bool {
    &&& forall|i: int| 0 < i < s.len() && i != k ==> precedes(ord, s[parent_of(i)], #[trigger] s[i])
    &&& forall|i: int|
        0 < i < s.len() && parent_of(i) == k && k > 0 ==> precedes(
            ord,
            s[parent_of(k)],
            #[trigger] s[i],
        )
}

/// The heap order holds everywhere but between `k` and its children, and `k`'s
/// parent comes no later than `k`'s children.
spec fn ordered_below<T>(s: Seq<T>, ord: spec_fn(T, T) -> Ordering, k: int) -> bool {
    &&& forall|i: int|
        0 < i < s.len() && parent_of(i) != k ==> precedes(ord, s[parent_of(i)], #[trigger] s[i])
    &&& forall|i: int|
        0 < i < s.len() && parent_of(i) == k && k > 0 ==> precedes(
            ord,
            s[parent_of(k)],
            #[trigger] s[i],
        )
}

/// In a heap-ordered sequence the first item comes no later than any other.
pub proof fn lemma_first_precedes_all<T>(s: Seq<T>, ord: spec_fn(T, T) -> Ordering, i: int)
    requires
        is_total_order(ord),
        heap_ordered(s, ord),
        0 <= i < s.len(),
    ensures
        precedes(ord, s[0], s[i]),
    decreases i,
{
    lemma_total_order_facts(ord, s[0], s[i]);
    if i > 0 {
        lemma_first_precedes_all(s, ord, parent_of(i));
        assert(precedes(ord, s[parent_of(i)], s[i]));
    }
}

/// A binary min-heap: the item at the front comes no later than any other.
pub struct MinHeap<T> {
    data: Vec<T>,
}

impl<T> View for MinHeap<T> {
    type V = Multiset<T>;

    closed spec fn view(&self) -> Multiset<T> {
        self.data@.to_multiset()
    }
}

impl<T> MinHeap<T> {
    /// The items are laid out as a heap for `ord`.
    pub closed spec fn ordered_by(&self, ord: spec_fn(T, T) -> Ordering) -> bool {
        heap_ordered(self.data@, ord)
    }

    /// The item at the front, which `peek` hands out.
    pub closed spec fn front(&self) -> T {
        self.data@[0]
    }

    /// A heap with at most one item is laid out as a heap for any order.
    pub proof fn lemma_small_is_ordered(&self, ord: spec_fn(T, T) -> Ordering)
        requires
            self@.len() <= 1,
        ensures
            self.ordered_by(ord),
    {
    }

    /// The front of a non-empty heap is one of its items and comes no later
    /// than any of them.
    pub proof fn lemma_front_is_least(&self, ord: spec_fn(T, T) -> Ordering)
        requires
            is_total_order(ord),
            self.ordered_by(ord),
            self@.len() > 0,
        ensures
            self@.contains(self.front()),
            forall|x: T| self@.contains(x) ==> precedes(ord, self.front(), x),
    {
        let s = self.data@;
        assert(s.contains(s[0]));
        assert forall|x: T| self@.contains(x) implies precedes(ord, self.front(), x) by {
            assert(s.contains(x));
            let i = choose|i: int| 0 <= i < s.len() && s[i] == x;
            lemma_first_precedes_all(s, ord, i);
        }
    }

    pub fn new() -> (heap: Self)
        ensures
            heap@ =~= Multiset::empty(),
    {
        Self { data: Vec::new() }
    }

    pub fn len(&self) -> (n: usize)
        ensures
            n == self@.len(),
    {
        self.data.len()
    }

    pub fn is_empty(&self) -> (b: bool)
        ensures
            b <==> self@.len() == 0,
    {
        self.data.len() == 0
    }

    /// Adds `item`; a heap for any total order that `cmp` answers as stays one.
    pub fn push<F: Fn(&T, &T) -> Ordering>(&mut self, item: T, cmp: F)
        requires
            is_comparator(cmp),
            old(self)@.len() < usize::MAX,
        ensures
            final(self)@ == old(self)@.insert(item),
            forall|ord: spec_fn(T, T) -> Ordering|
                #[trigger] orders(cmp, ord) && old(self).ordered_by(ord) ==> final(self).ordered_by(ord),
    {
        let ghost s0 = self.data@;
        self.data.push(item);
        proof {
            let s1 = self.data@;
            assert(s1 == s0.push(item));
            assert forall|ord: spec_fn(T, T) -> Ordering|
                #[trigger] orders(cmp, ord) && heap_ordered(s0, ord) implies ordered_above(s1, ord, s1.len() - 1) by {
                assert forall|i: int| 0 < i < s1.len() && i != s1.len() - 1 implies precedes(
                    ord,
                    s1[parent_of(i)],
                    #[trigger] s1[i],
                ) by {
                    assert(s1[i] == s0[i]);
                    assert(s1[parent_of(i)] == s0[parent_of(i)]);
                }
            }
        }
        let last = self.data.len() - 1;
        self.sift_up(last, cmp);
    }

    /// Takes out the front item, or gives `None` when the heap is empty.  For
    /// any total order that `cmp` answers as and that the heap is laid out
    /// for, that item comes no later than any other and the heap stays one.
    pub fn pop<F: Fn(&T, &T) -> Ordering>(&mut self, cmp: F) -> (r: Option<T>)
        requires
            is_comparator(cmp),
        ensures
            old(self)@.len() == 0 ==> r is None && final(self)@ == old(self)@,
            old(self)@.len() > 0 ==> r == Some(old(self).front()),
            r matches Some(x) ==> old(self)@.contains(x) && final(self)@ == old(self)@.remove(x),
            forall|ord: spec_fn(T, T) -> Ordering|
                #[trigger] orders(cmp, ord) && old(self).ordered_by(ord) ==> {
                    &&& final(self).ordered_by(ord)
                    &&& r matches Some(x) ==> forall|y: T| old(self)@.contains(y) ==> precedes(ord, x, y)
                },
    {
        if self.is_empty() {
            return None;
        }
        proof {
            assert(self.data@.contains(self.data@[0]));
            assert forall|ord: spec_fn(T, T) -> Ordering|
                #[trigger] orders(cmp, ord) && self.ordered_by(ord) implies forall|y: T|
                self@.contains(y) ==> precedes(ord, self.front(), y) by {
                self.lemma_front_is_least(ord);
            }
        }
        let ghost s0 = self.data@;
        let last_index = self.data.len() - 1;
        swap_items(&mut self.data, 0, last_index);
        let ghost s1 = self.data@;
        let min_item = self.data.pop();
        proof {
            let s2 = self.data@;
            assert(s2 == s1.drop_last());
            assert(s1 == s0.update(0, s0[pos(last_index)]).update(pos(last_index), s0[0]));
            assert(s1.to_multiset() == s0.to_multiset());
            assert(s1.drop_last() == s1.remove(pos(last_index)));
            assert(s2.to_multiset() == s0.to_multiset().remove(s0[0]));
            assert forall|ord: spec_fn(T, T) -> Ordering|
                #[trigger] orders(cmp, ord) && heap_ordered(s0, ord) implies ordered_below(s2, ord, 0) by {
                assert forall|i: int| 0 < i < s2.len() && parent_of(i) != 0 implies precedes(
                    ord,
                    s2[parent_of(i)],
                    #[trigger] s2[i],
                ) by {
                    assert(s2[i] == s0[i]);
                    assert(s2[parent_of(i)] == s0[parent_of(i)]);
                }
            }
        }
        if !self.is_empty() {
            self.sift_down(0, cmp);
        }
        min_item
    }

    /// The front item, or `None` when the heap is empty.
    pub fn peek(&self) -> (r: Option<&T>)
        ensures
            self@.len() == 0 ==> r is None,
            self@.len() > 0 ==> r == Some(&self.front()) && self@.contains(self.front()),
    {
        proof {
            if self.data@.len() > 0 {
                assert(self.data@.contains(self.data@[0]));
            }
        }
        self.data.first()
    }

    fn sift_up<F: Fn(&T, &T) -> Ordering>(&mut self, index: usize, cmp: F)
        requires
            is_comparator(cmp),
            index < old(self).data@.len(),
        ensures
            final(self)@ == old(self)@,
            final(self).data@.len() == old(self).data@.len(),
            forall|ord: spec_fn(T, T) -> Ordering|
                #[trigger] orders(cmp, ord) && ordered_above(old(self).data@, ord, pos(index))
                    ==> final(self).ordered_by(ord),
    {
        let ghost s_in = self.data@;
        let ghost i_in = pos(index);
        let mut index = index;
        while index > 0
            invariant
                is_comparator(cmp),
                s_in == old(self).data@,
                index < self.data@.len(),
                self.data@.len() == old(self).data@.len(),
                self.data@.to_multiset() == old(self).data@.to_multiset(),
                forall|ord: spec_fn(T, T) -> Ordering|
                    #[trigger] orders(cmp, ord) && ordered_above(s_in, ord, i_in) ==> ordered_above(
                        self.data@,
                        ord,
                        pos(index),
                    ),
            ensures
                self.data@.len() == old(self).data@.len(),
                self.data@.to_multiset() == old(self).data@.to_multiset(),
                forall|ord: spec_fn(T, T) -> Ordering|
                    #[trigger] orders(cmp, ord) && ordered_above(s_in, ord, i_in) ==> heap_ordered(
                        self.data@,
                        ord,
                    ),
            decreases index,
        {
            let parent_index = Self::parent_index(index);
            let o = cmp(&self.data[index], &self.data[parent_index]);
            let ghost s = self.data@;
            let ghost k = pos(index);
            let ghost p = pos(parent_index);
            match o {
                Ordering::Less => {
                    swap_items(&mut self.data, index, parent_index);
                    proof {
                        let t = self.data@;
                        assert(t.to_multiset() == s.to_multiset());
                        assert forall|ord: spec_fn(T, T) -> Ordering|
                            #[trigger] orders(cmp, ord) && ordered_above(s_in, ord, i_in) implies ordered_above(t, ord, p) by {
                            assert(ordered_above(s, ord, k));
                            assert(o == ord(s[k], s[p]));
                            assert(strictly_precedes(ord, s[k], s[p]));
                            lemma_total_order_facts(ord, s[k], s[p]);
                            assert forall|i: int| 0 < i < t.len() && i != p implies precedes(
                                ord,
                                t[parent_of(i)],
                                #[trigger] t[i],
                            ) by {
                                if i == k {
                                } else if parent_of(i) == k {
                                    assert(precedes(ord, s[parent_of(k)], s[i]));
                                } else if parent_of(i) == p {
                                    assert(precedes(ord, s[p], s[i]));
                                } else {
                                    assert(precedes(ord, s[parent_of(i)], s[i]));
                                }
                            }
                            assert forall|i: int|
                                0 < i < t.len() && parent_of(i) == p && p > 0 implies precedes(
                                ord,
                                t[parent_of(p)],
                                #[trigger] t[i],
                            ) by {
                                assert(precedes(ord, s[parent_of(p)], s[p]));
                                if i != k {
                                    assert(precedes(ord, s[p], s[i]));
                                }
                            }
                        }
                    }
                    index = parent_index;
                },
                _ => {
                    proof {
                        assert forall|ord: spec_fn(T, T) -> Ordering|
                            #[trigger] orders(cmp, ord) && ordered_above(s_in, ord, i_in) implies heap_ordered(s, ord) by {
                            assert(ordered_above(s, ord, k));
                            assert(o == ord(s[k], s[p]));
                            lemma_total_order_facts(ord, s[k], s[p]);
                            assert(precedes(ord, s[p], s[k]));
                        }
                    }
                    break ;
                },
            }
        }
    }

    fn sift_down<F: Fn(&T, &T) -> Ordering>(&mut self, index: usize, cmp: F)
        requires
            is_comparator(cmp),
            index < old(self).data@.len(),
        ensures
            final(self)@ == old(self)@,
            final(self).data@.len() == old(self).data@.len(),
            forall|ord: spec_fn(T, T) -> Ordering|
                #[trigger] orders(cmp, ord) && ordered_below(old(self).data@, ord, pos(index))
                    ==> final(self).ordered_by(ord),
    {
        let ghost s_in = self.data@;
        let ghost i_in = pos(index);
        let last_index = self.data.len() - 1;
        let mut index = index;
        loop
            invariant
                is_comparator(cmp),
                s_in == old(self).data@,
                index <= last_index,
                last_index + 1 == self.data@.len(),
                self.data@.len() == old(self).data@.len(),
                self.data@.to_multiset() == old(self).data@.to_multiset(),
                forall|ord: spec_fn(T, T) -> Ordering|
                    #[trigger] orders(cmp, ord) && ordered_below(s_in, ord, i_in) ==> ordered_below(
                        self.data@,
                        ord,
                        pos(index),
                    ),
            ensures
                self.data@.len() == old(self).data@.len(),
                self.data@.to_multiset() == old(self).data@.to_multiset(),
                forall|ord: spec_fn(T, T) -> Ordering|
                    #[trigger] orders(cmp, ord) && ordered_below(s_in, ord, i_in) ==> heap_ordered(
                        self.data@,
                        ord,
                    ),
            decreases last_index - index,
        {
            let ghost s = self.data@;
            let ghost k = pos(index);
            let mut smallest_index = index;
            let ghost mut left_taken = false;
            let ghost mut right_taken = false;
            let ghost mut l: int = 0;
            let ghost mut r: int = 0;
            let ghost mut o1: Ordering = Ordering::Equal;
            let ghost mut o2: Ordering = Ordering::Equal;
            let ghost mut m0: int = 0;
            if last_index >= 1 && index <= (last_index - 1) / 2 {
                let left_child_index = Self::left_child_index(index);
                let o = cmp(&self.data[left_child_index], &self.data[smallest_index]);
                proof {
                    l = pos(left_child_index);
                    o1 = o;
                    left_taken = true;
                }
                match o {
                    Ordering::Less => {
                        smallest_index = left_child_index;
                    },
                    _ => {},
                }
                if last_index >= 2 && index <= (last_index - 2) / 2 {
                    let right_child_index = Self::right_child_index(index);
                    proof {
                        m0 = pos(smallest_index);
                    }
                    let o = cmp(&self.data[right_child_index], &self.data[smallest_index]);
                    proof {
                        r = pos(right_child_index);
                        o2 = o;
                        right_taken = true;
                    }
                    match o {
                        Ordering::Less => {
                            smallest_index = right_child_index;
                        },
                        _ => {},
                    }
                }
            }
            let ghost m = pos(smallest_index);
            proof {
                assert forall|ord: spec_fn(T, T) -> Ordering|
                    #[trigger] orders(cmp, ord) && ordered_below(s_in, ord, i_in) implies {
                    &&& precedes(ord, s[m], s[k])
                    &&& forall|i: int| 0 < i < s.len() && parent_of(i) == k ==> precedes(ord, s[m], #[trigger] s[i])
                } by {
                    lemma_total_order_facts(ord, s[k], s[k]);
                    if left_taken {
                        assert(o1 == ord(s[l], s[k]));
                        lemma_total_order_facts(ord, s[l], s[k]);
                        let m1 = if o1 == Ordering::Less { l } else { k };
                        lemma_total_order_facts(ord, s[m1], s[l]);
                        assert(precedes(ord, s[m1], s[k]));
                        assert(precedes(ord, s[m1], s[l]));
                        if right_taken {
                            assert(m0 == m1);
                            assert(o2 == ord(s[r], s[m0]));
                            lemma_total_order_facts(ord, s[r], s[m0]);
                            lemma_total_order_facts(ord, s[m], s[r]);
                            assert(precedes(ord, s[m], s[m0]));
                            assert(precedes(ord, s[m], s[k]));
                            assert(precedes(ord, s[m], s[l]));
                            assert(precedes(ord, s[m], s[r]));
                        } else {
                            assert(m == m1);
                        }
                    }
                    assert forall|i: int| 0 < i < s.len() && parent_of(i) == k implies precedes(
                        ord,
                        s[m],
                        #[trigger] s[i],
                    ) by {
                        assert(i == 2 * k + 1 || i == 2 * k + 2);
                    }
                }
            }
            if smallest_index != index {
                swap_items(&mut self.data, index, smallest_index);
                proof {
                    let t = self.data@;
                    assert(t.to_multiset() == s.to_multiset());
                    assert(parent_of(m) == k);
                    assert forall|ord: spec_fn(T, T) -> Ordering|
                        #[trigger] orders(cmp, ord) && ordered_below(s_in, ord, i_in) implies ordered_below(t, ord, m) by {
                        assert(ordered_below(s, ord, k));
                        assert(precedes(ord, s[m], s[k]));
                        assert forall|i: int| 0 < i < t.len() && parent_of(i) != m implies precedes(
                            ord,
                            t[parent_of(i)],
                            #[trigger] t[i],
                        ) by {
                            if i == m {
                            } else if parent_of(i) == k {
                                assert(precedes(ord, s[m], s[i]));
                            } else if i == k {
                                assert(precedes(ord, s[parent_of(k)], s[m]));
                            } else {
                                assert(precedes(ord, s[parent_of(i)], s[i]));
                            }
                        }
                        assert forall|i: int|
                            0 < i < t.len() && parent_of(i) == m && m > 0 implies precedes(
                            ord,
                            t[parent_of(m)],
                            #[trigger] t[i],
                        ) by {
                            assert(precedes(ord, s[parent_of(i)], s[i]));
                        }
                    }
                }
                index = smallest_index;
            } else {
                proof {
                    assert forall|ord: spec_fn(T, T) -> Ordering|
                        #[trigger] orders(cmp, ord) && ordered_below(s_in, ord, i_in) implies heap_ordered(s, ord) by {
                        assert(ordered_below(s, ord, k));
                        assert(precedes(ord, s[m], s[k]));
                    }
                }
                break ;
            }
        }
    }

    fn parent_index(index: usize) -> (r: usize)
        requires
            index > 0,
        ensures
            r == parent_of(pos(index)),
            r < index,
    {
        (index - 1) / 2
    }

    fn left_child_index(index: usize) -> (r: usize)
        requires
            2 * index + 1 <= usize::MAX,
        ensures
            r == 2 * index + 1,
            parent_of(pos(r)) == pos(index),
    {
        2 * index + 1
    }

    fn right_child_index(index: usize) -> (r: usize)
        requires
            2 * index + 2 <= usize::MAX,
        ensures
            r == 2 * index + 2,
            parent_of(pos(r)) == pos(index),
    {
        2 * index + 2
    }
}

} // verus!

verus! {

use crate::sweep_event::SweepEventId;

/// The queue of sweep events: a min-heap of event identifiers, ordered by a
/// comparator on events.
pub struct MinHeapByCompareEvents(MinHeap<SweepEventId>);

impl View for MinHeapByCompareEvents {
    type V = Multiset<SweepEventId>;

    closed spec fn view(&self) -> Multiset<SweepEventId> {
        self.0@
    }
}

impl MinHeapByCompareEvents {
    /// The events are laid out as a heap for `ord`.
    pub closed spec fn ordered_by(&self, ord: spec_fn(SweepEventId, SweepEventId) -> Ordering) -> bool {
        self.0.ordered_by(ord)
    }

    /// The event at the front, which `pop` takes out next.
    pub closed spec fn front(&self) -> SweepEventId {
        self.0.front()
    }

    /// A queue with at most one event is laid out as a heap for any order.
    pub proof fn lemma_small_is_ordered(&self, ord: spec_fn(SweepEventId, SweepEventId) -> Ordering)
        requires
            self@.len() <= 1,
        ensures
            self.ordered_by(ord),
    {
        self.0.lemma_small_is_ordered(ord);
    }

    /// The front of a non-empty queue is one of its events and comes no
    /// later than any of them, for any total order it is laid out for.
    pub proof fn lemma_front_is_least(&self, ord: spec_fn(SweepEventId, SweepEventId) -> Ordering)
        requires
            is_total_order(ord),
            self.ordered_by(ord),
            self@.len() > 0,
        ensures
            self@.contains(self.front()),
            forall|x: SweepEventId| self@.contains(x) ==> precedes(ord, self.front(), x),
    {
        self.0.lemma_front_is_least(ord);
    }

    pub fn new() -> (q: Self)
        ensures
            q@ =~= Multiset::empty(),
    {
        Self(MinHeap::new())
    }

    /// Adds event `id`; a heap for any total order that `cmp` answers as
    /// stays one.
    pub fn push<F: Fn(&SweepEventId, &SweepEventId) -> Ordering>(&mut self, id: SweepEventId, cmp: F)
        requires
            is_comparator(cmp),
            old(self)@.len() < usize::MAX,
        ensures
            final(self)@ == old(self)@.insert(id),
            forall|ord: spec_fn(SweepEventId, SweepEventId) -> Ordering|
                #[trigger] orders(cmp, ord) && old(self).ordered_by(ord) ==> final(self).ordered_by(ord),
    {
        self.0.push(id, cmp);
    }

    /// Takes out the front event, or gives `None` when the queue is empty.
    /// For any total order that `cmp` answers as and that the queue is laid
    /// out for, that event comes no later than any other and the queue stays
    /// a heap.
    pub fn pop<F: Fn(&SweepEventId, &SweepEventId) -> Ordering>(&mut self, cmp: F) -> (r: Option<SweepEventId>)
        requires
            is_comparator(cmp),
        ensures
            old(self)@.len() == 0 ==> r is None && final(self)@ == old(self)@,
            old(self)@.len() > 0 ==> r == Some(old(self).front()),
            r matches Some(x) ==> old(self)@.contains(x) && final(self)@ == old(self)@.remove(x),
            forall|ord: spec_fn(SweepEventId, SweepEventId) -> Ordering|
                #[trigger] orders(cmp, ord) && old(self).ordered_by(ord) ==> {
                    &&& final(self).ordered_by(ord)
                    &&& r matches Some(x) ==> forall|y: SweepEventId| old(self)@.contains(y) ==> precedes(ord, x, y)
                },
    {
        self.0.pop(cmp)
    }

    pub fn len(&self) -> (n: usize)
        ensures
            n == self@.len(),
    {
        self.0.len()
    }
}

} // verus!

verus! {

/// Two pops in a row come out in order: when `x` was taken from `m` as an
/// item that precedes all of `m`, any item taken next from what is left
/// comes no earlier than `x`.
pub proof fn law_pops_come_in_order<T>(ord: spec_fn(T, T) -> Ordering, m: Multiset<T>, x: T, y: T)
    requires
        m.contains(x),
        forall|z: T| m.contains(z) ==> precedes(ord, x, z),
        m.remove(x).contains(y),
    ensures
        precedes(ord, x, y),
{
    assert(m.remove(x).count(y) <= m.count(y));
    assert(m.contains(y));
}

} // verus!
