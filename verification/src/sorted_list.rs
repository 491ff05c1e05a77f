//! A doubly linked list kept in an arena of nodes, whose items stay in the
//! order of a comparator.  Removed nodes stay in the arena, unlinked.
use core::cmp::Ordering;
use vstd::prelude::*;

use crate::vec_ops::pos;
use crate::order::{
    agrees, first_index, is_comparator, lemma_first_index, lemma_insert_keeps_sorted, orders,
    sorted_by,
};

verus! {

/// A handle on an item of a `SortedList`: a copy of its value and the node
/// that holds it.
pub struct ElementRef<T> {
    pub value: T,
    pub id: usize,
}

/// The links of one node of a `SortedList`.
#[derive(Clone, Copy)]
pub struct Node {
    pub prev: Option<usize>,
    pub next: Option<usize>,
}

/// A linked list over two arenas: `node_arena[i]` links the node whose value
/// is `value_arena[i]`; `head` is the first node.
pub struct SortedList<T> {
    pub node_arena: Vec<Node>,
    pub value_arena: Vec<T>,
    pub head: Option<usize>,
    pub order: Ghost<Seq<usize>>,
}

/// The node after position `k` of `order`, if any.
pub open spec fn link_after(order: Seq<usize>, k: int) -> Option<usize> {
    if k + 1 < order.len() {
        Some(order[k + 1])
    } else {
        None
    }
}

/// The node before position `k` of `order`, if any.
pub open spec fn link_before(order: Seq<usize>, k: int) -> Option<usize> {
    if k > 0 {
        Some(order[k - 1])
    } else {
        None
    }
}

/// The node at position `k` of `order`, if `k` is a position of it.
pub open spec fn node_at(order: Seq<usize>, k: int) -> Option<usize> {
    if 0 <= k < order.len() {
        Some(order[k])
    } else {
        None
    }
}

/// Inserting a value larger than all the (distinct) values of `o` keeps them
/// distinct.
proof fn lemma_insert_fresh(o: Seq<usize>, j: int, id: usize)
    requires
        0 <= j <= o.len(),
        forall|k: int| 0 <= k < o.len() ==> #[trigger] o[k] < id,
        forall|a: int, b: int| 0 <= a < b < o.len() ==> o[a] != o[b],
    ensures
        forall|k: int| 0 <= k < o.insert(j, id).len() ==> #[trigger] o.insert(j, id)[k] <= id,
        forall|a: int, b: int|
            0 <= a < b < o.insert(j, id).len() ==> o.insert(j, id)[a] != o.insert(j, id)[b],
{
    let o2 = o.insert(j, id);
    assert forall|k: int| 0 <= k < o2.len() implies #[trigger] o2[k] <= id by {
        if k < j {
            assert(o[k] < id);
        } else if k > j {
            assert(o2[k] == o[k - 1] && o[k - 1] < id);
        }
    }
    assert forall|a: int, b: int| 0 <= a < b < o2.len() implies o2[a] != o2[b] by {
        if a < j && b < j {
        } else if a < j && b > j {
            assert(o2[b] == o[b - 1]);
            assert(o[a] != o[b - 1]);
        } else if a > j {
            assert(o2[a] == o[a - 1] && o2[b] == o[b - 1]);
            assert(o[a - 1] != o[b - 1]);
        } else if a == j {
            assert(o2[b] == o[b - 1]);
            assert(o[b - 1] < id);
        } else {
            assert(o2[a] == o[a]);
            assert(o[a] < id);
        }
    }
}

impl<T> View for SortedList<T> {
    type V = Seq<T>;

    /// The values of the list, in list order.
    open spec fn view(&self) -> Seq<T> {
        self.order@.map_values(|id: usize| self.value_arena@[id as int])
    }
}

impl<T> SortedList<T> {
    /// The arena indices of the linked nodes, in list order.
    pub open spec fn order(&self) -> Seq<usize> {
        self.order@
    }

    /// The links of node `id`.
    pub open spec fn links(&self, id: usize) -> Node {
        self.node_arena@[id as int]
    }

    /// The value of node `id`.
    pub open spec fn value_of(&self, id: usize) -> T {
        self.value_arena@[id as int]
    }

    /// The handle `e` refers to a node that is in the list.
    pub open spec fn holds(&self, e: &ElementRef<T>) -> bool {
        self.order().contains(e.id)
    }

    /// The arenas have one entry per node, and the nodes of `order()` are
    /// distinct and linked to each other in that order from `head`.
    pub open spec fn wf(&self) -> bool {
        let order = self.order@;
        &&& self.node_arena@.len() == self.value_arena@.len()
        &&& order.len() <= self.node_arena@.len()
        &&& forall|k: int| 0 <= k < order.len() ==> #[trigger] order[k] < self.node_arena@.len()
        &&& forall|i: int, j: int| 0 <= i < j < order.len() ==> order[i] != order[j]
        &&& self.head == node_at(order, 0)
        &&& forall|k: int|
            0 <= k < order.len() ==> (#[trigger] self.links(order[k])).next == link_after(order, k)
                && self.links(order[k]).prev == link_before(order, k)
    }

    /// The view lists the values of the nodes of `order()`, position by
    /// position.
    pub proof fn lemma_view(&self)
        ensures
            self@.len() == self.order().len(),
            forall|k: int| 0 <= k < self@.len() ==> #[trigger] self@[k] == self.value_of(self.order()[k]),
    {
    }

    proof fn lemma_links(&self, k: int)
        requires
            self.wf(),
            0 <= k < self.order().len(),
        ensures
            self.links(self.order()[k]).next == link_after(self.order(), k),
            self.links(self.order()[k]).prev == link_before(self.order(), k),
            self.order()[k] < self.node_arena@.len(),
            self.node_arena@.len() == self.value_arena@.len(),
    {
        let order = self.order@;
        assert(order[k] < self.node_arena@.len());
    }

    proof fn lemma_distinct(&self, k: int, j: int)
        requires
            self.wf(),
            0 <= k < self.order().len(),
            0 <= j < self.order().len(),
            j != k,
        ensures
            self.order()[j] != self.order()[k],
    {
        if j < k {
        } else {
        }
    }

    /// After linking node `id`, holding `value`, in at position `j` of the old
    /// list (with the old list's links around it updated), the list is whole
    /// again with `id` at position `j`.
    #[verifier::rlimit(60)]
    proof fn lemma_inserted(&self, old_list: &Self, j: int, id: usize, value: T)
        requires
            old_list.wf(),
            0 <= j <= old_list.order().len(),
            id == old_list.node_arena@.len(),
            self.order() == old_list.order().insert(j, id),
            self.value_arena@ == old_list.value_arena@.push(value),
            self.node_arena@.len() == id + 1,
            self.links(id) == (Node { prev: link_before(old_list.order(), j), next: node_at(old_list.order(), j) }),
            j > 0 ==> self.links(old_list.order()[j - 1]) == (Node { prev: old_list.links(old_list.order()[j - 1]).prev, next: Some(id) }),
            j == 0 ==> self.head == Some(id),
            j > 0 ==> self.head == old_list.head,
            j < old_list.order().len() ==> self.links(old_list.order()[j]) == (Node { prev: Some(id), next: old_list.links(old_list.order()[j]).next }),
            forall|k: int| 0 <= k < old_list.order().len() && k != j - 1 && k != j ==>
                self.links(#[trigger] old_list.order()[k]) == old_list.links(old_list.order()[k]),
        ensures
            self.wf(),
            self@ == old_list@.insert(j, value),
    {
        let o = old_list.order@;
        let o2 = o.insert(j, id);
        assert forall|k: int| 0 <= k < o.len() implies #[trigger] o[k] < id by {
            old_list.lemma_links(k);
        }
        assert forall|a: int, b: int| 0 <= a < b < o.len() implies o[a] != o[b] by {
            old_list.lemma_links(a);
        }
        lemma_insert_fresh(o, j, id);
        assert forall|k: int| 0 <= k < o2.len() implies (#[trigger] self.links(o2[k])).next
            == link_after(o2, k) && self.links(o2[k]).prev == link_before(o2, k) by {
            if k < j - 1 {
                old_list.lemma_links(k);
                assert(o2[k] == o[k]);
                assert(o2[k + 1] == o[k + 1]);
            } else if k == j - 1 {
                old_list.lemma_links(k);
                assert(o2[k] == o[k]);
            } else if k == j {
            } else if k == j + 1 {
                old_list.lemma_links(k - 1);
                assert(o2[k] == o[k - 1]);
                if k + 1 < o2.len() {
                    assert(o2[k + 1] == o[k]);
                }
            } else {
                old_list.lemma_links(k - 1);
                assert(o2[k] == o[k - 1]);
                assert(o2[k - 1] == o[k - 2]);
                if k + 1 < o2.len() {
                    assert(o2[k + 1] == o[k]);
                }
            }
        }
        if j == 0 {
            assert(self.head == node_at(o2, 0));
        } else {
            assert(o2[0] == o[0]);
        }
        self.lemma_inserted_view(old_list, j, id, value);
    }

    proof fn lemma_inserted_view(&self, old_list: &Self, j: int, id: usize, value: T)
        requires
            old_list.wf(),
            0 <= j <= old_list.order().len(),
            id == old_list.node_arena@.len(),
            self.order() == old_list.order().insert(j, id),
            self.value_arena@ == old_list.value_arena@.push(value),
        ensures
            self@ == old_list@.insert(j, value),
    {
        let o = old_list.order@;
        let o2 = self.order@;
        assert forall|k: int| 0 <= k < o2.len() implies #[trigger] self@[k] == old_list@.insert(j, value)[k] by {
            if k < j {
                old_list.lemma_links(k);
            } else if k > j {
                old_list.lemma_links(k - 1);
                assert(o2[k] == o[k - 1]);
            }
        }
        assert(self@ =~= old_list@.insert(j, value));
    }

    /// Unlinks the node of `e`; the items around it become neighbours.
    pub fn remove(&mut self, e: ElementRef<T>)
        requires
            old(self).wf(),
            old(self).holds(&e),
        ensures
            final(self).wf(),
            forall|i: int|
                0 <= i < old(self).order().len() && old(self).order()[i] == e.id ==> {
                    &&& final(self).order() == old(self).order().remove(i)
                    &&& final(self)@ == old(self)@.remove(i)
                },
    {
        let ghost i = choose|i: int| 0 <= i < self.order().len() && self.order()[i] == e.id;
        proof {
            self.lemma_links(i);
            if i > 0 {
                self.lemma_links(i - 1);
            }
            if i + 1 < self.order().len() {
                self.lemma_links(i + 1);
            }
            assert forall|k: int| 0 <= k < self.order().len() && self.order()[k] == e.id implies k == i by {
                if k != i {
                    self.lemma_distinct(k, i);
                }
            }
        }
        let prev_id = self.node_arena[e.id].prev;
        let next_id = self.node_arena[e.id].next;
        match prev_id {
            Some(p_id) => {
                let n = self.node_arena[p_id];
                self.node_arena.set(p_id, Node { prev: n.prev, next: next_id });
            },
            None => {
                self.head = next_id;
            },
        }
        match next_id {
            Some(n_id) => {
                let n = self.node_arena[n_id];
                self.node_arena.set(n_id, Node { prev: prev_id, next: n.next });
            },
            None => {},
        }
        self.order = Ghost(old(self).order().remove(i));
        proof {
            self.lemma_removed(old(self), i);
        }
    }

    /// After unlinking the node at position `i` (with the links of its
    /// neighbours updated), the list is whole again without it.
    #[verifier::rlimit(60)]
    proof fn lemma_removed(&self, old_list: &Self, i: int)
        requires
            old_list.wf(),
            0 <= i < old_list.order().len(),
            self.order() == old_list.order().remove(i),
            self.value_arena@ == old_list.value_arena@,
            self.node_arena@.len() == old_list.node_arena@.len(),
            i > 0 ==> self.links(old_list.order()[i - 1]) == (Node { prev: old_list.links(old_list.order()[i - 1]).prev, next: link_after(old_list.order(), i) }),
            i == 0 ==> self.head == link_after(old_list.order(), i),
            i > 0 ==> self.head == old_list.head,
            i + 1 < old_list.order().len() ==> self.links(old_list.order()[i + 1]) == (Node { prev: link_before(old_list.order(), i), next: old_list.links(old_list.order()[i + 1]).next }),
            forall|k: int| 0 <= k < old_list.order().len() && k != i - 1 && k != i + 1 ==>
                self.links(#[trigger] old_list.order()[k]) == old_list.links(old_list.order()[k]),
        ensures
            self.wf(),
            self@ == old_list@.remove(i),
    {
        let o = old_list.order@;
        let o2 = self.order@;
        assert forall|a: int, b: int| 0 <= a < b < o2.len() implies o2[a] != o2[b] by {
            let a0 = if a < i { a } else { a + 1 };
            let b0 = if b < i { b } else { b + 1 };
            assert(o2[a] == o[a0] && o2[b] == o[b0]);
            old_list.lemma_distinct(a0, b0);
        }
        assert forall|k: int| 0 <= k < o2.len() implies #[trigger] o2[k] < self.node_arena@.len() by {
            let k0 = if k < i { k } else { k + 1 };
            assert(o2[k] == o[k0]);
            old_list.lemma_links(k0);
        }
        assert forall|k: int| 0 <= k < o2.len() implies (#[trigger] self.links(o2[k])).next
            == link_after(o2, k) && self.links(o2[k]).prev == link_before(o2, k) by {
            if k < i {
                old_list.lemma_links(k);
                assert(o2[k] == o[k]);
                if k + 1 < i {
                    assert(o2[k + 1] == o[k + 1]);
                } else if k + 1 < o2.len() {
                    assert(o2[k + 1] == o[k + 2]);
                }
                if k > 0 {
                    assert(o2[k - 1] == o[k - 1]);
                }
            } else {
                old_list.lemma_links(k + 1);
                assert(o2[k] == o[k + 1]);
                if k + 1 < o2.len() {
                    assert(o2[k + 1] == o[k + 2]);
                }
                if k > i {
                    assert(o2[k - 1] == o[k]);
                } else if k > 0 {
                    assert(o2[k - 1] == o[k - 1]);
                }
            }
        }
        if i == 0 {
            if o2.len() > 0 {
                assert(o2[0] == o[1]);
            }
        } else {
            assert(o2[0] == o[0]);
        }
        assert forall|k: int| 0 <= k < o2.len() implies #[trigger] self@[k] == old_list@.remove(i)[k] by {
            let k0 = if k < i { k } else { k + 1 };
            assert(o2[k] == o[k0]);
            old_list.lemma_links(k0);
        }
        assert(self@ =~= old_list@.remove(i));
    }

    pub fn new() -> (list: Self)
        ensures
            list.wf(),
            list@ == Seq::<T>::empty(),
            list.order() == Seq::<usize>::empty(),
    {
        let list = Self {
            node_arena: Vec::new(),
            value_arena: Vec::new(),
            head: None,
            order: Ghost(Seq::empty()),
        };
        proof {
            assert(list@ =~= Seq::<T>::empty());
        }
        list
    }

    /// Counts the items by walking the links.
    pub fn len(&self) -> (n: usize)
        requires
            self.wf(),
        ensures
            n == self@.len(),
    {
        let mut n: usize = 0;
        let mut itr = self.head;
        let arena_len = self.node_arena.len();
        loop
            invariant
                self.wf(),
                arena_len == self.node_arena@.len(),
                n <= self.order().len(),
                itr == node_at(self.order(), n as int),
            ensures
                n == self.order().len(),
            decreases self.order().len() - n,
        {
            match itr {
                Some(cur) => {
                    proof {
                        self.lemma_links(n as int);
                    }
                    n = n + 1;
                    itr = self.node_arena[cur].next;
                },
                None => {
                    break ;
                },
            }
        }
        n
    }

    pub fn is_empty(&self) -> (b: bool)
        requires
            self.wf(),
        ensures
            b <==> self@.len() == 0,
    {
        self.head.is_none()
    }
}

impl<T: Clone> SortedList<T> {
    /// A handle on node `id`, with a clone of its value.
    fn element(&self, id: usize) -> (e: ElementRef<T>)
        requires
            self.wf(),
            id < self.node_arena@.len(),
        ensures
            e.id == id,
            cloned(self.value_of(id), e.value),
    {
        ElementRef { value: self.value_arena[id].clone(), id }
    }

    /// Links `value` in before the first item that `cmp` puts after it
    /// (asked as `cmp(item, value)`), so after every item it does not come
    /// before; returns a handle on the new node.
    pub fn insert<F: Fn(&T, &T) -> Ordering>(&mut self, value: T, cmp: F) -> (e: ElementRef<T>)
        requires
            old(self).wf(),
            is_comparator(cmp),
        ensures
            final(self).wf(),
            exists|k: int|
                #![trigger old(self)@.insert(k, value)]
                0 <= k <= old(self)@.len() && final(self)@ == old(self)@.insert(k, value) && final(self).order() == old(self).order().insert(k, e.id) && forall|
                    ord: spec_fn(T, T) -> Ordering,
                | #[trigger] agrees(cmp, ord) ==> k == first_index(
                    old(self)@,
                    |x: T| ord(x, value) == Ordering::Greater,
                ),
            !old(self).order().contains(e.id),
            e.id == old(self).node_arena@.len(),
            final(self).node_arena@.len() == old(self).node_arena@.len() + 1,
            final(self).value_arena@.len() == old(self).value_arena@.len() + 1,
            cloned(value, e.value),
            forall|ord: spec_fn(T, T) -> Ordering|
                #[trigger] orders(cmp, ord) && sorted_by(old(self)@, ord) ==> sorted_by(final(self)@, ord),
    {
        let ghost mut j: int = 0;
        let mut prev: Option<usize> = None;
        let mut itr = self.head;
        proof {
            self.lemma_view();
        }
        loop
            invariant
                self.wf(),
                *self == *old(self),
                is_comparator(cmp),
                0 <= j <= self.order().len(),
                itr == node_at(self.order(), j),
                prev == link_before(self.order(), j),
                forall|i: int, ord: spec_fn(T, T) -> Ordering|
                    #![trigger agrees(cmp, ord), self@[i]]
                    0 <= i < j && agrees(cmp, ord) ==> ord(self@[i], value) != Ordering::Greater,
                self@.len() == self.order().len(),
                forall|k: int| 0 <= k < self@.len() ==> #[trigger] self@[k] == self.value_of(self.order()[k]),
            ensures
                0 <= j <= self.order().len(),
                itr == node_at(self.order(), j),
                prev == link_before(self.order(), j),
                forall|i: int, ord: spec_fn(T, T) -> Ordering|
                    #![trigger agrees(cmp, ord), self@[i]]
                    0 <= i < j && agrees(cmp, ord) ==> ord(self@[i], value) != Ordering::Greater,
                j < self.order().len() ==> forall|ord: spec_fn(T, T) -> Ordering|
                    #[trigger] agrees(cmp, ord) ==> ord(self@[j], value) == Ordering::Greater,
            decreases self.order().len() - j,
        {
            match itr {
                Some(cur) => {
                    proof {
                        self.lemma_links(j);
                        assert(self@[j] == self.value_of(cur));
                    }
                    let o = cmp(&self.value_arena[cur], &value);
                    match o {
                        Ordering::Greater => {
                            break ;
                        },
                        _ => {},
                    }
                    prev = Some(cur);
                    itr = self.node_arena[cur].next;
                    proof {
                        j = j + 1;
                    }
                },
                None => {
                    break ;
                },
            }
        }
        proof {
            assert forall|ord: spec_fn(T, T) -> Ordering| #[trigger] agrees(cmp, ord) implies j
                == first_index(self@, |x: T| ord(x, value) == Ordering::Greater) by {
                let p = |x: T| ord(x, value) == Ordering::Greater;
                assert forall|i: int| 0 <= i < j implies !p(#[trigger] self@[i]) by {
                    assert(agrees(cmp, ord));
                }
                lemma_first_index(self@, p, j);
            }
            assert forall|ord: spec_fn(T, T) -> Ordering|
                #[trigger] orders(cmp, ord) && sorted_by(self@, ord) implies sorted_by(self@.insert(j, value), ord) by {
                lemma_insert_keeps_sorted(self@, value, ord);
            }
        }
        let id = self.node_arena.len();
        let copy = value.clone();
        self.value_arena.push(value);
        self.node_arena.push(Node { prev, next: itr });
        match prev {
            Some(pv) => {
                let n = self.node_arena[pv];
                self.node_arena.set(pv, Node { prev: n.prev, next: Some(id) });
            },
            None => {
                self.head = Some(id);
            },
        }
        match itr {
            Some(nx) => {
                let n = self.node_arena[nx];
                self.node_arena.set(nx, Node { prev: Some(id), next: n.next });
            },
            None => {},
        }
        self.order = Ghost(old(self).order().insert(j, id));
        proof {
            self.lemma_inserted(old(self), j, id, value);
            old(self).lemma_view();
            assert(self@ == old(self)@.insert(j, value));
        }
        ElementRef { value: copy, id }
    }

    /// A handle on the item after the one of `e`, or `None` at the end.
    pub fn next(&self, e: &ElementRef<T>) -> (r: Option<ElementRef<T>>)
        requires
            self.wf(),
            self.holds(e),
        ensures
            forall|i: int|
                0 <= i < self.order().len() && self.order()[i] == e.id ==> {
                    &&& i + 1 < self.order().len() ==> (r matches Some(x) && x.id == self.order()[i + 1]
                        && cloned(self@[i + 1], x.value))
                    &&& i + 1 == self.order().len() ==> r is None
                },
    {
        proof {
            assert forall|i: int| 0 <= i < self.order().len() && self.order()[i] == e.id implies
                self.links(e.id).next == link_after(self.order(), i) by {
                self.lemma_links(i);
            }
            let i = choose|i: int| 0 <= i < self.order().len() && self.order()[i] == e.id;
            self.lemma_links(i);
            if i + 1 < self.order().len() {
                self.lemma_links(i + 1);
            }
        }
        match self.node_arena[e.id].next {
            Some(id) => Some(self.element(id)),
            None => None,
        }
    }

    /// A handle on the item before the one of `e`, or `None` at the start.
    pub fn prev(&self, e: &ElementRef<T>) -> (r: Option<ElementRef<T>>)
        requires
            self.wf(),
            self.holds(e),
        ensures
            forall|i: int|
                0 <= i < self.order().len() && self.order()[i] == e.id ==> {
                    &&& i > 0 ==> (r matches Some(x) && x.id == self.order()[i - 1]
                        && cloned(self@[i - 1], x.value))
                    &&& i == 0 ==> r is None
                },
    {
        proof {
            assert forall|i: int| 0 <= i < self.order().len() && self.order()[i] == e.id implies
                self.links(e.id).prev == link_before(self.order(), i) by {
                self.lemma_links(i);
            }
            let i = choose|i: int| 0 <= i < self.order().len() && self.order()[i] == e.id;
            self.lemma_links(i);
            if i > 0 {
                self.lemma_links(i - 1);
            }
        }
        match self.node_arena[e.id].prev {
            Some(id) => Some(self.element(id)),
            None => None,
        }
    }

    /// A handle on the first item, or `None` when the list is empty.
    pub fn min(&self) -> (r: Option<ElementRef<T>>)
        requires
            self.wf(),
        ensures
            self@.len() == 0 ==> r is None,
            self@.len() > 0 ==> (r matches Some(x) && x.id == self.order()[0] && cloned(self@[0], x.value)),
    {
        match self.head {
            Some(id) => {
                proof {
                    self.lemma_links(0);
                }
                Some(self.element(id))
            },
            None => None,
        }
    }

    /// A handle on the last item, found by walking the links, or `None` when
    /// the list is empty.
    pub fn max(&self) -> (r: Option<ElementRef<T>>)
        requires
            self.wf(),
        ensures
            self@.len() == 0 ==> r is None,
            self@.len() > 0 ==> (r matches Some(x) && x.id == self.order().last() && cloned(self@.last(), x.value)),
    {
        let ghost mut j: int = 0;
        let mut itr = self.head;
        loop
            invariant
                self.wf(),
                0 <= j <= self.order().len(),
                itr == node_at(self.order(), j),
                j < self.order().len() || self.order().len() == 0,
            ensures
                self.order().len() == 0,
            decreases self.order().len() - j,
        {
            match itr {
                Some(cur) => {
                    proof {
                        self.lemma_links(j);
                    }
                    match self.node_arena[cur].next {
                        Some(next) => {
                            itr = Some(next);
                            proof {
                                j = j + 1;
                            }
                        },
                        None => {
                            proof {
                                assert(j == self.order().len() - 1);
                            }
                            return Some(self.element(cur));
                        },
                    }
                },
                None => {
                    break ;
                },
            }
        }
        None
    }

    /// The first item that `cmp` finds equal to `value` (asked as
    /// `cmp(item, value)`), or `None`.
    pub fn find<F: Fn(&T, &T) -> Ordering>(&mut self, value: &T, cmp: F) -> (r: Option<
        ElementRef<T>,
    >)
        requires
            old(self).wf(),
            is_comparator(cmp),
        ensures
            *final(self) == *old(self),
            forall|ord: spec_fn(T, T) -> Ordering|
                #[trigger] agrees(cmp, ord) ==> {
                    let k = first_index(old(self)@, |x: T| ord(x, *value) == Ordering::Equal);
                    &&& k < old(self)@.len() ==> (r matches Some(e) && e.id == old(self).order()[k]
                        && cloned(old(self)@[k], e.value))
                    &&& k == old(self)@.len() ==> r is None
                },
    {
        let ghost mut j: int = 0;
        let mut itr = self.head;
        proof {
            self.lemma_view();
        }
        loop
            invariant
                self.wf(),
                is_comparator(cmp),
                0 <= j <= self.order().len(),
                itr == node_at(self.order(), j),
                forall|i: int, ord: spec_fn(T, T) -> Ordering|
                    #![trigger agrees(cmp, ord), self@[i]]
                    0 <= i < j && agrees(cmp, ord) ==> ord(self@[i], *value) != Ordering::Equal,
                self@.len() == self.order().len(),
                forall|k: int| 0 <= k < self@.len() ==> #[trigger] self@[k] == self.value_of(self.order()[k]),
            ensures
                j == self.order().len(),
                itr is None,
                forall|i: int, ord: spec_fn(T, T) -> Ordering|
                    #![trigger agrees(cmp, ord), self@[i]]
                    0 <= i < j && agrees(cmp, ord) ==> ord(self@[i], *value) != Ordering::Equal,
            decreases self.order().len() - j,
        {
            match itr {
                Some(cur) => {
                    proof {
                        self.lemma_links(j);
                    }
                    let o = cmp(&self.value_arena[cur], value);
                    match o {
                        Ordering::Equal => {
                            proof {
                                assert(self@[j] == self.value_of(cur));
                                assert forall|ord: spec_fn(T, T) -> Ordering| #[trigger] agrees(cmp, ord)
                                    implies j == first_index(self@, |x: T| ord(x, *value) == Ordering::Equal) by {
                                    let p = |x: T| ord(x, *value) == Ordering::Equal;
                                    assert forall|i: int| 0 <= i < j implies !p(#[trigger] self@[i]) by {
                                        assert(agrees(cmp, ord));
                                    }
                                    lemma_first_index(self@, p, j);
                                }
                            }
                            return Some(self.element(cur));
                        },
                        _ => {},
                    }
                    proof {
                        assert(self@[j] == self.value_of(cur));
                        j = j + 1;
                    }
                    itr = self.node_arena[cur].next;
                },
                None => {
                    break ;
                },
            }
        }
        proof {
            assert forall|ord: spec_fn(T, T) -> Ordering| #[trigger] agrees(cmp, ord)
                implies j == first_index(self@, |x: T| ord(x, *value) == Ordering::Equal) by {
                let p = |x: T| ord(x, *value) == Ordering::Equal;
                assert forall|i: int| 0 <= i < j implies !p(#[trigger] self@[i]) by {
                    assert(agrees(cmp, ord));
                }
                lemma_first_index(self@, p, j);
            }
        }
        None
    }
}

} // verus!

verus! {

impl<T> SortedList<T> {
    /// Removing the element that an insert handed out gives the list back as
    /// it was before the insert: the same values on the same nodes, in order.
    pub proof fn law_remove_undoes_insert(
        before: Self,
        inserted: Self,
        removed: Self,
        e: ElementRef<T>,
        k: int,
        value: T,
    )
        requires
            0 <= k <= before.order().len(),
            inserted@ == before@.insert(k, value),
            inserted.order() == before.order().insert(k, e.id),
            forall|i: int|
                0 <= i < inserted.order().len() && inserted.order()[i] == e.id ==> {
                    &&& removed.order() == inserted.order().remove(i)
                    &&& removed@ == inserted@.remove(i)
                },
        ensures
            removed@ == before@,
            removed.order() == before.order(),
    {
        assert(inserted.order()[k] == e.id);
        assert(before.order().insert(k, e.id).remove(k) =~= before.order());
        before.lemma_view();
        assert(before@.insert(k, value).remove(k) =~= before@);
    }
}

} // verus!
