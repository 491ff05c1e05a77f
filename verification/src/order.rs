//! Comparators: the closures that order the items of the collections.
//!
//! A comparator is asked "how does `a` compare with `b`" and answers with an
//! `Ordering`.  What a collection promises about order is stated for every
//! total preorder `ord` (a spec function) that the comparator answers as: a
//! caller whose closure's `ensures` gives its answer as `ord(a, b)` picks that
//! `ord` and learns the order of the collection.
use core::cmp::Ordering;
use vstd::prelude::*;

verus! {

/// `cmp` can be asked about any two values.
pub open spec fn is_comparator<T, F: Fn(&T, &T) -> Ordering>(cmp: F) -> bool {
    forall|a: T, b: T| #[trigger] call_requires(cmp, (&a, &b))
}

/// Every answer that `cmp` gives about `a` against `b` is `ord(a, b)`.
pub open spec fn agrees<T, F: Fn(&T, &T) -> Ordering>(cmp: F, ord: spec_fn(T, T) -> Ordering) -> bool {
    forall|a: T, b: T, r: Ordering| #[trigger] call_ensures(cmp, (&a, &b), r) ==> r == ord(a, b)
}

/// `cmp` answers as the total order `ord` does.
pub open spec fn orders<T, F: Fn(&T, &T) -> Ordering>(cmp: F, ord: spec_fn(T, T) -> Ordering) -> bool {
    agrees(cmp, ord) && is_total_order(ord)
}

/// `a` does not come after `b`.
pub open spec fn precedes<T>(ord: spec_fn(T, T) -> Ordering, a: T, b: T) -> bool {
    ord(a, b) != Ordering::Greater
}

/// `a` comes strictly before `b`.
pub open spec fn strictly_precedes<T>(ord: spec_fn(T, T) -> Ordering, a: T, b: T) -> bool {
    ord(a, b) == Ordering::Less
}

/// `a` and `b` are equivalent for `ord`.
pub open spec fn equivalent<T>(ord: spec_fn(T, T) -> Ordering, a: T, b: T) -> bool {
    ord(a, b) == Ordering::Equal
}

/// `ord` is a total preorder: `Less` one way is `Greater` the other way, and
/// "does not come after" is transitive.
pub open spec fn is_total_order<T>(ord: spec_fn(T, T) -> Ordering) -> bool {
    &&& forall|a: T, b: T|
        (#[trigger] ord(a, b) == Ordering::Less) <==> (ord(b, a)
            == Ordering::Greater)
    &&& forall|a: T, b: T, c: T|
        #[trigger] precedes(ord, a, b) && #[trigger] precedes(ord, b, c) ==> precedes(ord, a, c)
}

/// Every item of `s` precedes every later one.
pub open spec fn sorted_by<T>(s: Seq<T>, ord: spec_fn(T, T) -> Ordering) -> bool {
    forall|i: int, j: int| 0 <= i < j < s.len() ==> precedes(ord, #[trigger] s[i], #[trigger] s[j])
}

/// Under a total order, any value precedes itself, and of two values one
/// precedes the other.
pub proof fn lemma_total_order_facts<T>(ord: spec_fn(T, T) -> Ordering, a: T, b: T)
    requires
        is_total_order(ord),
    ensures
        precedes(ord, a, a),
        precedes(ord, a, b) || precedes(ord, b, a),
        !precedes(ord, a, b) ==> strictly_precedes(ord, b, a),
        strictly_precedes(ord, a, b) ==> !precedes(ord, b, a),
        equivalent(ord, a, b) ==> equivalent(ord, b, a),
{
    assert(ord(a, a) == Ordering::Less <==> ord(a, a) == Ordering::Greater);
    assert(ord(a, b) == Ordering::Less <==> ord(b, a) == Ordering::Greater);
    assert(ord(b, a) == Ordering::Less <==> ord(a, b) == Ordering::Greater);
}

} // verus!

verus! {

/// The position of the first item of `s` that satisfies `p`, or `s.len()`
/// when none does.
pub open spec fn first_index<T>(s: Seq<T>, p: spec_fn(T) -> bool) -> int
    decreases s.len(),
{
    if s.len() == 0 {
        0
    } else if p(s[0]) {
        0
    } else {
        1 + first_index(s.drop_first(), p)
    }
}

/// `first_index` is the one position before which nothing satisfies `p` and
/// at which (if it is inside `s`) the item does.
pub proof fn lemma_first_index<T>(s: Seq<T>, p: spec_fn(T) -> bool, k: int)
    requires
        0 <= k <= s.len(),
        forall|i: int| 0 <= i < k ==> !p(#[trigger] s[i]),
        k < s.len() ==> p(s[k]),
    ensures
        first_index(s, p) == k,
    decreases s.len(),
{
    if s.len() > 0 && k > 0 {
        assert(!p(s[0]));
        let t = s.drop_first();
        assert forall|i: int| 0 <= i < k - 1 implies !p(#[trigger] t[i]) by {
            assert(t[i] == s[i + 1]);
        }
        if k - 1 < t.len() {
            assert(t[k - 1] == s[k]);
        }
        lemma_first_index(t, p, k - 1);
    }
}

/// `first_index` lies within `0..=s.len()`, nothing before it satisfies `p`,
/// and the item at it (if any) does.
pub proof fn lemma_first_index_facts<T>(s: Seq<T>, p: spec_fn(T) -> bool)
    ensures
        0 <= first_index(s, p) <= s.len(),
        forall|i: int| 0 <= i < first_index(s, p) ==> !p(#[trigger] s[i]),
        first_index(s, p) < s.len() ==> p(s[first_index(s, p)]),
    decreases s.len(),
{
    if s.len() > 0 && !p(s[0]) {
        let t = s.drop_first();
        lemma_first_index_facts(t, p);
        assert forall|i: int| 0 <= i < first_index(s, p) implies !p(#[trigger] s[i]) by {
            if i > 0 {
                assert(s[i] == t[i - 1]);
            }
        }
        if first_index(s, p) < s.len() {
            assert(s[first_index(s, p)] == t[first_index(t, p)]);
        }
    }
}

} // verus!

verus! {

/// Inserting `v` into a sorted sequence at the position of the first item
/// that comes after it keeps the sequence sorted.
pub proof fn lemma_insert_keeps_sorted<T>(
    s: Seq<T>,
    v: T,
    ord: spec_fn(T, T) -> Ordering,
)
    requires
        is_total_order(ord),
        sorted_by(s, ord),
    ensures
        sorted_by(
            s.insert(first_index(s, |x: T| ord(x, v) == Ordering::Greater), v),
            ord,
        ),
{
    let p = |x: T| ord(x, v) == Ordering::Greater;
    lemma_first_index_facts(s, p);
    let k = first_index(s, p);
    let t = s.insert(k, v);
    assert forall|i: int, j: int| 0 <= i < j < t.len() implies precedes(
        ord,
        #[trigger] t[i],
        #[trigger] t[j],
    ) by {
        if j < k {
            assert(precedes(ord, s[i], s[j]));
        } else if j == k {
            assert(!p(s[i]));
        } else if i == k {
            lemma_total_order_facts(ord, s[k], v);
            if j - 1 > k {
                assert(precedes(ord, s[k], s[j - 1]));
            }
        } else if i < k {
            assert(precedes(ord, s[i], s[j - 1]));
        } else {
            assert(precedes(ord, s[i - 1], s[j - 1]));
        }
    }
}

/// Removing any item of a sorted sequence keeps it sorted: the removals of
/// the collections, which take one item out of their contents, keep them sorted.
pub proof fn law_remove_keeps_sorted<T>(s: Seq<T>, i: int, ord: spec_fn(T, T) -> Ordering)
    requires
        sorted_by(s, ord),
        0 <= i < s.len(),
    ensures
        sorted_by(s.remove(i), ord),
{
    let t = s.remove(i);
    assert forall|a: int, b: int| 0 <= a < b < t.len() implies precedes(
        ord,
        #[trigger] t[a],
        #[trigger] t[b],
    ) by {
        let a0 = if a < i {
            a
        } else {
            a + 1
        };
        let b0 = if b < i {
            b
        } else {
            b + 1
        };
        assert(t[a] == s[a0] && t[b] == s[b0]);
        assert(precedes(ord, s[a0], s[b0]));
    }
}

} // verus!

verus! {

/// Chains of "strictly before" and "not after" give "strictly before".
pub proof fn lemma_strict_chain<T>(ord: spec_fn(T, T) -> Ordering, a: T, b: T, c: T)
    requires
        is_total_order(ord),
    ensures
        strictly_precedes(ord, a, b) && precedes(ord, b, c) ==> strictly_precedes(ord, a, c),
        precedes(ord, a, b) && strictly_precedes(ord, b, c) ==> strictly_precedes(ord, a, c),
        strictly_precedes(ord, a, b) ==> precedes(ord, a, b),
        ord(a, b) == Ordering::Greater <==> strictly_precedes(ord, b, a),
{
    lemma_total_order_facts(ord, a, b);
    lemma_total_order_facts(ord, b, c);
    lemma_total_order_facts(ord, a, c);
    if strictly_precedes(ord, a, b) && precedes(ord, b, c) && !strictly_precedes(ord, a, c) {
        assert(precedes(ord, c, a));
        assert(precedes(ord, b, a));
    }
    if precedes(ord, a, b) && strictly_precedes(ord, b, c) && !strictly_precedes(ord, a, c) {
        assert(precedes(ord, c, a));
        assert(precedes(ord, c, b));
    }
}

} // verus!

verus! {

/// Inserting `v` at a position with only items not after it before, and only
/// items not before it from there on, keeps a sorted sequence sorted.
pub proof fn lemma_insert_at_keeps_sorted<T>(
    s: Seq<T>,
    v: T,
    k: int,
    ord: spec_fn(T, T) -> Ordering,
)
    requires
        is_total_order(ord),
        sorted_by(s, ord),
        0 <= k <= s.len(),
        forall|i: int| 0 <= i < k ==> precedes(ord, #[trigger] s[i], v),
        forall|i: int| k <= i < s.len() ==> precedes(ord, v, #[trigger] s[i]),
    ensures
        sorted_by(s.insert(k, v), ord),
{
    let t = s.insert(k, v);
    assert forall|i: int, j: int| 0 <= i < j < t.len() implies precedes(
        ord,
        #[trigger] t[i],
        #[trigger] t[j],
    ) by {
        if j < k {
            assert(precedes(ord, s[i], s[j]));
        } else if j == k {
            assert(precedes(ord, s[i], v));
        } else if i == k {
            assert(precedes(ord, v, s[j - 1]));
        } else if i < k {
            assert(precedes(ord, s[i], s[j - 1]));
        } else {
            assert(precedes(ord, s[i - 1], s[j - 1]));
        }
    }
}

/// In a sorted sequence, the items that `v` comes strictly before are exactly
/// those from the first such item on; inserting `v` there keeps it sorted.
pub proof fn lemma_first_after<T>(s: Seq<T>, v: T, ord: spec_fn(T, T) -> Ordering)
    requires
        is_total_order(ord),
        sorted_by(s, ord),
    ensures
        ({
            let k = first_index(s, |e: T| ord(v, e) == Ordering::Less);
            &&& 0 <= k <= s.len()
            &&& forall|i: int| 0 <= i < s.len() ==> (strictly_precedes(ord, v, #[trigger] s[i]) <==> k <= i)
            &&& sorted_by(s.insert(k, v), ord)
        }),
{
    let p = |e: T| ord(v, e) == Ordering::Less;
    lemma_first_index_facts(s, p);
    let k = first_index(s, p);
    assert forall|i: int| 0 <= i < s.len() implies (strictly_precedes(ord, v, #[trigger] s[i]) <==> k <= i) by {
        if k <= i {
            if k < i {
                lemma_strict_chain(ord, v, s[k], s[i]);
                assert(precedes(ord, s[k], s[i]));
            }
        } else {
            assert(!p(s[i]));
        }
    }
    assert forall|i: int| 0 <= i < k implies precedes(ord, #[trigger] s[i], v) by {
        assert(!p(s[i]));
        lemma_total_order_facts(ord, s[i], v);
    }
    assert forall|i: int| k <= i < s.len() implies precedes(ord, v, #[trigger] s[i]) by {
        lemma_strict_chain(ord, v, s[i], s[i]);
    }
    lemma_insert_at_keeps_sorted(s, v, k, ord);
}

} // verus!

verus! {

/// A value that was just inserted is found again: wherever it was put, the
/// first item equivalent to it lies no later than that place.
pub proof fn law_inserted_value_is_found<T>(
    ord: spec_fn(T, T) -> Ordering,
    s: Seq<T>,
    k: int,
    v: T,
)
    requires
        is_total_order(ord),
        0 <= k <= s.len(),
    ensures
        equivalent(ord, v, s.insert(k, v)[k]),
        first_index(s.insert(k, v), |x: T| ord(x, v) == Ordering::Equal) <= k,
        exists|i: int| 0 <= i < s.insert(k, v).len() && equivalent(ord, v, #[trigger] s.insert(k, v)[i]),
{
    let t = s.insert(k, v);
    let p = |x: T| ord(x, v) == Ordering::Equal;
    lemma_total_order_facts(ord, v, v);
    assert(t[k] == v);
    lemma_first_index_facts(t, p);
    if first_index(t, p) > k {
        assert(!p(t[k]));
    }
}

/// The list-backed and the tree-backed sweep lines put a new value at the
/// same place: before the first item that the value comes strictly before.
/// Asked as `ord(item, value) == Greater` or as `ord(value, item) == Less`,
/// a total order gives the same position.
pub proof fn law_insert_places_agree<T>(ord: spec_fn(T, T) -> Ordering, s: Seq<T>, v: T)
    requires
        is_total_order(ord),
    ensures
        first_index(s, |x: T| ord(x, v) == Ordering::Greater) == first_index(
            s,
            |e: T| ord(v, e) == Ordering::Less,
        ),
{
    let p = |x: T| ord(x, v) == Ordering::Greater;
    let q = |e: T| ord(v, e) == Ordering::Less;
    assert forall|x: T| #[trigger] p(x) == q(x) by {
        assert(ord(v, x) == Ordering::Less <==> ord(x, v) == Ordering::Greater);
    }
    assert(p =~= q);
}

} // verus!
