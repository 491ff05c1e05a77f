//! Splitting an edge at a point: the edge becomes two, each with its own
//! pair of events, and the two new events join the queue.
use core::cmp::Ordering;
use vstd::multiset::Multiset;
use vstd::prelude::*;

use crate::edge_type::EdgeType;
use crate::min_heap::MinHeapByCompareEvents;
use crate::order::{agrees, is_total_order, orders};
use crate::sweep_event::{id_of, ResultTransitionType, SweepEvent, SweepEventArena, SweepEventId};
use crate::vec_ops::{pos, slen};

verus! {

/// `cmp_events` can be asked about any two events of any arena.
pub open spec fn events_comparator<P, C: Fn(&SweepEventArena<P>, &SweepEventId, &SweepEventId) -> Ordering>(
    cmp_events: C,
) -> bool {
    forall|a: SweepEventArena<P>, x: SweepEventId, y: SweepEventId|
        #[trigger] call_requires(cmp_events, (&a, &x, &y))
}

/// Every answer that `cmp_events` gives about events `x` and `y` of an
/// arena is `g` of the arena's events, `x` and `y`.
pub open spec fn events_answered_as<P, C: Fn(&SweepEventArena<P>, &SweepEventId, &SweepEventId) -> Ordering>(
    cmp_events: C,
    g: spec_fn(Seq<SweepEvent<P>>, SweepEventId, SweepEventId) -> Ordering,
) -> bool {
    forall|a: SweepEventArena<P>, x: SweepEventId, y: SweepEventId, r: Ordering|
        #[trigger] call_ensures(cmp_events, (&a, &x, &y), r) ==> r == g(a.0@, x, y)
}

/// A fresh event as `SweepEvent::new` makes it, numbered `n`, with the
/// contour of the edge it comes from.
pub open spec fn fresh_event<P>(n: int, point: P, left: bool, other_event: Option<SweepEventId>, from: SweepEvent<P>) -> SweepEvent<P> {
    SweepEvent {
        id: id_of(n),
        point,
        left,
        other_event,
        is_subject: from.is_subject,
        edge_type: EdgeType::Normal,
        in_out: false,
        other_in_out: false,
        prev_in_result: None,
        result_transition: ResultTransitionType::NotInResult,
        other_pos: -1i64,
        contour_id: from.contour_id,
        output_contour_id: -1i64,
        is_exterior_ring: true,
    }
}

/// `a` with the two events of a split of the edge of `se` at `p` appended:
/// first the right end of the part that keeps `se` (numbered `a.len()`),
/// then the left end of the part that keeps `se`'s other event.
pub open spec fn split_events<P>(a: Seq<SweepEvent<P>>, se: SweepEventId, p: P) -> Seq<SweepEvent<P>> {
    let e = a[pos(se.0)];
    let n = slen(a);
    a.push(fresh_event(n, p, false, Some(e.id), e)).push(fresh_event(n + 1, p, true, e.other_event, e))
}

/// `a` once the edge of `se` is split at `p`: the new events are appended;
/// when `flip`, the other event of `se` becomes the left end of its part and
/// the new event beside it the right end; then `se` and its other event are
/// linked to the new events.
#[verifier::opaque]
pub open spec fn divided<P>(a: Seq<SweepEvent<P>>, se: SweepEventId, p: P, flip: bool) -> Seq<SweepEvent<P>> {
    let o = a[pos(se.0)].other_event.unwrap();
    let n = slen(a);
    let m = split_events(a, se, p);
    let m2 = if flip {
        let m1 = m.update(pos(o.0), SweepEvent { left: true, ..m[pos(o.0)] });
        m1.update(n + 1, SweepEvent { left: false, ..m1[n + 1] })
    } else {
        m
    };
    let m3 = m2.update(pos(o.0), SweepEvent { other_event: Some(id_of(n + 1)), ..m2[pos(o.0)] });
    m3.update(pos(se.0), SweepEvent { other_event: Some(id_of(n)), ..m3[pos(se.0)] })
}

/// Whether the split of the edge of `se` at `p` swaps roles, when the
/// comparator answers as `g`: the new left event comes after `se`'s other
/// event.
pub open spec fn flip_of<P>(
    a: Seq<SweepEvent<P>>,
    se: SweepEventId,
    p: P,
    g: spec_fn(Seq<SweepEvent<P>>, SweepEventId, SweepEventId) -> Ordering,
) -> bool {
    g(split_events(a, se, p), id_of(slen(a) + 1), a[pos(se.0)].other_event.unwrap()) == Ordering::Greater
}

/// `a` once the edge of `se` is split at `p`, with the comparator answering
/// as `g`.
pub open spec fn divided_by<P>(
    a: Seq<SweepEvent<P>>,
    se: SweepEventId,
    p: P,
    g: spec_fn(Seq<SweepEvent<P>>, SweepEventId, SweepEventId) -> Ordering,
) -> Seq<SweepEvent<P>> {
    divided(a, se, p, flip_of(a, se, p, g))
}

/// Event `i` of `a` is numbered `i`.
pub open spec fn numbered<P>(a: Seq<SweepEvent<P>>) -> bool {
    forall|i: int| 0 <= i < a.len() ==> (#[trigger] a[i]).id == id_of(i)
}

/// Every event of `a` has an other event, inside `a`.
pub open spec fn paired<P>(a: Seq<SweepEvent<P>>) -> bool {
    forall|i: int|
        0 <= i < a.len() ==> (#[trigger] a[i]).other_event is Some && a[i].other_event.unwrap().0 < a.len()
}

/// Splitting an edge keeps its polygon and its contour: both events it
/// appends, like every event already there, belong to the polygon (subject
/// or clipping) and the contour of the edge that was split.
pub proof fn law_split_keeps_polygon<P>(a: Seq<SweepEvent<P>>, se: SweepEventId, p: P, flip: bool)
    requires
        se.0 < a.len(),
        a[pos(se.0)].other_event matches Some(o) && o.0 < a.len(),
    ensures
        divided(a, se, p, flip).len() == a.len() + 2,
        divided(a, se, p, flip)[slen(a)].is_subject == a[pos(se.0)].is_subject,
        divided(a, se, p, flip)[slen(a) + 1].is_subject == a[pos(se.0)].is_subject,
        divided(a, se, p, flip)[slen(a)].contour_id == a[pos(se.0)].contour_id,
        divided(a, se, p, flip)[slen(a) + 1].contour_id == a[pos(se.0)].contour_id,
        forall|i: int|
            0 <= i < a.len() ==> (#[trigger] divided(a, se, p, flip)[i]).is_subject == a[i].is_subject
                && divided(a, se, p, flip)[i].contour_id == a[i].contour_id,
{
    reveal(divided);
}

/// A split appends two events at `p` and changes no point; it keeps every
/// event paired and numbered.  The first new event is the right end of the
/// part that keeps `se`, the second the left end (unless the roles swap) of
/// the part that keeps `se`'s other event, and the old ends link to them.
pub proof fn lemma_divided<P>(a: Seq<SweepEvent<P>>, se: SweepEventId, p: P, flip: bool)
    requires
        paired(a),
        numbered(a),
        se.0 < a.len(),
        a.len() + 2 <= usize::MAX,
    ensures
        divided(a, se, p, flip).len() == a.len() + 2,
        paired(divided(a, se, p, flip)),
        numbered(divided(a, se, p, flip)),
        forall|i: int| 0 <= i < a.len() ==> (#[trigger] divided(a, se, p, flip)[i]).point == a[i].point,
        divided(a, se, p, flip)[slen(a)].point == p,
        divided(a, se, p, flip)[slen(a) + 1].point == p,
        !divided(a, se, p, flip)[slen(a)].left,
        divided(a, se, p, flip)[slen(a)].other_event == Some(se),
        divided(a, se, p, flip)[slen(a) + 1].left == !flip,
        divided(a, se, p, flip)[slen(a) + 1].other_event == a[pos(se.0)].other_event,
        a[pos(se.0)].other_event != Some(se) ==> {
            &&& divided(a, se, p, flip)[pos(se.0)].other_event == Some(id_of(slen(a)))
            &&& divided(a, se, p, flip)[pos(a[pos(se.0)].other_event.unwrap().0)].other_event == Some(
                id_of(slen(a) + 1),
            )
        },
{
    reveal(divided);
    let d = divided(a, se, p, flip);
    assert(a[pos(se.0)].other_event is Some);
    assert forall|i: int| 0 <= i < d.len() implies (#[trigger] d[i]).other_event is Some && d[i].other_event.unwrap().0 < d.len() by {
        if i < a.len() {
            assert(a[i].other_event is Some);
        }
    }
    assert forall|i: int| 0 <= i < d.len() implies (#[trigger] d[i]).id == id_of(i) by {
        if i < a.len() {
            assert(a[i].id == id_of(i));
        }
    }
}

/// The identifiers of the events numbered `lo` up to `hi` (exclusive).
pub open spec fn new_ids(lo: int, hi: int) -> Multiset<SweepEventId>
    decreases hi - lo,
{
    if hi <= lo {
        Multiset::empty()
    } else {
        new_ids(lo, hi - 1).insert(id_of(hi - 1))
    }
}

/// After a split, the queue holds besides what it held before the events
/// numbered from `lo` on, the two new ones included.
pub proof fn lemma_new_ids_step(q0: Multiset<SweepEventId>, q: Multiset<SweepEventId>, lo: int, n: int)
    requires
        lo <= n,
        q == q0.add(new_ids(lo, n)),
    ensures
        q.insert(id_of(n + 1)).insert(id_of(n)) == q0.add(new_ids(lo, n + 2)),
{
    assert(new_ids(lo, n + 1) == new_ids(lo, n).insert(id_of(n)));
    assert(new_ids(lo, n + 2) == new_ids(lo, n + 1).insert(id_of(n + 1)));
    assert(q.insert(id_of(n + 1)).insert(id_of(n)) =~= q0.add(new_ids(lo, n + 2)));
}

/// What a split leaves of `a`, whichever way it went: two events more, all
/// paired and numbered, and the points of the events of `a` unchanged.
pub proof fn lemma_after_divide<P>(a: Seq<SweepEvent<P>>, after: Seq<SweepEvent<P>>, se: SweepEventId, p: P)
    requires
        paired(a),
        numbered(a),
        se.0 < a.len(),
        a.len() + 2 <= usize::MAX,
        exists|flip: bool| #[trigger] divided(a, se, p, flip) == after,
    ensures
        after.len() == a.len() + 2,
        paired(after),
        numbered(after),
        forall|i: int| 0 <= i < a.len() ==> (#[trigger] after[i]).point == a[i].point,
{
    let flip = choose|flip: bool| #[trigger] divided(a, se, p, flip) == after;
    lemma_divided(a, se, p, flip);
}

/// From `a0` and `q0` to `a` and `q`, events were only added: all events
/// are paired and numbered, the points of the events of `a0` are unchanged,
/// and the queue gained exactly the added events.
pub open spec fn grown<P>(
    a0: Seq<SweepEvent<P>>,
    a: Seq<SweepEvent<P>>,
    q0: Multiset<SweepEventId>,
    q: Multiset<SweepEventId>,
) -> bool {
    &&& paired(a)
    &&& numbered(a)
    &&& a0.len() <= a.len()
    &&& forall|i: int| 0 <= i < a0.len() ==> (#[trigger] a[i]).point == a0[i].point
    &&& q == q0.add(new_ids(slen(a0), slen(a)))
}

/// The identifiers from `lo` to `mid` and from `mid` to `hi` together are
/// those from `lo` to `hi`.
pub proof fn lemma_new_ids_join(lo: int, mid: int, hi: int)
    requires
        lo <= mid <= hi,
    ensures
        new_ids(lo, mid).add(new_ids(mid, hi)) == new_ids(lo, hi),
    decreases hi - mid,
{
    if hi == mid {
        assert(new_ids(lo, mid).add(new_ids(mid, hi)) =~= new_ids(lo, hi));
    } else {
        lemma_new_ids_join(lo, mid, hi - 1);
        assert(new_ids(lo, mid).add(new_ids(mid, hi)) =~= new_ids(lo, hi));
    }
}

/// The identifiers from `lo` to `hi` lie between them.
pub proof fn lemma_new_ids_bounds(lo: int, hi: int, x: SweepEventId)
    requires
        0 <= lo,
        hi <= usize::MAX + 1,
        new_ids(lo, hi).contains(x),
    ensures
        lo <= x.0 < hi,
    decreases hi - lo,
{
    if hi > lo && x != id_of(hi - 1) {
        assert(new_ids(lo, hi - 1).contains(x));
        lemma_new_ids_bounds(lo, hi - 1, x);
    }
}

/// There are `hi - lo` identifiers from `lo` to `hi`.
pub proof fn lemma_new_ids_len(lo: int, hi: int)
    requires
        lo <= hi,
    ensures
        new_ids(lo, hi).len() == hi - lo,
    decreases hi - lo,
{
    if hi > lo {
        lemma_new_ids_len(lo, hi - 1);
    }
}

/// Two stretches of growth make one.
pub proof fn lemma_grown_trans<P>(
    a0: Seq<SweepEvent<P>>,
    a1: Seq<SweepEvent<P>>,
    a2: Seq<SweepEvent<P>>,
    q0: Multiset<SweepEventId>,
    q1: Multiset<SweepEventId>,
    q2: Multiset<SweepEventId>,
)
    requires
        grown(a0, a1, q0, q1),
        grown(a1, a2, q1, q2),
    ensures
        grown(a0, a2, q0, q2),
        q2.len() == q0.len() + a2.len() - a0.len(),
{
    lemma_new_ids_len(slen(a0), slen(a2));
    lemma_new_ids_join(slen(a0), slen(a1), slen(a2));
    assert(q2 =~= q0.add(new_ids(slen(a0), slen(a2))));
    assert forall|i: int| 0 <= i < a0.len() implies (#[trigger] a2[i]).point == a0[i].point by {
        assert(a1[i].point == a0[i].point);
    }
}

/// Nothing added yet.
pub proof fn lemma_grown_start<P>(a: Seq<SweepEvent<P>>, q: Multiset<SweepEventId>)
    requires
        paired(a),
        numbered(a),
    ensures
        grown(a, a, q, q),
{
    assert(new_ids(slen(a), slen(a)) =~= Multiset::empty());
    assert(q =~= q.add(new_ids(slen(a), slen(a))));
}

/// A split keeps events only added.
pub proof fn lemma_grown_divide<P>(
    a0: Seq<SweepEvent<P>>,
    a1: Seq<SweepEvent<P>>,
    a2: Seq<SweepEvent<P>>,
    q0: Multiset<SweepEventId>,
    q1: Multiset<SweepEventId>,
    q2: Multiset<SweepEventId>,
    se: SweepEventId,
    p: P,
)
    requires
        grown(a0, a1, q0, q1),
        se.0 < a1.len(),
        a1.len() + 2 <= usize::MAX,
        exists|flip: bool| #[trigger] divided(a1, se, p, flip) == a2,
        q2 == q1.insert(id_of(slen(a1) + 1)).insert(id_of(slen(a1))),
    ensures
        grown(a0, a2, q0, q2),
        a2.len() == a1.len() + 2,
{
    lemma_after_divide(a1, a2, se, p);
    lemma_new_ids_step(q0, q1, slen(a0), slen(a1));
}

/// `cmp_events` may answer `r` about events `x` and `y` of arena `a`.
pub open spec fn events_answer<P, C: Fn(&SweepEventArena<P>, &SweepEventId, &SweepEventId) -> Ordering>(
    cmp_events: C,
    a: SweepEventArena<P>,
    x: SweepEventId,
    y: SweepEventId,
    r: Ordering,
) -> bool {
    call_ensures(cmp_events, (&a, &x, &y), r)
}

/// The order of the events of arena `a` that a comparator answering as `g`
/// gives.
pub open spec fn event_order<P>(
    a: Seq<SweepEvent<P>>,
    g: spec_fn(Seq<SweepEvent<P>>, SweepEventId, SweepEventId) -> Ordering,
) -> spec_fn(SweepEventId, SweepEventId) -> Ordering {
    |x: SweepEventId, y: SweepEventId| g(a, x, y)
}

/// Adds event `id` to the queue, ordered by `cmp_events` on `arena`.
pub fn push_event<P, C: Fn(&SweepEventArena<P>, &SweepEventId, &SweepEventId) -> Ordering + Copy>(
    queue: &mut MinHeapByCompareEvents,
    id: SweepEventId,
    arena: &SweepEventArena<P>,
    cmp_events: C,
)
    requires
        events_comparator(cmp_events),
        old(queue)@.len() < usize::MAX,
    ensures
        final(queue)@ == old(queue)@.insert(id),
        forall|g: spec_fn(Seq<SweepEvent<P>>, SweepEventId, SweepEventId) -> Ordering|
            #[trigger] events_answered_as(cmp_events, g) && is_total_order(event_order(arena.0@, g)) && old(
                queue,
            ).ordered_by(event_order(arena.0@, g)) ==> final(queue).ordered_by(event_order(arena.0@, g)),
{
    let f = |x: &SweepEventId, y: &SweepEventId| -> (r: Ordering)
        requires
            events_comparator(cmp_events),
        ensures
            events_answer(cmp_events, *arena, *x, *y, r),
        { cmp_events(arena, x, y) };
    proof {
        assert forall|g: spec_fn(Seq<SweepEvent<P>>, SweepEventId, SweepEventId) -> Ordering|
            #[trigger] events_answered_as(cmp_events, g) implies agrees(f, event_order(arena.0@, g)) by {
            assert forall|x: SweepEventId, y: SweepEventId, r: Ordering| #[trigger] call_ensures(f, (&x, &y), r) implies r
                == event_order(arena.0@, g)(x, y) by {
                assert(events_answer(cmp_events, *arena, x, y, r));
            }
        }
    }
    queue.push(id, f);
    proof {
        assert forall|g: spec_fn(Seq<SweepEvent<P>>, SweepEventId, SweepEventId) -> Ordering|
            #[trigger] events_answered_as(cmp_events, g) && is_total_order(event_order(arena.0@, g)) && old(
                queue,
            ).ordered_by(event_order(arena.0@, g)) implies queue.ordered_by(event_order(arena.0@, g)) by {
            assert(orders(f, event_order(arena.0@, g)));
        }
    }
}

/// Splits the edge of `se` at `p`: two events at `p` are appended to the
/// arena (the right end of `se`'s part, then the left end of the part of
/// `se`'s other event) and both are pushed on the queue.  When `cmp_events`
/// puts the new left event after `se`'s other event, the two swap roles, so
/// that no left end is processed after its right end.
pub fn divide_segment<P: Copy, C: Fn(&SweepEventArena<P>, &SweepEventId, &SweepEventId) -> Ordering + Copy>(
    se: SweepEventId,
    p: P,
    queue: &mut MinHeapByCompareEvents,
    arena: &mut SweepEventArena<P>,
    cmp_events: C,
)
    requires
        se.0 < old(arena).0@.len(),
        old(arena).0@[pos(se.0)].other_event matches Some(o) && o.0 < old(arena).0@.len(),
        old(arena).0@.len() + 2 <= usize::MAX,
        old(queue)@.len() + 2 < usize::MAX,
        events_comparator(cmp_events),
    ensures
        exists|flip: bool| #[trigger] divided(old(arena).0@, se, p, flip) == final(arena).0@,
        forall|g: spec_fn(Seq<SweepEvent<P>>, SweepEventId, SweepEventId) -> Ordering|
            #[trigger] events_answered_as(cmp_events, g) ==> final(arena).0@ == divided_by(
                old(arena).0@,
                se,
                p,
                g,
            ),
        final(queue)@ == old(queue)@.insert(id_of(slen(old(arena).0@) + 1)).insert(id_of(slen(old(arena).0@))),
{
    let e = arena.0[se.0];
    let other = e.other_event.unwrap();
    let (_, r_id) = SweepEvent::new(p, false, Some(e.id), e.is_subject, None, arena);
    let (_, l_id) = SweepEvent::new(p, true, e.other_event, e.is_subject, None, arena);
    arena.0[r_id.0].contour_id = e.contour_id;
    arena.0[l_id.0].contour_id = e.contour_id;
    let ghost mid = arena.0@;
    proof {
        assert(mid =~= split_events(old(arena).0@, se, p));
    }
    let answer = cmp_events(arena, &l_id, &other);
    let flip = match answer {
        Ordering::Greater => true,
        _ => false,
    };
    if flip {
        arena.0[other.0].left = true;
        arena.0[l_id.0].left = false;
    }
    arena.0[other.0].other_event = Some(l_id);
    arena.0[se.0].other_event = Some(r_id);
    proof {
        assert(arena.0@ == divided(old(arena).0@, se, p, flip)) by {
            reveal(divided);
            assert(arena.0@ =~= divided(old(arena).0@, se, p, flip));
        }
        assert forall|g: spec_fn(Seq<SweepEvent<P>>, SweepEventId, SweepEventId) -> Ordering|
            #[trigger] events_answered_as(cmp_events, g) implies flip == flip_of(old(arena).0@, se, p, g) by {
            assert(answer == g(mid, l_id, other));
        }
    }
    push_event(queue, l_id, arena, cmp_events);
    push_event(queue, r_id, arena, cmp_events);
}

} // verus!
