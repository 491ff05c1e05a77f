//! The sweep: events are taken from the queue in order; a left event puts
//! its edge on the sweep line, takes its fields from the edge below, and is
//! checked against its new neighbours; a right event takes its edge off the
//! line and checks the two edges that become neighbours.
use core::cmp::Ordering;
use vstd::multiset::Multiset;
use vstd::prelude::*;

use crate::compute_fields::{compute_fields, computed_fields};
use crate::divide_segment::{
    events_answered_as, events_comparator, grown, lemma_grown_start, lemma_grown_trans, lemma_new_ids_bounds,
    lemma_new_ids_join, lemma_new_ids_len, new_ids, numbered, paired,
};
use crate::min_heap::MinHeapByCompareEvents;
use crate::operation::Operation;
use crate::possible_intersection::{
    after_meeting, meeting_kind, partner, point_of, point_test, points_answered_as, points_of, possible_intersection,
};
use crate::sweep_event::{id_of, SweepEvent, SweepEventArena, SweepEventId};
use crate::order::{agrees, equivalent, is_total_order, orders, precedes, sorted_by};
use crate::splay_tree::insert_pos;
use crate::tree_by_compare_segments::TreeByCompareSegments;
use crate::vec_ops::{pos, slen};

verus! {

broadcast use vstd::seq_lib::group_to_multiset_ensures;

/// `past_bound` can be asked about any point.
pub open spec fn bound_test<P, B: Fn(&P) -> bool>(past_bound: B) -> bool {
    forall|p: P| #[trigger] call_requires(past_bound, (&p,))
}

/// Every answer that `past_bound` gives about `p` is `h(p)`.
pub open spec fn bound_answered_as<P, B: Fn(&P) -> bool>(past_bound: B, h: spec_fn(P) -> bool) -> bool {
    forall|p: P, r: bool| #[trigger] call_ensures(past_bound, (&p,), r) ==> r == h(p)
}

/// `intersect` can be asked about any two segments.
pub open spec fn intersection_test<P, I: Fn(&P, &P, &P, &P) -> Option<Vec<P>>>(intersect: I) -> bool {
    forall|a: P, b: P, c: P, d: P| #[trigger] call_requires(intersect, (&a, &b, &c, &d))
}

/// `cmp_segments` may answer `r` about `x` and `y` in arena `a`.
pub open spec fn segments_answer<P, S: Fn(&SweepEventArena<P>, &SweepEventId, &SweepEventId) -> Ordering>(
    cmp_segments: S,
    a: SweepEventArena<P>,
    x: SweepEventId,
    y: SweepEventId,
    r: Ordering,
) -> bool {
    call_ensures(cmp_segments, (&a, &x, &y), r)
}

/// The sweep line holds events of `a`, all of them paired and numbered.
pub open spec fn sweep_state<P>(a: Seq<SweepEvent<P>>, line: TreeByCompareSegments) -> bool {
    &&& line.wf()
    &&& paired(a)
    &&& numbered(a)
    &&& forall|i: int| 0 <= i < line@.len() ==> (#[trigger] line@[i]).0 < a.len()
}

/// The sweep may stop early on these operations: nothing of the result lies
/// beyond the bound.
pub open spec fn stops_early(operation: Operation) -> bool {
    operation == Operation::Intersection || operation == Operation::Difference
}

/// What `intersect` may answer for the edges of `se1` and `se2` in `a`.
pub open spec fn meets_as<P, I: Fn(&P, &P, &P, &P) -> Option<Vec<P>>>(
    intersect: I,
    a: Seq<SweepEvent<P>>,
    se1: SweepEventId,
    se2: SweepEventId,
    r: Option<Vec<P>>,
) -> bool {
    call_ensures(
        intersect,
        (&point_of(a, se1), &point_of(a, partner(a, se1)), &point_of(a, se2), &point_of(a, partner(a, se2))),
        r,
    )
}

/// Whether the edge `below`, if any, is vertical, with `fv` telling it from
/// its two ends.
pub open spec fn vertical_below<P>(a: Seq<SweepEvent<P>>, below: Option<SweepEventId>, fv: spec_fn(P, P) -> bool) -> bool {
    match below {
        Some(b) => fv(point_of(a, b), point_of(a, partner(a, b))),
        None => false,
    }
}

/// `a` once the fields of `e` are filled in from the edge `below`.
pub open spec fn filled<P>(
    a: Seq<SweepEvent<P>>,
    e: SweepEventId,
    below: Option<SweepEventId>,
    operation: Operation,
    fv: spec_fn(P, P) -> bool,
) -> Seq<SweepEvent<P>> {
    a.update(pos(e.0), computed_fields(a, e, below, vertical_below(a, below, fv), operation))
}

/// `a` once a left event `e`, with `prev` below it, is checked against the
/// edge `next` above it, whose meeting points are `inter`: where an overlap
/// from a shared left end is marked, both fields are filled in again.
pub open spec fn after_check_above<P>(
    a: Seq<SweepEvent<P>>,
    e: SweepEventId,
    prev: Option<SweepEventId>,
    next: SweepEventId,
    inter: Option<Vec<P>>,
    operation: Operation,
    f: spec_fn(P, P) -> bool,
    g: spec_fn(Seq<SweepEvent<P>>, SweepEventId, SweepEventId) -> Ordering,
    fv: spec_fn(P, P) -> bool,
) -> Seq<SweepEvent<P>> {
    let b = after_meeting(a, e, next, points_of(inter), f, g);
    if meeting_kind(a, e, next, points_of(inter), f) == 2 {
        filled(filled(b, e, prev, operation, fv), next, Some(e), operation, fv)
    } else {
        b
    }
}

/// `a` once a left event `e` is checked against the edge `prev` below it,
/// with `prevprev` below that, whose meeting points are `inter`.
pub open spec fn after_check_below<P>(
    a: Seq<SweepEvent<P>>,
    e: SweepEventId,
    prev: SweepEventId,
    prevprev: Option<SweepEventId>,
    inter: Option<Vec<P>>,
    operation: Operation,
    f: spec_fn(P, P) -> bool,
    g: spec_fn(Seq<SweepEvent<P>>, SweepEventId, SweepEventId) -> Ordering,
    fv: spec_fn(P, P) -> bool,
) -> Seq<SweepEvent<P>> {
    let b = after_meeting(a, prev, e, points_of(inter), f, g);
    if meeting_kind(a, prev, e, points_of(inter), f) == 2 {
        filled(filled(b, prev, prevprev, operation, fv), e, Some(prev), operation, fv)
    } else {
        b
    }
}

/// The item at position `j` of `l`, if there is one.
pub open spec fn item_at(l: Seq<SweepEventId>, j: int) -> Option<SweepEventId> {
    if 0 <= j < l.len() {
        Some(l[j])
    } else {
        None
    }
}

/// The order of segments in arena `a` that the comparator answering as
/// `gs` gives.
pub open spec fn segment_order<P>(
    a: Seq<SweepEvent<P>>,
    gs: spec_fn(Seq<SweepEvent<P>>, SweepEventId, SweepEventId) -> Ordering,
) -> spec_fn(SweepEventId, SweepEventId) -> Ordering {
    |x: SweepEventId, y: SweepEventId| gs(a, x, y)
}

/// Filling in an event's fields changes no point, partner or number.
proof fn lemma_fields_kept<P>(
    a: Seq<SweepEvent<P>>,
    event: SweepEventId,
    prev: Option<SweepEventId>,
    prev_is_vertical: bool,
    operation: Operation,
    q: Multiset<SweepEventId>,
)
    requires
        paired(a),
        numbered(a),
        event.0 < a.len(),
        prev matches Some(p) ==> p.0 < a.len(),
    ensures
        grown(a, a.update(pos(event.0), computed_fields(a, event, prev, prev_is_vertical, operation)), q, q),
{
    let b = a.update(pos(event.0), computed_fields(a, event, prev, prev_is_vertical, operation));
    lemma_grown_start(a, q);
    assert forall|i: int| 0 <= i < b.len() implies (#[trigger] b[i]).other_event is Some && b[i].other_event.unwrap().0
        < b.len() by {
        assert(a[i].other_event is Some);
    }
    assert forall|i: int| 0 <= i < b.len() implies (#[trigger] b[i]).id == id_of(i) by {
        assert(a[i].id == id_of(i));
    }
    assert forall|i: int| 0 <= i < a.len() implies (#[trigger] b[i]).point == a[i].point by {}
}

/// Fills in the fields of `event` from the edge `prev` right below it, if
/// any, telling `compute_fields` whether that edge is vertical.
fn fields_from_below<P: Copy, V: Fn(&P, &P) -> bool + Copy>(
    event: SweepEventId,
    prev: Option<SweepEventId>,
    operation: Operation,
    arena: &mut SweepEventArena<P>,
    is_vertical: V,
)
    requires
        paired(old(arena).0@),
        numbered(old(arena).0@),
        event.0 < old(arena).0@.len(),
        prev matches Some(p) ==> p.0 < old(arena).0@.len(),
        point_test(is_vertical),
    ensures
        exists|v: bool|
            #![trigger computed_fields(old(arena).0@, event, prev, v, operation)]
            final(arena).0@ == old(arena).0@.update(pos(event.0), computed_fields(old(arena).0@, event, prev, v, operation)),
        forall|q: Multiset<SweepEventId>| grown(old(arena).0@, final(arena).0@, q, q),
        final(arena).0@.len() == old(arena).0@.len(),
        forall|fv: spec_fn(P, P) -> bool|
            #[trigger] points_answered_as(is_vertical, fv) ==> final(arena).0@ == filled(
                old(arena).0@,
                event,
                prev,
                operation,
                fv,
            ),
{
    let prev_is_vertical = match prev {
        Some(p) => {
            let e = arena.0[p.0];
            proof {
                assert(old(arena).0@[pos(p.0)].other_event is Some);
            }
            let o = e.other_event.unwrap();
            is_vertical(&e.point, &arena.0[o.0].point)
        },
        None => false,
    };
    let ghost a = arena.0@;
    compute_fields(event, prev, prev_is_vertical, operation, arena);
    proof {
        assert forall|fv: spec_fn(P, P) -> bool| #[trigger] points_answered_as(is_vertical, fv) implies prev_is_vertical
            == vertical_below(a, prev, fv) by {}
        assert forall|q: Multiset<SweepEventId>| grown(a, arena.0@, q, q) by {
            lemma_fields_kept(a, event, prev, prev_is_vertical, operation, q);
        }
    }
}

/// Where the edges of `se1` and `se2` meet, as `intersect` finds it.
fn meeting_points<P: Copy, I: Fn(&P, &P, &P, &P) -> Option<Vec<P>> + Copy>(
    se1: SweepEventId,
    se2: SweepEventId,
    arena: &SweepEventArena<P>,
    intersect: I,
) -> (r: Option<Vec<P>>)
    requires
        paired(arena.0@),
        se1.0 < arena.0@.len(),
        se2.0 < arena.0@.len(),
        intersection_test(intersect),
    ensures
        meets_as(intersect, arena.0@, se1, se2, r),
{
    proof {
        assert(arena.0@[pos(se1.0)].other_event is Some);
        assert(arena.0@[pos(se2.0)].other_event is Some);
    }
    let e1 = &arena.0[se1.0];
    let e2 = &arena.0[se2.0];
    let o1 = e1.other_event.unwrap();
    let o2 = e2.other_event.unwrap();
    intersect(&e1.point, &arena.0[o1.0].point, &e2.point, &arena.0[o2.0].point)
}

/// Checks the left event `event`, with `below` under it, against the edge
/// of `other` right above it; where an overlap from a shared left end is
/// marked, the fields of both are filled in again.  Gives the meeting
/// points that were used.
fn check_above<
    P: Copy,
    C: Fn(&SweepEventArena<P>, &SweepEventId, &SweepEventId) -> Ordering + Copy,
    I: Fn(&P, &P, &P, &P) -> Option<Vec<P>> + Copy,
    V: Fn(&P, &P) -> bool + Copy,
    E: Fn(&P, &P) -> bool + Copy,
>(
    event: SweepEventId,
    below: Option<SweepEventId>,
    other: SweepEventId,
    operation: Operation,
    queue: &mut MinHeapByCompareEvents,
    arena: &mut SweepEventArena<P>,
    cmp_events: C,
    intersect: I,
    is_vertical: V,
    same_point: E,
) -> (inter: Ghost<Option<Vec<P>>>)
    requires
        paired(old(arena).0@),
        numbered(old(arena).0@),
        event.0 < old(arena).0@.len(),
        other.0 < old(arena).0@.len(),
        below matches Some(b) ==> b.0 < old(arena).0@.len(),
        old(arena).0@.len() + 4 <= usize::MAX,
        old(queue)@.len() + 4 < usize::MAX,
        events_comparator(cmp_events),
        intersection_test(intersect),
        point_test(is_vertical),
        point_test(same_point),
    ensures
        meets_as(intersect, old(arena).0@, event, other, inter@),
        forall|f: spec_fn(P, P) -> bool, g: spec_fn(Seq<SweepEvent<P>>, SweepEventId, SweepEventId) -> Ordering, fv: spec_fn(P, P) -> bool|
            #[trigger] points_answered_as(same_point, f) && #[trigger] events_answered_as(cmp_events, g)
                && #[trigger] points_answered_as(is_vertical, fv) ==> final(arena).0@ == after_check_above(old(arena).0@, event, below, other, inter@, operation, f, g, fv),
        grown(old(arena).0@, final(arena).0@, old(queue)@, final(queue)@),
        final(arena).0@.len() <= old(arena).0@.len() + 4,
{
    let ghost a0 = arena.0@;
    let ghost q0 = queue@;
    let inter = meeting_points(event, other, arena, intersect);
    let ghost gi = inter;
    let kind = possible_intersection(event, other, inter, queue, arena, same_point, cmp_events);
    let ghost a1 = arena.0@;
    let ghost q1 = queue@;
    if kind == 2 {
        fields_from_below(event, below, operation, arena, is_vertical);
        let ghost a2 = arena.0@;
        fields_from_below(other, Some(event), operation, arena, is_vertical);
        proof {
            lemma_grown_trans(a0, a1, a2, q0, q1, q1);
            lemma_grown_trans(a0, a2, arena.0@, q0, q1, q1);
        }
    }
    Ghost(gi)
}

/// Checks the left event `event` against the edge of `other` right below
/// it, with `below` under that; where an overlap from a shared left end is
/// marked, the fields of both are filled in again.  Gives the meeting points
/// that were used.
fn check_below<
    P: Copy,
    C: Fn(&SweepEventArena<P>, &SweepEventId, &SweepEventId) -> Ordering + Copy,
    I: Fn(&P, &P, &P, &P) -> Option<Vec<P>> + Copy,
    V: Fn(&P, &P) -> bool + Copy,
    E: Fn(&P, &P) -> bool + Copy,
>(
    event: SweepEventId,
    other: SweepEventId,
    below: Option<SweepEventId>,
    operation: Operation,
    queue: &mut MinHeapByCompareEvents,
    arena: &mut SweepEventArena<P>,
    cmp_events: C,
    intersect: I,
    is_vertical: V,
    same_point: E,
) -> (inter: Ghost<Option<Vec<P>>>)
    requires
        paired(old(arena).0@),
        numbered(old(arena).0@),
        event.0 < old(arena).0@.len(),
        other.0 < old(arena).0@.len(),
        below matches Some(b) ==> b.0 < old(arena).0@.len(),
        old(arena).0@.len() + 4 <= usize::MAX,
        old(queue)@.len() + 4 < usize::MAX,
        events_comparator(cmp_events),
        intersection_test(intersect),
        point_test(is_vertical),
        point_test(same_point),
    ensures
        meets_as(intersect, old(arena).0@, other, event, inter@),
        forall|f: spec_fn(P, P) -> bool, g: spec_fn(Seq<SweepEvent<P>>, SweepEventId, SweepEventId) -> Ordering, fv: spec_fn(P, P) -> bool|
            #[trigger] points_answered_as(same_point, f) && #[trigger] events_answered_as(cmp_events, g)
                && #[trigger] points_answered_as(is_vertical, fv) ==> final(arena).0@ == after_check_below(old(arena).0@, event, other, below, inter@, operation, f, g, fv),
        grown(old(arena).0@, final(arena).0@, old(queue)@, final(queue)@),
        final(arena).0@.len() <= old(arena).0@.len() + 4,
{
    let ghost a0 = arena.0@;
    let ghost q0 = queue@;
    let inter = meeting_points(other, event, arena, intersect);
    let ghost gi = inter;
    let kind = possible_intersection(other, event, inter, queue, arena, same_point, cmp_events);
    let ghost a1 = arena.0@;
    let ghost q1 = queue@;
    if kind == 2 {
        fields_from_below(other, below, operation, arena, is_vertical);
        let ghost a2 = arena.0@;
        fields_from_below(event, Some(other), operation, arena, is_vertical);
        proof {
            lemma_grown_trans(a0, a1, a2, q0, q1, q1);
            lemma_grown_trans(a0, a2, arena.0@, q0, q1, q1);
        }
    }
    Ghost(gi)
}

/// `l` is `l0` with `e` inserted at `k` (the node `id` at that place of the
/// node order), where the segment order puts it when `l0` is sorted by a
/// total order.
pub open spec fn inserted_at<P, S: Fn(&SweepEventArena<P>, &SweepEventId, &SweepEventId) -> Ordering>(
    l0: Seq<SweepEventId>,
    l: Seq<SweepEventId>,
    order: Seq<usize>,
    order0: Seq<usize>,
    k: int,
    id: usize,
    e: SweepEventId,
    a0: Seq<SweepEvent<P>>,
    cmp_segments: S,
) -> bool {
    &&& 0 <= k <= l0.len()
    &&& l == l0.insert(k, e)
    &&& order == order0.insert(k, id)
    &&& forall|gs: spec_fn(Seq<SweepEvent<P>>, SweepEventId, SweepEventId) -> Ordering|
        #[trigger] events_answered_as(cmp_segments, gs) && is_total_order(segment_order(a0, gs)) && sorted_by(
            l0,
            segment_order(a0, gs),
        ) ==> k == insert_pos(l0, segment_order(a0, gs), e)
}

/// One step of the sweep on a left event `e`: its edge goes into the sweep
/// line at position `k` (where the segment order puts it, when the line is
/// sorted by a total order), its fields are filled in from the edge below,
/// and it is checked against the edge above and then the edge below, whose
/// meeting points are `inter_above` and `inter_below`.
pub open spec fn left_step<
    P,
    C: Fn(&SweepEventArena<P>, &SweepEventId, &SweepEventId) -> Ordering,
    S: Fn(&SweepEventArena<P>, &SweepEventId, &SweepEventId) -> Ordering,
    I: Fn(&P, &P, &P, &P) -> Option<Vec<P>>,
    V: Fn(&P, &P) -> bool,
    E: Fn(&P, &P) -> bool,
>(
    a0: Seq<SweepEvent<P>>,
    l0: Seq<SweepEventId>,
    e: SweepEventId,
    a: Seq<SweepEvent<P>>,
    l: Seq<SweepEventId>,
    k: int,
    inter_above: Option<Vec<P>>,
    inter_below: Option<Vec<P>>,
    operation: Operation,
    cmp_events: C,
    cmp_segments: S,
    intersect: I,
    is_vertical: V,
    same_point: E,
) -> bool {
    let prev = item_at(l, k - 1);
    let next = item_at(l, k + 1);
    let prevprev = item_at(l, k - 2);
    &&& 0 <= k <= l0.len()
    &&& l == l0.insert(k, e)
    &&& forall|gs: spec_fn(Seq<SweepEvent<P>>, SweepEventId, SweepEventId) -> Ordering|
        #[trigger] events_answered_as(cmp_segments, gs) && is_total_order(segment_order(a0, gs)) && sorted_by(
            l0,
            segment_order(a0, gs),
        ) ==> k == insert_pos(l0, segment_order(a0, gs), e)
    &&& forall|f: spec_fn(P, P) -> bool, g: spec_fn(Seq<SweepEvent<P>>, SweepEventId, SweepEventId) -> Ordering, fv: spec_fn(P, P) -> bool|
        #[trigger] points_answered_as(same_point, f) && #[trigger] events_answered_as(cmp_events, g)
            && #[trigger] points_answered_as(is_vertical, fv) ==> {
            let a1 = filled(a0, e, prev, operation, fv);
            let a2 = match next {
                Some(n) => after_check_above(a1, e, prev, n, inter_above, operation, f, g, fv),
                None => a1,
            };
            &&& next matches Some(n) ==> meets_as(intersect, a1, e, n, inter_above)
            &&& prev matches Some(p) ==> meets_as(intersect, a2, p, e, inter_below)
            &&& a == match prev {
                Some(p) => after_check_below(a2, e, p, prevprev, inter_below, operation, f, g, fv),
                None => a2,
            }
        }
}

/// One step of the sweep on a right event `e`: the edge that the segment
/// order finds equal to `e`'s other event, at position `i` of the sweep
/// line, leaves it (`i < 0`: none is found, when the line is sorted by a
/// total order none is equal), and the two edges that become neighbours are
/// checked, with meeting points `inter`.
pub open spec fn right_step<
    P,
    C: Fn(&SweepEventArena<P>, &SweepEventId, &SweepEventId) -> Ordering,
    S: Fn(&SweepEventArena<P>, &SweepEventId, &SweepEventId) -> Ordering,
    I: Fn(&P, &P, &P, &P) -> Option<Vec<P>>,
    E: Fn(&P, &P) -> bool,
>(
    a0: Seq<SweepEvent<P>>,
    l0: Seq<SweepEventId>,
    e: SweepEventId,
    a: Seq<SweepEvent<P>>,
    l: Seq<SweepEventId>,
    i: int,
    inter: Option<Vec<P>>,
    cmp_events: C,
    cmp_segments: S,
    intersect: I,
    same_point: E,
) -> bool {
    let o = partner(a0, e);
    if i < 0 {
        &&& l == l0
        &&& a == a0
        &&& forall|gs: spec_fn(Seq<SweepEvent<P>>, SweepEventId, SweepEventId) -> Ordering|
            #[trigger] events_answered_as(cmp_segments, gs) && is_total_order(segment_order(a0, gs)) && sorted_by(
                l0,
                segment_order(a0, gs),
            ) ==> forall|j: int| 0 <= j < l0.len() ==> gs(a0, o, #[trigger] l0[j]) != Ordering::Equal
    } else {
        &&& i < l0.len()
        &&& l == l0.remove(i)
        &&& forall|gs: spec_fn(Seq<SweepEvent<P>>, SweepEventId, SweepEventId) -> Ordering| #[trigger] events_answered_as(cmp_segments, gs) ==> gs(a0, o, l0[i]) == Ordering::Equal
        &&& if 0 < i && i + 1 < l0.len() {
            &&& meets_as(intersect, a0, l0[i - 1], l0[i + 1], inter)
            &&& forall|f: spec_fn(P, P) -> bool, g: spec_fn(Seq<SweepEvent<P>>, SweepEventId, SweepEventId) -> Ordering|
                #[trigger] points_answered_as(same_point, f) && #[trigger] events_answered_as(cmp_events, g) ==> a
                    == after_meeting(a0, l0[i - 1], l0[i + 1], points_of(inter), f, g)
        } else {
            a == a0
        }
    }
}

/// Puts the edge of the left event `event` on the sweep line, fills in its
/// fields from the edge below, and checks it against its new neighbours;
/// where an overlap from a shared left endpoint was marked, the fields of
/// the two edges involved are filled in again.  Gives the position on the
/// line and the meeting points used.
fn handle_left_event<
    P: Copy,
    C: Fn(&SweepEventArena<P>, &SweepEventId, &SweepEventId) -> Ordering + Copy,
    S: Fn(&SweepEventArena<P>, &SweepEventId, &SweepEventId) -> Ordering + Copy,
    I: Fn(&P, &P, &P, &P) -> Option<Vec<P>> + Copy,
    V: Fn(&P, &P) -> bool + Copy,
    E: Fn(&P, &P) -> bool + Copy,
>(
    event: SweepEventId,
    operation: Operation,
    queue: &mut MinHeapByCompareEvents,
    arena: &mut SweepEventArena<P>,
    line: &mut TreeByCompareSegments,
    cmp_events: C,
    cmp_segments: S,
    intersect: I,
    is_vertical: V,
    same_point: E,
) -> (w: Ghost<(int, Option<Vec<P>>, Option<Vec<P>>)>)
    requires
        sweep_state(old(arena).0@, *old(line)),
        event.0 < old(arena).0@.len(),
        old(arena).0@.len() + 8 <= usize::MAX,
        old(queue)@.len() + 8 < usize::MAX,
        events_comparator(cmp_events),
        events_comparator(cmp_segments),
        intersection_test(intersect),
        point_test(is_vertical),
        point_test(same_point),
    ensures
        sweep_state(final(arena).0@, *final(line)),
        grown(old(arena).0@, final(arena).0@, old(queue)@, final(queue)@),
        final(arena).0@.len() <= old(arena).0@.len() + 8,
        left_step(
            old(arena).0@,
            old(line)@,
            event,
            final(arena).0@,
            final(line)@,
            w@.0,
            w@.1,
            w@.2,
            operation,
            cmp_events,
            cmp_segments,
            intersect,
            is_vertical,
            same_point,
        ),
{
    let ghost a0 = arena.0@;
    let ghost q0 = queue@;
    let ghost l0 = line@;
    let node = {
        let a: &SweepEventArena<P> = arena;
        let f = |x: &SweepEventId, y: &SweepEventId| -> (r: Ordering)
            requires
                events_comparator(cmp_segments),
            ensures
                segments_answer(cmp_segments, *a, *x, *y, r),
            { cmp_segments(a, x, y) };
        proof {
            assert forall|gs: spec_fn(Seq<SweepEvent<P>>, SweepEventId, SweepEventId) -> Ordering| #[trigger] events_answered_as(cmp_segments, gs) implies agrees(
                f,
                segment_order(a0, gs),
            ) by {
                assert forall|x: SweepEventId, y: SweepEventId, r: Ordering| #[trigger] call_ensures(f, (&x, &y), r) implies r
                    == segment_order(a0, gs)(x, y) by {
                    assert(segments_answer(cmp_segments, *a, x, y, r));
                }
            }
        }
        let r = line.insert(event, f);
        proof {
            let k = choose|k: int|
                #![trigger l0.insert(k, event)]
                0 <= k <= l0.len() && line@ == l0.insert(k, event) && line.order() == old(line).order().insert(k, r.id)
                    && forall|ord: spec_fn(SweepEventId, SweepEventId) -> Ordering|
                    #[trigger] orders(f, ord) && sorted_by(l0, ord) ==> k == insert_pos(l0, ord, event);
            assert forall|gs: spec_fn(Seq<SweepEvent<P>>, SweepEventId, SweepEventId) -> Ordering|
                #[trigger] events_answered_as(cmp_segments, gs) && is_total_order(segment_order(a0, gs)) && sorted_by(
                    l0,
                    segment_order(a0, gs),
                ) implies k == insert_pos(l0, segment_order(a0, gs), event) by {
                assert(orders(f, segment_order(a0, gs)));
            }
            assert(inserted_at(l0, line@, line.order(), old(line).order(), k, r.id, event, a0, cmp_segments));
        }
        r
    };
    let ghost k = choose|k: int| #[trigger] inserted_at(l0, line@, line.order(), old(line).order(), k, node.id, event, a0, cmp_segments);
    let ghost l1 = line@;
    proof {
        lemma_grown_start(a0, q0);
        assert(line.order()[k] == node.id);
        assert forall|i: int| 0 <= i < line@.len() implies (#[trigger] line@[i]).0 < a0.len() by {
            if i < k {
                assert(line@[i] == l0[i]);
            } else if i > k {
                assert(line@[i] == l0[i - 1]);
            }
        }
    }
    let prev = line.prev(&node);
    let next = line.next(&node);
    let prev_event: Option<SweepEventId> = match &prev {
        Some(n) => Some(n.value),
        None => None,
    };
    let next_event: Option<SweepEventId> = match &next {
        Some(n) => Some(n.value),
        None => None,
    };
    let pp_event: Option<SweepEventId> = match &prev {
        Some(pn) => match line.prev(pn) {
            Some(n) => Some(n.value),
            None => None,
        },
        None => None,
    };
    proof {
        assert(prev_event == item_at(l1, k - 1));
        assert(next_event == item_at(l1, k + 1));
        assert(pp_event == item_at(l1, k - 2));
    }
    fields_from_below(event, prev_event, operation, arena, is_vertical);
    let ghost a1 = arena.0@;
    proof {
        lemma_grown_trans(a0, a0, a1, q0, q0, queue@);
    }
    let ghost q1 = queue@;
    let ghost mut ia: Option<Vec<P>> = None;
    if let Some(ne) = next_event {
        let gi = check_above(event, prev_event, ne, operation, queue, arena, cmp_events, intersect, is_vertical, same_point);
        proof {
            ia = gi@;
            lemma_grown_trans(a0, a1, arena.0@, q0, q1, queue@);
        }
    }
    let ghost a2 = arena.0@;
    let ghost q2 = queue@;
    let ghost mut ib: Option<Vec<P>> = None;
    if let Some(pe) = prev_event {
        let gi = check_below(event, pe, pp_event, operation, queue, arena, cmp_events, intersect, is_vertical, same_point);
        proof {
            ib = gi@;
            lemma_grown_trans(a0, a2, arena.0@, q0, q2, queue@);
        }
    }
    proof {
        assert forall|f: spec_fn(P, P) -> bool, g: spec_fn(Seq<SweepEvent<P>>, SweepEventId, SweepEventId) -> Ordering, fv: spec_fn(P, P) -> bool|
            #[trigger] points_answered_as(same_point, f) && #[trigger] events_answered_as(cmp_events, g)
                && #[trigger] points_answered_as(is_vertical, fv) implies {
                let pa1 = filled(a0, event, prev_event, operation, fv);
                let pa2 = match next_event {
                    Some(n) => after_check_above(pa1, event, prev_event, n, ia, operation, f, g, fv),
                    None => pa1,
                };
                &&& next_event matches Some(n) ==> meets_as(intersect, pa1, event, n, ia)
                &&& prev_event matches Some(p) ==> meets_as(intersect, pa2, p, event, ib)
                &&& arena.0@ == match prev_event {
                    Some(p) => after_check_below(pa2, event, p, pp_event, ib, operation, f, g, fv),
                    None => pa2,
                }
            } by {
            assert(a1 == filled(a0, event, prev_event, operation, fv));
        }
    }
    Ghost((k, ia, ib))
}

/// Takes the edge of the right event `event` off the sweep line, if it is
/// found there, and checks the two edges that become neighbours.  Gives the
/// position the edge had on the line (negative when it was not found) and
/// the meeting points used.
fn handle_right_event<
    P: Copy,
    C: Fn(&SweepEventArena<P>, &SweepEventId, &SweepEventId) -> Ordering + Copy,
    S: Fn(&SweepEventArena<P>, &SweepEventId, &SweepEventId) -> Ordering + Copy,
    I: Fn(&P, &P, &P, &P) -> Option<Vec<P>> + Copy,
    E: Fn(&P, &P) -> bool + Copy,
>(
    event: SweepEventId,
    queue: &mut MinHeapByCompareEvents,
    arena: &mut SweepEventArena<P>,
    line: &mut TreeByCompareSegments,
    cmp_events: C,
    cmp_segments: S,
    intersect: I,
    same_point: E,
) -> (w: Ghost<(int, Option<Vec<P>>, Option<Vec<P>>)>)
    requires
        sweep_state(old(arena).0@, *old(line)),
        event.0 < old(arena).0@.len(),
        old(arena).0@.len() + 4 <= usize::MAX,
        old(queue)@.len() + 4 < usize::MAX,
        events_comparator(cmp_events),
        events_comparator(cmp_segments),
        intersection_test(intersect),
        point_test(same_point),
    ensures
        sweep_state(final(arena).0@, *final(line)),
        grown(old(arena).0@, final(arena).0@, old(queue)@, final(queue)@),
        final(arena).0@.len() <= old(arena).0@.len() + 4,
        right_step(
            old(arena).0@,
            old(line)@,
            event,
            final(arena).0@,
            final(line)@,
            w@.0,
            w@.1,
            cmp_events,
            cmp_segments,
            intersect,
            same_point,
        ),
{
    let ghost a0 = arena.0@;
    let ghost q0 = queue@;
    let ghost l0 = line@;
    proof {
        lemma_grown_start(a0, q0);
        assert(a0[pos(event.0)].other_event is Some);
    }
    let other = arena.0[event.0].other_event.unwrap();
    let found = {
        let a: &SweepEventArena<P> = arena;
        let f = |x: &SweepEventId, y: &SweepEventId| -> (r: Ordering)
            requires
                events_comparator(cmp_segments),
            ensures
                segments_answer(cmp_segments, *a, *x, *y, r),
            { cmp_segments(a, x, y) };
        proof {
            assert forall|gs: spec_fn(Seq<SweepEvent<P>>, SweepEventId, SweepEventId) -> Ordering| #[trigger] events_answered_as(cmp_segments, gs) implies agrees(
                f,
                segment_order(a0, gs),
            ) by {
                assert forall|x: SweepEventId, y: SweepEventId, r: Ordering| #[trigger] call_ensures(f, (&x, &y), r) implies r
                    == segment_order(a0, gs)(x, y) by {
                    assert(segments_answer(cmp_segments, *a, x, y, r));
                }
            }
        }
        let r = line.find(other, f);
        proof {
            if r is None {
                assert forall|gs: spec_fn(Seq<SweepEvent<P>>, SweepEventId, SweepEventId) -> Ordering|
                    #[trigger] events_answered_as(cmp_segments, gs) && is_total_order(segment_order(a0, gs)) && sorted_by(
                        l0,
                        segment_order(a0, gs),
                    ) implies forall|j: int| 0 <= j < l0.len() ==> gs(a0, other, #[trigger] l0[j]) != Ordering::Equal by {
                    assert(orders(f, segment_order(a0, gs)));
                    assert forall|j: int| 0 <= j < l0.len() implies gs(a0, other, #[trigger] l0[j]) != Ordering::Equal by {
                        assert(!equivalent(segment_order(a0, gs), other, l0[j]));
                    }
                }
            } else {
                let x = r.unwrap();
                assert forall|i: int| 0 <= i < old(line).order().len() && old(line).order()[i] == x.id implies forall|gs: spec_fn(Seq<SweepEvent<P>>, SweepEventId, SweepEventId) -> Ordering|
                    #[trigger] events_answered_as(cmp_segments, gs) ==> gs(a0, other, l0[i]) == Ordering::Equal by {
                    assert forall|gs: spec_fn(Seq<SweepEvent<P>>, SweepEventId, SweepEventId) -> Ordering| #[trigger] events_answered_as(cmp_segments, gs) implies gs(
                        a0,
                        other,
                        l0[i],
                    ) == Ordering::Equal by {
                        assert(agrees(f, segment_order(a0, gs)));
                        assert(equivalent(segment_order(a0, gs), other, l0[i]));
                    }
                }
            }
        }
        r
    };
    if let Some(node) = found {
        let ghost i = choose|i: int| 0 <= i < line.order().len() && line.order()[i] == node.id;
        let prev = line.prev(&node);
        let next = line.next(&node);
        let prev_event: Option<SweepEventId> = match &prev {
            Some(n) => Some(n.value),
            None => None,
        };
        let next_event: Option<SweepEventId> = match &next {
            Some(n) => Some(n.value),
            None => None,
        };
        line.remove(node);
        proof {
            assert(line@ == l0.remove(i));
            assert forall|j: int| 0 <= j < line@.len() implies (#[trigger] line@[j]).0 < a0.len() by {
                if j < i {
                    assert(line@[j] == l0[j]);
                } else {
                    assert(line@[j] == l0[j + 1]);
                }
            }
            assert(prev_event == item_at(l0, i - 1));
            assert(next_event == item_at(l0, i + 1));
        }
        let ghost mut gi: Option<Vec<P>> = None;
        if let (Some(pe), Some(ne)) = (prev_event, next_event) {
            let inter = meeting_points(pe, ne, arena, intersect);
            proof {
                gi = inter;
            }
            possible_intersection(pe, ne, inter, queue, arena, same_point, cmp_events);
        }
        return Ghost((i, gi, None));
    }
    Ghost((-1, None, None))
}

/// The handling of event `e` in arena `a0` with sweep line `l0`, giving
/// arena `a` and line `l`, with `w` the position on the line and the meeting
/// points used: a left or a right step, as `e` is a left or a right end.
pub open spec fn event_step<
    P,
    C: Fn(&SweepEventArena<P>, &SweepEventId, &SweepEventId) -> Ordering,
    S: Fn(&SweepEventArena<P>, &SweepEventId, &SweepEventId) -> Ordering,
    I: Fn(&P, &P, &P, &P) -> Option<Vec<P>>,
    V: Fn(&P, &P) -> bool,
    E: Fn(&P, &P) -> bool,
>(
    a0: Seq<SweepEvent<P>>,
    l0: Seq<SweepEventId>,
    e: SweepEventId,
    a: Seq<SweepEvent<P>>,
    l: Seq<SweepEventId>,
    w: (int, Option<Vec<P>>, Option<Vec<P>>),
    operation: Operation,
    cmp_events: C,
    cmp_segments: S,
    intersect: I,
    is_vertical: V,
    same_point: E,
) -> bool {
    if a0[pos(e.0)].left {
        left_step(a0, l0, e, a, l, w.0, w.1, w.2, operation, cmp_events, cmp_segments, intersect, is_vertical, same_point)
    } else {
        right_step(a0, l0, e, a, l, w.0, w.1, cmp_events, cmp_segments, intersect, same_point)
    }
}

/// One step of the sweep: the front event `e` of queue `q0` is taken off
/// it (it comes no later than any other event, for any total order the
/// queue is laid out for) and handled, leaving the queue holding `q`.
pub open spec fn sweep_step<
    P,
    C: Fn(&SweepEventArena<P>, &SweepEventId, &SweepEventId) -> Ordering,
    S: Fn(&SweepEventArena<P>, &SweepEventId, &SweepEventId) -> Ordering,
    I: Fn(&P, &P, &P, &P) -> Option<Vec<P>>,
    V: Fn(&P, &P) -> bool,
    E: Fn(&P, &P) -> bool,
>(
    q0: MinHeapByCompareEvents,
    a0: Seq<SweepEvent<P>>,
    l0: Seq<SweepEventId>,
    e: SweepEventId,
    q: Multiset<SweepEventId>,
    a: Seq<SweepEvent<P>>,
    l: Seq<SweepEventId>,
    w: (int, Option<Vec<P>>, Option<Vec<P>>),
    operation: Operation,
    cmp_events: C,
    cmp_segments: S,
    intersect: I,
    is_vertical: V,
    same_point: E,
) -> bool {
    &&& taken_first(q0, e)
    &&& q == q0@.remove(e).add(new_ids(slen(a0), slen(a)))
    &&& event_step(a0, l0, e, a, l, w, operation, cmp_events, cmp_segments, intersect, is_vertical, same_point)
}

/// `e` is the front of the non-empty queue `q`: one of its events, and no
/// later than any other for any total order the queue is laid out for.
pub open spec fn taken_first(q: MinHeapByCompareEvents, e: SweepEventId) -> bool {
    &&& q@.len() > 0
    &&& e == q.front()
    &&& q@.contains(e)
    &&& forall|ord: spec_fn(SweepEventId, SweepEventId) -> Ordering|
        #[trigger] q.ordered_by(ord) && is_total_order(ord) ==> forall|y: SweepEventId|
            q@.contains(y) ==> precedes(ord, e, y)
}

/// The sweep, as a run of steps: queues `qs`, arenas `arenas` and sweep
/// lines `lines` before and after each step, `ws` what each step used.
/// Step `i` takes event `sorted[i]`; the run starts from queue `q_start`,
/// arena `a_start` and an empty line, and ends with arena `a_end`, line
/// `l_end` and queue contents `q_end`.  Where the sweep stopped on an event
/// beyond the bound, that event was taken off the queue as the front but
/// not handled.
pub open spec fn sweep_run<
    P,
    C: Fn(&SweepEventArena<P>, &SweepEventId, &SweepEventId) -> Ordering,
    S: Fn(&SweepEventArena<P>, &SweepEventId, &SweepEventId) -> Ordering,
    I: Fn(&P, &P, &P, &P) -> Option<Vec<P>>,
    V: Fn(&P, &P) -> bool,
    E: Fn(&P, &P) -> bool,
>(
    qs: Seq<MinHeapByCompareEvents>,
    arenas: Seq<Seq<SweepEvent<P>>>,
    lines: Seq<Seq<SweepEventId>>,
    ws: Seq<(int, Option<Vec<P>>, Option<Vec<P>>)>,
    sorted: Seq<SweepEventId>,
    q_start: MinHeapByCompareEvents,
    a_start: Seq<SweepEvent<P>>,
    q_end: Multiset<SweepEventId>,
    a_end: Seq<SweepEvent<P>>,
    l_end: Seq<SweepEventId>,
    operation: Operation,
    cmp_events: C,
    cmp_segments: S,
    intersect: I,
    is_vertical: V,
    same_point: E,
) -> bool {
    let n = slen(ws);
    &&& qs.len() == n + 1
    &&& arenas.len() == n + 1
    &&& lines.len() == n + 1
    &&& qs[0] == q_start
    &&& arenas[0] == a_start
    &&& lines[0] == Seq::<SweepEventId>::empty()
    &&& arenas[n] == a_end
    &&& lines[n] == l_end
    &&& forall|i: int|
        0 <= i < n ==> #[trigger] sweep_step(
            qs[i],
            arenas[i],
            lines[i],
            sorted[i],
            qs[i + 1]@,
            arenas[i + 1],
            lines[i + 1],
            ws[i],
            operation,
            cmp_events,
            cmp_segments,
            intersect,
            is_vertical,
            same_point,
        )
    &&& n == sorted.len() ==> q_end == qs[n]@
    &&& n + 1 == sorted.len() ==> taken_first(qs[n], sorted[n]) && q_end == qs[n]@.remove(
        sorted[n],
    )
    &&& n == sorted.len() || n + 1 == sorted.len()
}

/// A run of steps followed by one more step is a run.
proof fn lemma_run_extend<
    P,
    C: Fn(&SweepEventArena<P>, &SweepEventId, &SweepEventId) -> Ordering,
    S: Fn(&SweepEventArena<P>, &SweepEventId, &SweepEventId) -> Ordering,
    I: Fn(&P, &P, &P, &P) -> Option<Vec<P>>,
    V: Fn(&P, &P) -> bool,
    E: Fn(&P, &P) -> bool,
>(
    qs: Seq<MinHeapByCompareEvents>,
    arenas: Seq<Seq<SweepEvent<P>>>,
    lines: Seq<Seq<SweepEventId>>,
    ws: Seq<(int, Option<Vec<P>>, Option<Vec<P>>)>,
    sorted: Seq<SweepEventId>,
    q_start: MinHeapByCompareEvents,
    a_start: Seq<SweepEvent<P>>,
    e: SweepEventId,
    q1: MinHeapByCompareEvents,
    a1: Seq<SweepEvent<P>>,
    l1: Seq<SweepEventId>,
    w: (int, Option<Vec<P>>, Option<Vec<P>>),
    operation: Operation,
    cmp_events: C,
    cmp_segments: S,
    intersect: I,
    is_vertical: V,
    same_point: E,
)
    requires
        sweep_run(qs, arenas, lines, ws, sorted, q_start, a_start, qs.last()@, arenas.last(), lines.last(), operation, cmp_events, cmp_segments, intersect, is_vertical, same_point),
        ws.len() == sorted.len(),
        sweep_step(qs.last(), arenas.last(), lines.last(), e, q1@, a1, l1, w, operation, cmp_events, cmp_segments, intersect, is_vertical, same_point),
    ensures
        sweep_run(
            qs.push(q1),
            arenas.push(a1),
            lines.push(l1),
            ws.push(w),
            sorted.push(e),
            q_start,
            a_start,
            q1@,
            a1,
            l1,
            operation, cmp_events, cmp_segments, intersect, is_vertical, same_point,
        ),
{
    let n = slen(ws);
    let qs2 = qs.push(q1);
    let ar2 = arenas.push(a1);
    let ln2 = lines.push(l1);
    let ws2 = ws.push(w);
    let s2 = sorted.push(e);
    assert forall|i: int| 0 <= i < n + 1 implies #[trigger] sweep_step(
        qs2[i],
        ar2[i],
        ln2[i],
        s2[i],
        qs2[i + 1]@,
        ar2[i + 1],
        ln2[i + 1],
        ws2[i],
        operation, cmp_events, cmp_segments, intersect, is_vertical, same_point,
    ) by {
        if i < n {
            assert(qs2[i] == qs[i] && qs2[i + 1] == qs[i + 1] && ar2[i] == arenas[i] && ar2[i + 1] == arenas[i + 1]);
            assert(ln2[i] == lines[i] && ln2[i + 1] == lines[i + 1] && ws2[i] == ws[i] && s2[i] == sorted[i]);
            assert(sweep_step(
                qs[i],
                arenas[i],
                lines[i],
                sorted[i],
                qs[i + 1]@,
                arenas[i + 1],
                lines[i + 1],
                ws[i],
                operation, cmp_events, cmp_segments, intersect, is_vertical, same_point,
            ));
        } else {
            assert(qs2[i] == qs.last() && ar2[i] == arenas.last() && ln2[i] == lines.last() && s2[i] == e);
        }
    }
}

/// A run of steps followed by taking one more event off the queue, left
/// unhandled, is a run that stopped there.
proof fn lemma_run_stop<
    P,
    C: Fn(&SweepEventArena<P>, &SweepEventId, &SweepEventId) -> Ordering,
    S: Fn(&SweepEventArena<P>, &SweepEventId, &SweepEventId) -> Ordering,
    I: Fn(&P, &P, &P, &P) -> Option<Vec<P>>,
    V: Fn(&P, &P) -> bool,
    E: Fn(&P, &P) -> bool,
>(
    qs: Seq<MinHeapByCompareEvents>,
    arenas: Seq<Seq<SweepEvent<P>>>,
    lines: Seq<Seq<SweepEventId>>,
    ws: Seq<(int, Option<Vec<P>>, Option<Vec<P>>)>,
    sorted: Seq<SweepEventId>,
    q_start: MinHeapByCompareEvents,
    a_start: Seq<SweepEvent<P>>,
    e: SweepEventId,
    operation: Operation,
    cmp_events: C,
    cmp_segments: S,
    intersect: I,
    is_vertical: V,
    same_point: E,
)
    requires
        sweep_run(qs, arenas, lines, ws, sorted, q_start, a_start, qs.last()@, arenas.last(), lines.last(), operation, cmp_events, cmp_segments, intersect, is_vertical, same_point),
        ws.len() == sorted.len(),
        taken_first(qs.last(), e),
    ensures
        sweep_run(
            qs,
            arenas,
            lines,
            ws,
            sorted.push(e),
            q_start,
            a_start,
            qs.last()@.remove(e),
            arenas.last(),
            lines.last(),
            operation, cmp_events, cmp_segments, intersect, is_vertical, same_point,
        ),
{
    let n = slen(ws);
    let s2 = sorted.push(e);
    assert forall|i: int| 0 <= i < n implies #[trigger] sweep_step(
        qs[i],
        arenas[i],
        lines[i],
        s2[i],
        qs[i + 1]@,
        arenas[i + 1],
        lines[i + 1],
        ws[i],
        operation, cmp_events, cmp_segments, intersect, is_vertical, same_point,
    ) by {
        assert(s2[i] == sorted[i]);
    }
}

/// Handles event `e`, a left or a right end.
fn handle_event<
    P: Copy,
    C: Fn(&SweepEventArena<P>, &SweepEventId, &SweepEventId) -> Ordering + Copy,
    S: Fn(&SweepEventArena<P>, &SweepEventId, &SweepEventId) -> Ordering + Copy,
    I: Fn(&P, &P, &P, &P) -> Option<Vec<P>> + Copy,
    V: Fn(&P, &P) -> bool + Copy,
    E: Fn(&P, &P) -> bool + Copy,
>(
    event: SweepEventId,
    operation: Operation,
    queue: &mut MinHeapByCompareEvents,
    arena: &mut SweepEventArena<P>,
    line: &mut TreeByCompareSegments,
    cmp_events: C,
    cmp_segments: S,
    intersect: I,
    is_vertical: V,
    same_point: E,
) -> (w: Ghost<(int, Option<Vec<P>>, Option<Vec<P>>)>)
    requires
        sweep_state(old(arena).0@, *old(line)),
        event.0 < old(arena).0@.len(),
        old(arena).0@.len() + 8 <= usize::MAX,
        old(queue)@.len() + 8 < usize::MAX,
        events_comparator(cmp_events),
        events_comparator(cmp_segments),
        intersection_test(intersect),
        point_test(is_vertical),
        point_test(same_point),
    ensures
        sweep_state(final(arena).0@, *final(line)),
        grown(old(arena).0@, final(arena).0@, old(queue)@, final(queue)@),
        final(arena).0@.len() <= old(arena).0@.len() + 8,
        event_step(
            old(arena).0@,
            old(line)@,
            event,
            final(arena).0@,
            final(line)@,
            w@,
            operation,
            cmp_events,
            cmp_segments,
            intersect,
            is_vertical,
            same_point,
        ),
{
    if arena.0[event.0].left {
        handle_left_event(
            event,
            operation,
            queue,
            arena,
            line,
            cmp_events,
            cmp_segments,
            intersect,
            is_vertical,
            same_point,
        )
    } else {
        handle_right_event(event, queue, arena, line, cmp_events, cmp_segments, intersect, same_point)
    }
}

/// The arena or the queue could not take the events of another step: a
/// length that no memory can hold.
pub open spec fn at_capacity(n_events: nat, n_queued: nat) -> bool {
    n_events + 8 > usize::MAX || n_queued + 8 >= usize::MAX
}

/// Takes the front event off the queue, ordered by `cmp_events` on `arena`.
fn pop_event<P, C: Fn(&SweepEventArena<P>, &SweepEventId, &SweepEventId) -> Ordering + Copy>(
    queue: &mut MinHeapByCompareEvents,
    arena: &SweepEventArena<P>,
    cmp_events: C,
) -> (r: Option<SweepEventId>)
    requires
        events_comparator(cmp_events),
    ensures
        old(queue)@.len() == 0 ==> r is None && final(queue)@ == old(queue)@,
        old(queue)@.len() > 0 ==> r == Some(old(queue).front()),
        r matches Some(x) ==> old(queue)@.contains(x) && final(queue)@ == old(queue)@.remove(x),
{
    let f = |x: &SweepEventId, y: &SweepEventId|
        requires
            events_comparator(cmp_events),
        { cmp_events(arena, x, y) };
    queue.pop(f)
}

/// Runs the sweep over the events of `event_queue`: each event taken off
/// the queue is appended to `sorted_events`; a left event puts its edge on
/// the sweep line and is checked against its neighbours, a right event takes
/// its edge off the line and checks the edges that become neighbours.  For
/// an intersection or a difference the sweep stops at the first event that
/// `past_bound` finds beyond the operands' bounds.  The sweep line and
/// `sorted_events` are emptied first.  What happened is a `sweep_run`: the
/// events in `sorted_events` are the queue's fronts, in the order they were
/// taken, and each was handled by a `left_step` or a `right_step`.
pub fn subdivide<
    P: Copy,
    C: Fn(&SweepEventArena<P>, &SweepEventId, &SweepEventId) -> Ordering + Copy,
    S: Fn(&SweepEventArena<P>, &SweepEventId, &SweepEventId) -> Ordering + Copy,
    B: Fn(&P) -> bool + Copy,
    I: Fn(&P, &P, &P, &P) -> Option<Vec<P>> + Copy,
    V: Fn(&P, &P) -> bool + Copy,
    E: Fn(&P, &P) -> bool + Copy,
>(
    event_queue: &mut MinHeapByCompareEvents,
    operation: Operation,
    arena: &mut SweepEventArena<P>,
    sweep_line: &mut TreeByCompareSegments,
    sorted_events: &mut Vec<SweepEventId>,
    cmp_events: C,
    cmp_segments: S,
    past_bound: B,
    intersect: I,
    is_vertical: V,
    same_point: E,
)
    requires
        paired(old(arena).0@),
        numbered(old(arena).0@),
        forall|x: SweepEventId| #[trigger] old(event_queue)@.contains(x) ==> x.0 < old(arena).0@.len(),
        events_comparator(cmp_events),
        events_comparator(cmp_segments),
        bound_test(past_bound),
        intersection_test(intersect),
        point_test(is_vertical),
        point_test(same_point),
    ensures
        sweep_state(final(arena).0@, *final(sweep_line)),
        grown(
            old(arena).0@,
            final(arena).0@,
            old(event_queue)@,
            final(event_queue)@.add(final(sorted_events)@.to_multiset()),
        ),
        forall|x: SweepEventId| #[trigger] final(event_queue)@.contains(x) ==> x.0 < final(arena).0@.len(),
        forall|i: int| 0 <= i < final(sorted_events)@.len() ==> (#[trigger] final(sorted_events)@[i]).0 < final(arena).0@.len(),
        final(event_queue)@.len() == 0 || at_capacity(final(arena).0@.len(), final(event_queue)@.len()) || (
        stops_early(operation) && final(sorted_events)@.len() > 0 && forall|h: spec_fn(P) -> bool|
            #[trigger] bound_answered_as(past_bound, h) ==> h(
                final(arena).0@[pos(final(sorted_events)@.last().0)].point,
            )),
        stops_early(operation) ==> forall|h: spec_fn(P) -> bool|
            #[trigger] bound_answered_as(past_bound, h) ==> forall|i: int|
                0 <= i < final(sorted_events)@.len() - 1 ==> !h(
                    final(arena).0@[pos((#[trigger] final(sorted_events)@[i]).0)].point,
                ),        exists|
            qs: Seq<MinHeapByCompareEvents>,
            arenas: Seq<Seq<SweepEvent<P>>>,
            lines: Seq<Seq<SweepEventId>>,
            ws: Seq<(int, Option<Vec<P>>, Option<Vec<P>>)>,
        |
            #[trigger] sweep_run(
                qs,
                arenas,
                lines,
                ws,
                final(sorted_events)@,
                *old(event_queue),
                old(arena).0@,
                final(event_queue)@,
                final(arena).0@,
                final(sweep_line)@,
                operation, cmp_events, cmp_segments, intersect, is_vertical, same_point,
            ),
{
    sweep_line.clear();
    sorted_events.clear();
    let ghost a0 = arena.0@;
    let ghost q0 = event_queue@;
    let early = match operation {
        Operation::Intersection => true,
        Operation::Difference => true,
        _ => false,
    };
    let ghost mut qs: Seq<MinHeapByCompareEvents> = seq![*event_queue];
    let ghost mut arenas: Seq<Seq<SweepEvent<P>>> = seq![arena.0@];
    let ghost mut lines: Seq<Seq<SweepEventId>> = seq![sweep_line@];
    let ghost mut ws: Seq<(int, Option<Vec<P>>, Option<Vec<P>>)> = Seq::empty();
    proof {
        lemma_grown_start(a0, q0);
        assert(event_queue@.add(sorted_events@.to_multiset()) =~= q0);
        assert(sorted_events@ =~= Seq::<SweepEventId>::empty());
    }
    loop
        invariant_except_break
            ws.len() == sorted_events@.len(),
            qs.last() == *event_queue,
            early ==> forall|h: spec_fn(P) -> bool|
                #[trigger] bound_answered_as(past_bound, h) ==> forall|i: int|
                    0 <= i < sorted_events@.len() ==> !h(arena.0@[pos((#[trigger] sorted_events@[i]).0)].point),
        invariant
            sweep_state(arena.0@, *sweep_line),
            grown(a0, arena.0@, q0, event_queue@.add(sorted_events@.to_multiset())),
            forall|x: SweepEventId| #[trigger] event_queue@.contains(x) ==> x.0 < arena.0@.len(),
            forall|i: int| 0 <= i < sorted_events@.len() ==> (#[trigger] sorted_events@[i]).0 < arena.0@.len(),
            early == stops_early(operation),
            events_comparator(cmp_events),
            events_comparator(cmp_segments),
            bound_test(past_bound),
            intersection_test(intersect),
            point_test(is_vertical),
            point_test(same_point),
            sweep_run(
                qs,
                arenas,
                lines,
                ws,
                sorted_events@,
                *old(event_queue),
                a0,
                event_queue@,
                arena.0@,
                sweep_line@,
                operation, cmp_events, cmp_segments, intersect, is_vertical, same_point,
            ),
        ensures
            sweep_run(
                qs,
                arenas,
                lines,
                ws,
                sorted_events@,
                *old(event_queue),
                a0,
                event_queue@,
                arena.0@,
                sweep_line@,
                operation, cmp_events, cmp_segments, intersect, is_vertical, same_point,
            ),
            sweep_state(arena.0@, *sweep_line),
            grown(a0, arena.0@, q0, event_queue@.add(sorted_events@.to_multiset())),
            forall|x: SweepEventId| #[trigger] event_queue@.contains(x) ==> x.0 < arena.0@.len(),
            forall|i: int| 0 <= i < sorted_events@.len() ==> (#[trigger] sorted_events@[i]).0 < arena.0@.len(),
            event_queue@.len() == 0 || at_capacity(arena.0@.len(), event_queue@.len()) || (early
                && sorted_events@.len() > 0 && forall|h: spec_fn(P) -> bool|
                #[trigger] bound_answered_as(past_bound, h) ==> h(arena.0@[pos(sorted_events@.last().0)].point)),
            early ==> forall|h: spec_fn(P) -> bool|
                #[trigger] bound_answered_as(past_bound, h) ==> forall|i: int|
                    0 <= i < sorted_events@.len() - 1 ==> !h(arena.0@[pos((#[trigger] sorted_events@[i]).0)].point),
        decreases 5 * (usize::MAX - arena.0@.len()) + event_queue@.len(),
    {
        if arena.0.len() > usize::MAX - 8 || event_queue.len() >= usize::MAX - 8 {
            break;
        }
        let ghost s0 = sorted_events@;
        let ghost qa = event_queue@;
        let ghost hq = *event_queue;
        let event = match pop_event(event_queue, arena, cmp_events) {
            Some(e) => e,
            None => {
                break;
            },
        };
        proof {
            assert forall|ord: spec_fn(SweepEventId, SweepEventId) -> Ordering|
                #[trigger] hq.ordered_by(ord) && is_total_order(ord) implies forall|y: SweepEventId|
                hq@.contains(y) ==> precedes(ord, event, y) by {
                hq.lemma_front_is_least(ord);
            }
            assert(taken_first(hq, event));
            lemma_run_stop(qs, arenas, lines, ws, s0, *old(event_queue), a0, event, operation, cmp_events, cmp_segments, intersect, is_vertical, same_point);
        }
        sorted_events.push(event);
        proof {
            assert(sorted_events@ == s0.push(event));
            assert(event_queue@.add(sorted_events@.to_multiset()) =~= qa.add(s0.to_multiset()));
            assert forall|x: SweepEventId| #[trigger] event_queue@.contains(x) implies x.0 < arena.0@.len() by {
                assert(qa.contains(x));
            }
            assert forall|i: int| 0 <= i < sorted_events@.len() implies (#[trigger] sorted_events@[i]).0 < arena.0@.len() by {
                if i < s0.len() {
                    assert(sorted_events@[i] == s0[i]);
                }
            }
        }
        let point = arena.0[event.0].point;
        if early {
            let beyond = past_bound(&point);
            if beyond {
                proof {
                    assert forall|h: spec_fn(P) -> bool| #[trigger] bound_answered_as(past_bound, h) implies h(
                        arena.0@[pos(sorted_events@.last().0)].point,
                    ) by {
                        assert(beyond == h(point));
                    }
                    assert forall|h: spec_fn(P) -> bool| #[trigger] bound_answered_as(past_bound, h) implies forall|i: int|
                        0 <= i < sorted_events@.len() - 1 ==> !h(arena.0@[pos((#[trigger] sorted_events@[i]).0)].point) by {
                        assert forall|i: int| 0 <= i < sorted_events@.len() - 1 implies !h(arena.0@[pos((#[trigger] sorted_events@[i]).0)].point) by {
                            assert(sorted_events@[i] == s0[i]);
                        }
                    }
                }
                break;
            }
            proof {
                assert forall|h: spec_fn(P) -> bool| #[trigger] bound_answered_as(past_bound, h) implies forall|i: int|
                    0 <= i < sorted_events@.len() ==> !h(arena.0@[pos((#[trigger] sorted_events@[i]).0)].point) by {
                    assert(beyond == h(point));
                    assert forall|i: int| 0 <= i < sorted_events@.len() implies !h(arena.0@[pos((#[trigger] sorted_events@[i]).0)].point) by {
                        if i < s0.len() {
                            assert(sorted_events@[i] == s0[i]);
                        }
                    }
                }
            }
        }
        let ghost a1 = arena.0@;
        let ghost q1 = event_queue@;
        let w = handle_event(
            event,
            operation,
            event_queue,
            arena,
            sweep_line,
            cmp_events,
            cmp_segments,
            intersect,
            is_vertical,
            same_point,
        );
        proof {
            assert(sweep_step(hq, a1, lines.last(), event, event_queue@, arena.0@, sweep_line@, w@, operation, cmp_events, cmp_segments, intersect, is_vertical, same_point));
            lemma_run_extend(
                qs,
                arenas,
                lines,
                ws,
                s0,
                *old(event_queue),
                a0,
                event,
                *event_queue,
                arena.0@,
                sweep_line@,
                w@,
                operation, cmp_events, cmp_segments, intersect, is_vertical, same_point,
            );
            qs = qs.push(*event_queue);
            arenas = arenas.push(arena.0@);
            lines = lines.push(sweep_line@);
            ws = ws.push(w@);
        }
        proof {
            let m = sorted_events@.to_multiset();
            lemma_new_ids_join(slen(a0), slen(a1), slen(arena.0@));
            lemma_new_ids_len(slen(a1), slen(arena.0@));
            assert(q1.add(m) == q0.add(new_ids(slen(a0), slen(a1))));
            assert(event_queue@ == q1.add(new_ids(slen(a1), slen(arena.0@))));
            assert(event_queue@.add(m) =~= q1.add(m).add(new_ids(slen(a1), slen(arena.0@))));
            assert(event_queue@.add(m) =~= q0.add(new_ids(slen(a0), slen(arena.0@))));
            assert(q1.len() == qa.len() - 1);
            assert(event_queue@.len() == q1.len() + arena.0@.len() - a1.len());
            assert forall|i: int| 0 <= i < a0.len() implies (#[trigger] arena.0@[i]).point == a0[i].point by {
                assert(a1[i].point == a0[i].point);
            }
            assert forall|x: SweepEventId| #[trigger] event_queue@.contains(x) implies x.0 < arena.0@.len() by {
                if !q1.contains(x) {
                    lemma_new_ids_bounds(slen(a1), slen(arena.0@), x);
                }
            }
            assert forall|h: spec_fn(P) -> bool| early && #[trigger] bound_answered_as(past_bound, h) implies forall|i: int|
                0 <= i < sorted_events@.len() ==> !h(arena.0@[pos((#[trigger] sorted_events@[i]).0)].point) by {
                assert forall|i: int| 0 <= i < sorted_events@.len() implies !h(arena.0@[pos((#[trigger] sorted_events@[i]).0)].point) by {
                    assert(a1[pos(sorted_events@[i].0)].point == arena.0@[pos(sorted_events@[i].0)].point);
                }
            }
        }
    }
}

} // verus!
