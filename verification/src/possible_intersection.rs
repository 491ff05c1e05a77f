//! What happens where the edges of two neighbouring events meet: nothing,
//! a split at a crossing point, or, where they overlap, a marking of the
//! overlapping part and splits at the ends of the overlap.
use core::cmp::Ordering;
use vstd::multiset::Multiset;
use vstd::prelude::*;

use crate::divide_segment::{
    divide_segment, divided_by, events_answered_as, events_comparator, flip_of, grown, lemma_divided,
    lemma_grown_divide, lemma_grown_start, numbered, paired,
};
use crate::edge_type::EdgeType;
use crate::min_heap::MinHeapByCompareEvents;
use crate::sweep_event::{id_of, SweepEvent, SweepEventArena, SweepEventId};
use crate::vec_ops::pos;

verus! {

/// `same_point` can be asked about any two points.
pub open spec fn point_test<P, E: Fn(&P, &P) -> bool>(same_point: E) -> bool {
    forall|p: P, q: P| #[trigger] call_requires(same_point, (&p, &q))
}

/// Every answer that `same_point` gives about `p` and `q` is `f(p, q)`.
pub open spec fn points_answered_as<P, E: Fn(&P, &P) -> bool>(same_point: E, f: spec_fn(P, P) -> bool) -> bool {
    forall|p: P, q: P, r: bool| #[trigger] call_ensures(same_point, (&p, &q), r) ==> r == f(p, q)
}

/// The other event of `se` in `a`.
pub open spec fn partner<P>(a: Seq<SweepEvent<P>>, se: SweepEventId) -> SweepEventId {
    a[pos(se.0)].other_event.unwrap()
}

/// The point of event `se` in `a`.
pub open spec fn point_of<P>(a: Seq<SweepEvent<P>>, se: SweepEventId) -> P {
    a[pos(se.0)].point
}

/// What the edges of `se1` and `se2` have in common, given the points
/// `inter` where they meet and point equality `f`: 0 when they do not
/// meet, meet only at a shared endpoint, or overlap within one polygon; 1
/// when they cross at one point; 2 when they overlap from a shared left
/// endpoint on; 3 when they overlap otherwise.
pub open spec fn meeting_kind<P>(
    a: Seq<SweepEvent<P>>,
    se1: SweepEventId,
    se2: SweepEventId,
    inter: Option<Seq<P>>,
    f: spec_fn(P, P) -> bool,
) -> usize {
    match inter {
        None => 0,
        Some(pts) => if pts.len() == 0 {
            0
        } else if pts.len() == 1 && (f(point_of(a, se1), point_of(a, se2)) || f(
            point_of(a, partner(a, se1)),
            point_of(a, partner(a, se2)),
        )) {
            0
        } else if pts.len() == 2 && a[pos(se1.0)].is_subject == a[pos(se2.0)].is_subject {
            0
        } else if pts.len() == 1 {
            1
        } else if f(point_of(a, se1), point_of(a, se2)) {
            2
        } else {
            3
        },
    }
}

/// `x` and `y` in the order the comparator `g` puts them.
pub open spec fn ordered_pair<P>(
    a: Seq<SweepEvent<P>>,
    x: SweepEventId,
    y: SweepEventId,
    g: spec_fn(Seq<SweepEvent<P>>, SweepEventId, SweepEventId) -> Ordering,
) -> Seq<SweepEventId> {
    if g(a, x, y) == Ordering::Greater {
        seq![y, x]
    } else {
        seq![x, y]
    }
}

/// The events once the edge of `se`, from `p` to `q`, is split at `x`,
/// unless `x` is one of its endpoints.
pub open spec fn split_inside<P>(
    a: Seq<SweepEvent<P>>,
    se: SweepEventId,
    p: P,
    q: P,
    x: P,
    f: spec_fn(P, P) -> bool,
    g: spec_fn(Seq<SweepEvent<P>>, SweepEventId, SweepEventId) -> Ordering,
) -> Seq<SweepEvent<P>> {
    if !f(p, x) && !f(q, x) {
        divided_by(a, se, x, g)
    } else {
        a
    }
}

/// `a` with the overlap from a shared left endpoint marked: the edge of
/// `se2` leaves the result and that of `se1` stands for both, as a same or
/// a different transition.
#[verifier::opaque]
pub open spec fn overlap_marked<P>(a: Seq<SweepEvent<P>>, se1: SweepEventId, se2: SweepEventId) -> Seq<
    SweepEvent<P>,
> {
    let a2 = a.update(pos(se2.0), SweepEvent { edge_type: EdgeType::NonContributing, ..a[pos(se2.0)] });
    a2.update(
        pos(se1.0),
        SweepEvent {
            edge_type: if a[pos(se2.0)].in_out == a[pos(se1.0)].in_out {
                EdgeType::SameTransition
            } else {
                EdgeType::DifferentTransition
            },
            ..a2[pos(se1.0)]
        },
    )
}

/// The events once the edges of `se1` and `se2`, which cross at `x`, are
/// split there (each only where `x` is not one of its endpoints).
pub open spec fn after_crossing<P>(
    a: Seq<SweepEvent<P>>,
    se1: SweepEventId,
    se2: SweepEventId,
    x: P,
    f: spec_fn(P, P) -> bool,
    g: spec_fn(Seq<SweepEvent<P>>, SweepEventId, SweepEventId) -> Ordering,
) -> Seq<SweepEvent<P>> {
    split_inside(
        split_inside(a, se1, point_of(a, se1), point_of(a, partner(a, se1)), x, f, g),
        se2,
        point_of(a, se2),
        point_of(a, partner(a, se2)),
        x,
        f,
        g,
    )
}

/// The events once the overlap of the edges of `se1` and `se2` is handled,
/// given whether they share their left and their right endpoint.  With a
/// shared left endpoint the overlap is marked, and the longer edge is split
/// where the shorter ends; otherwise the edge that starts first is split
/// where the other starts, and, unless they share their right endpoint, the
/// edge that ends last where the other ends.
pub open spec fn after_overlap<P>(
    a: Seq<SweepEvent<P>>,
    se1: SweepEventId,
    se2: SweepEventId,
    left_coincide: bool,
    right_coincide: bool,
    g: spec_fn(Seq<SweepEvent<P>>, SweepEventId, SweepEventId) -> Ordering,
) -> Seq<SweepEvent<P>> {
    let o1 = partner(a, se1);
    let o2 = partner(a, se2);
    if left_coincide {
        let m = overlap_marked(a, se1, se2);
        let ev = ordered_pair(a, o1, o2, g);
        if right_coincide {
            m
        } else {
            divided_by(m, partner(m, ev[1]), point_of(m, ev[0]), g)
        }
    } else {
        let left = ordered_pair(a, se1, se2, g);
        if right_coincide {
            divided_by(a, left[0], point_of(a, left[1]), g)
        } else {
            let ev = left + ordered_pair(a, o1, o2, g);
            let a1 = divided_by(a, ev[0], point_of(a, ev[1]), g);
            if ev[0] != partner(a, ev[3]) {
                divided_by(a1, ev[1], point_of(a1, ev[2]), g)
            } else {
                divided_by(a1, partner(a1, ev[3]), point_of(a1, ev[2]), g)
            }
        }
    }
}

/// The events once the meeting of the edges of `se1` and `se2` is handled,
/// with point equality `f` and the comparator answering as `g`.
pub open spec fn after_meeting<P>(
    a: Seq<SweepEvent<P>>,
    se1: SweepEventId,
    se2: SweepEventId,
    inter: Option<Seq<P>>,
    f: spec_fn(P, P) -> bool,
    g: spec_fn(Seq<SweepEvent<P>>, SweepEventId, SweepEventId) -> Ordering,
) -> Seq<SweepEvent<P>> {
    let k = meeting_kind(a, se1, se2, inter, f);
    if k == 0 {
        a
    } else if k == 1 {
        after_crossing(a, se1, se2, inter.unwrap()[0], f, g)
    } else {
        after_overlap(
            a,
            se1,
            se2,
            f(point_of(a, se1), point_of(a, se2)),
            f(point_of(a, partner(a, se1)), point_of(a, partner(a, se2))),
            g,
        )
    }
}

/// The points of `inter`, if any.
pub open spec fn points_of<P>(inter: Option<Vec<P>>) -> Option<Seq<P>> {
    match inter {
        Some(v) => Some(v@),
        None => None,
    }
}

/// Splits the edges of `se1` and `se2`, which cross at `x`, there, each
/// unless `x` is one of its endpoints.
fn split_at_crossing<
    P: Copy,
    E: Fn(&P, &P) -> bool + Copy,
    C: Fn(&SweepEventArena<P>, &SweepEventId, &SweepEventId) -> Ordering + Copy,
>(
    se1: SweepEventId,
    se2: SweepEventId,
    x: P,
    queue: &mut MinHeapByCompareEvents,
    arena: &mut SweepEventArena<P>,
    same_point: E,
    cmp_events: C,
)
    requires
        se1.0 < old(arena).0@.len(),
        se2.0 < old(arena).0@.len(),
        paired(old(arena).0@),
        numbered(old(arena).0@),
        old(arena).0@.len() + 4 <= usize::MAX,
        old(queue)@.len() + 4 < usize::MAX,
        point_test(same_point),
        events_comparator(cmp_events),
    ensures
        forall|
            f: spec_fn(P, P) -> bool,
            g: spec_fn(Seq<SweepEvent<P>>, SweepEventId, SweepEventId) -> Ordering,
        |
            #[trigger] points_answered_as(same_point, f) && #[trigger] events_answered_as(cmp_events, g)
                ==> final(arena).0@ == after_crossing(old(arena).0@, se1, se2, x, f, g),
        grown(old(arena).0@, final(arena).0@, old(queue)@, final(queue)@),
        final(arena).0@.len() <= old(arena).0@.len() + 4,
{
    let ghost a = arena.0@;
    let ghost q0 = queue@;
    proof {
        lemma_grown_start(a, q0);
        assert(a[pos(se1.0)].other_event is Some);
        assert(a[pos(se2.0)].other_event is Some);
    }
    let o1 = arena.0[se1.0].other_event.unwrap();
    let o2 = arena.0[se2.0].other_event.unwrap();
    let p1 = arena.0[se1.0].point;
    let q1 = arena.0[o1.0].point;
    let p2 = arena.0[se2.0].point;
    let q2 = arena.0[o2.0].point;
    let inside1 = !same_point(&p1, &x) && !same_point(&q1, &x);
    if inside1 {
        divide_segment(se1, x, queue, arena, cmp_events);
        proof {
            lemma_grown_divide(a, a, arena.0@, q0, q0, queue@, se1, x);
        }
    }
    let ghost a1 = arena.0@;
    let ghost qa = queue@;
    let inside2 = !same_point(&p2, &x) && !same_point(&q2, &x);
    if inside2 {
        divide_segment(se2, x, queue, arena, cmp_events);
        proof {
            lemma_grown_divide(a, a1, arena.0@, q0, qa, queue@, se2, x);
        }
    }
}

/// Marking an overlap changes only edge types: the edge of `se2` leaves
/// the result, and that of `se1` (when it is another event) is a same or a
/// different transition as the two edges' `in_out` agree or not.
pub proof fn lemma_overlap_marked<P>(a: Seq<SweepEvent<P>>, se1: SweepEventId, se2: SweepEventId, q: Multiset<SweepEventId>)
    requires
        paired(a),
        numbered(a),
        se1.0 < a.len(),
        se2.0 < a.len(),
    ensures
        overlap_marked(a, se1, se2)[pos(se1.0)].edge_type == if a[pos(se2.0)].in_out == a[pos(se1.0)].in_out {
            EdgeType::SameTransition
        } else {
            EdgeType::DifferentTransition
        },
        se1 != se2 ==> overlap_marked(a, se1, se2)[pos(se2.0)].edge_type == EdgeType::NonContributing,
        grown(a, overlap_marked(a, se1, se2), q, q),
        overlap_marked(a, se1, se2).len() == a.len(),
        forall|i: int| 0 <= i < a.len() ==> (#[trigger] overlap_marked(a, se1, se2)[i]).other_event == a[i].other_event,
{
    reveal(overlap_marked);
    let m = overlap_marked(a, se1, se2);
    lemma_grown_start(a, q);
    assert forall|i: int| 0 <= i < m.len() implies (#[trigger] m[i]).other_event is Some
        && m[i].other_event.unwrap().0 < m.len() by {
        assert(a[i].other_event is Some);
    }
    assert forall|i: int| 0 <= i < m.len() implies (#[trigger] m[i]).id == id_of(i) by {
        assert(a[i].id == id_of(i));
    }
}

/// Handles the overlap of the edges of `se1` and `se2`, which share their
/// left endpoint: the overlap is marked, and unless they also share their
/// right endpoint, the longer edge is split where the shorter ends.
fn split_overlap_from_left<
    P: Copy,
    C: Fn(&SweepEventArena<P>, &SweepEventId, &SweepEventId) -> Ordering + Copy,
>(
    se1: SweepEventId,
    se2: SweepEventId,
    right_same: bool,
    queue: &mut MinHeapByCompareEvents,
    arena: &mut SweepEventArena<P>,
    cmp_events: C,
)
    requires
        se1.0 < old(arena).0@.len(),
        se2.0 < old(arena).0@.len(),
        paired(old(arena).0@),
        numbered(old(arena).0@),
        old(arena).0@.len() + 4 <= usize::MAX,
        old(queue)@.len() + 4 < usize::MAX,
        events_comparator(cmp_events),
    ensures
        forall|g: spec_fn(Seq<SweepEvent<P>>, SweepEventId, SweepEventId) -> Ordering|
            #[trigger] events_answered_as(cmp_events, g) ==> final(arena).0@ == after_overlap(
                old(arena).0@,
                se1,
                se2,
                true,
                right_same,
                g,
            ),
        grown(old(arena).0@, final(arena).0@, old(queue)@, final(queue)@),
        final(arena).0@.len() <= old(arena).0@.len() + 4,
{
    let ghost a = arena.0@;
    let ghost q0 = queue@;
    proof {
        lemma_grown_start(a, q0);
        assert(a[pos(se1.0)].other_event is Some);
        assert(a[pos(se2.0)].other_event is Some);
    }
    let e1 = arena.0[se1.0];
    let e2 = arena.0[se2.0];
    let o1 = e1.other_event.unwrap();
    let o2 = e2.other_event.unwrap();
    let mut r0 = o1;
    let mut r1 = o2;
    if !right_same {
        let c = cmp_events(arena, &o1, &o2);
        match c {
            Ordering::Greater => {
                r0 = o2;
                r1 = o1;
            },
            _ => {},
        }
        proof {
            assert forall|g: spec_fn(Seq<SweepEvent<P>>, SweepEventId, SweepEventId) -> Ordering|
                #[trigger] events_answered_as(cmp_events, g) implies ordered_pair(a, o1, o2, g) == seq![r0, r1] by {
                assert(c == g(a, o1, o2));
            }
        }
    }
    proof {
        assert(a[pos(r0.0)].other_event is Some);
        assert(a[pos(r1.0)].other_event is Some);
    }
    let mut n2 = e2;
    n2.edge_type = EdgeType::NonContributing;
    arena.0.set(se2.0, n2);
    let mut n1 = arena.0[se1.0];
    n1.edge_type = if e2.in_out == e1.in_out {
        EdgeType::SameTransition
    } else {
        EdgeType::DifferentTransition
    };
    arena.0.set(se1.0, n1);
    let ghost m = arena.0@;
    proof {
        assert(m == overlap_marked(a, se1, se2)) by {
            reveal(overlap_marked);
        }
        lemma_overlap_marked(a, se1, se2, q0);
    }
    if !right_same {
        let target = arena.0[r1.0].other_event.unwrap();
        let at = arena.0[r0.0].point;
        divide_segment(target, at, queue, arena, cmp_events);
        proof {
            lemma_grown_divide(a, m, arena.0@, q0, q0, queue@, target, at);
        }
    }
}

/// Handles the overlap of the edges of `se1` and `se2`, which start at
/// different points: the edge that starts first is split where the other
/// starts, and, unless they share their right endpoint, the edge that ends
/// last where the other ends.
fn split_overlap_staggered<
    P: Copy,
    C: Fn(&SweepEventArena<P>, &SweepEventId, &SweepEventId) -> Ordering + Copy,
>(
    se1: SweepEventId,
    se2: SweepEventId,
    right_same: bool,
    queue: &mut MinHeapByCompareEvents,
    arena: &mut SweepEventArena<P>,
    cmp_events: C,
)
    requires
        se1.0 < old(arena).0@.len(),
        se2.0 < old(arena).0@.len(),
        paired(old(arena).0@),
        numbered(old(arena).0@),
        old(arena).0@.len() + 4 <= usize::MAX,
        old(queue)@.len() + 4 < usize::MAX,
        events_comparator(cmp_events),
    ensures
        forall|g: spec_fn(Seq<SweepEvent<P>>, SweepEventId, SweepEventId) -> Ordering|
            #[trigger] events_answered_as(cmp_events, g) ==> final(arena).0@ == after_overlap(
                old(arena).0@,
                se1,
                se2,
                false,
                right_same,
                g,
            ),
        grown(old(arena).0@, final(arena).0@, old(queue)@, final(queue)@),
        final(arena).0@.len() <= old(arena).0@.len() + 4,
{
    let ghost a = arena.0@;
    let ghost q0 = queue@;
    proof {
        lemma_grown_start(a, q0);
        assert(a[pos(se1.0)].other_event is Some);
        assert(a[pos(se2.0)].other_event is Some);
    }
    let e1 = arena.0[se1.0];
    let e2 = arena.0[se2.0];
    let o1 = e1.other_event.unwrap();
    let o2 = e2.other_event.unwrap();
    let mut l0 = se1;
    let mut l1 = se2;
    let c = cmp_events(arena, &se1, &se2);
    match c {
        Ordering::Greater => {
            l0 = se2;
            l1 = se1;
        },
        _ => {},
    }
    proof {
        assert forall|g: spec_fn(Seq<SweepEvent<P>>, SweepEventId, SweepEventId) -> Ordering|
            #[trigger] events_answered_as(cmp_events, g) implies ordered_pair(a, se1, se2, g) == seq![l0, l1] by {
            assert(c == g(a, se1, se2));
        }
    }
    let mut r0 = o1;
    let mut r1 = o2;
    if !right_same {
        let c = cmp_events(arena, &o1, &o2);
        match c {
            Ordering::Greater => {
                r0 = o2;
                r1 = o1;
            },
            _ => {},
        }
        proof {
            assert forall|g: spec_fn(Seq<SweepEvent<P>>, SweepEventId, SweepEventId) -> Ordering|
                #[trigger] events_answered_as(cmp_events, g) implies ordered_pair(a, o1, o2, g) == seq![r0, r1] by {
                assert(c == g(a, o1, o2));
            }
        }
    }
    proof {
        assert(a[pos(r0.0)].other_event is Some);
        assert(a[pos(r1.0)].other_event is Some);
    }
    if right_same {
        let at = arena.0[l1.0].point;
        divide_segment(l0, at, queue, arena, cmp_events);
        proof {
            lemma_grown_divide(a, a, arena.0@, q0, q0, queue@, l0, at);
        }
        return;
    }
    let apart = l0 != arena.0[r1.0].other_event.unwrap();
    let at = arena.0[l1.0].point;
    divide_segment(l0, at, queue, arena, cmp_events);
    let ghost a1 = arena.0@;
    let ghost qa = queue@;
    proof {
        lemma_grown_divide(a, a, a1, q0, q0, qa, l0, at);
        assert(a1[pos(r1.0)].other_event is Some);
    }
    if apart {
        let at2 = arena.0[r0.0].point;
        divide_segment(l1, at2, queue, arena, cmp_events);
        proof {
            lemma_grown_divide(a, a1, arena.0@, q0, qa, queue@, l1, at2);
        }
    } else {
        let target = arena.0[r1.0].other_event.unwrap();
        let at2 = arena.0[r0.0].point;
        divide_segment(target, at2, queue, arena, cmp_events);
        proof {
            lemma_grown_divide(a, a1, arena.0@, q0, qa, queue@, target, at2);
        }
    }
}

/// Handles the meeting of the edges of `se1` and `se2`, which meet at the
/// points `inter` (as the segment intersection finds them), with
/// `same_point` telling equal points apart: edges that do not meet, meet
/// at a shared endpoint, or overlap within one polygon are left alone (0);
/// edges that cross are split at the crossing (1); edges that overlap are
/// split at the ends of the overlap (3), and where they share their left
/// endpoint the overlap is marked on the two left events (2).  Every new
/// event joins the queue.
pub fn possible_intersection<
    P: Copy,
    E: Fn(&P, &P) -> bool + Copy,
    C: Fn(&SweepEventArena<P>, &SweepEventId, &SweepEventId) -> Ordering + Copy,
>(
    se1: SweepEventId,
    se2: SweepEventId,
    inter: Option<Vec<P>>,
    queue: &mut MinHeapByCompareEvents,
    arena: &mut SweepEventArena<P>,
    same_point: E,
    cmp_events: C,
) -> (r: usize)
    requires
        se1.0 < old(arena).0@.len(),
        se2.0 < old(arena).0@.len(),
        paired(old(arena).0@),
        numbered(old(arena).0@),
        old(arena).0@.len() + 4 <= usize::MAX,
        old(queue)@.len() + 4 < usize::MAX,
        point_test(same_point),
        events_comparator(cmp_events),
    ensures
        forall|
            f: spec_fn(P, P) -> bool,
            g: spec_fn(Seq<SweepEvent<P>>, SweepEventId, SweepEventId) -> Ordering,
        |
            #[trigger] points_answered_as(same_point, f) && #[trigger] events_answered_as(cmp_events, g) ==> {
                &&& r == meeting_kind(old(arena).0@, se1, se2, points_of(inter), f)
                &&& final(arena).0@ == after_meeting(old(arena).0@, se1, se2, points_of(inter), f, g)
            },
        r <= 3,
        r == 0 ==> final(arena).0@ == old(arena).0@ && final(queue)@ == old(queue)@,
        grown(old(arena).0@, final(arena).0@, old(queue)@, final(queue)@),
        final(arena).0@.len() <= old(arena).0@.len() + 4,
{
    let ghost a = arena.0@;
    let ghost q0 = queue@;
    proof {
        lemma_grown_start(a, q0);
    }
    let pts = match inter {
        Some(v) => v,
        None => {
            return 0;
        },
    };
    if pts.len() == 0 {
        return 0;
    }
    proof {
        assert(a[pos(se1.0)].other_event is Some);
        assert(a[pos(se2.0)].other_event is Some);
    }
    let e1 = arena.0[se1.0];
    let e2 = arena.0[se2.0];
    let o1 = e1.other_event.unwrap();
    let o2 = e2.other_event.unwrap();
    let left_same = same_point(&e1.point, &e2.point);
    let right_same = same_point(&arena.0[o1.0].point, &arena.0[o2.0].point);
    let n = pts.len();
    if n == 1 && (left_same || right_same) {
        return 0;
    }
    if n == 2 && e1.is_subject == e2.is_subject {
        return 0;
    }
    if n == 1 {
        split_at_crossing(se1, se2, pts[0], queue, arena, same_point, cmp_events);
        return 1;
    }
    if left_same {
        split_overlap_from_left(se1, se2, right_same, queue, arena, cmp_events);
        2
    } else {
        split_overlap_staggered(se1, se2, right_same, queue, arena, cmp_events);
        3
    }
}

/// What two edges have in common decides how they are handled: edges that
/// do not meet, that meet only at an endpoint they share, or that overlap
/// within one polygon are left alone; edges that meet at one other point
/// cross there; edges of different polygons that overlap are marked when
/// they start at the same point, and split otherwise.
pub proof fn law_meeting_kind<P>(
    a: Seq<SweepEvent<P>>,
    se1: SweepEventId,
    se2: SweepEventId,
    inter: Option<Seq<P>>,
    f: spec_fn(P, P) -> bool,
)
    ensures
        ({
            let k = meeting_kind(a, se1, se2, inter, f);
            let same_left = f(point_of(a, se1), point_of(a, se2));
            let same_right = f(point_of(a, partner(a, se1)), point_of(a, partner(a, se2)));
            let same_polygon = a[pos(se1.0)].is_subject == a[pos(se2.0)].is_subject;
            &&& (inter is None || inter.unwrap().len() == 0) ==> k == 0
            &&& (inter matches Some(pts) && pts.len() == 1 && (same_left || same_right)) ==> k == 0
            &&& (inter matches Some(pts) && pts.len() == 1 && !same_left && !same_right) ==> k == 1
            &&& (inter matches Some(pts) && pts.len() == 2 && same_polygon) ==> k == 0
            &&& (inter matches Some(pts) && pts.len() == 2 && !same_polygon && same_left) ==> k == 2
            &&& (inter matches Some(pts) && pts.len() == 2 && !same_polygon && !same_left) ==> k == 3
            &&& k <= 3
        }),
{
}

/// Where edges cross, each is split at the crossing exactly when the
/// crossing is not one of its endpoints: the arena gains two events per
/// edge split, and no point changes.
pub proof fn law_crossing_splits<P>(
    a: Seq<SweepEvent<P>>,
    se1: SweepEventId,
    se2: SweepEventId,
    x: P,
    f: spec_fn(P, P) -> bool,
    g: spec_fn(Seq<SweepEvent<P>>, SweepEventId, SweepEventId) -> Ordering,
)
    requires
        paired(a),
        numbered(a),
        se1.0 < a.len(),
        se2.0 < a.len(),
        a.len() + 4 <= usize::MAX,
    ensures
        ({
            let inside1 = !f(point_of(a, se1), x) && !f(point_of(a, partner(a, se1)), x);
            let inside2 = !f(point_of(a, se2), x) && !f(point_of(a, partner(a, se2)), x);
            let r = after_crossing(a, se1, se2, x, f, g);
            &&& r.len() == a.len() + (if inside1 { 2int } else { 0int }) + (if inside2 { 2int } else { 0int })
            &&& forall|i: int| 0 <= i < a.len() ==> (#[trigger] r[i]).point == a[i].point
        }),
{
    let inside1 = !f(point_of(a, se1), x) && !f(point_of(a, partner(a, se1)), x);
    let a1 = split_inside(a, se1, point_of(a, se1), point_of(a, partner(a, se1)), x, f, g);
    if inside1 {
        lemma_divided(a, se1, x, flip_of(a, se1, x, g));
    }
    assert forall|i: int| 0 <= i < a.len() implies (#[trigger] a1[i]).point == a[i].point by {}
    assert(paired(a1) && numbered(a1));
    let r = after_crossing(a, se1, se2, x, f, g);
    if !f(point_of(a, se2), x) && !f(point_of(a, partner(a, se2)), x) {
        lemma_divided(a1, se2, x, flip_of(a1, se2, x, g));
    }
    assert forall|i: int| 0 <= i < a.len() implies (#[trigger] r[i]).point == a[i].point by {
        assert(a1[i].point == a[i].point);
    }
}

} // verus!
