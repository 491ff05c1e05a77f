//! The events of the input: one pair per edge of every ring, each pushed on
//! the queue.
use core::cmp::Ordering;
use vstd::multiset::Multiset;
use vstd::prelude::*;

use crate::divide_segment::{
    events_answered_as, events_comparator, lemma_new_ids_join, lemma_new_ids_len, new_ids, numbered, paired, push_event,
};
use crate::min_heap::MinHeapByCompareEvents;
use crate::operation::Operation;
use crate::possible_intersection::{point_test, points_answered_as};
use crate::sweep_event::{id_of, SweepEvent, SweepEventArena, SweepEventId};
use crate::vec_ops::{pos, sidx, slen};

verus! {

/// The first `n` edges of `ring` (edge `j` runs from point `j` to point
/// `j + 1`), without those whose two ends `f` finds equal.
pub open spec fn kept_edges<P>(ring: Seq<P>, f: spec_fn(P, P) -> bool, n: int) -> Seq<(P, P)>
    decreases n,
{
    if n <= 0 {
        Seq::empty()
    } else if f(ring[n - 1], ring[n]) {
        kept_edges(ring, f, n - 1)
    } else {
        kept_edges(ring, f, n - 1).push((ring[n - 1], ring[n]))
    }
}

/// The number of edges of `ring`.
pub open spec fn edge_count<P>(ring: Seq<P>) -> int {
    if ring.len() == 0 {
        0
    } else {
        ring.len() - 1
    }
}

/// Events `i` and `i + 1` of `a` are the two ends of one edge: numbered,
/// linked to each other, of one polygon, contour and ring kind, one of them
/// the left end.
pub open spec fn edge_pair<P>(a: Seq<SweepEvent<P>>, i: int) -> bool {
    &&& a[i].id == id_of(i)
    &&& a[i + 1].id == id_of(i + 1)
    &&& a[i].other_event == Some(id_of(i + 1))
    &&& a[i + 1].other_event == Some(id_of(i))
    &&& a[i].left != a[i + 1].left
    &&& a[i].is_subject == a[i + 1].is_subject
    &&& a[i].contour_id == a[i + 1].contour_id
    &&& a[i].is_exterior_ring == a[i + 1].is_exterior_ring
}

/// `a` is `a0` followed by pairs of events, one pair per edge, each of the
/// polygon, contour and ring kind given.
pub open spec fn pairs_appended<P>(
    a0: Seq<SweepEvent<P>>,
    a: Seq<SweepEvent<P>>,
    is_subject: bool,
    depth: i64,
    is_exterior_ring: bool,
) -> bool {
    &&& a0.len() <= a.len()
    &&& (a.len() - a0.len()) % 2 == 0
    &&& forall|i: int| 0 <= i < a0.len() ==> #[trigger] a[i] == a0[i]
    &&& forall|k: int|
        0 <= k < (a.len() - a0.len()) / 2 ==> #[trigger] edge_pair(a, a0.len() + 2 * k) && a[a0.len() + 2
            * k].is_subject == is_subject && a[a0.len() + 2 * k].contour_id == depth && a[a0.len() + 2
            * k].is_exterior_ring == is_exterior_ring
}

/// The pairs of events appended to `a0` in `a` have the ends of `edges`,
/// in order, as their points.
pub open spec fn pair_points<P>(a0: Seq<SweepEvent<P>>, a: Seq<SweepEvent<P>>, edges: Seq<(P, P)>) -> bool {
    &&& a.len() == a0.len() + 2 * edges.len()
    &&& forall|k: int|
        0 <= k < edges.len() ==> a[a0.len() + 2 * k].point == (#[trigger] edges[k]).0 && a[a0.len() + 2 * k
            + 1].point == edges[k].1
}

/// The arena as it stood when the pair at `i` was compared: what came
/// before it, then its two events, neither yet a left end.
pub open spec fn before_sides<P>(a: Seq<SweepEvent<P>>, i: int) -> Seq<SweepEvent<P>> {
    a.subrange(0, i).push(SweepEvent { left: false, ..a[i] }).push(SweepEvent { left: false, ..a[i + 1] })
}

/// Of the pair at `i`, the first event is the left end exactly when the
/// comparator `g` did not put it after the second; the other is not.
pub open spec fn left_end_first<P>(
    a: Seq<SweepEvent<P>>,
    i: int,
    g: spec_fn(Seq<SweepEvent<P>>, SweepEventId, SweepEventId) -> Ordering,
) -> bool {
    &&& a[i].left == (g(before_sides(a, i), id_of(i), id_of(i + 1)) != Ordering::Greater)
    &&& a[i + 1].left == !a[i].left
}

/// In every pair appended to `a0` in `a`, the left end is the one that the
/// comparator `g` puts first.
pub open spec fn sides_by<P>(
    a0: Seq<SweepEvent<P>>,
    a: Seq<SweepEvent<P>>,
    g: spec_fn(Seq<SweepEvent<P>>, SweepEventId, SweepEventId) -> Ordering,
) -> bool {
    forall|k: int| 0 <= k < (a.len() - a0.len()) / 2 ==> #[trigger] left_end_first(a, a0.len() + 2 * k, g)
}

/// Appending to an arena keeps what was said of its earlier pairs.
proof fn lemma_sides_kept<P>(
    a0: Seq<SweepEvent<P>>,
    a1: Seq<SweepEvent<P>>,
    a2: Seq<SweepEvent<P>>,
    g: spec_fn(Seq<SweepEvent<P>>, SweepEventId, SweepEventId) -> Ordering,
)
    requires
        a0.len() <= a1.len() <= a2.len(),
        (a1.len() - a0.len()) % 2 == 0,
        forall|i: int| 0 <= i < a1.len() ==> #[trigger] a2[i] == a1[i],
        sides_by(a0, a1, g),
    ensures
        forall|k: int| 0 <= k < (a1.len() - a0.len()) / 2 ==> #[trigger] left_end_first(a2, a0.len() + 2 * k, g),
{
    assert forall|k: int| 0 <= k < (a1.len() - a0.len()) / 2 implies #[trigger] left_end_first(a2, a0.len() + 2 * k, g) by {
        let i = a0.len() + 2 * k;
        assert(left_end_first(a1, i, g));
        assert(a2[i] == a1[i]);
        assert(a2[i + 1] == a1[i + 1]);
        assert(before_sides(a2, i) =~= before_sides(a1, i));
    }
}

/// Two stretches of appended pairs make one.
proof fn lemma_sides_join<P>(
    a0: Seq<SweepEvent<P>>,
    a1: Seq<SweepEvent<P>>,
    a2: Seq<SweepEvent<P>>,
    g: spec_fn(Seq<SweepEvent<P>>, SweepEventId, SweepEventId) -> Ordering,
)
    requires
        a0.len() <= a1.len() <= a2.len(),
        (a1.len() - a0.len()) % 2 == 0,
        (a2.len() - a1.len()) % 2 == 0,
        forall|i: int| 0 <= i < a1.len() ==> #[trigger] a2[i] == a1[i],
        sides_by(a0, a1, g),
        sides_by(a1, a2, g),
    ensures
        sides_by(a0, a2, g),
{
    lemma_sides_kept(a0, a1, a2, g);
    assert forall|k: int| 0 <= k < (a2.len() - a0.len()) / 2 implies #[trigger] left_end_first(a2, a0.len() + 2 * k, g) by {
        if a0.len() + 2 * k >= a1.len() {
            let k1 = k - (a1.len() - a0.len()) / 2;
            assert(a0.len() + 2 * k == a1.len() + 2 * k1);
            assert(left_end_first(a2, a1.len() + 2 * k1, g));
        }
    }
}

/// One more pair of the given kind keeps the pairs appended.
proof fn lemma_pairs_appended_step<P>(
    a0: Seq<SweepEvent<P>>,
    a1: Seq<SweepEvent<P>>,
    a2: Seq<SweepEvent<P>>,
    is_subject: bool,
    depth: i64,
    is_exterior_ring: bool,
)
    requires
        pairs_appended(a0, a1, is_subject, depth, is_exterior_ring),
        a2.len() == a1.len() + 2,
        forall|j: int| 0 <= j < a1.len() ==> #[trigger] a2[j] == a1[j],
        edge_pair(a2, slen(a1)),
        a2[slen(a1)].is_subject == is_subject,
        a2[slen(a1)].contour_id == depth,
        a2[slen(a1)].is_exterior_ring == is_exterior_ring,
    ensures
        pairs_appended(a0, a2, is_subject, depth, is_exterior_ring),
{
    let n = slen(a1);
    assert forall|j: int| 0 <= j < a0.len() implies #[trigger] a2[j] == a0[j] by {
        assert(a1[j] == a0[j]);
    }
    assert forall|k: int| 0 <= k < (a2.len() - a0.len()) / 2 implies #[trigger] edge_pair(a2, a0.len() + 2 * k)
        && a2[a0.len() + 2 * k].is_subject == is_subject && a2[a0.len() + 2 * k].contour_id == depth
        && a2[a0.len() + 2 * k].is_exterior_ring == is_exterior_ring by {
        if a0.len() + 2 * k < n {
            assert(edge_pair(a1, a0.len() + 2 * k));
            assert(a2[a0.len() + 2 * k] == a1[a0.len() + 2 * k]);
            assert(a2[a0.len() + 2 * k + 1] == a1[a0.len() + 2 * k + 1]);
        } else {
            assert(a0.len() + 2 * k == n);
        }
    }
}

/// Appends to the arena one pair of events for each edge of the ring
/// `contour_or_hole` whose two ends `same_point` does not find equal, with
/// the polygon, contour and ring kind given; the end that `cmp_events` puts
/// first is the left one.  Both events are pushed on the queue.
pub fn process_polygon<
    P: Copy,
    C: Fn(&SweepEventArena<P>, &SweepEventId, &SweepEventId) -> Ordering + Copy,
    E: Fn(&P, &P) -> bool + Copy,
>(
    contour_or_hole: &[P],
    is_subject: bool,
    depth: i64,
    is_exterior_ring: bool,
    q: &mut MinHeapByCompareEvents,
    arena: &mut SweepEventArena<P>,
    cmp_events: C,
    same_point: E,
)
    requires
        old(arena).0@.len() + 2 * contour_or_hole@.len() <= usize::MAX,
        old(q)@.len() + 2 * contour_or_hole@.len() < usize::MAX,
        events_comparator(cmp_events),
        point_test(same_point),
    ensures
        pairs_appended(old(arena).0@, final(arena).0@, is_subject, depth, is_exterior_ring),
        final(arena).0@.len() <= old(arena).0@.len() + 2 * edge_count(contour_or_hole@),
        forall|f: spec_fn(P, P) -> bool|
            #[trigger] points_answered_as(same_point, f) ==> pair_points(
                old(arena).0@,
                final(arena).0@,
                kept_edges(contour_or_hole@, f, edge_count(contour_or_hole@)),
            ),
        forall|g: spec_fn(Seq<SweepEvent<P>>, SweepEventId, SweepEventId) -> Ordering|
            #[trigger] events_answered_as(cmp_events, g) ==> sides_by(old(arena).0@, final(arena).0@, g),
        final(q)@ == old(q)@.add(new_ids(slen(old(arena).0@), slen(final(arena).0@))),
{
    let ghost a0 = arena.0@;
    let ghost q0 = q@;
    let ghost ring = contour_or_hole@;
    if contour_or_hole.len() == 0 {
        proof {
            assert(new_ids(slen(a0), slen(a0)) =~= Multiset::empty());
            assert(q0 =~= q0.add(new_ids(slen(a0), slen(a0))));
        }
        return;
    }
    let mut i: usize = 0;
    proof {
        assert(new_ids(slen(a0), slen(a0)) =~= Multiset::empty());
        assert(q0 =~= q0.add(new_ids(slen(a0), slen(a0))));
    }
    while i + 1 < contour_or_hole.len()
        invariant
            ring == contour_or_hole@,
            ring.len() > 0,
            0 <= i < ring.len(),
            pairs_appended(a0, arena.0@, is_subject, depth, is_exterior_ring),
            arena.0@.len() <= a0.len() + 2 * i,
            a0.len() + 2 * ring.len() <= usize::MAX,
            q0.len() + 2 * ring.len() < usize::MAX,
            forall|f: spec_fn(P, P) -> bool|
                #[trigger] points_answered_as(same_point, f) ==> pair_points(a0, arena.0@, kept_edges(ring, f, pos(i))),
            q@ == q0.add(new_ids(slen(a0), slen(arena.0@))),
            forall|g: spec_fn(Seq<SweepEvent<P>>, SweepEventId, SweepEventId) -> Ordering|
                #[trigger] events_answered_as(cmp_events, g) ==> sides_by(a0, arena.0@, g),
            events_comparator(cmp_events),
            point_test(same_point),
        decreases ring.len() - i,
    {
        let s1 = contour_or_hole[i];
        let s2 = contour_or_hole[i + 1];
        let ghost a1 = arena.0@;
        let ghost ii: int = pos(i);
        if same_point(&s1, &s2) {
            proof {
                assert forall|f: spec_fn(P, P) -> bool| #[trigger] points_answered_as(same_point, f) implies pair_points(
                    a0,
                    arena.0@,
                    kept_edges(ring, f, ii + 1),
                ) by {
                    assert(f(ring[ii], ring[ii + 1]));
                }
            }
            i = i + 1;
            continue;
        }
        let (_, e1_id) = SweepEvent::new(s1, false, None, is_subject, None, arena);
        let (_, e2_id) = SweepEvent::new(s2, false, Some(e1_id), is_subject, None, arena);
        arena.0[e1_id.0].other_event = Some(e2_id);
        arena.0[e1_id.0].contour_id = depth;
        arena.0[e2_id.0].contour_id = depth;
        if !is_exterior_ring {
            arena.0[e1_id.0].is_exterior_ring = false;
            arena.0[e2_id.0].is_exterior_ring = false;
        }
        let ghost mid = arena.0@;
        let c = cmp_events(arena, &e1_id, &e2_id);
        match c {
            Ordering::Greater => {
                arena.0[e2_id.0].left = true;
            },
            _ => {
                arena.0[e1_id.0].left = true;
            },
        }
        let ghost a2 = arena.0@;
        proof {
            let n = slen(a1);
            assert(a2.len() == n + 2);
            assert(edge_pair(a2, n));
            assert forall|j: int| 0 <= j < a1.len() implies #[trigger] a2[j] == a1[j] by {}
            lemma_pairs_appended_step(a0, a1, a2, is_subject, depth, is_exterior_ring);
            assert forall|f: spec_fn(P, P) -> bool| #[trigger] points_answered_as(same_point, f) implies pair_points(
                a0,
                a2,
                kept_edges(ring, f, ii + 1),
            ) by {
                assert(!f(ring[ii], ring[ii + 1]));
                let e = kept_edges(ring, f, ii);
                assert(kept_edges(ring, f, ii + 1) == e.push((ring[ii], ring[ii + 1])));
                assert forall|k: int| 0 <= k < e.len() + 1 implies a2[a0.len() + 2 * k].point == (#[trigger] e.push(
                    (ring[ii], ring[ii + 1]),
                )[k]).0 && a2[a0.len() + 2 * k + 1].point == e.push((ring[ii], ring[ii + 1]))[k].1 by {
                    if k < e.len() {
                        assert(a2[a0.len() + 2 * k] == a1[a0.len() + 2 * k]);
                        assert(a2[a0.len() + 2 * k + 1] == a1[a0.len() + 2 * k + 1]);
                        assert(e.push((ring[ii], ring[ii + 1]))[k] == e[k]);
                    }
                }
            }
        }
        proof {
            lemma_new_ids_len(slen(a0), slen(a1));
            let n = slen(a1);
            assert(before_sides(a2, n) =~= mid);
            assert forall|g: spec_fn(Seq<SweepEvent<P>>, SweepEventId, SweepEventId) -> Ordering|
                #[trigger] events_answered_as(cmp_events, g) implies sides_by(a0, a2, g) by {
                assert(c == g(mid, e1_id, e2_id));
                assert(left_end_first(a2, n, g));
                lemma_sides_kept(a0, a1, a2, g);
                assert forall|k: int| 0 <= k < (a2.len() - a0.len()) / 2 implies #[trigger] left_end_first(
                    a2,
                    a0.len() + 2 * k,
                    g,
                ) by {
                    if a0.len() + 2 * k == n {
                    }
                }
            }
        }
        push_event(q, e1_id, arena, cmp_events);
        push_event(q, e2_id, arena, cmp_events);
        proof {
            let n = slen(a1);
            assert(new_ids(slen(a0), n + 1) == new_ids(slen(a0), n).insert(id_of(n)));
            assert(new_ids(slen(a0), n + 2) == new_ids(slen(a0), n + 1).insert(id_of(n + 1)));
            assert(q@ =~= q0.add(new_ids(slen(a0), slen(arena.0@))));
            lemma_new_ids_len(slen(a0), n);
        }
        i = i + 1;
    }
}

/// The number of points of the first `n` rings of `rings`.
pub open spec fn ring_total<P>(rings: Seq<Vec<P>>, n: int) -> int
    decreases n,
{
    if n <= 0 {
        0
    } else {
        ring_total(rings, n - 1) + rings[n - 1]@.len()
    }
}

/// The number of points of the first `n` polygons of `polys`.
pub open spec fn point_total<P>(polys: Seq<Vec<Vec<P>>>, n: int) -> int
    decreases n,
{
    if n <= 0 {
        0
    } else {
        point_total(polys, n - 1) + ring_total(polys[n - 1]@, slen(polys[n - 1]@))
    }
}

proof fn lemma_ring_total_mono<P>(rings: Seq<Vec<P>>, m: int, n: int)
    requires
        0 <= m <= n,
    ensures
        0 <= ring_total(rings, m) <= ring_total(rings, n),
    decreases n,
{
    if m < n {
        lemma_ring_total_mono(rings, m, n - 1);
    } else if n > 0 {
        lemma_ring_total_mono(rings, n - 1, n - 1);
    }
}

proof fn lemma_point_total_mono<P>(polys: Seq<Vec<Vec<P>>>, m: int, n: int)
    requires
        0 <= m <= n,
    ensures
        0 <= point_total(polys, m) <= point_total(polys, n),
    decreases n,
{
    if n > 0 {
        lemma_ring_total_mono(polys[n - 1]@, 0, slen(polys[n - 1]@));
        if m < n {
            lemma_point_total_mono(polys, m, n - 1);
        } else {
            lemma_point_total_mono(polys, n - 1, n - 1);
        }
    }
}

/// `a` is `a0` followed by pairs of events, one pair per edge, those of the
/// subject polygons before `m`, those of the clipping polygons from `m` on,
/// with contours numbered up to `top`; under `no_clip_exterior` no clipping
/// ring is exterior.
pub open spec fn input_events<P>(
    a0: Seq<SweepEvent<P>>,
    a: Seq<SweepEvent<P>>,
    m: int,
    top: int,
    no_clip_exterior: bool,
) -> bool {
    &&& a0.len() <= m <= a.len()
    &&& (m - a0.len()) % 2 == 0
    &&& (a.len() - a0.len()) % 2 == 0
    &&& forall|i: int| 0 <= i < a0.len() ==> #[trigger] a[i] == a0[i]
    &&& forall|k: int| 0 <= k < (a.len() - a0.len()) / 2 ==> #[trigger] edge_pair(a, a0.len() + 2 * k)
    &&& forall|i: int|
        a0.len() <= i < a.len() ==> {
            &&& (#[trigger] a[i]).is_subject == (i < m)
            &&& 0 <= a[i].contour_id <= top
            &&& no_clip_exterior && i >= m ==> !a[i].is_exterior_ring
        }
}

/// `a` is `a0` followed by pairs of events, one pair per edge, all of the
/// subject or all of the clipping polygons, with contours numbered up to
/// `top`, and none of an exterior ring unless `exterior`.
pub open spec fn rings_appended<P>(
    a0: Seq<SweepEvent<P>>,
    a: Seq<SweepEvent<P>>,
    is_subject: bool,
    top: int,
    exterior: bool,
) -> bool {
    &&& a0.len() <= a.len()
    &&& (a.len() - a0.len()) % 2 == 0
    &&& forall|i: int| 0 <= i < a0.len() ==> #[trigger] a[i] == a0[i]
    &&& forall|k: int| 0 <= k < (a.len() - a0.len()) / 2 ==> #[trigger] edge_pair(a, a0.len() + 2 * k)
    &&& forall|i: int|
        a0.len() <= i < a.len() ==> {
            &&& (#[trigger] a[i]).is_subject == is_subject
            &&& 0 <= a[i].contour_id <= top
            &&& !exterior ==> !a[i].is_exterior_ring
        }
}

/// The edges of `ring` that get events, each with the polygon, contour and
/// ring kind its events carry: its two ends, whether it is of the subject,
/// its contour number, whether its ring is exterior.
pub open spec fn ring_edges<P>(
    ring: Seq<P>,
    f: spec_fn(P, P) -> bool,
    is_subject: bool,
    depth: int,
    exterior: bool,
) -> Seq<(P, P, bool, int, bool)> {
    kept_edges(ring, f, edge_count(ring)).map_values(|e: (P, P)| (e.0, e.1, is_subject, depth, exterior))
}

/// The pairs of events appended to `a0` in `a` are those of `edges`, in
/// order: the ends as points, and the polygon, contour and ring kind.
pub open spec fn pair_list<P>(a0: Seq<SweepEvent<P>>, a: Seq<SweepEvent<P>>, edges: Seq<(P, P, bool, int, bool)>) -> bool {
    &&& a.len() == a0.len() + 2 * edges.len()
    &&& forall|k: int|
        0 <= k < edges.len() ==> {
            &&& a[a0.len() + 2 * k].point == (#[trigger] edges[k]).0
            &&& a[a0.len() + 2 * k + 1].point == edges[k].1
            &&& a[a0.len() + 2 * k].is_subject == edges[k].2
            &&& a[a0.len() + 2 * k].contour_id == edges[k].3
            &&& a[a0.len() + 2 * k].is_exterior_ring == edges[k].4
        }
}

/// The edges of the first `m` rings of a polygon, whose contour is numbered
/// after `counter` when its first ring is exterior (`exterior`), and
/// `counter` otherwise.
pub open spec fn polygon_edges<P>(
    rings: Seq<Vec<P>>,
    m: int,
    is_subject: bool,
    exterior: bool,
    counter: int,
    f: spec_fn(P, P) -> bool,
) -> Seq<(P, P, bool, int, bool)>
    decreases m,
{
    if m <= 0 {
        Seq::empty()
    } else {
        polygon_edges(rings, m - 1, is_subject, exterior, counter, f) + ring_edges(
            rings[m - 1]@,
            f,
            is_subject,
            if exterior {
                counter + 1
            } else {
                counter
            },
            m - 1 == 0 && exterior,
        )
    }
}

/// How many of the first `n` polygons open a contour number: those with a
/// ring, when their first ring counts as exterior.
pub open spec fn opened<P>(polys: Seq<Vec<Vec<P>>>, n: int, exterior: bool) -> int
    decreases n,
{
    if n <= 0 {
        0
    } else {
        opened(polys, n - 1, exterior) + if exterior && polys[n - 1]@.len() > 0 {
            1int
        } else {
            0int
        }
    }
}

/// The edges of the first `n` polygons of a set, contours numbered after
/// `start`.
pub open spec fn set_edges<P>(
    polys: Seq<Vec<Vec<P>>>,
    n: int,
    is_subject: bool,
    exterior: bool,
    start: int,
    f: spec_fn(P, P) -> bool,
) -> Seq<(P, P, bool, int, bool)>
    decreases n,
{
    if n <= 0 {
        Seq::empty()
    } else {
        set_edges(polys, n - 1, is_subject, exterior, start, f) + polygon_edges(
            polys[n - 1]@,
            slen(polys[n - 1]@),
            is_subject,
            exterior,
            start + opened(polys, n - 1, exterior),
            f,
        )
    }
}

/// The edges of the input that get events, in the order the queue is
/// filled: the subject polygons, then the clipping polygons, whose first
/// rings are not exterior under a difference.
pub open spec fn input_edges<P>(
    subject: Seq<Vec<Vec<P>>>,
    clipping: Seq<Vec<Vec<P>>>,
    operation: Option<Operation>,
    f: spec_fn(P, P) -> bool,
) -> Seq<(P, P, bool, int, bool)> {
    set_edges(subject, slen(subject), true, true, 0, f) + set_edges(
        clipping,
        slen(clipping),
        false,
        !is_difference(operation),
        opened(subject, slen(subject), true),
        f,
    )
}

/// The pairs of one ring, as `process_polygon` states them, make its edges.
proof fn lemma_ring_pairs<P>(
    a0: Seq<SweepEvent<P>>,
    a: Seq<SweepEvent<P>>,
    ring: Seq<P>,
    f: spec_fn(P, P) -> bool,
    is_subject: bool,
    depth: i64,
    exterior: bool,
)
    requires
        pairs_appended(a0, a, is_subject, depth, exterior),
        pair_points(a0, a, kept_edges(ring, f, edge_count(ring))),
    ensures
        pair_list(a0, a, ring_edges(ring, f, is_subject, sidx(depth), exterior)),
{
    let e = ring_edges(ring, f, is_subject, sidx(depth), exterior);
    let ke = kept_edges(ring, f, edge_count(ring));
    assert forall|k: int| 0 <= k < e.len() implies {
        &&& a[a0.len() + 2 * k].point == (#[trigger] e[k]).0
        &&& a[a0.len() + 2 * k + 1].point == e[k].1
        &&& a[a0.len() + 2 * k].is_subject == e[k].2
        &&& a[a0.len() + 2 * k].contour_id == e[k].3
        &&& a[a0.len() + 2 * k].is_exterior_ring == e[k].4
    } by {
        assert(e[k] == (ke[k].0, ke[k].1, is_subject, sidx(depth), exterior));
        assert(ke[k] == ke[k]);
        assert(edge_pair(a, a0.len() + 2 * k));
    }
}

/// Two stretches of appended pairs make one.
proof fn lemma_pair_list_join<P>(
    a0: Seq<SweepEvent<P>>,
    a1: Seq<SweepEvent<P>>,
    a2: Seq<SweepEvent<P>>,
    e1: Seq<(P, P, bool, int, bool)>,
    e2: Seq<(P, P, bool, int, bool)>,
)
    requires
        pair_list(a0, a1, e1),
        pair_list(a1, a2, e2),
        forall|i: int| 0 <= i < a1.len() ==> #[trigger] a2[i] == a1[i],
    ensures
        pair_list(a0, a2, e1 + e2),
{
    let e = e1 + e2;
    assert forall|k: int| 0 <= k < e.len() implies {
        &&& a2[a0.len() + 2 * k].point == (#[trigger] e[k]).0
        &&& a2[a0.len() + 2 * k + 1].point == e[k].1
        &&& a2[a0.len() + 2 * k].is_subject == e[k].2
        &&& a2[a0.len() + 2 * k].contour_id == e[k].3
        &&& a2[a0.len() + 2 * k].is_exterior_ring == e[k].4
    } by {
        if k < e1.len() {
            assert(e[k] == e1[k]);
            assert(a2[a0.len() + 2 * k] == a1[a0.len() + 2 * k]);
            assert(a2[a0.len() + 2 * k + 1] == a1[a0.len() + 2 * k + 1]);
        } else {
            let k2 = k - e1.len();
            assert(e[k] == e2[k2]);
            assert(a0.len() + 2 * k == a1.len() + 2 * k2);
        }
    }
}

/// Appends the events of the rings of one polygon: its first ring is its
/// exterior (unless `exterior` is false) and opens a new contour number;
/// the other rings are its holes.
fn process_rings<
    P: Copy,
    C: Fn(&SweepEventArena<P>, &SweepEventId, &SweepEventId) -> Ordering + Copy,
    E: Fn(&P, &P) -> bool + Copy,
>(
    polygon: &Vec<Vec<P>>,
    is_subject: bool,
    exterior: bool,
    contour_id: &mut i64,
    q: &mut MinHeapByCompareEvents,
    arena: &mut SweepEventArena<P>,
    cmp_events: C,
    same_point: E,
)
    requires
        0 <= *old(contour_id) < i64::MAX,
        old(arena).0@.len() + 2 * ring_total(polygon@, slen(polygon@)) <= usize::MAX,
        old(q)@.len() + 2 * ring_total(polygon@, slen(polygon@)) < usize::MAX,
        events_comparator(cmp_events),
        point_test(same_point),
    ensures
        *old(contour_id) <= *final(contour_id) <= *old(contour_id) + 1,
        final(arena).0@.len() <= old(arena).0@.len() + 2 * ring_total(polygon@, slen(polygon@)),
        rings_appended(old(arena).0@, final(arena).0@, is_subject, sidx(*final(contour_id)), exterior),
        sidx(*final(contour_id)) == sidx(*old(contour_id)) + if exterior && polygon@.len() > 0 {
            1int
        } else {
            0int
        },
        forall|f: spec_fn(P, P) -> bool|
            #[trigger] points_answered_as(same_point, f) ==> pair_list(
                old(arena).0@,
                final(arena).0@,
                polygon_edges(polygon@, slen(polygon@), is_subject, exterior, sidx(*old(contour_id)), f),
            ),
        forall|g: spec_fn(Seq<SweepEvent<P>>, SweepEventId, SweepEventId) -> Ordering|
            #[trigger] events_answered_as(cmp_events, g) ==> sides_by(old(arena).0@, final(arena).0@, g),
        final(q)@ == old(q)@.add(new_ids(slen(old(arena).0@), slen(final(arena).0@))),
{
    let ghost a0 = arena.0@;
    let ghost q0 = q@;
    let ghost c0 = *contour_id;
    let mut j: usize = 0;
    proof {
        assert(new_ids(slen(a0), slen(a0)) =~= Multiset::empty());
        assert(q0 =~= q0.add(new_ids(slen(a0), slen(a0))));
        lemma_ring_total_mono(polygon@, 0, slen(polygon@));
    }
    while j < polygon.len()
        invariant
            0 <= j <= polygon@.len(),
            c0 <= *contour_id <= c0 + 1,
            j == 0 ==> *contour_id == c0,
            0 <= c0 < i64::MAX,
            a0.len() <= arena.0@.len() <= a0.len() + 2 * ring_total(polygon@, pos(j)),
            a0.len() + 2 * ring_total(polygon@, slen(polygon@)) <= usize::MAX,
            q0.len() + 2 * ring_total(polygon@, slen(polygon@)) < usize::MAX,
            (arena.0@.len() - a0.len()) % 2 == 0,
            forall|i: int| 0 <= i < a0.len() ==> #[trigger] arena.0@[i] == a0[i],
            forall|k: int| 0 <= k < (arena.0@.len() - a0.len()) / 2 ==> #[trigger] edge_pair(arena.0@, a0.len() + 2 * k),
            forall|i: int|
                a0.len() <= i < arena.0@.len() ==> {
                    &&& (#[trigger] arena.0@[i]).is_subject == is_subject
                    &&& 0 <= arena.0@[i].contour_id <= *contour_id
                    &&& !exterior ==> !arena.0@[i].is_exterior_ring
                },
            q@ == q0.add(new_ids(slen(a0), slen(arena.0@))),
            j > 0 ==> sidx(*contour_id) == sidx(c0) + if exterior {
                1int
            } else {
                0int
            },
            forall|f: spec_fn(P, P) -> bool|
                #[trigger] points_answered_as(same_point, f) ==> pair_list(
                    a0,
                    arena.0@,
                    polygon_edges(polygon@, pos(j), is_subject, exterior, sidx(c0), f),
                ),
            forall|g: spec_fn(Seq<SweepEvent<P>>, SweepEventId, SweepEventId) -> Ordering|
                #[trigger] events_answered_as(cmp_events, g) ==> sides_by(a0, arena.0@, g),
            events_comparator(cmp_events),
            point_test(same_point),
        decreases polygon@.len() - j,
    {
        let is_exterior_ring = j == 0 && exterior;
        if is_exterior_ring {
            *contour_id = *contour_id + 1;
        }
        let ghost a1 = arena.0@;
        let ghost q1 = q@;
        proof {
            lemma_ring_total_mono(polygon@, pos(j) + 1, slen(polygon@));
            lemma_new_ids_len(slen(a0), slen(a1));
            assert(ring_total(polygon@, pos(j) + 1) == ring_total(polygon@, pos(j)) + polygon@[pos(j)]@.len());
        }
        process_polygon(polygon[j].as_slice(), is_subject, *contour_id, is_exterior_ring, q, arena, cmp_events, same_point);
        proof {
            let a2 = arena.0@;
            let ring = polygon@[pos(j)]@;
            assert(polygon[pos(j)]@ == ring);
            assert forall|f: spec_fn(P, P) -> bool| #[trigger] points_answered_as(same_point, f) implies pair_list(
                a0,
                a2,
                polygon_edges(polygon@, pos(j) + 1, is_subject, exterior, sidx(c0), f),
            ) by {
                lemma_ring_pairs(a1, a2, ring, f, is_subject, *contour_id, is_exterior_ring);
                assert forall|i: int| 0 <= i < a1.len() implies #[trigger] a2[i] == a1[i] by {}
                lemma_pair_list_join(
                    a0,
                    a1,
                    a2,
                    polygon_edges(polygon@, pos(j), is_subject, exterior, sidx(c0), f),
                    ring_edges(ring, f, is_subject, sidx(*contour_id), is_exterior_ring),
                );
            }
            assert forall|g: spec_fn(Seq<SweepEvent<P>>, SweepEventId, SweepEventId) -> Ordering|
                #[trigger] events_answered_as(cmp_events, g) implies sides_by(a0, a2, g) by {
                assert forall|i: int| 0 <= i < a1.len() implies #[trigger] a2[i] == a1[i] by {}
                lemma_sides_join(a0, a1, a2, g);
            }
            lemma_new_ids_join(slen(a0), slen(a1), slen(a2));
            assert(q@ =~= q0.add(new_ids(slen(a0), slen(a2))));
            assert forall|i: int| 0 <= i < a0.len() implies #[trigger] a2[i] == a0[i] by {
                assert(a2[i] == a1[i]);
            }
            assert forall|k: int| 0 <= k < (a2.len() - a0.len()) / 2 implies #[trigger] edge_pair(a2, a0.len() + 2 * k) by {
                if a0.len() + 2 * k < a1.len() {
                    assert(edge_pair(a1, a0.len() + 2 * k));
                    assert(a2[a0.len() + 2 * k] == a1[a0.len() + 2 * k]);
                    assert(a2[a0.len() + 2 * k + 1] == a1[a0.len() + 2 * k + 1]);
                } else {
                    let k1 = k - (a1.len() - a0.len()) / 2;
                    assert(a0.len() + 2 * k == a1.len() + 2 * k1);
                    assert(edge_pair(a2, a1.len() + 2 * k1));
                }
            }
            assert forall|i: int| a0.len() <= i < a2.len() implies {
                &&& (#[trigger] a2[i]).is_subject == is_subject
                &&& 0 <= a2[i].contour_id <= *contour_id
                &&& !exterior ==> !a2[i].is_exterior_ring
            } by {
                if i < a1.len() {
                    assert(a2[i] == a1[i]);
                } else {
                    let k1 = (i - a1.len()) / 2;
                    assert(a1.len() + 2 * k1 == i || a1.len() + 2 * k1 + 1 == i);
                    assert(edge_pair(a2, a1.len() + 2 * k1));
                }
            }
        }
        j = j + 1;
    }
}

/// The operation is a difference.
pub open spec fn is_difference(operation: Option<Operation>) -> bool {
    operation == Some(Operation::Difference)
}

/// The events of one more polygon extend the events of the input.
proof fn lemma_input_events_extend<P>(
    a0: Seq<SweepEvent<P>>,
    a1: Seq<SweepEvent<P>>,
    a2: Seq<SweepEvent<P>>,
    m: int,
    top: int,
    new_top: int,
    no_clip_exterior: bool,
    is_subject: bool,
    exterior: bool,
)
    requires
        input_events(a0, a1, m, top, no_clip_exterior),
        rings_appended(a1, a2, is_subject, new_top, exterior),
        top <= new_top,
        is_subject ==> m == a1.len(),
        !is_subject && no_clip_exterior ==> !exterior,
    ensures
        input_events(a0, a2, if is_subject { a2.len() as int } else { m }, new_top, no_clip_exterior),
{
    let m2 = if is_subject { a2.len() as int } else { m };
    assert forall|i: int| 0 <= i < a0.len() implies #[trigger] a2[i] == a0[i] by {
        assert(a2[i] == a1[i]);
    }
    assert forall|k: int| 0 <= k < (a2.len() - a0.len()) / 2 implies #[trigger] edge_pair(a2, a0.len() + 2 * k) by {
        if a0.len() + 2 * k < a1.len() {
            assert(edge_pair(a1, a0.len() + 2 * k));
            assert(a2[a0.len() + 2 * k] == a1[a0.len() + 2 * k]);
            assert(a2[a0.len() + 2 * k + 1] == a1[a0.len() + 2 * k + 1]);
        } else {
            let k1 = k - (a1.len() - a0.len()) / 2;
            assert(a0.len() + 2 * k == a1.len() + 2 * k1);
            assert(edge_pair(a2, a1.len() + 2 * k1));
        }
    }
    assert forall|i: int| a0.len() <= i < a2.len() implies {
        &&& (#[trigger] a2[i]).is_subject == (i < m2)
        &&& 0 <= a2[i].contour_id <= new_top
        &&& no_clip_exterior && i >= m2 ==> !a2[i].is_exterior_ring
    } by {
        if i < a1.len() {
            assert(a2[i] == a1[i]);
        }
    }
}

/// The events of the input, put in an empty arena, are all paired and
/// numbered, as the sweep needs them.
pub proof fn lemma_input_events_ready<P>(a: Seq<SweepEvent<P>>, m: int, top: int, no_clip_exterior: bool)
    requires
        input_events(Seq::empty(), a, m, top, no_clip_exterior),
    ensures
        paired(a),
        numbered(a),
{
    assert forall|i: int| 0 <= i < a.len() implies (#[trigger] a[i]).other_event is Some && a[i].other_event.unwrap().0
        < a.len() && a[i].id == id_of(i) by {
        let k = i / 2;
        assert(edge_pair(a, 0 + 2 * k));
    }
}

/// Fills the queue with the events of the input: first the rings of the
/// subject polygons, then those of the clipping polygons.  The first ring of
/// a polygon is its exterior and opens a new contour number; under a
/// difference no clipping ring counts as exterior.
pub fn fill_queue<
    P: Copy,
    C: Fn(&SweepEventArena<P>, &SweepEventId, &SweepEventId) -> Ordering + Copy,
    E: Fn(&P, &P) -> bool + Copy,
>(
    subject: &[Vec<Vec<P>>],
    clipping: &[Vec<Vec<P>>],
    operation: Option<Operation>,
    arena: &mut SweepEventArena<P>,
    cmp_events: C,
    same_point: E,
) -> (event_queue: MinHeapByCompareEvents)
    requires
        old(arena).0@.len() + 2 * point_total(subject@, slen(subject@)) + 2 * point_total(clipping@, slen(clipping@))
            < usize::MAX,
        subject@.len() + clipping@.len() < i64::MAX,
        events_comparator(cmp_events),
        point_test(same_point),
    ensures
        exists|m: int|
            #[trigger] input_events(
                old(arena).0@,
                final(arena).0@,
                m,
                slen(subject@) + slen(clipping@),
                is_difference(operation),
            ),
        forall|f: spec_fn(P, P) -> bool|
            #[trigger] points_answered_as(same_point, f) ==> pair_list(
                old(arena).0@,
                final(arena).0@,
                input_edges(subject@, clipping@, operation, f),
            ),
        forall|g: spec_fn(Seq<SweepEvent<P>>, SweepEventId, SweepEventId) -> Ordering|
            #[trigger] events_answered_as(cmp_events, g) ==> sides_by(old(arena).0@, final(arena).0@, g),
        event_queue@ == new_ids(slen(old(arena).0@), slen(final(arena).0@)),
{
    let ghost a0 = arena.0@;
    let ghost ncx = is_difference(operation);
    let no_clip_exterior = match operation {
        Some(Operation::Difference) => true,
        _ => false,
    };
    let mut event_queue = MinHeapByCompareEvents::new();
    let mut contour_id: i64 = 0;
    let mut p: usize = 0;
    proof {
        assert(new_ids(slen(a0), slen(a0)) =~= Multiset::empty());
        assert forall|f: spec_fn(P, P) -> bool| #[trigger] points_answered_as(same_point, f) implies pair_list(
            a0,
            arena.0@,
            set_edges(subject@, 0, true, true, 0, f),
        ) by {}
        lemma_point_total_mono(subject@, 0, slen(subject@));
        lemma_point_total_mono(clipping@, 0, slen(clipping@));
    }
    while p < subject.len()
        invariant
            0 <= p <= subject@.len(),
            no_clip_exterior == ncx,
            0 <= contour_id <= p,
            subject@.len() + clipping@.len() < i64::MAX,
            a0.len() <= arena.0@.len() <= a0.len() + 2 * point_total(subject@, pos(p)),
            point_total(clipping@, slen(clipping@)) >= 0,
            a0.len() + 2 * point_total(subject@, slen(subject@)) + 2 * point_total(clipping@, slen(clipping@))
                < usize::MAX,
            input_events(a0, arena.0@, slen(arena.0@), sidx(contour_id), ncx),
            sidx(contour_id) == opened(subject@, pos(p), true),
            forall|f: spec_fn(P, P) -> bool|
                #[trigger] points_answered_as(same_point, f) ==> pair_list(
                    a0,
                    arena.0@,
                    set_edges(subject@, pos(p), true, true, 0, f),
                ),
            forall|g: spec_fn(Seq<SweepEvent<P>>, SweepEventId, SweepEventId) -> Ordering|
                #[trigger] events_answered_as(cmp_events, g) ==> sides_by(a0, arena.0@, g),
            event_queue@ == new_ids(slen(a0), slen(arena.0@)),
            events_comparator(cmp_events),
            point_test(same_point),
        decreases subject@.len() - p,
    {
        let ghost a1 = arena.0@;
        let ghost c1 = contour_id;
        proof {
            lemma_point_total_mono(subject@, pos(p) + 1, slen(subject@));
            assert(point_total(subject@, pos(p) + 1) == point_total(subject@, pos(p)) + ring_total(
                subject@[pos(p)]@,
                slen(subject@[pos(p)]@),
            ));
            lemma_ring_total_mono(subject@[pos(p)]@, 0, slen(subject@[pos(p)]@));
            lemma_new_ids_len(slen(a0), slen(a1));
        }
        process_rings(&subject[p], true, true, &mut contour_id, &mut event_queue, arena, cmp_events, same_point);
        proof {
            let a2 = arena.0@;
            assert(subject[pos(p)]@ == subject@[pos(p)]@);
            assert forall|i: int| 0 <= i < a1.len() implies #[trigger] a2[i] == a1[i] by {}
            assert forall|f: spec_fn(P, P) -> bool| #[trigger] points_answered_as(same_point, f) implies pair_list(
                a0,
                a2,
                set_edges(subject@, pos(p) + 1, true, true, 0, f),
            ) by {
                lemma_pair_list_join(
                    a0,
                    a1,
                    a2,
                    set_edges(subject@, pos(p), true, true, 0, f),
                    polygon_edges(subject@[pos(p)]@, slen(subject@[pos(p)]@), true, true, sidx(c1), f),
                );
            }
            assert forall|g: spec_fn(Seq<SweepEvent<P>>, SweepEventId, SweepEventId) -> Ordering| #[trigger] events_answered_as(cmp_events, g) implies sides_by(a0, a2, g) by {
                lemma_sides_join(a0, a1, a2, g);
            }
            lemma_input_events_extend(a0, a1, arena.0@, slen(a1), sidx(c1), sidx(contour_id), ncx, true, true);
            lemma_new_ids_join(slen(a0), slen(a1), slen(arena.0@));
            assert(event_queue@ =~= new_ids(slen(a0), slen(arena.0@)));
        }
        p = p + 1;
    }
    let ghost m = slen(arena.0@);
    let ghost am = arena.0@;
    let mut p2: usize = 0;
    proof {
        assert forall|f: spec_fn(P, P) -> bool| #[trigger] points_answered_as(same_point, f) implies set_edges(
            subject@,
            slen(subject@),
            true,
            true,
            0,
            f,
        ) + set_edges(clipping@, 0, false, !ncx, opened(subject@, slen(subject@), true), f) == set_edges(
            subject@,
            slen(subject@),
            true,
            true,
            0,
            f,
        ) by {
            assert(set_edges(subject@, slen(subject@), true, true, 0, f) + Seq::empty() =~= set_edges(
                subject@,
                slen(subject@),
                true,
                true,
                0,
                f,
            ));
        }
    }
    while p2 < clipping.len()
        invariant
            0 <= p2 <= clipping@.len(),
            no_clip_exterior == ncx,
            0 <= contour_id <= subject@.len() + p2,
            subject@.len() + clipping@.len() < i64::MAX,
            a0.len() <= m <= a0.len() + 2 * point_total(subject@, slen(subject@)),
            m <= arena.0@.len() <= m + 2 * point_total(clipping@, pos(p2)),
            a0.len() + 2 * point_total(subject@, slen(subject@)) + 2 * point_total(clipping@, slen(clipping@))
                < usize::MAX,
            input_events(a0, arena.0@, m, sidx(contour_id), ncx),
            sidx(contour_id) == opened(subject@, slen(subject@), true) + opened(clipping@, pos(p2), !ncx),
            forall|f: spec_fn(P, P) -> bool|
                #[trigger] points_answered_as(same_point, f) ==> pair_list(
                    a0,
                    arena.0@,
                    set_edges(subject@, slen(subject@), true, true, 0, f) + set_edges(
                        clipping@,
                        pos(p2),
                        false,
                        !ncx,
                        opened(subject@, slen(subject@), true),
                        f,
                    ),
                ),
            forall|g: spec_fn(Seq<SweepEvent<P>>, SweepEventId, SweepEventId) -> Ordering|
                #[trigger] events_answered_as(cmp_events, g) ==> sides_by(a0, arena.0@, g),
            event_queue@ == new_ids(slen(a0), slen(arena.0@)),
            events_comparator(cmp_events),
            point_test(same_point),
        decreases clipping@.len() - p2,
    {
        let ghost a1 = arena.0@;
        let ghost c1 = contour_id;
        proof {
            lemma_point_total_mono(clipping@, pos(p2) + 1, slen(clipping@));
            assert(point_total(clipping@, pos(p2) + 1) == point_total(clipping@, pos(p2)) + ring_total(
                clipping@[pos(p2)]@,
                slen(clipping@[pos(p2)]@),
            ));
            lemma_ring_total_mono(clipping@[pos(p2)]@, 0, slen(clipping@[pos(p2)]@));
            lemma_new_ids_len(slen(a0), slen(a1));
        }
        process_rings(
            &clipping[p2],
            false,
            !no_clip_exterior,
            &mut contour_id,
            &mut event_queue,
            arena,
            cmp_events,
            same_point,
        );
        proof {
            let a2 = arena.0@;
            let s_e = |f: spec_fn(P, P) -> bool| set_edges(subject@, slen(subject@), true, true, 0, f);
            let start = opened(subject@, slen(subject@), true);
            assert(clipping[pos(p2)]@ == clipping@[pos(p2)]@);
            assert forall|i: int| 0 <= i < a1.len() implies #[trigger] a2[i] == a1[i] by {}
            assert forall|f: spec_fn(P, P) -> bool| #[trigger] points_answered_as(same_point, f) implies pair_list(
                a0,
                a2,
                set_edges(subject@, slen(subject@), true, true, 0, f) + set_edges(
                    clipping@,
                    pos(p2) + 1,
                    false,
                    !ncx,
                    start,
                    f,
                ),
            ) by {
                let c_old = set_edges(clipping@, pos(p2), false, !ncx, start, f);
                let pe = polygon_edges(clipping@[pos(p2)]@, slen(clipping@[pos(p2)]@), false, !ncx, sidx(c1), f);
                lemma_pair_list_join(a0, a1, a2, s_e(f) + c_old, pe);
                assert(s_e(f) + c_old + pe =~= s_e(f) + set_edges(clipping@, pos(p2) + 1, false, !ncx, start, f));
            }
            assert forall|g: spec_fn(Seq<SweepEvent<P>>, SweepEventId, SweepEventId) -> Ordering| #[trigger] events_answered_as(cmp_events, g) implies sides_by(a0, a2, g) by {
                lemma_sides_join(a0, a1, a2, g);
            }
            lemma_input_events_extend(a0, a1, arena.0@, m, sidx(c1), sidx(contour_id), ncx, false, !no_clip_exterior);
            lemma_new_ids_join(slen(a0), slen(a1), slen(arena.0@));
            assert(event_queue@ =~= new_ids(slen(a0), slen(arena.0@)));
        }
        p2 = p2 + 1;
    }
    proof {
        assert(input_events(a0, arena.0@, m, slen(subject@) + slen(clipping@), ncx));
        assert forall|f: spec_fn(P, P) -> bool| #[trigger] points_answered_as(same_point, f) implies pair_list(
            a0,
            arena.0@,
            input_edges(subject@, clipping@, operation, f),
        ) by {
            assert(pos(p2) == slen(clipping@));
        }
    }
    event_queue
}

} // verus!
