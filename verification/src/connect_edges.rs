//! Joining the edges of the result into contours: which events make up
//! the output, their order, how each finds the position of its other
//! event, and where a new contour stands among the contours already found.
use core::cmp::Ordering;
use vstd::prelude::*;

use crate::contour::Contour;
use crate::possible_intersection::{point_test, points_answered_as};
use crate::order::{is_comparator, lemma_total_order_facts, orders, precedes, sorted_by};
use crate::sweep_event::{ResultTransitionType, SweepEvent, SweepEventArena, SweepEventId};
use crate::vec_ops::{pos, sidx, slen, swap_items, to_i64, to_position, to_signed, within};

verus! {

broadcast use vstd::seq_lib::group_to_multiset_ensures;

/// `after` is `before` with `id` added to the holes of contour `k`, and
/// nothing else changed.
pub open spec fn hole_added<P>(before: Seq<Contour<P>>, after: Seq<Contour<P>>, k: int, id: i64) -> bool {
    &&& after.len() == before.len()
    &&& after[k].hole_ids@ == before[k].hole_ids@.push(id)
    &&& after[k].points == before[k].points
    &&& after[k].hole_of == before[k].hole_of
    &&& after[k].depth == before[k].depth
    &&& forall|j: int| 0 <= j < before.len() && j != k ==> #[trigger] after[j] == before[j]
}

/// Every hole among `cs` is a hole of an exterior contour among `cs`.
pub open spec fn holes_of_exterior<P>(cs: Seq<Contour<P>>) -> bool {
    forall|k: int|
        0 <= k < cs.len() ==> (#[trigger] cs[k].hole_of matches Some(h) ==> 0 <= h < cs.len()
            && cs[sidx(h)].hole_of is None)
}

/// The contours that `event` can be placed among: the edge below it in the
/// result (if any) is in the arena and was put into one of `contours`, and
/// when that edge enters the result and its contour is a hole, the contour
/// it is a hole of is one of `contours` too.
pub open spec fn context_known<P>(event: SweepEvent<P>, arena: Seq<SweepEvent<P>>, contours: Seq<Contour<P>>) -> bool {
    event.prev_in_result matches Some(p) ==> {
        &&& p.0 < arena.len()
        &&& 0 <= arena[pos(p.0)].output_contour_id < contours.len()
        &&& arena[pos(p.0)].result_transition == ResultTransitionType::OutIn ==> (
        contours[sidx(arena[pos(p.0)].output_contour_id)].hole_of matches Some(h) ==> 0 <= h
            < contours.len())
    }
}

/// `event`'s context is known and, where its contour goes one level deeper
/// than the one below, that depth has a next value.
pub open spec fn context_ready<P>(event: SweepEvent<P>, arena: Seq<SweepEvent<P>>, contours: Seq<Contour<P>>) -> bool {
    &&& context_known(event, arena, contours)
    &&& event.prev_in_result matches Some(p) ==> {
        let lower = contours[sidx(arena[pos(p.0)].output_contour_id)];
        arena[pos(p.0)].result_transition == ResultTransitionType::OutIn && lower.hole_of is None ==> lower.depth
            < i64::MAX
    }
}

/// `c` is the new contour `contour_id` begun at `event` among `before`, which
/// become `after`, as `initialize_contour_from_context` places it.
pub open spec fn placed<P>(
    event: SweepEvent<P>,
    arena: Seq<SweepEvent<P>>,
    before: Seq<Contour<P>>,
    after: Seq<Contour<P>>,
    c: Contour<P>,
    contour_id: i64,
) -> bool {
    &&& c.points@.len() == 0
    &&& c.hole_ids@.len() == 0
    &&& match event.prev_in_result {
        None => {
            &&& c.hole_of is None
            &&& c.depth == 0
            &&& after == before
        },
        Some(p) => {
            let lower_id = arena[pos(p.0)].output_contour_id;
            let lower = before[sidx(lower_id)];
            if arena[pos(p.0)].result_transition == ResultTransitionType::OutIn {
                match lower.hole_of {
                    Some(parent) => {
                        &&& c.hole_of == Some(parent)
                        &&& c.depth == lower.depth
                        &&& hole_added(before, after, sidx(parent), contour_id)
                    },
                    None => {
                        &&& c.hole_of == Some(lower_id)
                        &&& c.depth == lower.depth + 1
                        &&& hole_added(before, after, sidx(lower_id), contour_id)
                    },
                }
            } else {
                &&& c.hole_of is None
                &&& c.depth == lower.depth
                &&& after == before
            }
        },
    }
}

/// Whether `event`'s context is ready for its contour to be placed.
pub fn context_ok<P>(event: &SweepEvent<P>, arena: &SweepEventArena<P>, contours: &Vec<Contour<P>>) -> (b: bool)
    ensures
        b == context_ready(*event, arena.0@, contours@),
{
    match event.prev_in_result {
        None => true,
        Some(p) => {
            if p.0 >= arena.0.len() {
                return false;
            }
            let lower = &arena.0[p.0];
            let id = lower.output_contour_id;
            if !within(id, contours.len()) {
                return false;
            }
            let c = &contours[to_position(id)];
            match lower.result_transition {
                ResultTransitionType::OutIn => match c.hole_of {
                    Some(h) => within(h, contours.len()),
                    None => c.depth < i64::MAX,
                },
                _ => true,
            }
        },
    }
}

/// Starts the contour `contour_id` that begins at `event`, placed by the
/// nearest edge below it in the result.  Without such an edge it is an
/// exterior contour of depth 0.  When that edge leaves the result going up
/// (`InOut`), the new contour is exterior at the same depth as the
/// contour of that edge.  When it enters the result (`OutIn`), the new
/// contour is a hole: of the same contour as that edge's contour, at the
/// same depth, if that one is a hole; else of that edge's contour, one level
/// deeper.  The contour it becomes a hole of lists it among its holes.
pub fn initialize_contour_from_context<P>(
    event: &SweepEvent<P>,
    arena: &SweepEventArena<P>,
    contours: &mut Vec<Contour<P>>,
    contour_id: i64,
) -> (c: Contour<P>)
    requires
        context_known(*event, arena.0@, old(contours)@),
        event.prev_in_result matches Some(p) ==> {
            let lower = old(contours)@[sidx(arena.0@[pos(p.0)].output_contour_id)];
            arena.0@[pos(p.0)].result_transition == ResultTransitionType::OutIn
                && lower.hole_of is None ==> lower.depth < i64::MAX
        },
    ensures
        placed(*event, arena.0@, old(contours)@, final(contours)@, c, contour_id),
        c.points@.len() == 0,
        c.hole_ids@.len() == 0,
        holes_of_exterior(old(contours)@) ==> {
            &&& holes_of_exterior(final(contours)@)
            &&& c.hole_of matches Some(h) ==> 0 <= h < final(contours)@.len()
                && final(contours)@[sidx(h)].hole_of is None
        },
        match event.prev_in_result {
            None => {
                &&& c.hole_of is None
                &&& c.depth == 0
                &&& final(contours)@ == old(contours)@
            },
            Some(p) => {
                let lower_id = arena.0@[pos(p.0)].output_contour_id;
                let lower = old(contours)@[sidx(lower_id)];
                if arena.0@[pos(p.0)].result_transition == ResultTransitionType::OutIn {
                    match lower.hole_of {
                        Some(parent) => {
                            &&& c.hole_of == Some(parent)
                            &&& c.depth == lower.depth
                            &&& hole_added(old(contours)@, final(contours)@, sidx(parent), contour_id)
                        },
                        None => {
                            &&& c.hole_of == Some(lower_id)
                            &&& c.depth == lower.depth + 1
                            &&& hole_added(old(contours)@, final(contours)@, sidx(lower_id), contour_id)
                        },
                    }
                } else {
                    &&& c.hole_of is None
                    &&& c.depth == lower.depth
                    &&& final(contours)@ == old(contours)@
                }
            },
        },
{
    let mut contour = Contour::default();
    // A position in `contours` fits in `usize`: so does their number.
    let _count: usize = contours.len();
    if let Some(prev_in_result) = event.prev_in_result {
        let lower_contour_id = arena.0[prev_in_result.0].output_contour_id;
        let lower_result_transition = arena.0[prev_in_result.0].result_transition;
        let lower = to_position(lower_contour_id);
        if lower_result_transition == ResultTransitionType::OutIn {
            // Inside: the new contour is a hole, either beside the hole below
            // (same parent and depth) or in the exterior contour below.
            if let Some(hole_of) = contours[lower].hole_of {
                let parent = to_position(hole_of);
                contours[parent].hole_ids.push(contour_id);
                contour.hole_of = Some(hole_of);
                contour.depth = contours[lower].depth;
            } else {
                contours[lower].hole_ids.push(contour_id);
                contour.hole_of = Some(lower_contour_id);
                contour.depth = contours[lower].depth + 1;
            }
        } else {
            // Outside: an exterior contour at the depth of the one below.
            contour.hole_of = None;
            contour.depth = contours[lower].depth;
        }
    } else {
        contour.hole_of = None;
        contour.depth = 0;
    }
    contour
}

/// The event `e` of `arena` belongs to the output: a left event in the
/// result, or a right event whose left event is in the result.
pub open spec fn event_in_result<P>(arena: Seq<SweepEvent<P>>, e: SweepEventId) -> bool {
    let ev = arena[e.0 as int];
    if ev.left {
        ev.is_in_result()
    } else {
        match ev.other_event {
            Some(o) => arena[o.0 as int].is_in_result(),
            None => false,
        }
    }
}

/// Every event of `events` is in `arena`, and every right event among them
/// has its left event in `arena`.
pub open spec fn events_known<P>(arena: Seq<SweepEvent<P>>, events: Seq<SweepEventId>) -> bool {
    forall|k: int|
        0 <= k < events.len() ==> {
            &&& (#[trigger] events[k]).0 < arena.len()
            &&& !arena[events[k].0 as int].left ==> (arena[events[k].0 as int].other_event matches Some(
                o,
            ) && o.0 < arena.len())
        }
}

/// The events of `sorted_events` that belong to the output, in the same
/// order.
pub fn select_result_events<P>(sorted_events: &[SweepEventId], arena: &SweepEventArena<P>) -> (r:
    Vec<SweepEventId>)
    requires
        events_known(arena.0@, sorted_events@),
    ensures
        r@ == sorted_events@.filter(|e: SweepEventId| event_in_result(arena.0@, e)),
{
    let ghost pred = |e: SweepEventId| event_in_result(arena.0@, e);
    let ghost s = sorted_events@;
    let mut result_events: Vec<SweepEventId> = Vec::new();
    let mut i: usize = 0;
    while i < sorted_events.len()
        invariant
            s == sorted_events@,
            pred == (|e: SweepEventId| event_in_result(arena.0@, e)),
            events_known(arena.0@, s),
            0 <= i <= s.len(),
            result_events@ == s.subrange(0, pos(i)).filter(pred),
        decreases s.len() - i,
    {
        let event = sorted_events[i];
        proof {
            assert(s[pos(i)] == event);
        }
        let keep = if arena.0[event.0].left {
            arena.0[event.0].in_result()
        } else {
            match arena.0[event.0].other_event {
                Some(other) => arena.0[other.0].in_result(),
                None => false,
            }
        };
        proof {
            assert(keep == pred(event));
            let t = s.subrange(0, i + 1);
            assert(t.drop_last() =~= s.subrange(0, pos(i)));
            assert(t.last() == event);
            reveal(Seq::filter);
        }
        if keep {
            result_events.push(event);
        }
        i = i + 1;
    }
    proof {
        assert(s.subrange(0, pos(i)) =~= s);
    }
    result_events
}

/// From position `b` on, every item comes no earlier than any item before it.
pub open spec fn settled_from(
    s: Seq<SweepEventId>,
    ord: spec_fn(SweepEventId, SweepEventId) -> Ordering,
    b: int,
) -> bool {
    forall|j: int, k: int| 0 <= j < k < s.len() && b <= k ==> precedes(ord, #[trigger] s[j], #[trigger] s[k])
}

/// `r` is `s` rearranged by `perm` (item `k` of `r` is item `perm[k]` of
/// `s`, each item of `s` used once), and items of `r` that `ord` finds
/// equivalent keep the order they had in `s`.
pub open spec fn stably_arranged(
    r: Seq<SweepEventId>,
    s: Seq<SweepEventId>,
    perm: Seq<int>,
    ord: spec_fn(SweepEventId, SweepEventId) -> Ordering,
) -> bool {
    &&& r.len() == s.len()
    &&& perm.len() == s.len()
    &&& forall|k: int| 0 <= k < r.len() ==> 0 <= #[trigger] perm[k] < s.len() && r[k] == s[perm[k]]
    &&& forall|k: int, l: int| 0 <= k < l < r.len() ==> #[trigger] perm[k] != #[trigger] perm[l]
    &&& forall|k: int, l: int|
        0 <= k < l < r.len() && precedes(ord, #[trigger] r[l], #[trigger] r[k]) ==> perm[k] < perm[l]
}

/// `r` is `s` rearranged by `perm`, stably for every total order that `cmp`
/// answers as.
pub open spec fn stably_arranged_for<F: Fn(&SweepEventId, &SweepEventId) -> Ordering>(
    r: Seq<SweepEventId>,
    s: Seq<SweepEventId>,
    perm: Seq<int>,
    cmp: F,
) -> bool {
    forall|ord: spec_fn(SweepEventId, SweepEventId) -> Ordering|
        #[trigger] orders(cmp, ord) ==> stably_arranged(r, s, perm, ord)
}

/// Where a pass of the sort stands after its first `i` steps, under `ord`:
/// the items from `b` on are settled, the item at `i` is no earlier than any
/// before it, and, while no exchange was made, the items up to `i` are in
/// order.
spec fn pass_state(
    s: Seq<SweepEventId>,
    ord: spec_fn(SweepEventId, SweepEventId) -> Ordering,
    b: int,
    i: int,
    sorted: bool,
) -> bool {
    &&& settled_from(s, ord, b)
    &&& i < s.len() ==> forall|k: int| 0 <= k <= i ==> precedes(ord, #[trigger] s[k], s[i])
    &&& i >= b && b >= 1 ==> forall|k: int| 0 <= k < b ==> precedes(ord, #[trigger] s[k], s[b - 1])
    &&& sorted ==> forall|j: int, k: int|
        0 <= j < k <= i && k < s.len() ==> precedes(ord, #[trigger] s[j], #[trigger] s[k])
}

/// Sorts `events` by `cmp` as the output events are sorted: passes over the
/// sequence exchange neighbours that `cmp` finds out of order, until a pass
/// exchanges none.  The result holds the same events; for every total order
/// that `cmp` answers as, it is sorted and equivalent events keep their
/// order.
pub fn sort_result_events<F: Fn(&SweepEventId, &SweepEventId) -> Ordering>(
    events: &mut Vec<SweepEventId>,
    cmp: F,
)
    requires
        is_comparator(cmp),
        exists|ord: spec_fn(SweepEventId, SweepEventId) -> Ordering| #[trigger] orders(cmp, ord),
    ensures
        final(events)@.to_multiset() == old(events)@.to_multiset(),
        forall|ord: spec_fn(SweepEventId, SweepEventId) -> Ordering|
            #[trigger] orders(cmp, ord) ==> sorted_by(final(events)@, ord),
        exists|perm: Seq<int>| stably_arranged_for(final(events)@, old(events)@, perm, cmp),
{
    let ghost ord0 = choose|ord: spec_fn(SweepEventId, SweepEventId) -> Ordering| #[trigger] orders(cmp, ord);
    let n = events.len();
    let mut sorted = false;
    let ghost mut p: int = 0;
    let ghost mut perm: Seq<int> = Seq::new(events@.len(), |k: int| k);
    proof {
        assert forall|ord: spec_fn(SweepEventId, SweepEventId) -> Ordering|
            #[trigger] orders(cmp, ord) implies settled_from(events@, ord, n - p) && stably_arranged(
            events@,
            old(events)@,
            perm,
            ord,
        ) by {}
    }
    while !sorted
        invariant
            is_comparator(cmp),
            orders(cmp, ord0),
            events@.len() == n,
            events@.to_multiset() == old(events)@.to_multiset(),
            0 <= p,
            !sorted ==> p <= n,
            forall|ord: spec_fn(SweepEventId, SweepEventId) -> Ordering|
                #[trigger] orders(cmp, ord) ==> {
                    &&& settled_from(events@, ord, if p <= n { n - p } else { 0 })
                    &&& sorted ==> sorted_by(events@, ord)
                    &&& stably_arranged(events@, old(events)@, perm, ord)
                },
        decreases n + 1 - p,
    {
        let ghost b: int = n - p;
        sorted = true;
        let mut i: usize = 0;
        proof {
            assert forall|ord: spec_fn(SweepEventId, SweepEventId) -> Ordering|
                #[trigger] orders(cmp, ord) implies pass_state(events@, ord, b, pos(i), sorted) by {
                if n > 0 {
                    lemma_total_order_facts(ord, events@[0], events@[0]);
                }
            }
        }
        while i < n
            invariant
                is_comparator(cmp),
                orders(cmp, ord0),
                events@.len() == n,
                events@.to_multiset() == old(events)@.to_multiset(),
                0 <= b <= n,
                0 <= i <= n,
                b == 0 ==> sorted,
                forall|ord: spec_fn(SweepEventId, SweepEventId) -> Ordering|
                    #[trigger] orders(cmp, ord) ==> pass_state(events@, ord, b, pos(i), sorted)
                        && stably_arranged(events@, old(events)@, perm, ord),
            decreases n - i,
        {
            if i + 1 < n {
                let o = cmp(&events[i], &events[i + 1]);
                let ghost s = events@;
                let ghost k = pos(i);
                proof {
                    assert(o == ord0(s[k], s[k + 1]));
                    if k + 1 >= b {
                        assert(pass_state(s, ord0, b, k, sorted));
                        assert(precedes(ord0, s[k], s[k + 1]));
                    }
                }
                match o {
                    Ordering::Greater => {
                        swap_items(events, i, i + 1);
                        sorted = false;
                        proof {
                            let t = events@;
                            let q = perm;
                            perm = q.update(k, q[k + 1]).update(k + 1, q[k]);
                            assert(k + 1 < b);
                            assert(t.to_multiset() == s.to_multiset());
                            assert forall|ord: spec_fn(SweepEventId, SweepEventId) -> Ordering|
                                #[trigger] orders(cmp, ord) implies pass_state(t, ord, b, k + 1, sorted)
                                    && stably_arranged(t, old(events)@, perm, ord) by {
                                assert(o == ord(s[k], s[k + 1]));
                                assert(pass_state(s, ord, b, k, true) || pass_state(s, ord, b, k, false));
                                assert(stably_arranged(s, old(events)@, q, ord));
                                assert forall|a: int, c: int|
                                    0 <= a < c < t.len() && precedes(ord, #[trigger] t[c], #[trigger] t[a]) implies perm[a] < perm[c] by {
                                    let a0 = if a == k { k + 1 } else if a == k + 1 { k } else { a };
                                    let c0 = if c == k { k + 1 } else if c == k + 1 { k } else { c };
                                    assert(t[a] == s[a0] && t[c] == s[c0]);
                                    assert(perm[a] == q[a0] && perm[c] == q[c0]);
                                    if a == k && c == k + 1 {
                                        assert(!precedes(ord, s[k], s[k + 1]));
                                    } else {
                                        assert(a0 < c0);
                                        assert(precedes(ord, s[c0], s[a0]));
                                    }
                                }
                                assert forall|a: int, c: int| 0 <= a < c < t.len() implies #[trigger] perm[a] != #[trigger] perm[c] by {
                                    let a0 = if a == k { k + 1 } else if a == k + 1 { k } else { a };
                                    let c0 = if c == k { k + 1 } else if c == k + 1 { k } else { c };
                                    if a0 < c0 {
                                        assert(q[a0] != q[c0]);
                                    } else {
                                        assert(q[c0] != q[a0]);
                                    }
                                }
                                assert forall|a: int| 0 <= a < t.len() implies 0 <= #[trigger] perm[a] < s.len() && t[a] == old(events)@[perm[a]] by {
                                    let a0 = if a == k { k + 1 } else if a == k + 1 { k } else { a };
                                    assert(t[a] == s[a0]);
                                    assert(perm[a] == q[a0]);
                                }
                                assert(!precedes(ord, s[k], s[k + 1]));
                                assert forall|j: int, m: int| 0 <= j < m < t.len() && b <= m implies precedes(
                                    ord,
                                    #[trigger] t[j],
                                    #[trigger] t[m],
                                ) by {
                                    if j == k {
                                        assert(precedes(ord, s[k + 1], s[m]));
                                    } else if j == k + 1 {
                                        assert(precedes(ord, s[k], s[m]));
                                    } else {
                                        assert(precedes(ord, s[j], s[m]));
                                    }
                                }
                                assert forall|j: int| 0 <= j <= k + 1 implies precedes(ord, #[trigger] t[j], t[k + 1]) by {
                                    if j == k + 1 {
                                        lemma_total_order_facts(ord, t[j], t[j]);
                                    } else if j == k {
                                        lemma_total_order_facts(ord, s[k + 1], s[k]);
                                    } else {
                                        assert(precedes(ord, s[j], s[k]));
                                    }
                                }
                            }
                        }
                    },
                    _ => {
                        proof {
                            assert forall|ord: spec_fn(SweepEventId, SweepEventId) -> Ordering|
                                #[trigger] orders(cmp, ord) implies pass_state(s, ord, b, k + 1, sorted)
                                    && stably_arranged(s, old(events)@, perm, ord) by {
                                assert(o == ord(s[k], s[k + 1]));
                                assert(pass_state(s, ord, b, k, sorted));
                                assert(precedes(ord, s[k], s[k + 1]));
                                assert forall|j: int| 0 <= j <= k + 1 implies precedes(ord, #[trigger] s[j], s[k + 1]) by {
                                    if j == k + 1 {
                                        lemma_total_order_facts(ord, s[j], s[j]);
                                    } else if j < k {
                                        assert(precedes(ord, s[j], s[k]));
                                    }
                                }
                                if sorted {
                                    assert forall|j: int, m: int| 0 <= j < m <= k + 1 && m < s.len() implies precedes(
                                        ord,
                                        #[trigger] s[j],
                                        #[trigger] s[m],
                                    ) by {
                                        if m == k + 1 {
                                            assert(precedes(ord, s[j], s[k + 1]));
                                        }
                                    }
                                }
                            }
                        }
                    },
                }
            } else {
                proof {
                    let s = events@;
                    assert forall|ord: spec_fn(SweepEventId, SweepEventId) -> Ordering|
                        #[trigger] orders(cmp, ord) implies pass_state(s, ord, b, pos(i) + 1, sorted) by {
                        assert(pass_state(s, ord, b, pos(i), sorted));
                    }
                }
            }
            i = i + 1;
        }
        proof {
            let s = events@;
            assert forall|ord: spec_fn(SweepEventId, SweepEventId) -> Ordering|
                #[trigger] orders(cmp, ord) implies {
                    &&& settled_from(s, ord, if p + 1 <= n { n - (p + 1) } else { 0 })
                    &&& sorted ==> sorted_by(s, ord)
                } by {
                assert(pass_state(s, ord, b, pos(i), sorted));
                if b >= 1 {
                    assert forall|j: int, m: int| 0 <= j < m < s.len() && b - 1 <= m implies precedes(
                        ord,
                        #[trigger] s[j],
                        #[trigger] s[m],
                    ) by {
                        if m == b - 1 {
                            assert(precedes(ord, s[j], s[b - 1]));
                        }
                    }
                }
                if sorted {
                    assert forall|j: int, m: int| 0 <= j < m < n implies precedes(ord, #[trigger] s[j], #[trigger] s[m]) by {
                        if n > 0 {
                            assert(pos(i) == n);
                        }
                    }
                }
            }
            p = p + 1;
        }
    }
    assert(stably_arranged_for(events@, old(events)@, perm, cmp));
}

/// `arena` once each of the first `n` events of `events` has had its
/// position among `events` written into its `other_pos`.
pub open spec fn with_positions<P>(arena: Seq<SweepEvent<P>>, events: Seq<SweepEventId>, n: int) -> Seq<
    SweepEvent<P>,
>
    decreases n,
{
    if n <= 0 {
        arena
    } else {
        let a = with_positions(arena, events, n - 1);
        let e = events[n - 1].0 as int;
        a.update(e, SweepEvent { other_pos: (n - 1) as i64, ..a[e] })
    }
}

/// `arena` once each right event among the first `n` of `events` has
/// exchanged its `other_pos` with that of its left event.
pub open spec fn with_partner_positions<P>(
    arena: Seq<SweepEvent<P>>,
    events: Seq<SweepEventId>,
    n: int,
) -> Seq<SweepEvent<P>>
    decreases n,
{
    if n <= 0 {
        arena
    } else {
        let a = with_partner_positions(arena, events, n - 1);
        let e = events[n - 1].0 as int;
        if a[e].left {
            a
        } else {
            let o = match a[e].other_event {
                Some(o) => o.0 as int,
                None => e,
            };
            let a1 = a.update(e, SweepEvent { other_pos: a[o].other_pos, ..a[e] });
            a1.update(o, SweepEvent { other_pos: a[e].other_pos, ..a1[o] })
        }
    }
}

/// `b` has the events of `a` with the same sides and the same other events.
pub open spec fn same_links<P>(a: Seq<SweepEvent<P>>, b: Seq<SweepEvent<P>>) -> bool {
    &&& b.len() == a.len()
    &&& forall|k: int|
        0 <= k < a.len() ==> (#[trigger] b[k]).left == a[k].left && b[k].other_event
            == a[k].other_event
}

/// Writes into each of `events` its position among them as `other_pos`;
/// then each right event exchanges that with its left event, so that in
/// the end each event knows where its other event stands.
pub fn link_other_positions<P>(events: &[SweepEventId], arena: &mut SweepEventArena<P>)
    requires
        events_known(old(arena).0@, events@),
    ensures
        final(arena).0@ == with_partner_positions(
            with_positions(old(arena).0@, events@, slen(events@)),
            events@,
            slen(events@),
        ),
{
    let ghost start = arena.0@;
    let ghost evs = events@;
    let mut i: usize = 0;
    while i < events.len()
        invariant
            evs == events@,
            events_known(start, evs),
            0 <= i <= evs.len(),
            arena.0@ == with_positions(start, evs, pos(i)),
            same_links(start, arena.0@),
        decreases evs.len() - i,
    {
        let e = events[i].0;
        proof {
            assert(evs[pos(i)].0 == e);
        }
        arena.0[e].other_pos = i as i64;
        i = i + 1;
    }
    let ghost mid = arena.0@;
    proof {
        assert(pos(i) == slen(evs));
    }
    let mut i: usize = 0;
    while i < events.len()
        invariant
            evs == events@,
            events_known(start, evs),
            same_links(start, mid),
            0 <= i <= evs.len(),
            arena.0@ == with_partner_positions(mid, evs, pos(i)),
            same_links(start, arena.0@),
        decreases evs.len() - i,
    {
        let e = events[i].0;
        proof {
            assert(evs[pos(i)].0 == e);
        }
        if !arena.0[e].left {
            let tmp = arena.0[e].other_pos;
            let other = arena.0[e].other_event.unwrap().0;
            let other_other_pos = arena.0[other].other_pos;
            arena.0[e].other_pos = other_other_pos;
            arena.0[other].other_pos = tmp;
        }
        i = i + 1;
    }
}

/// The events of `events` come in pairs: no event repeats, and each one's
/// other event is among them, lies on the other side and names it back.
pub open spec fn paired<P>(arena: Seq<SweepEvent<P>>, events: Seq<SweepEventId>) -> bool {
    &&& forall|i: int, j: int| 0 <= i < j < events.len() ==> (#[trigger] events[i]).0 != (#[trigger] events[j]).0
    &&& forall|k: int|
        0 <= k < events.len() ==> {
            &&& (#[trigger] events[k]).0 < arena.len()
            &&& arena[events[k].0 as int].other_event matches Some(o) && {
                &&& o.0 < arena.len()
                &&& arena[o.0 as int].other_event == Some(events[k])
                &&& arena[o.0 as int].left != arena[events[k].0 as int].left
                &&& events.contains(o)
            }
        }
}

/// The other event of `e` in `arena`.
pub open spec fn partner<P>(arena: Seq<SweepEvent<P>>, e: SweepEventId) -> SweepEventId {
    match arena[e.0 as int].other_event {
        Some(o) => o,
        None => e,
    }
}

/// After the first `m` events are numbered, each of them carries its
/// position and the others are as they were.
proof fn lemma_positions<P>(arena: Seq<SweepEvent<P>>, events: Seq<SweepEventId>, m: int)
    requires
        paired(arena, events),
        0 <= m <= events.len(),
    ensures
        same_links(arena, with_positions(arena, events, m)),
        forall|k: int|
            0 <= k < events.len() ==> #[trigger] with_positions(arena, events, m)[events[k].0 as int].other_pos
                == if k < m {
                (k as i64)
            } else {
                arena[events[k].0 as int].other_pos
            },
    decreases m,
{
    if m > 0 {
        lemma_positions(arena, events, m - 1);
        let a = with_positions(arena, events, m - 1);
        assert forall|k: int| 0 <= k < events.len() implies #[trigger] with_positions(arena, events, m)[events[k].0 as int].other_pos
            == if k < m {
            (k as i64)
        } else {
            arena[events[k].0 as int].other_pos
        } by {
            if k != m - 1 {
                if k < m - 1 {
                    assert(events[k].0 != events[m - 1].0);
                } else {
                    assert(events[m - 1].0 != events[k].0);
                }
            }
        }
    }
}

/// Each event's other_pos after the first `m` events are linked: its
/// partner's position if it is a right event among those `m`, or the left
/// event of one; else its own position.
spec fn linked_pos<P>(arena: Seq<SweepEvent<P>>, events: Seq<SweepEventId>, m: int, k: int, j: int) -> i64 {
    let x = arena[events[k].0 as int];
    if (if x.left { j < m } else { k < m }) {
        j as i64
    } else {
        k as i64
    }
}

proof fn lemma_partner_positions<P>(arena: Seq<SweepEvent<P>>, events: Seq<SweepEventId>, m: int)
    requires
        paired(arena, events),
        0 <= m <= events.len(),
    ensures
        same_links(arena, with_partner_positions(with_positions(arena, events, slen(events)), events, m)),
        forall|k: int, j: int|
            #![trigger events[k], events[j]]
            0 <= k < events.len() && 0 <= j < events.len() && events[j] == partner(arena, events[k])
                ==> with_partner_positions(with_positions(arena, events, slen(events)), events, m)[events[k].0 as int].other_pos
                == linked_pos(arena, events, m, k, j),
    decreases m,
{
    let w = with_positions(arena, events, slen(events));
    lemma_positions(arena, events, slen(events));
    if m == 0 {
        assert forall|k: int, j: int|
            #![trigger events[k], events[j]]
            0 <= k < events.len() && 0 <= j < events.len() && events[j] == partner(arena, events[k])
                implies with_partner_positions(w, events, m)[events[k].0 as int].other_pos
                == linked_pos(arena, events, m, k, j) by {
            assert(w[events[k].0 as int].other_pos == k as i64);
        }
    } else {
        lemma_partner_positions(arena, events, m - 1);
        let a = with_partner_positions(w, events, m - 1);
        let y = events[m - 1];
        let ye = y.0 as int;
        assert(a[ye].left == arena[ye].left);
        let o = partner(arena, y);
        assert(events.contains(o));
        let jo = choose|jo: int| 0 <= jo < events.len() && events[jo] == o;
        assert(arena[ye].other_event == Some(o));
        assert forall|k: int, j: int|
            #![trigger events[k], events[j]]
            0 <= k < events.len() && 0 <= j < events.len() && events[j] == partner(arena, events[k])
                implies with_partner_positions(w, events, m)[events[k].0 as int].other_pos
                == linked_pos(arena, events, m, k, j) by {
            let x = events[k];
            assert(x.0 < arena.len());
            let xo = partner(arena, x);
            assert(arena[x.0 as int].other_event == Some(xo));
            assert(arena[xo.0 as int].other_event == Some(x));
            assert(j != k);
            if k == m - 1 {
                if !arena[ye].left {
                    assert(events[jo].0 == events[j].0);
                    if jo != j {
                        if jo < j {
                            assert(events[jo].0 != events[j].0);
                        } else {
                            assert(events[j].0 != events[jo].0);
                        }
                    }
                    assert(a[o.0 as int].other_pos == linked_pos(arena, events, m - 1, j, k));
                }
            } else if j == m - 1 {
                assert(x != y) by {
                    if k < m - 1 {
                        assert(events[k].0 != events[m - 1].0);
                    } else {
                        assert(events[m - 1].0 != events[k].0);
                    }
                }
                if !arena[ye].left {
                    assert(o == x);
                }
            } else {
                assert(x.0 != y.0) by {
                    if k < m - 1 {
                        assert(events[k].0 != events[m - 1].0);
                    } else {
                        assert(events[m - 1].0 != events[k].0);
                    }
                }
                if !arena[ye].left {
                    assert(x.0 != o.0) by {
                        if x.0 == o.0 {
                            assert(arena[o.0 as int].other_event == Some(y));
                            assert(events[j].0 == y.0);
                            if j < m - 1 {
                                assert(events[j].0 != events[m - 1].0);
                            } else {
                                assert(events[m - 1].0 != events[j].0);
                            }
                        }
                    }
                }
            }
        }
    }
}

/// When the output events come in pairs, linking them leaves each one's
/// `other_pos` at the position of its other event.
pub proof fn law_other_pos_names_partner<P>(arena: Seq<SweepEvent<P>>, events: Seq<SweepEventId>)
    requires
        paired(arena, events),
    ensures
        forall|k: int, j: int|
            0 <= k < events.len() && 0 <= j < events.len() && (#[trigger] events[j]) == partner(arena, #[trigger] events[k])
                ==> with_partner_positions(with_positions(arena, events, slen(events)), events, slen(events))[events[k].0 as int].other_pos
                == j as i64,
{
    lemma_partner_positions(arena, events, slen(events));
}

/// Position `k` of the walk has been visited.
pub open spec fn is_marked(processed: Seq<bool>, k: int) -> bool {
    0 <= k < processed.len() && processed[k]
}

/// The point of the event at position `k` of `events`.
pub open spec fn point_at<P>(arena: Seq<SweepEvent<P>>, events: Seq<SweepEventId>, k: int) -> P {
    arena[pos(events[k].0)].point
}

/// From position `k` on, the first position that is past the end, at
/// another point than position `at` (by `f`), or not yet visited.
pub open spec fn scan_forward<P>(
    arena: Seq<SweepEvent<P>>,
    events: Seq<SweepEventId>,
    processed: Seq<bool>,
    at: int,
    k: int,
    f: spec_fn(P, P) -> bool,
) -> int
    decreases events.len() - k,
{
    if k >= events.len() || !f(point_at(arena, events, k), point_at(arena, events, at)) || !is_marked(
        processed,
        k,
    ) {
        k
    } else {
        scan_forward(arena, events, processed, at, k + 1, f)
    }
}

/// From position `k` down, the first position that is not visited or no
/// later than `orig`.
pub open spec fn scan_back(processed: Seq<bool>, k: int, orig: int) -> int
    decreases k - orig,
{
    if is_marked(processed, k) && k > orig {
        scan_back(processed, k - 1, orig)
    } else {
        k
    }
}

/// Where the walk goes from position `at`: the next position at the same
/// point that is not yet visited, if there is one; else, going down from
/// the position before `at`, the first one not visited or no later than
/// `orig`.
pub open spec fn next_position<P>(
    arena: Seq<SweepEvent<P>>,
    events: Seq<SweepEventId>,
    processed: Seq<bool>,
    at: int,
    orig: int,
    f: spec_fn(P, P) -> bool,
) -> int {
    let k = scan_forward(arena, events, processed, at, at + 1, f);
    if k < events.len() && f(point_at(arena, events, k), point_at(arena, events, at)) && !is_marked(processed, k) {
        k
    } else {
        scan_back(processed, at - 1, orig)
    }
}

/// Whether position `k` has been visited.
fn marked(processed: &Vec<bool>, k: i64) -> (b: bool)
    ensures
        b == is_marked(processed@, sidx(k)),
{
    if within(k, processed.len()) {
        processed[to_position(k)]
    } else {
        false
    }
}

/// The next position of the walk that joins the output events into
/// contours, from position `pos`, with `orig_pos` where the walk began and
/// `same_point` telling equal points apart.
pub fn next_pos<P: Copy, E: Fn(&P, &P) -> bool + Copy>(
    pos: i64,
    result_events: &[SweepEventId],
    processed: &Vec<bool>,
    orig_pos: i64,
    arena: &SweepEventArena<P>,
    same_point: E,
) -> (r: i64)
    requires
        0 <= pos < result_events@.len(),
        result_events@.len() < i64::MAX,
        orig_pos > i64::MIN,
        forall|k: int| 0 <= k < result_events@.len() ==> (#[trigger] result_events@[k]).0 < arena.0@.len(),
        point_test(same_point),
    ensures
        forall|f: spec_fn(P, P) -> bool|
            #[trigger] points_answered_as(same_point, f) ==> r == next_position(
                arena.0@,
                result_events@,
                processed@,
                sidx(pos),
                sidx(orig_pos),
                f,
            ),
{
    let ghost n = slen(result_events@);
    let ghost a = arena.0@;
    let ghost ev = result_events@;
    let ghost pr = processed@;
    let length = result_events.len();
    let at = to_position(pos);
    let here = arena.0[result_events[at].0].point;
    let mut new_pos = pos + 1;
    loop
        invariant
            0 <= sidx(pos) < sidx(new_pos) <= n,
            n == ev.len(),
            n < i64::MAX,
            ev == result_events@,
            a == arena.0@,
            pr == processed@,
            length == n,
            here == point_at(a, ev, sidx(pos)),
            forall|k: int| 0 <= k < ev.len() ==> (#[trigger] ev[k]).0 < a.len(),
            point_test(same_point),
            forall|f: spec_fn(P, P) -> bool|
                #[trigger] points_answered_as(same_point, f) ==> scan_forward(a, ev, pr, sidx(pos), sidx(pos) + 1, f)
                    == scan_forward(a, ev, pr, sidx(pos), sidx(new_pos), f),
        ensures
            forall|f: spec_fn(P, P) -> bool|
                #[trigger] points_answered_as(same_point, f) ==> {
                    &&& scan_forward(a, ev, pr, sidx(pos), sidx(pos) + 1, f) == sidx(new_pos)
                    &&& sidx(new_pos) >= n || !f(point_at(a, ev, sidx(new_pos)), point_at(a, ev, sidx(pos)))
                },
        decreases n - sidx(new_pos),
    {
        if !within(new_pos, length) {
            proof {
                assert forall|f: spec_fn(P, P) -> bool| #[trigger] points_answered_as(same_point, f) implies scan_forward(
                    a,
                    ev,
                    pr,
                    sidx(pos),
                    sidx(new_pos),
                    f,
                ) == sidx(new_pos) by {}
                assert(sidx(new_pos) >= n);
                assert forall|f: spec_fn(P, P) -> bool| #[trigger] points_answered_as(same_point, f) implies {
                    &&& scan_forward(a, ev, pr, sidx(pos), sidx(pos) + 1, f) == sidx(new_pos)
                    &&& sidx(new_pos) >= n || !f(point_at(a, ev, sidx(new_pos)), point_at(a, ev, sidx(pos)))
                } by {
                    assert(scan_forward(a, ev, pr, sidx(pos), sidx(new_pos), f) == sidx(new_pos));
                }
            }
            break;
        }
        let there = arena.0[result_events[to_position(new_pos)].0].point;
        let same = same_point(&there, &here);
        if !same {
            proof {
                assert forall|f: spec_fn(P, P) -> bool| #[trigger] points_answered_as(same_point, f) implies scan_forward(
                    a,
                    ev,
                    pr,
                    sidx(pos),
                    sidx(new_pos),
                    f,
                ) == sidx(new_pos) && !f(point_at(a, ev, sidx(new_pos)), point_at(a, ev, sidx(pos))) by {
                    assert(same == f(there, here));
                }
            }
            break;
        }
        let seen = marked(processed, new_pos);
        if !seen {
            proof {
                assert forall|f: spec_fn(P, P) -> bool| #[trigger] points_answered_as(same_point, f) implies new_pos
                    == next_position(a, ev, pr, sidx(pos), sidx(orig_pos), f) by {
                    assert(same == f(there, here));
                }
            }
            return new_pos;
        }
        proof {
            assert forall|f: spec_fn(P, P) -> bool| #[trigger] points_answered_as(same_point, f) implies scan_forward(
                a,
                ev,
                pr,
                sidx(pos),
                sidx(new_pos),
                f,
            ) == scan_forward(a, ev, pr, sidx(pos), sidx(new_pos) + 1, f) by {
                assert(same == f(there, here));
            }
        }
        new_pos = new_pos + 1;
    }
    let mut back = pos - 1;
    while marked(processed, back) && back > orig_pos
        invariant
            back <= pos - 1,
            orig_pos > i64::MIN,
            pr == processed@,
            scan_back(pr, sidx(pos) - 1, sidx(orig_pos)) == scan_back(pr, sidx(back), sidx(orig_pos)),
        decreases back - orig_pos,
    {
        back = back - 1;
    }
    back
}

/// `a` and `processed` once position `k` of `events` is visited by the walk
/// of contour `contour_id`: the position is marked, and its event records
/// the contour.  A position outside `events` changes nothing.
pub open spec fn visited<P>(
    a: Seq<SweepEvent<P>>,
    processed: Seq<bool>,
    events: Seq<SweepEventId>,
    k: int,
    contour_id: i64,
) -> (Seq<SweepEvent<P>>, Seq<bool>) {
    if 0 <= k < events.len() && k < processed.len() {
        (
            a.update(pos(events[k].0), SweepEvent { output_contour_id: contour_id, ..a[pos(events[k].0)] }),
            processed.update(k, true),
        )
    } else {
        (a, processed)
    }
}

/// The walk of contour `contour_id` from position `at` of `events`, begun at
/// `orig`, taking at most `fuel` steps: each step marks the position and the
/// one of its other event, adds that event's point, and goes on where
/// `next_position` leads, until it comes back to `orig` or leaves `events`.
/// Gives the arena, the marks, the points added, and whether the walk ended
/// so (not on an other event outside `events`, nor for want of steps).
pub open spec fn walk<P>(
    a: Seq<SweepEvent<P>>,
    processed: Seq<bool>,
    events: Seq<SweepEventId>,
    at: int,
    orig: int,
    contour_id: i64,
    f: spec_fn(P, P) -> bool,
    fuel: int,
) -> (Seq<SweepEvent<P>>, Seq<bool>, Seq<P>, bool)
    decreases fuel,
{
    if fuel <= 0 {
        (a, processed, Seq::empty(), false)
    } else {
        let (a1, pr1) = visited(a, processed, events, at, contour_id);
        let other = sidx(a1[pos(events[at].0)].other_pos);
        if !(0 <= other < events.len()) {
            (a1, pr1, Seq::empty(), false)
        } else {
            let (a2, pr2) = visited(a1, pr1, events, other, contour_id);
            let point = point_at(a2, events, other);
            let next = next_position(a2, events, pr2, other, orig, f);
            if next == orig || next >= events.len() || next < 0 {
                (a2, pr2, seq![point], true)
            } else {
                let (a3, pr3, points, ended) = walk(a2, pr2, events, next, orig, contour_id, f, fuel - 1);
                (a3, pr3, seq![point] + points, ended)
            }
        }
    }
}

/// Marks position `k` as visited by the walk of contour `contour_id`.
fn mark_position<P>(
    k: i64,
    events: &[SweepEventId],
    arena: &mut SweepEventArena<P>,
    processed: &mut Vec<bool>,
    contour_id: i64,
)
    requires
        forall|j: int| 0 <= j < events@.len() ==> (#[trigger] events@[j]).0 < old(arena).0@.len(),
    ensures
        (final(arena).0@, final(processed)@) == visited(
            old(arena).0@,
            old(processed)@,
            events@,
            sidx(k),
            contour_id,
        ),
{
    if within(k, events.len()) && within(k, processed.len()) {
        let i = to_position(k);
        processed.set(i, true);
        let id = events[i].0;
        arena.0[id].output_contour_id = contour_id;
        proof {
            assert(arena.0@ =~= old(arena).0@.update(
                pos(events@[pos(i)].0),
                SweepEvent { output_contour_id: contour_id, ..old(arena).0@[pos(events@[pos(i)].0)] },
            ));
        }
    }
}

/// Walks the contour `contour_id` that starts at position `start` of the
/// output events: from each position to the position of its other event,
/// whose point is added, and on to the next position at the same point not
/// yet visited, until the walk comes back to `start`.  Gives the points
/// added, or `None` when an other event lies outside the output events or
/// the walk takes more steps than there are positions.
pub fn walk_contour<P: Copy, E: Fn(&P, &P) -> bool + Copy>(
    start: usize,
    result_events: &[SweepEventId],
    arena: &mut SweepEventArena<P>,
    processed: &mut Vec<bool>,
    contour_id: i64,
    same_point: E,
) -> (points: Option<Vec<P>>)
    requires
        start < result_events@.len(),
        result_events@.len() < i64::MAX,
        old(processed)@.len() == result_events@.len(),
        forall|k: int| 0 <= k < result_events@.len() ==> (#[trigger] result_events@[k]).0 < old(arena).0@.len(),
        point_test(same_point),
    ensures
        final(arena).0@.len() == old(arena).0@.len(),
        final(processed)@.len() == old(processed)@.len(),
        forall|f: spec_fn(P, P) -> bool|
            #[trigger] points_answered_as(same_point, f) ==> {
                let (a, pr, pts, ended) = walk(
                    old(arena).0@,
                    old(processed)@,
                    result_events@,
                    pos(start),
                    pos(start),
                    contour_id,
                    f,
                    slen(result_events@),
                );
                &&& final(arena).0@ == a
                &&& final(processed)@ == pr
                &&& ended ==> (points matches Some(v) && v@ == pts)
                &&& !ended ==> points is None
            },
{
    let n = result_events.len();
    let orig = to_signed(start);
    let mut at = orig;
    let mut points: Vec<P> = Vec::new();
    let mut fuel: usize = n;
    let ghost a0 = arena.0@;
    let ghost pr0 = processed@;
    loop
        invariant
            0 <= sidx(at) < n,
            n == result_events@.len(),
            n < i64::MAX,
            orig == pos(start),
            a0 == old(arena).0@,
            pr0 == old(processed)@,
            pr0.len() == n,
            fuel <= n,
            processed@.len() == n,
            arena.0@.len() == a0.len(),
            forall|k: int| 0 <= k < result_events@.len() ==> (#[trigger] result_events@[k]).0 < a0.len(),
            point_test(same_point),
            forall|f: spec_fn(P, P) -> bool|
                #[trigger] points_answered_as(same_point, f) ==> {
                    let (a, pr, pts, ended) = walk(a0, pr0, result_events@, pos(start), pos(start), contour_id, f, slen(result_events@));
                    let (ra, rpr, rpts, rended) = walk(
                        arena.0@,
                        processed@,
                        result_events@,
                        sidx(at),
                        pos(start),
                        contour_id,
                        f,
                        pos(fuel),
                    );
                    &&& a == ra
                    &&& pr == rpr
                    &&& pts == points@ + rpts
                    &&& ended == rended
                },
        decreases fuel,
    {
        if fuel == 0 {
            proof {
                assert forall|f: spec_fn(P, P) -> bool| #[trigger] points_answered_as(same_point, f) implies {
                    let (a, pr, pts, ended) = walk(a0, pr0, result_events@, pos(start), pos(start), contour_id, f, slen(result_events@));
                    &&& arena.0@ == a
                    &&& processed@ == pr
                    &&& ended ==> points@ == pts
                    &&& !ended
                } by {
                    assert(walk(arena.0@, processed@, result_events@, sidx(at), pos(start), contour_id, f, 0) == (
                        arena.0@,
                        processed@,
                        Seq::<P>::empty(),
                        false,
                    ));
                }
            }
            return None;
        }
        let ghost a_s = arena.0@;
        let ghost pr_s = processed@;
        let ghost at0 = sidx(at);
        let ghost fuel0 = pos(fuel);
        mark_position(at, result_events, arena, processed, contour_id);
        let ghost a_m = arena.0@;
        let ghost pr_m = processed@;
        let other = arena.0[result_events[to_position(at)].0].other_pos;
        if !within(other, n) {
            proof {
                assert forall|f: spec_fn(P, P) -> bool| #[trigger] points_answered_as(same_point, f) implies {
                    let (a, pr, pts, ended) = walk(a0, pr0, result_events@, pos(start), pos(start), contour_id, f, slen(result_events@));
                    &&& arena.0@ == a
                    &&& processed@ == pr
                    &&& ended ==> points@ == pts
                    &&& !ended
                } by {
                    assert(walk(a_s, pr_s, result_events@, at0, pos(start), contour_id, f, fuel0) == (
                        a_m,
                        pr_m,
                        Seq::<P>::empty(),
                        false,
                    ));
                }
            }
            return None;
        }
        mark_position(other, result_events, arena, processed, contour_id);
        let point = arena.0[result_events[to_position(other)].0].point;
        let ghost before = points@;
        points.push(point);
        let next = next_pos(other, result_events, processed, orig, arena, same_point);
        if next == orig || !within(next, n) {
            proof {
                assert forall|f: spec_fn(P, P) -> bool| #[trigger] points_answered_as(same_point, f) implies {
                    let (a, pr, pts, ended) = walk(a0, pr0, result_events@, pos(start), pos(start), contour_id, f, slen(result_events@));
                    &&& arena.0@ == a
                    &&& processed@ == pr
                    &&& ended ==> points@ == pts
                    &&& ended
                } by {
                    assert(before + seq![point] == points@);
                    assert(next == next_position(arena.0@, result_events@, processed@, sidx(other), pos(start), f));
                    assert(walk(a_s, pr_s, result_events@, at0, pos(start), contour_id, f, fuel0) == (
                        arena.0@,
                        processed@,
                        seq![point],
                        true,
                    ));
                }
            }
            return Some(points);
        }
        at = next;
        fuel = fuel - 1;
        proof {
            assert forall|f: spec_fn(P, P) -> bool| #[trigger] points_answered_as(same_point, f) implies {
                let (a, pr, pts, ended) = walk(a0, pr0, result_events@, pos(start), pos(start), contour_id, f, slen(result_events@));
                let (ra, rpr, rpts, rended) = walk(
                    arena.0@,
                    processed@,
                    result_events@,
                    sidx(at),
                    pos(start),
                    contour_id,
                    f,
                    pos(fuel),
                );
                &&& a == ra
                &&& pr == rpr
                &&& pts == points@ + rpts
                &&& ended == rended
            } by {
                let (ra, rpr, rpts, rended) = walk(arena.0@, processed@, result_events@, sidx(at), pos(start), contour_id, f, pos(fuel));
                assert(next == next_position(arena.0@, result_events@, processed@, sidx(other), pos(start), f));
                assert(walk(a_s, pr_s, result_events@, at0, pos(start), contour_id, f, fuel0) == (
                    ra,
                    rpr,
                    seq![point] + rpts,
                    rended,
                ));
                assert(before + (seq![point] + rpts) =~= points@ + rpts);
            }
        }
    }
}

/// Step `i` of joining the output `events` into contours, from arena `a0`,
/// marks `pr0` and contours `cs0` to `a1`, `pr1` and `cs1`, with `f` telling
/// equal points apart: a visited position is passed over; otherwise the next
/// contour, numbered `cid`, is placed as `c` among the contours, which become
/// `mid`; its first point is that of position `i`, the walk from `i` adds
/// the others, and it joins the contours.
pub open spec fn join_step<P>(
    a0: Seq<SweepEvent<P>>,
    pr0: Seq<bool>,
    cs0: Seq<Contour<P>>,
    a1: Seq<SweepEvent<P>>,
    pr1: Seq<bool>,
    cs1: Seq<Contour<P>>,
    events: Seq<SweepEventId>,
    i: int,
    x: (Contour<P>, Seq<Contour<P>>, i64),
    f: spec_fn(P, P) -> bool,
) -> bool {
    let (c, mid, cid) = x;
    if pr0[i] {
        &&& a1 == a0
        &&& pr1 == pr0
        &&& cs1 == cs0
    } else {
        let (wa, wpr, pts, ended) = walk(a0, pr0, events, i, i, cid, f, slen(events));
        &&& sidx(cid) == cs0.len()
        &&& context_ready(a0[pos(events[i].0)], a0, cs0)
        &&& placed(a0[pos(events[i].0)], a0, cs0, mid, c, cid)
        &&& ended
        &&& a1 == wa
        &&& pr1 == wpr
        &&& cs1.len() == mid.len() + 1
        &&& cs1.subrange(0, slen(mid)) == mid
        &&& cs1.last().points@ == seq![point_at(a0, events, i)] + pts
        &&& cs1.last().hole_ids == c.hole_ids
        &&& cs1.last().hole_of == c.hole_of
        &&& cs1.last().depth == c.depth
    }
}

/// The first `k` steps of joining `events` into contours, from arena
/// `a_start`, no position visited and no contour, went as `join_step` says
/// for every `f` that `same_point` answers as; `arenas`, `marks` and
/// `contours` hold the states before and after each step.
pub open spec fn joined<P, E: Fn(&P, &P) -> bool>(
    arenas: Seq<Seq<SweepEvent<P>>>,
    marks: Seq<Seq<bool>>,
    contours: Seq<Seq<Contour<P>>>,
    xs: Seq<(Contour<P>, Seq<Contour<P>>, i64)>,
    k: int,
    events: Seq<SweepEventId>,
    a_start: Seq<SweepEvent<P>>,
    same_point: E,
) -> bool {
    &&& 0 <= k <= events.len()
    &&& arenas.len() == k + 1
    &&& marks.len() == k + 1
    &&& contours.len() == k + 1
    &&& xs.len() == k
    &&& arenas[0] == a_start
    &&& marks[0] == Seq::new(events.len(), |j: int| false)
    &&& contours[0] == Seq::<Contour<P>>::empty()
    &&& forall|f: spec_fn(P, P) -> bool|
        #[trigger] points_answered_as(same_point, f) ==> forall|i: int|
            0 <= i < k ==> #[trigger] join_step(
                arenas[i],
                marks[i],
                contours[i],
                arenas[i + 1],
                marks[i + 1],
                contours[i + 1],
                events,
                i,
                xs[i],
                f,
            )
}

/// A run of joining steps followed by one more step is a run.
proof fn lemma_join_extend<P, E: Fn(&P, &P) -> bool>(
    arenas: Seq<Seq<SweepEvent<P>>>,
    marks: Seq<Seq<bool>>,
    css: Seq<Seq<Contour<P>>>,
    xs: Seq<(Contour<P>, Seq<Contour<P>>, i64)>,
    k: int,
    events: Seq<SweepEventId>,
    a_start: Seq<SweepEvent<P>>,
    same_point: E,
    a1: Seq<SweepEvent<P>>,
    pr1: Seq<bool>,
    cs1: Seq<Contour<P>>,
    x: (Contour<P>, Seq<Contour<P>>, i64),
)
    requires
        joined(arenas, marks, css, xs, k, events, a_start, same_point),
        k < events.len(),
        forall|f: spec_fn(P, P) -> bool|
            #[trigger] points_answered_as(same_point, f) ==> join_step(
                arenas[k],
                marks[k],
                css[k],
                a1,
                pr1,
                cs1,
                events,
                k,
                x,
                f,
            ),
    ensures
        joined(arenas.push(a1), marks.push(pr1), css.push(cs1), xs.push(x), k + 1, events, a_start, same_point),
{
    let ar2 = arenas.push(a1);
    let mk2 = marks.push(pr1);
    let cs2 = css.push(cs1);
    let xs2 = xs.push(x);
    assert forall|f: spec_fn(P, P) -> bool| #[trigger] points_answered_as(same_point, f) implies forall|i: int|
        0 <= i < k + 1 ==> #[trigger] join_step(ar2[i], mk2[i], cs2[i], ar2[i + 1], mk2[i + 1], cs2[i + 1], events, i, xs2[i], f) by {
        assert forall|i: int| 0 <= i < k + 1 implies #[trigger] join_step(
            ar2[i],
            mk2[i],
            cs2[i],
            ar2[i + 1],
            mk2[i + 1],
            cs2[i + 1],
            events,
            i,
            xs2[i],
            f,
        ) by {
            if i < k {
                assert(ar2[i] == arenas[i] && ar2[i + 1] == arenas[i + 1] && mk2[i] == marks[i] && mk2[i + 1] == marks[i + 1]);
                assert(cs2[i] == css[i] && cs2[i + 1] == css[i + 1] && xs2[i] == xs[i]);
                assert(join_step(arenas[i], marks[i], css[i], arenas[i + 1], marks[i + 1], css[i + 1], events, i, xs[i], f));
            } else {
                assert(ar2[i] == arenas[k] && mk2[i] == marks[k] && cs2[i] == css[k]);
            }
        }
    }
}

/// Joins the output events into contours: each position not yet visited
/// begins a contour, placed by the edge below it, whose points are those of
/// the walk from there.  Gives `false`, and stops, where the contour below is
/// not known yet (or its depth has no next value) or a walk does not come
/// back to its start.
pub fn join_contours<P: Copy, E: Fn(&P, &P) -> bool + Copy>(
    result_events: &[SweepEventId],
    arena: &mut SweepEventArena<P>,
    processed: &mut Vec<bool>,
    contours: &mut Vec<Contour<P>>,
    same_point: E,
) -> (ok: bool)
    requires
        result_events@.len() < i64::MAX,
        forall|k: int| 0 <= k < result_events@.len() ==> (#[trigger] result_events@[k]).0 < old(arena).0@.len(),
        point_test(same_point),
    ensures
        exists|
            arenas: Seq<Seq<SweepEvent<P>>>,
            marks: Seq<Seq<bool>>,
            css: Seq<Seq<Contour<P>>>,
            xs: Seq<(Contour<P>, Seq<Contour<P>>, i64)>,
            k: int,
        |
            #[trigger] joined(arenas, marks, css, xs, k, result_events@, old(arena).0@, same_point) && (ok ==> k
                == result_events@.len() && final(arena).0@ == arenas[k] && final(processed)@ == marks[k]
                && final(contours)@ == css[k]) && (!ok ==> k < result_events@.len() && !marks[k][k] && (
            !context_ready(arenas[k][pos(result_events@[k].0)], arenas[k], css[k]) || forall|
                f: spec_fn(P, P) -> bool,
            |
                #[trigger] points_answered_as(same_point, f) ==> !walk(
                    arenas[k],
                    marks[k],
                    result_events@,
                    k,
                    k,
                    to_i64(slen(css[k])),
                    f,
                    slen(result_events@),
                ).3)),
{
    let n = result_events.len();
    processed.clear();
    let mut j: usize = 0;
    while j < n
        invariant
            j <= n,
            n == result_events@.len(),
            processed@.len() == j,
            forall|q: int| 0 <= q < j ==> !(#[trigger] processed@[q]),
        decreases n - j,
    {
        processed.push(false);
        j = j + 1;
    }
    contours.clear();
    let ghost a0 = arena.0@;
    let ghost mut arenas: Seq<Seq<SweepEvent<P>>> = seq![arena.0@];
    let ghost mut marks: Seq<Seq<bool>> = seq![processed@];
    let ghost mut css: Seq<Seq<Contour<P>>> = seq![contours@];
    let ghost mut xs: Seq<(Contour<P>, Seq<Contour<P>>, i64)> = Seq::empty();
    let mut i: usize = 0;
    proof {
        assert(processed@ =~= Seq::new(result_events@.len(), |q: int| false));
        assert(contours@ =~= Seq::<Contour<P>>::empty());
    }
    while i < n
        invariant
            i <= n,
            n == result_events@.len(),
            n < i64::MAX,
            arena.0@.len() == a0.len(),
            a0 == old(arena).0@,
            processed@.len() == n,
            contours@.len() <= i,
            forall|k: int| 0 <= k < result_events@.len() ==> (#[trigger] result_events@[k]).0 < a0.len(),
            point_test(same_point),
            joined(arenas, marks, css, xs, pos(i), result_events@, a0, same_point),
            arenas[pos(i)] == arena.0@,
            marks[pos(i)] == processed@,
            css[pos(i)] == contours@,
        decreases n - i,
    {
        let ghost a_i = arena.0@;
        let ghost pr_i = processed@;
        let ghost cs_i = contours@;
        if processed[i] {
            proof {
                let x: (Contour<P>, Seq<Contour<P>>, i64) = (arbitrary(), Seq::empty(), 0i64);
                assert forall|f: spec_fn(P, P) -> bool| #[trigger] points_answered_as(same_point, f) implies join_step(
                    a_i,
                    pr_i,
                    cs_i,
                    a_i,
                    pr_i,
                    cs_i,
                    result_events@,
                    pos(i),
                    x,
                    f,
                ) by {}
                lemma_join_extend(arenas, marks, css, xs, pos(i), result_events@, a0, same_point, a_i, pr_i, cs_i, x);
                arenas = arenas.push(a_i);
                marks = marks.push(pr_i);
                css = css.push(cs_i);
                xs = xs.push(x);
            }
            i = i + 1;
            continue;
        }
        let e = arena.0[result_events[i].0];
        if !context_ok(&e, arena, contours) {
            proof {
                assert(!marks[pos(i)][pos(i)]);
            }
            return false;
        }
        let cid = to_signed(contours.len());
        let mut c = initialize_contour_from_context(&e, arena, contours, cid);
        let ghost mid = contours@;
        let ghost c0 = c;
        let first = arena.0[result_events[i].0].point;
        match walk_contour(i, result_events, arena, processed, cid, same_point) {
            None => {
                proof {
                    assert(!marks[pos(i)][pos(i)]);
                }
                return false;
            },
            Some(points) => {
                let ghost pts = points@;
                let mut rest = points;
                c.points.push(first);
                c.points.append(&mut rest);
                contours.push(c);
                proof {
                    let x: (Contour<P>, Seq<Contour<P>>, i64) = (c0, mid, cid);
                    assert(c.points@ =~= seq![first] + pts);
                    assert(contours@.subrange(0, slen(mid)) =~= mid);
                    assert forall|f: spec_fn(P, P) -> bool| #[trigger] points_answered_as(same_point, f) implies join_step(
                        a_i,
                        pr_i,
                        cs_i,
                        arena.0@,
                        processed@,
                        contours@,
                        result_events@,
                        pos(i),
                        x,
                        f,
                    ) by {}
                    lemma_join_extend(arenas, marks, css, xs, pos(i), result_events@, a0, same_point, arena.0@, processed@, contours@, x);
                    arenas = arenas.push(arena.0@);
                    marks = marks.push(processed@);
                    css = css.push(contours@);
                    xs = xs.push(x);
                }
            },
        }
        i = i + 1;
    }
    true
}

/// Where a new contour stands is decided by the nearest edge below it in
/// the result: with none it is an exterior contour at depth 0; when that
/// edge enters the result going up (`OutIn`), the new contour lies inside
/// the result there and is a hole of an exterior contour (the contour of
/// that edge, or the one that contour is a hole of), which lists it among
/// its holes; when that edge leaves the result (`InOut`), the new contour
/// is exterior, at the depth of that edge's contour.  No other contour
/// changes.
pub proof fn law_contour_placement<P>(
    event: SweepEvent<P>,
    arena: Seq<SweepEvent<P>>,
    before: Seq<Contour<P>>,
    after: Seq<Contour<P>>,
    c: Contour<P>,
    contour_id: i64,
)
    requires
        context_ready(event, arena, before),
        holes_of_exterior(before),
        placed(event, arena, before, after, c, contour_id),
    ensures
        after.len() == before.len(),
        c.points@.len() == 0,
        c.hole_ids@.len() == 0,
        event.prev_in_result is None ==> c.hole_of is None && c.depth == 0 && after == before,
        event.prev_in_result matches Some(p) ==> {
            let below = arena[pos(p.0)];
            let lower_id = below.output_contour_id;
            let lower = before[sidx(lower_id)];
            let parent = match lower.hole_of {
                Some(h) => h,
                None => lower_id,
            };
            &&& below.result_transition == ResultTransitionType::OutIn ==> {
                &&& c.hole_of == Some(parent)
                &&& 0 <= parent < before.len()
                &&& before[sidx(parent)].hole_of is None
                &&& after[sidx(parent)].hole_ids@ == before[sidx(parent)].hole_ids@.push(contour_id)
                &&& forall|j: int| 0 <= j < before.len() && j != sidx(parent) ==> #[trigger] after[j] == before[j]
            }
            &&& below.result_transition != ResultTransitionType::OutIn ==> {
                &&& c.hole_of is None
                &&& c.depth == lower.depth
                &&& after == before
            }
        },
{
}

/// The output events are those whose edge is in the result: a left event
/// by its own transition, a right event by that of its left event.
pub proof fn law_result_events<P>(arena: Seq<SweepEvent<P>>, e: SweepEventId)
    requires
        e.0 < arena.len(),
    ensures
        event_in_result(arena, e) <==> if arena[pos(e.0)].left {
            arena[pos(e.0)].result_transition != ResultTransitionType::NotInResult
        } else {
            arena[pos(e.0)].other_event matches Some(o) && arena[pos(o.0)].result_transition
                != ResultTransitionType::NotInResult
        },
{
}

} // verus!
