//! What the sweep records on an edge when it enters the sweep line: on which
//! side of its own polygon and of the other polygon the edge lies, the
//! nearest edge below it that is in the result, and whether and how it is in
//! the result of the operation.
use vstd::prelude::*;

use crate::edge_type::EdgeType;
use crate::operation::Operation;
use crate::sweep_event::{ResultTransitionType, SweepEvent, SweepEventArena, SweepEventId};

verus! {

/// The edge of `e` belongs to the result of `operation`.
pub open spec fn belongs_to_result<P>(e: SweepEvent<P>, operation: Operation) -> bool {
    match e.edge_type {
        EdgeType::Normal => match operation {
            Operation::Intersection => !e.other_in_out,
            Operation::Union => e.other_in_out,
            Operation::Difference => e.is_subject == e.other_in_out,
            Operation::Xor => true,
        },
        EdgeType::SameTransition => operation == Operation::Intersection || operation
            == Operation::Union,
        EdgeType::DifferentTransition => operation == Operation::Difference,
        EdgeType::NonContributing => false,
    }
}

/// Whether crossing the edge of `e` upwards enters the result of
/// `operation` (`OutIn`) or leaves it (`InOut`).
pub open spec fn transition_of<P>(e: SweepEvent<P>, operation: Operation) -> ResultTransitionType {
    let this_in = !e.in_out;
    let that_in = !e.other_in_out;
    let is_in = match operation {
        Operation::Intersection => this_in && that_in,
        Operation::Union => this_in || that_in,
        Operation::Xor => this_in != that_in,
        Operation::Difference => if e.is_subject {
            this_in && !that_in
        } else {
            that_in && !this_in
        },
    };
    if is_in {
        ResultTransitionType::OutIn
    } else {
        ResultTransitionType::InOut
    }
}

/// `e` with its transition flags taken from the edge `p` right below it;
/// `p_vertical` tells whether that edge is vertical.
pub open spec fn flags_from_below<P>(e: SweepEvent<P>, p: SweepEvent<P>, p_vertical: bool) -> SweepEvent<P> {
    if e.is_subject == p.is_subject {
        SweepEvent { in_out: !p.in_out, other_in_out: p.other_in_out, ..e }
    } else {
        SweepEvent {
            in_out: !p.other_in_out,
            other_in_out: if p_vertical {
                !p.in_out
            } else {
                p.in_out
            },
            ..e
        }
    }
}

/// The event `event` of `arena` once `compute_fields` has filled it in,
/// with `prev` the edge right below it on the sweep line (if any).  Its
/// flags come from `prev` (read before the event is changed); its nearest
/// edge below in the result is `prev` itself when `prev` is in the result
/// and not vertical, else the one recorded on `prev` (read after the event
/// is changed); its transition follows from the new flags.
pub open spec fn computed_fields<P>(
    arena: Seq<SweepEvent<P>>,
    event: SweepEventId,
    prev: Option<SweepEventId>,
    prev_is_vertical: bool,
    operation: Operation,
) -> SweepEvent<P> {
    let e0 = arena[event.0 as int];
    let e2 = match prev {
        None => SweepEvent { in_out: false, other_in_out: true, ..e0 },
        Some(p) => {
            let e1 = flags_from_below(e0, arena[p.0 as int], prev_is_vertical);
            let pe = arena.update(event.0 as int, e1)[p.0 as int];
            SweepEvent {
                prev_in_result: if !belongs_to_result(pe, operation) || prev_is_vertical {
                    pe.prev_in_result
                } else {
                    Some(pe.id)
                },
                ..e1
            }
        },
    };
    SweepEvent {
        result_transition: if belongs_to_result(e2, operation) {
            transition_of(e2, operation)
        } else {
            ResultTransitionType::NotInResult
        },
        ..e2
    }
}

/// Fills in the transition flags, the nearest edge below in the result and
/// the result transition of `event`, given the edge `prev` right below it on
/// the sweep line and whether that edge is vertical.  No other event changes.
pub fn compute_fields<P>(
    event: SweepEventId,
    prev: Option<SweepEventId>,
    prev_is_vertical: bool,
    operation: Operation,
    arena: &mut SweepEventArena<P>,
)
    requires
        event.0 < old(arena).0@.len(),
        prev matches Some(p) ==> p.0 < old(arena).0@.len(),
    ensures
        final(arena).0@ == old(arena).0@.update(
            event.0 as int,
            computed_fields(old(arena).0@, event, prev, prev_is_vertical, operation),
        ),
{
    let e = event.0;
    match prev {
        None => {
            arena.0[e].in_out = false;
            arena.0[e].other_in_out = true;
        },
        Some(prev) => {
            let p = prev.0;
            if arena.0[e].is_subject == arena.0[p].is_subject {
                let in_out = !arena.0[p].in_out;
                let other_in_out = arena.0[p].other_in_out;
                arena.0[e].in_out = in_out;
                arena.0[e].other_in_out = other_in_out;
            } else {
                let in_out = !arena.0[p].other_in_out;
                let other_in_out = if prev_is_vertical {
                    !arena.0[p].in_out
                } else {
                    arena.0[p].in_out
                };
                arena.0[e].in_out = in_out;
                arena.0[e].other_in_out = other_in_out;
            }
            let prev_in_result = if !in_result(&arena.0[p], operation) || prev_is_vertical {
                arena.0[p].prev_in_result
            } else {
                Some(arena.0[p].id)
            };
            arena.0[e].prev_in_result = prev_in_result;
        },
    }
    let transition = if in_result(&arena.0[e], operation) {
        determine_result_transition(&arena.0[e], operation)
    } else {
        ResultTransitionType::NotInResult
    };
    arena.0[e].result_transition = transition;
}

/// Whether the edge of `event` belongs to the result of `operation`.
pub fn in_result<P>(event: &SweepEvent<P>, operation: Operation) -> (b: bool)
    ensures
        b == belongs_to_result(*event, operation),
{
    match event.edge_type {
        EdgeType::Normal => match operation {
            Operation::Intersection => !event.other_in_out,
            Operation::Union => event.other_in_out,
            Operation::Difference => (event.is_subject && event.other_in_out) || (!event.is_subject
                && !event.other_in_out),
            Operation::Xor => true,
        },
        EdgeType::SameTransition => operation == Operation::Intersection || operation
            == Operation::Union,
        EdgeType::DifferentTransition => operation == Operation::Difference,
        EdgeType::NonContributing => false,
    }
}

/// Whether crossing the edge of `event` upwards enters or leaves the result
/// of `operation`; it is never `NotInResult`.
pub fn determine_result_transition<P>(event: &SweepEvent<P>, operation: Operation) -> (r:
    ResultTransitionType)
    ensures
        r == transition_of(*event, operation),
        r != ResultTransitionType::NotInResult,
{
    let this_in = !event.in_out;
    let that_in = !event.other_in_out;

    let is_in = match operation {
        Operation::Intersection => this_in && that_in,
        Operation::Union => this_in || that_in,
        Operation::Xor => this_in ^ that_in,
        Operation::Difference => {
            if event.is_subject {
                this_in && !that_in
            } else {
                that_in && !this_in
            }
        },
    };

    if is_in {
        ResultTransitionType::OutIn
    } else {
        ResultTransitionType::InOut
    }
}

/// After `compute_fields`, an event is in the result exactly when its edge
/// belongs to the result of the operation, judged on its new flags; and the
/// transition recorded is then the one those flags give.
pub proof fn law_in_result_iff_belongs<P>(
    arena: Seq<SweepEvent<P>>,
    event: SweepEventId,
    prev: Option<SweepEventId>,
    prev_is_vertical: bool,
    operation: Operation,
)
    ensures
        ({
            let e = computed_fields(arena, event, prev, prev_is_vertical, operation);
            &&& e.is_in_result() <==> belongs_to_result(e, operation)
            &&& e.is_in_result() ==> e.result_transition == transition_of(e, operation)
        }),
{
}

/// Crossing an edge of an intersection upwards enters the result exactly
/// when the region just above the edge lies inside both operands: inside the
/// edge's own polygon (`!in_out`) and inside the other one
/// (`!other_in_out`); otherwise it leaves the result.
pub proof fn law_intersection_transition<P>(e: SweepEvent<P>)
    ensures
        transition_of(e, Operation::Intersection) == if !e.in_out && !e.other_in_out {
            ResultTransitionType::OutIn
        } else {
            ResultTransitionType::InOut
        },
{
}

/// Crossing an edge of a union upwards enters the result exactly when the
/// region just above the edge lies inside at least one operand.
pub proof fn law_union_transition<P>(e: SweepEvent<P>)
    ensures
        transition_of(e, Operation::Union) == if !e.in_out || !e.other_in_out {
            ResultTransitionType::OutIn
        } else {
            ResultTransitionType::InOut
        },
{
}

/// Crossing an edge of an exclusive or upwards enters the result exactly
/// when the region just above the edge lies inside exactly one operand; above
/// an edge outside both, or inside both, the result is left.
pub proof fn law_xor_transition<P>(e: SweepEvent<P>)
    ensures
        transition_of(e, Operation::Xor) == if (!e.in_out) != (!e.other_in_out) {
            ResultTransitionType::OutIn
        } else {
            ResultTransitionType::InOut
        },
        e.in_out && e.other_in_out ==> transition_of(e, Operation::Xor) == ResultTransitionType::InOut,
        !e.in_out && !e.other_in_out ==> transition_of(e, Operation::Xor) == ResultTransitionType::InOut,
{
}

/// Crossing an edge of a difference upwards enters the result exactly when
/// the region just above the edge lies inside the subject and outside the
/// clipping polygons: for a subject edge, inside its own polygon and outside
/// the other; for a clipping edge, outside its own polygon and inside the
/// other.
pub proof fn law_difference_transition<P>(e: SweepEvent<P>)
    ensures
        transition_of(e, Operation::Difference) == if (e.is_subject && !e.in_out && e.other_in_out) || (
        !e.is_subject && e.in_out && !e.other_in_out) {
            ResultTransitionType::OutIn
        } else {
            ResultTransitionType::InOut
        },
{
}

/// The transition of an edge is never "not in the result".
pub proof fn law_transition_is_a_crossing<P>(e: SweepEvent<P>, operation: Operation)
    ensures
        transition_of(e, operation) == ResultTransitionType::OutIn || transition_of(e, operation)
            == ResultTransitionType::InOut,
{
}

/// A normal edge belongs to a difference exactly when it bounds the subject
/// minus the clipping polygons: a subject edge outside the clipping polygons
/// (`other_in_out`), or a clipping edge inside the subject
/// (`!other_in_out`).
pub proof fn law_difference_edges<P>(e: SweepEvent<P>)
    requires
        e.edge_type == EdgeType::Normal,
    ensures
        belongs_to_result(e, Operation::Difference) <==> (e.is_subject && e.other_in_out) || (!e.is_subject
            && !e.other_in_out),
        !e.is_subject && !e.other_in_out ==> belongs_to_result(e, Operation::Difference),
        e.is_subject && !e.other_in_out ==> !belongs_to_result(e, Operation::Difference),
{
}

/// A normal edge belongs to an intersection exactly when it lies inside the
/// other operand, to a union exactly when it lies outside it, and always to
/// an exclusive or.
pub proof fn law_normal_edges<P>(e: SweepEvent<P>)
    requires
        e.edge_type == EdgeType::Normal,
    ensures
        belongs_to_result(e, Operation::Intersection) <==> !e.other_in_out,
        belongs_to_result(e, Operation::Union) <==> e.other_in_out,
        belongs_to_result(e, Operation::Xor),
{
}

/// Of two overlapping edges, the one marked as not contributing is in no
/// result; the one standing for both is in the result of an intersection or
/// a union when the two have the same transition, and of a difference when
/// they have different ones.
pub proof fn law_overlap_edges<P>(e: SweepEvent<P>, operation: Operation)
    ensures
        e.edge_type == EdgeType::NonContributing ==> !belongs_to_result(e, operation),
        e.edge_type == EdgeType::SameTransition ==> (belongs_to_result(e, operation) <==> (operation
            == Operation::Intersection || operation == Operation::Union)),
        e.edge_type == EdgeType::DifferentTransition ==> (belongs_to_result(e, operation) <==> operation
            == Operation::Difference),
{
}

/// How `compute_fields` fills in an event from the edge `p` right below it.
/// Crossing two edges of one polygon changes sides of that polygon, so an
/// event of the same polygon as `p` has the opposite `in_out` and the same
/// `other_in_out`; an event of the other polygon has as `in_out` the
/// opposite of `p`'s `other_in_out`, and as `other_in_out` the `in_out` of
/// `p` (its opposite when `p` is vertical).  The nearest edge below in the
/// result is `p` itself when `p` is in the result and not vertical, else the
/// one `p` records.  Nothing else of the event changes.
pub proof fn law_fields_from_below<P>(
    arena: Seq<SweepEvent<P>>,
    event: SweepEventId,
    p: SweepEventId,
    p_vertical: bool,
    operation: Operation,
)
    requires
        event.0 < arena.len(),
        p.0 < arena.len(),
        event != p,
    ensures
        ({
            let e0 = arena[event.0 as int];
            let b = arena[p.0 as int];
            let e = computed_fields(arena, event, Some(p), p_vertical, operation);
            &&& e0.is_subject == b.is_subject ==> e.in_out == !b.in_out && e.other_in_out == b.other_in_out
            &&& e0.is_subject != b.is_subject ==> e.in_out == !b.other_in_out && e.other_in_out == (
            b.in_out != p_vertical)
            &&& e.prev_in_result == if belongs_to_result(b, operation) && !p_vertical {
                Some(b.id)
            } else {
                b.prev_in_result
            }
            &&& e.point == e0.point && e.left == e0.left && e.other_event == e0.other_event
            &&& e.is_subject == e0.is_subject && e.edge_type == e0.edge_type && e.id == e0.id
            &&& e.contour_id == e0.contour_id
        }),
{
    assert(event.0 as int != p.0 as int);
}

/// An event with no edge below it lies, going up, from outside both
/// polygons: it enters its own polygon (`in_out` false) and the region
/// below is outside the other (`other_in_out` true); nothing else of the
/// event changes but what is in the result.
pub proof fn law_fields_with_nothing_below<P>(arena: Seq<SweepEvent<P>>, event: SweepEventId, operation: Operation)
    requires
        event.0 < arena.len(),
    ensures
        ({
            let e0 = arena[event.0 as int];
            let e = computed_fields(arena, event, None, false, operation);
            &&& !e.in_out
            &&& e.other_in_out
            &&& e.prev_in_result == e0.prev_in_result
            &&& e.point == e0.point && e.left == e0.left && e.other_event == e0.other_event
            &&& e.is_subject == e0.is_subject && e.edge_type == e0.edge_type && e.id == e0.id
        }),
{
}

} // verus!
