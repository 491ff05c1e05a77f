//! Sweep events: the two endpoints of every edge, kept in an arena and named
//! by their index in it.  The point type is left open; the fields that the
//! sweep decides on are plain values.
use vstd::prelude::*;

use crate::edge_type::EdgeType;

verus! {

/// The index of a sweep event in its arena.
#[derive(Debug, Clone, Copy, PartialEq, Eq, Structural, Hash)]
pub struct SweepEventId(pub usize);

impl Default for SweepEventId {
    /// An identifier that names no event: the largest index.
    fn default() -> (id: Self)
        ensures
            id.0 == usize::MAX,
    {
        Self(usize::MAX)
    }
}

/// How the result changes when the sweep crosses an edge from below: it
/// goes from inside to outside, the edge is not in the result, or it goes
/// from outside to inside.  The variants are declared in that order, so
/// the derived order is `InOut < NotInResult < OutIn`.
#[derive(PartialEq, Eq, Structural, PartialOrd, Ord, Debug, Clone, Copy)]
pub enum ResultTransitionType {
    InOut,
    NotInResult,
    OutIn,
}

impl Default for ResultTransitionType {
    /// Not in the result.
    fn default() -> (r: Self)
        ensures
            r == ResultTransitionType::NotInResult,
    {
        ResultTransitionType::NotInResult
    }
}

/// One endpoint of an edge, with what the sweep has found out about it.
#[derive(Debug, Clone, Copy)]
pub struct SweepEvent<P> {
    pub id: SweepEventId,
    pub point: P,
    /// This is the left endpoint of its edge.
    pub left: bool,
    /// The other endpoint of the edge.
    pub other_event: Option<SweepEventId>,
    pub is_subject: bool,
    pub edge_type: EdgeType,
    /// The edge is an inside-outside transition of its own polygon.
    pub in_out: bool,
    /// The edge is an inside-outside transition of the other polygon.
    pub other_in_out: bool,
    /// The nearest edge below this one that is in the result.
    pub prev_in_result: Option<SweepEventId>,
    pub result_transition: ResultTransitionType,
    pub other_pos: i64,
    pub contour_id: i64,
    pub output_contour_id: i64,
    pub is_exterior_ring: bool,
}

/// The identifier of entry `n` of an arena.
pub open spec fn id_of(n: int) -> SweepEventId {
    SweepEventId(n as usize)
}

/// The arena that owns the sweep events; `SweepEventId(i)` names entry `i`.
pub struct SweepEventArena<P>(pub Vec<SweepEvent<P>>);

impl<P> SweepEventArena<P> {
    /// An empty arena.
    pub fn new() -> (a: Self)
        ensures
            a.0@.len() == 0,
    {
        Self(Vec::new())
    }
}

impl<P> SweepEvent<P> {
    /// The edge ends up in the result.
    pub open spec fn is_in_result(&self) -> bool {
        self.result_transition != ResultTransitionType::NotInResult
    }

    /// The event is in the result: its transition is not `NotInResult`.
    pub fn in_result(&self) -> (b: bool)
        ensures
            b == self.is_in_result(),
    {
        self.result_transition != ResultTransitionType::NotInResult
    }
}

impl<P: Copy> SweepEvent<P> {
    /// A fresh event at `point`, appended to `arena`; it is returned together
    /// with its identifier, the arena's former length.  An absent edge type
    /// is `Normal`; nothing is known yet of its transitions or output.
    pub fn new(
        point: P,
        left: bool,
        other_event: Option<SweepEventId>,
        is_subject: bool,
        edge_type: Option<EdgeType>,
        arena: &mut SweepEventArena<P>,
    ) -> (r: (Self, SweepEventId))
        requires
            old(arena).0@.len() < usize::MAX,
        ensures
            r.1.0 == old(arena).0@.len(),
            final(arena).0@ == old(arena).0@.push(r.0),
            r.0 == (SweepEvent {
                id: r.1,
                point,
                left,
                other_event,
                is_subject,
                edge_type: match edge_type {
                    Some(t) => t,
                    None => EdgeType::Normal,
                },
                in_out: false,
                other_in_out: false,
                prev_in_result: None,
                result_transition: ResultTransitionType::NotInResult,
                other_pos: -1i64,
                contour_id: -1i64,
                output_contour_id: -1i64,
                is_exterior_ring: true,
            }),
    {
        let id = SweepEventId(arena.0.len());
        let kind = match edge_type {
            Some(t) => t,
            None => EdgeType::Normal,
        };
        let event = SweepEvent {
            id,
            point,
            left,
            other_event,
            is_subject,
            edge_type: kind,
            in_out: false,
            other_in_out: false,
            prev_in_result: None,
            result_transition: ResultTransitionType::NotInResult,
            other_pos: -1,
            contour_id: -1,
            output_contour_id: -1,
            is_exterior_ring: true,
        };
        arena.0.push(event);
        (event, id)
    }
}

} // verus!
