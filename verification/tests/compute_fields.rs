use martinez::compute_fields::{compute_fields, determine_result_transition, in_result};
use martinez::edge_type::EdgeType;
use martinez::operation::Operation;
use martinez::sweep_event::{ResultTransitionType, SweepEvent, SweepEventArena, SweepEventId};

fn event(arena: &mut SweepEventArena<[f64; 2]>, is_subject: bool) -> SweepEventId {
    SweepEvent::new([0.0, 0.0], true, None, is_subject, None, arena).1
}

#[test]
fn in_result_follows_the_edge_type_and_the_operation() {
    let mut arena = SweepEventArena::new();
    let id = event(&mut arena, true);
    let mut e = arena.0[id.0];

    e.other_in_out = false;
    assert!(in_result(&e, Operation::Intersection));
    assert!(!in_result(&e, Operation::Union));
    assert!(!in_result(&e, Operation::Difference));
    assert!(in_result(&e, Operation::Xor));

    e.other_in_out = true;
    assert!(!in_result(&e, Operation::Intersection));
    assert!(in_result(&e, Operation::Union));
    assert!(in_result(&e, Operation::Difference));

    e.is_subject = false;
    assert!(!in_result(&e, Operation::Difference));

    e.edge_type = EdgeType::SameTransition;
    assert!(in_result(&e, Operation::Intersection));
    assert!(in_result(&e, Operation::Union));
    assert!(!in_result(&e, Operation::Difference));
    assert!(!in_result(&e, Operation::Xor));

    e.edge_type = EdgeType::DifferentTransition;
    assert!(in_result(&e, Operation::Difference));
    assert!(!in_result(&e, Operation::Union));

    e.edge_type = EdgeType::NonContributing;
    assert!(!in_result(&e, Operation::Xor));
}

#[test]
fn determine_result_transition_cases() {
    let mut arena = SweepEventArena::new();
    let id = event(&mut arena, true);
    let mut e = arena.0[id.0];

    e.in_out = false;
    e.other_in_out = false;
    assert_eq!(determine_result_transition(&e, Operation::Intersection), ResultTransitionType::OutIn);
    assert_eq!(determine_result_transition(&e, Operation::Xor), ResultTransitionType::InOut);
    assert_eq!(determine_result_transition(&e, Operation::Difference), ResultTransitionType::InOut);

    e.other_in_out = true;
    assert_eq!(determine_result_transition(&e, Operation::Intersection), ResultTransitionType::InOut);
    assert_eq!(determine_result_transition(&e, Operation::Union), ResultTransitionType::OutIn);
    assert_eq!(determine_result_transition(&e, Operation::Xor), ResultTransitionType::OutIn);
    assert_eq!(determine_result_transition(&e, Operation::Difference), ResultTransitionType::OutIn);

    e.is_subject = false;
    e.in_out = true;
    e.other_in_out = false;
    assert_eq!(determine_result_transition(&e, Operation::Difference), ResultTransitionType::OutIn);
    e.in_out = true;
    e.other_in_out = true;
    assert_eq!(determine_result_transition(&e, Operation::Union), ResultTransitionType::InOut);
}

#[test]
fn compute_fields_without_an_edge_below() {
    let mut arena = SweepEventArena::new();
    let id = event(&mut arena, true);
    compute_fields(id, None, false, Operation::Union, &mut arena);
    let e = arena.0[id.0];
    assert!(!e.in_out);
    assert!(e.other_in_out);
    assert_eq!(e.prev_in_result, None);
    assert_eq!(e.result_transition, ResultTransitionType::OutIn);
    assert!(e.in_result());

    let id2 = event(&mut arena, true);
    compute_fields(id2, None, false, Operation::Intersection, &mut arena);
    assert_eq!(arena.0[id2.0].result_transition, ResultTransitionType::NotInResult);
    assert!(!arena.0[id2.0].in_result());
}

#[test]
fn compute_fields_from_an_edge_below() {
    let mut arena = SweepEventArena::new();
    let below = event(&mut arena, true);
    compute_fields(below, None, false, Operation::Union, &mut arena);

    // Same polygon: own transition flips, the other polygon's is kept.
    let same = event(&mut arena, true);
    compute_fields(same, Some(below), false, Operation::Union, &mut arena);
    let e = arena.0[same.0];
    assert!(e.in_out);
    assert!(e.other_in_out);
    assert_eq!(e.prev_in_result, Some(below));
    assert_eq!(e.result_transition, ResultTransitionType::InOut);

    // Other polygon: flags come crossed from the edge below.
    let other = event(&mut arena, false);
    compute_fields(other, Some(same), false, Operation::Intersection, &mut arena);
    let e = arena.0[other.0];
    assert!(!e.in_out);
    assert!(e.in_out == !arena.0[same.0].other_in_out);
    assert!(e.other_in_out);
    assert_eq!(e.prev_in_result, arena.0[same.0].prev_in_result);
    assert_eq!(e.result_transition, ResultTransitionType::NotInResult);

    // A vertical edge below flips the other polygon's flag and is skipped.
    let over_vertical = event(&mut arena, false);
    compute_fields(over_vertical, Some(same), true, Operation::Union, &mut arena);
    let e = arena.0[over_vertical.0];
    assert!(!e.other_in_out);
    assert_eq!(e.prev_in_result, arena.0[same.0].prev_in_result);

    // Only the event itself changes.
    assert_eq!(arena.0.len(), 4);
    assert!(arena.0[below.0].other_in_out);
    assert!(!arena.0[below.0].in_out);
}

#[test]
fn new_events_take_the_next_identifier() {
    let mut arena = SweepEventArena::new();
    let (a, id_a) = SweepEvent::new([1.0, 2.0], true, None, true, None, &mut arena);
    let (b, id_b) = SweepEvent::new([3.0, 4.0], false, Some(id_a), false, Some(EdgeType::SameTransition), &mut arena);
    assert_eq!(id_a, SweepEventId(0));
    assert_eq!(id_b, SweepEventId(1));
    assert_eq!(a.edge_type, EdgeType::Normal);
    assert_eq!(b.edge_type, EdgeType::SameTransition);
    assert_eq!(b.other_event, Some(id_a));
    assert_eq!(arena.0[1].point, [3.0, 4.0]);
    assert_eq!(a.other_pos, -1);
    assert_eq!(a.result_transition, ResultTransitionType::default());
    assert_eq!(SweepEventId::default(), SweepEventId(usize::MAX));
    assert_eq!(EdgeType::default(), EdgeType::Normal);
    assert!(ResultTransitionType::InOut < ResultTransitionType::NotInResult);
    assert!(ResultTransitionType::NotInResult < ResultTransitionType::OutIn);
}
