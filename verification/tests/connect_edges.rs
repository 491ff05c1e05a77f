use martinez::connect_edges::{
    initialize_contour_from_context, link_other_positions, select_result_events, sort_result_events,
};
use martinez::contour::Contour;
use martinez::sweep_event::{ResultTransitionType, SweepEvent, SweepEventArena, SweepEventId};

fn contour(hole_of: Option<i64>, depth: i64) -> Contour<[f64; 2]> {
    Contour { points: vec![], hole_ids: vec![], hole_of, depth }
}

#[test]
fn contour_without_an_edge_below_is_exterior() {
    let mut arena = SweepEventArena::new();
    let (e, _) = SweepEvent::new([0.0, 0.0], true, None, true, None, &mut arena);
    let mut contours: Vec<Contour<[f64; 2]>> = vec![];
    let c = initialize_contour_from_context(&e, &arena, &mut contours, 0);
    assert!(c.is_exterior());
    assert_eq!(c.depth, 0);
    assert!(contours.is_empty());
    let d: Contour<[f64; 2]> = Contour::default();
    assert!(d.is_exterior());
}

#[test]
fn contour_above_an_exterior_contour() {
    let mut arena = SweepEventArena::new();
    let (_, below) = SweepEvent::new([0.0, 0.0], true, None, true, None, &mut arena);
    arena.0[below.0].output_contour_id = 0;
    arena.0[below.0].result_transition = ResultTransitionType::OutIn;
    let (mut e, _) = SweepEvent::new([1.0, 1.0], true, None, true, None, &mut arena);
    e.prev_in_result = Some(below);

    let mut contours = vec![contour(None, 2)];
    let c = initialize_contour_from_context(&e, &arena, &mut contours, 5);
    assert_eq!(c.hole_of, Some(0));
    assert_eq!(c.depth, 3);
    assert_eq!(contours[0].hole_ids, vec![5]);

    arena.0[below.0].result_transition = ResultTransitionType::InOut;
    let c = initialize_contour_from_context(&e, &arena, &mut contours, 6);
    assert!(c.is_exterior());
    assert_eq!(c.depth, 2);
    assert_eq!(contours[0].hole_ids, vec![5]);
}

#[test]
fn contour_above_a_hole() {
    let mut arena = SweepEventArena::new();
    let (_, below) = SweepEvent::new([0.0, 0.0], true, None, true, None, &mut arena);
    arena.0[below.0].output_contour_id = 1;
    arena.0[below.0].result_transition = ResultTransitionType::OutIn;
    let (mut e, _) = SweepEvent::new([1.0, 1.0], true, None, true, None, &mut arena);
    e.prev_in_result = Some(below);

    let mut contours = vec![contour(None, 0), contour(Some(0), 1)];
    contours[0].hole_ids.push(1);
    let c = initialize_contour_from_context(&e, &arena, &mut contours, 2);
    assert_eq!(c.hole_of, Some(0));
    assert_eq!(c.depth, 1);
    assert_eq!(contours[0].hole_ids, vec![1, 2]);
    assert!(contours[1].hole_ids.is_empty());
}


// Two edges: events 0/1 and 2/3, left events 0 and 2.
fn two_edges(first_in: bool, second_in: bool) -> SweepEventArena<[f64; 2]> {
    let mut arena = SweepEventArena::new();
    for (i, p) in [[0.0, 0.0], [2.0, 0.0], [1.0, 1.0], [3.0, 1.0]].iter().enumerate() {
        let other = if i % 2 == 0 { i + 1 } else { i - 1 };
        let (_, id) = SweepEvent::new(*p, i % 2 == 0, Some(SweepEventId(other)), true, None, &mut arena);
        assert_eq!(id, SweepEventId(i));
    }
    if first_in {
        arena.0[0].result_transition = ResultTransitionType::OutIn;
    }
    if second_in {
        arena.0[2].result_transition = ResultTransitionType::InOut;
    }
    arena
}

#[test]
fn select_result_events_keeps_edges_in_the_result() {
    let arena = two_edges(true, false);
    let sorted = vec![SweepEventId(0), SweepEventId(2), SweepEventId(1), SweepEventId(3)];
    assert_eq!(select_result_events(&sorted, &arena), vec![SweepEventId(0), SweepEventId(1)]);
    let arena = two_edges(true, true);
    assert_eq!(select_result_events(&sorted, &arena), sorted);
    let arena = two_edges(false, false);
    assert_eq!(select_result_events(&sorted, &arena), vec![]);
}

#[test]
fn sort_result_events_orders_by_the_comparator() {
    let keys = [5, 1, 4, 2, 3, 0];
    let mut events: Vec<SweepEventId> = (0..6).map(SweepEventId).collect();
    sort_result_events(&mut events, |a: &SweepEventId, b: &SweepEventId| keys[a.0].cmp(&keys[b.0]));
    assert_eq!(
        events,
        vec![SweepEventId(5), SweepEventId(1), SweepEventId(3), SweepEventId(4), SweepEventId(2), SweepEventId(0)]
    );
    let mut none: Vec<SweepEventId> = vec![];
    sort_result_events(&mut none, |a: &SweepEventId, b: &SweepEventId| a.0.cmp(&b.0));
    assert!(none.is_empty());
}

#[test]
fn link_other_positions_points_each_event_at_its_partner() {
    let mut arena = two_edges(true, true);
    let events = vec![SweepEventId(0), SweepEventId(2), SweepEventId(1), SweepEventId(3)];
    link_other_positions(&events, &mut arena);
    // Event 0 stands at 0 and its partner 1 at 2; event 2 at 1, partner 3 at 3.
    assert_eq!(arena.0[0].other_pos, 2);
    assert_eq!(arena.0[1].other_pos, 0);
    assert_eq!(arena.0[2].other_pos, 3);
    assert_eq!(arena.0[3].other_pos, 1);
}
