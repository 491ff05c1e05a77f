use std::cmp::Ordering;

use martinez::connect_edges::{join_contours, next_pos, walk_contour};
use martinez::divide_segment::{divide_segment, push_event};
use martinez::edge_type::EdgeType;
use martinez::fill_queue::{fill_queue, process_polygon};
use martinez::min_heap::MinHeapByCompareEvents;
use martinez::operation::Operation;
use martinez::possible_intersection::possible_intersection;
use martinez::subdivide_segments::subdivide;
use martinez::sweep_event::{SweepEvent, SweepEventArena, SweepEventId};
use martinez::tree_by_compare_segments::TreeByCompareSegments;

type Point = [f64; 2];
type Arena = SweepEventArena<Point>;

fn order_f64(a: f64, b: f64) -> Ordering {
    if a < b {
        Ordering::Less
    } else if a > b {
        Ordering::Greater
    } else {
        Ordering::Equal
    }
}

/// Events by x, then y; at one point a right event comes first.
fn by_point(arena: &Arena, a: &SweepEventId, b: &SweepEventId) -> Ordering {
    let (ea, eb) = (&arena.0[a.0], &arena.0[b.0]);
    let o = order_f64(ea.point[0], eb.point[0]);
    if o != Ordering::Equal {
        return o;
    }
    let o = order_f64(ea.point[1], eb.point[1]);
    if o != Ordering::Equal {
        return o;
    }
    ea.left.cmp(&eb.left)
}

/// Segments by the height of their left end, then of their right end.
fn by_height(arena: &Arena, a: &SweepEventId, b: &SweepEventId) -> Ordering {
    let (ea, eb) = (&arena.0[a.0], &arena.0[b.0]);
    let o = order_f64(ea.point[1], eb.point[1]);
    if o != Ordering::Equal {
        return o;
    }
    let ra = arena.0[ea.other_event.unwrap().0].point[1];
    let rb = arena.0[eb.other_event.unwrap().0].point[1];
    let o = order_f64(ra, rb);
    if o != Ordering::Equal {
        return o;
    }
    a.0.cmp(&b.0)
}

fn same(p: &Point, q: &Point) -> bool {
    p[0] == q[0] && p[1] == q[1]
}

/// A segment from `a` (its left end) to `b`; returns its left event.
fn segment(arena: &mut Arena, a: Point, b: Point, subject: bool) -> SweepEventId {
    let (_, l) = SweepEvent::new(a, true, None, subject, None, arena);
    let (_, r) = SweepEvent::new(b, false, Some(l), subject, None, arena);
    arena.0[l.0].other_event = Some(r);
    l
}

#[test]
fn divide_segments_divide_2_segments() {
    let mut arena = SweepEventArena::new();
    let (_, o1) = SweepEvent::new([5.0, 5.0], false, None, false, None, &mut arena);
    let (_, se1_id) = SweepEvent::new([0.0, 0.0], true, Some(o1), true, None, &mut arena);
    let (_, o2) = SweepEvent::new([5.0, 0.0], false, None, false, None, &mut arena);
    let (_, se2_id) = SweepEvent::new([0.0, 5.0], true, Some(o2), false, None, &mut arena);

    let mut q = MinHeapByCompareEvents::new();
    push_event(&mut q, se1_id, &arena, by_point);
    push_event(&mut q, se2_id, &arena, by_point);

    // Where the two segments cross.
    let inter = [2.5, 2.5];
    divide_segment(se1_id, inter, &mut q, &mut arena, by_point);
    divide_segment(se2_id, inter, &mut q, &mut arena, by_point);

    assert_eq!(q.len(), 6, "subdivided in 4 segments by intersection point'");
}

#[test]
fn divide_segment_links_the_new_events() {
    let mut arena = SweepEventArena::new();
    let se = segment(&mut arena, [0.0, 0.0], [4.0, 0.0], true);
    arena.0[se.0].contour_id = 7;
    let mut q = MinHeapByCompareEvents::new();
    divide_segment(se, [1.0, 0.0], &mut q, &mut arena, by_point);
    assert_eq!(arena.0.len(), 4);
    assert_eq!(q.len(), 2);
    // The right end of the first part, then the left end of the second.
    assert_eq!(arena.0[2].point, [1.0, 0.0]);
    assert!(!arena.0[2].left);
    assert_eq!(arena.0[2].other_event, Some(se));
    assert_eq!(arena.0[2].contour_id, 7);
    assert_eq!(arena.0[3].point, [1.0, 0.0]);
    assert!(arena.0[3].left);
    assert_eq!(arena.0[3].other_event, Some(SweepEventId(1)));
    assert_eq!(arena.0[se.0].other_event, Some(SweepEventId(2)));
    assert_eq!(arena.0[1].other_event, Some(SweepEventId(3)));
    assert!(!arena.0[1].left);
}

#[test]
fn divide_segment_swaps_roles_when_the_left_end_comes_late() {
    let mut arena = SweepEventArena::new();
    let se = segment(&mut arena, [0.0, 0.0], [4.0, 0.0], true);
    let mut q = MinHeapByCompareEvents::new();
    // A split point beyond the other end: the new left event would come
    // after the old right one, so the two change roles.
    divide_segment(se, [5.0, 0.0], &mut q, &mut arena, by_point);
    assert!(arena.0[1].left);
    assert!(!arena.0[3].left);
}

#[test]
fn possible_intersection_of_segments_that_do_not_meet() {
    let mut arena = SweepEventArena::new();
    let a = segment(&mut arena, [0.0, 0.0], [1.0, 0.0], true);
    let b = segment(&mut arena, [0.0, 1.0], [1.0, 1.0], false);
    let mut q = MinHeapByCompareEvents::new();
    assert_eq!(possible_intersection(a, b, None, &mut q, &mut arena, same, by_point), 0);
    assert_eq!(possible_intersection(a, b, Some(vec![]), &mut q, &mut arena, same, by_point), 0);
    assert_eq!(arena.0.len(), 4);
    assert_eq!(q.len(), 0);
}

#[test]
fn possible_intersection_at_a_shared_endpoint() {
    let mut arena = SweepEventArena::new();
    let a = segment(&mut arena, [0.0, 0.0], [5.0, 5.0], true);
    let b = segment(&mut arena, [0.0, 0.0], [5.0, 0.0], false);
    let mut q = MinHeapByCompareEvents::new();
    let r = possible_intersection(a, b, Some(vec![[0.0, 0.0]]), &mut q, &mut arena, same, by_point);
    assert_eq!(r, 0);
    assert_eq!(arena.0.len(), 4);
}

#[test]
fn possible_intersection_of_crossing_segments() {
    let mut arena = SweepEventArena::new();
    let a = segment(&mut arena, [0.0, 0.0], [5.0, 5.0], true);
    let b = segment(&mut arena, [0.0, 5.0], [5.0, 0.0], false);
    let mut q = MinHeapByCompareEvents::new();
    let r = possible_intersection(a, b, Some(vec![[2.5, 2.5]]), &mut q, &mut arena, same, by_point);
    assert_eq!(r, 1);
    assert_eq!(arena.0.len(), 8);
    assert_eq!(q.len(), 4);
    for e in &arena.0[4..] {
        assert_eq!(e.point, [2.5, 2.5]);
    }
}

#[test]
fn possible_intersection_of_a_crossing_at_one_end() {
    let mut arena = SweepEventArena::new();
    let a = segment(&mut arena, [0.0, 0.0], [4.0, 0.0], true);
    let b = segment(&mut arena, [2.0, -2.0], [2.0, 0.0], false);
    let mut q = MinHeapByCompareEvents::new();
    // The meeting point is an end of `b` only: `a` alone is split.
    let r = possible_intersection(a, b, Some(vec![[2.0, 0.0]]), &mut q, &mut arena, same, by_point);
    assert_eq!(r, 1);
    assert_eq!(arena.0.len(), 6);
    assert_eq!(arena.0[a.0].other_event, Some(SweepEventId(4)));
}

#[test]
fn possible_intersection_of_overlap_within_one_polygon() {
    let mut arena = SweepEventArena::new();
    let a = segment(&mut arena, [0.0, 0.0], [4.0, 0.0], true);
    let b = segment(&mut arena, [2.0, 0.0], [6.0, 0.0], true);
    let mut q = MinHeapByCompareEvents::new();
    let r = possible_intersection(a, b, Some(vec![[2.0, 0.0], [4.0, 0.0]]), &mut q, &mut arena, same, by_point);
    assert_eq!(r, 0);
    assert_eq!(arena.0.len(), 4);
}

#[test]
fn possible_intersection_of_overlap_from_a_shared_left_end() {
    let mut arena = SweepEventArena::new();
    let a = segment(&mut arena, [0.0, 0.0], [5.0, 0.0], true);
    let b = segment(&mut arena, [0.0, 0.0], [3.0, 0.0], false);
    let mut q = MinHeapByCompareEvents::new();
    let r = possible_intersection(a, b, Some(vec![[0.0, 0.0], [3.0, 0.0]]), &mut q, &mut arena, same, by_point);
    assert_eq!(r, 2);
    assert_eq!(arena.0[b.0].edge_type, EdgeType::NonContributing);
    assert_eq!(arena.0[a.0].edge_type, EdgeType::SameTransition);
    // The longer edge is split where the shorter ends.
    assert_eq!(arena.0.len(), 6);
    assert_eq!(arena.0[4].point, [3.0, 0.0]);
    assert_eq!(arena.0[a.0].other_event, Some(SweepEventId(4)));
    assert_eq!(q.len(), 2);
}

#[test]
fn possible_intersection_of_overlap_with_different_transitions() {
    let mut arena = SweepEventArena::new();
    let a = segment(&mut arena, [0.0, 0.0], [3.0, 0.0], true);
    let b = segment(&mut arena, [0.0, 0.0], [3.0, 0.0], false);
    arena.0[b.0].in_out = true;
    let mut q = MinHeapByCompareEvents::new();
    let r = possible_intersection(a, b, Some(vec![[0.0, 0.0], [3.0, 0.0]]), &mut q, &mut arena, same, by_point);
    assert_eq!(r, 2);
    assert_eq!(arena.0[a.0].edge_type, EdgeType::DifferentTransition);
    assert_eq!(arena.0[b.0].edge_type, EdgeType::NonContributing);
    assert_eq!(arena.0.len(), 4);
}

#[test]
fn possible_intersection_of_staggered_overlap() {
    let mut arena = SweepEventArena::new();
    let a = segment(&mut arena, [0.0, 0.0], [4.0, 0.0], true);
    let b = segment(&mut arena, [2.0, 0.0], [6.0, 0.0], false);
    let mut q = MinHeapByCompareEvents::new();
    let r = possible_intersection(a, b, Some(vec![[2.0, 0.0], [4.0, 0.0]]), &mut q, &mut arena, same, by_point);
    assert_eq!(r, 3);
    assert_eq!(arena.0.len(), 8);
    assert_eq!(q.len(), 4);
    // `a` is split where `b` starts, `b` where `a` ends.
    assert_eq!(arena.0[4].point, [2.0, 0.0]);
    assert_eq!(arena.0[6].point, [4.0, 0.0]);
    assert_eq!(arena.0[a.0].other_event, Some(SweepEventId(4)));
    assert_eq!(arena.0[b.0].other_event, Some(SweepEventId(6)));
}

#[test]
fn possible_intersection_of_a_segment_inside_another() {
    let mut arena = SweepEventArena::new();
    let a = segment(&mut arena, [0.0, 0.0], [6.0, 0.0], true);
    let b = segment(&mut arena, [2.0, 0.0], [4.0, 0.0], false);
    let mut q = MinHeapByCompareEvents::new();
    let r = possible_intersection(a, b, Some(vec![[2.0, 0.0], [4.0, 0.0]]), &mut q, &mut arena, same, by_point);
    assert_eq!(r, 3);
    assert_eq!(arena.0.len(), 8);
    assert_eq!(arena.0[4].point, [2.0, 0.0]);
    assert_eq!(arena.0[6].point, [4.0, 0.0]);
}

fn crossing_segments() -> (Arena, MinHeapByCompareEvents) {
    let mut arena = SweepEventArena::new();
    let a = segment(&mut arena, [0.0, 0.0], [5.0, 5.0], true);
    let b = segment(&mut arena, [0.0, 5.0], [5.0, 0.0], false);
    let mut q = MinHeapByCompareEvents::new();
    for id in [a, SweepEventId(1), b, SweepEventId(3)] {
        push_event(&mut q, id, &arena, by_point);
    }
    (arena, q)
}

fn meet(a: &Point, b: &Point, c: &Point, d: &Point) -> Option<Vec<Point>> {
    // The two test segments cross at the middle.
    if a != c && b != d {
        Some(vec![[2.5, 2.5]])
    } else {
        None
    }
}

#[test]
fn subdivide_takes_every_event_for_a_union() {
    let (mut arena, mut q) = crossing_segments();
    let mut line = TreeByCompareSegments::new();
    let mut sorted = vec![SweepEventId(9)];
    subdivide(
        &mut q,
        Operation::Union,
        &mut arena,
        &mut line,
        &mut sorted,
        by_point,
        by_height,
        |_: &Point| true,
        meet,
        |p: &Point, o: &Point| p[0] == o[0],
        same,
    );
    assert_eq!(q.len(), 0);
    assert_eq!(arena.0.len(), 8);
    assert_eq!(sorted.len(), 8);
    assert_eq!(sorted[0], SweepEventId(0));
    for w in sorted.windows(2) {
        assert_ne!(by_point(&arena, &w[0], &w[1]), Ordering::Greater);
    }
}

#[test]
fn subdivide_stops_past_the_bound_for_an_intersection() {
    let (mut arena, mut q) = crossing_segments();
    let mut line = TreeByCompareSegments::new();
    let mut sorted = vec![];
    subdivide(
        &mut q,
        Operation::Intersection,
        &mut arena,
        &mut line,
        &mut sorted,
        by_point,
        by_height,
        |p: &Point| p[0] > 1.0,
        meet,
        |p: &Point, o: &Point| p[0] == o[0],
        same,
    );
    // Both left ends lie within the bound; the crossing point lies beyond.
    assert_eq!(sorted.len(), 3);
    assert_eq!(arena.0[sorted[2].0].point, [2.5, 2.5]);
    assert!(q.len() > 0);
}

#[test]
fn process_polygon_makes_a_pair_per_edge() {
    let mut arena = SweepEventArena::new();
    let mut q = MinHeapByCompareEvents::new();
    // A triangle with a repeated point: the collapsed edge is left out.
    let ring = vec![[0.0, 0.0], [4.0, 0.0], [4.0, 0.0], [0.0, 3.0], [0.0, 0.0]];
    process_polygon(&ring, true, 5, false, &mut q, &mut arena, by_point, same);
    assert_eq!(arena.0.len(), 6);
    assert_eq!(q.len(), 6);
    for k in 0..3 {
        let (a, b) = (&arena.0[2 * k], &arena.0[2 * k + 1]);
        assert_eq!(a.other_event, Some(SweepEventId(2 * k + 1)));
        assert_eq!(b.other_event, Some(SweepEventId(2 * k)));
        assert_ne!(a.left, b.left);
        assert_eq!(a.contour_id, 5);
        assert!(a.is_subject && !a.is_exterior_ring);
    }
    assert_eq!(arena.0[2].point, [4.0, 0.0]);
    assert_eq!(arena.0[3].point, [0.0, 3.0]);
    // The end that comes first is the left one.
    assert!(arena.0[0].left && !arena.0[1].left);
    assert!(!arena.0[2].left && arena.0[3].left);
}

#[test]
fn process_polygon_of_an_empty_ring_adds_nothing() {
    let mut arena = SweepEventArena::new();
    let mut q = MinHeapByCompareEvents::new();
    let ring: Vec<Point> = vec![];
    process_polygon(&ring, true, 1, true, &mut q, &mut arena, by_point, same);
    assert_eq!(arena.0.len(), 0);
    assert_eq!(q.len(), 0);
}

fn square(x: f64) -> Vec<Vec<Point>> {
    vec![vec![[x, 0.0], [x + 2.0, 0.0], [x + 2.0, 2.0], [x, 2.0], [x, 0.0]]]
}

#[test]
fn fill_queue_numbers_contours_and_marks_rings() {
    let subject = vec![square(0.0), square(10.0)];
    let mut clipping_polygon = square(1.0);
    clipping_polygon.push(vec![[1.5, 0.5], [1.5, 1.5], [1.8, 1.0], [1.5, 0.5]]);
    let clipping = vec![clipping_polygon];

    let mut arena = SweepEventArena::new();
    let q = fill_queue(&subject, &clipping, Some(Operation::Union), &mut arena, by_point, same);
    assert_eq!(arena.0.len(), 2 * (4 + 4 + 4 + 3));
    assert_eq!(q.len(), arena.0.len());
    assert!(arena.0[..16].iter().all(|e| e.is_subject));
    assert!(arena.0[16..].iter().all(|e| !e.is_subject));
    assert!(arena.0[..8].iter().all(|e| e.contour_id == 1 && e.is_exterior_ring));
    assert!(arena.0[8..16].iter().all(|e| e.contour_id == 2));
    assert!(arena.0[16..24].iter().all(|e| e.contour_id == 3 && e.is_exterior_ring));
    assert!(arena.0[24..].iter().all(|e| e.contour_id == 3 && !e.is_exterior_ring));

    let mut arena = SweepEventArena::new();
    let q = fill_queue(&subject, &clipping, Some(Operation::Difference), &mut arena, by_point, same);
    assert_eq!(q.len(), 30);
    // Under a difference no clipping ring is exterior, nor opens a contour.
    assert!(arena.0[16..].iter().all(|e| e.contour_id == 2 && !e.is_exterior_ring));
}

fn walk_events(points: &[Point]) -> (Arena, Vec<SweepEventId>) {
    let mut arena = SweepEventArena::new();
    let mut ids = vec![];
    for p in points {
        ids.push(SweepEvent::new(*p, true, None, true, None, &mut arena).1);
    }
    (arena, ids)
}

#[test]
fn next_pos_prefers_an_unvisited_event_at_the_same_point() {
    let (arena, ids) = walk_events(&[[0.0, 0.0], [1.0, 1.0], [1.0, 1.0], [1.0, 1.0], [2.0, 0.0]]);
    let processed = vec![false, true, true, false, false];
    assert_eq!(next_pos(1, &ids, &processed, 0, &arena, same), 3);
}

#[test]
fn next_pos_walks_back_past_visited_events() {
    let (arena, ids) = walk_events(&[[0.0, 0.0], [0.5, 0.0], [1.0, 1.0], [1.0, 1.0], [2.0, 0.0]]);
    // Nothing left at the same point: go down past the visited positions,
    // but not below where the walk began.
    let processed = vec![false, true, true, true, false];
    assert_eq!(next_pos(3, &ids, &processed, 0, &arena, same), 0);
    assert_eq!(next_pos(3, &ids, &processed, 1, &arena, same), 1);
    let processed = vec![false, false, true, true, false];
    assert_eq!(next_pos(3, &ids, &processed, 0, &arena, same), 1);
    // From the first position the walk can fall off the start.
    let processed = vec![true, false, false, false, false];
    assert_eq!(next_pos(0, &ids, &processed, 0, &arena, same), -1);
}

/// The output events of the triangle A(0, 0), B(2, 0), C(1, 1), in order:
/// A of AB, A of AC, C of AC, C of CB, B of AB, B of CB.
fn triangle_events() -> (Arena, Vec<SweepEventId>) {
    let (mut arena, ids) = walk_events(&[[0.0, 0.0], [0.0, 0.0], [1.0, 1.0], [1.0, 1.0], [2.0, 0.0], [2.0, 0.0]]);
    for (a, b) in [(0, 4), (1, 2), (3, 5)] {
        arena.0[a].other_pos = b as i64;
        arena.0[b].other_pos = a as i64;
    }
    (arena, ids)
}

#[test]
fn walk_contour_goes_round_the_ring() {
    let (mut arena, ids) = triangle_events();
    let mut processed = vec![false; 6];
    let points = walk_contour(0, &ids, &mut arena, &mut processed, 7, same);
    assert_eq!(points, Some(vec![[2.0, 0.0], [1.0, 1.0], [0.0, 0.0]]));
    assert!(processed.iter().all(|p| *p));
    assert!(arena.0.iter().all(|e| e.output_contour_id == 7));
}

#[test]
fn walk_contour_stops_on_an_unknown_other_event() {
    let (mut arena, ids) = triangle_events();
    arena.0[4].other_pos = -1;
    let mut processed = vec![false; 6];
    // The walk reaches position 4 only from 0, whose other event is 4; here
    // position 0 leads out of the events.
    arena.0[0].other_pos = 9;
    assert_eq!(walk_contour(0, &ids, &mut arena, &mut processed, 1, same), None);
    assert!(processed[0]);
    assert_eq!(arena.0[0].output_contour_id, 1);
}

#[test]
fn join_contours_makes_one_contour_of_a_triangle() {
    let (mut arena, ids) = triangle_events();
    let mut processed = vec![true];
    let mut contours = vec![];
    assert!(join_contours(&ids, &mut arena, &mut processed, &mut contours, same));
    assert_eq!(contours.len(), 1);
    assert_eq!(contours[0].points, vec![[0.0, 0.0], [2.0, 0.0], [1.0, 1.0], [0.0, 0.0]]);
    assert_eq!(contours[0].hole_of, None);
    assert_eq!(contours[0].depth, 0);
    assert_eq!(processed, vec![true; 6]);
}

#[test]
fn join_contours_stops_where_the_contour_below_is_unknown() {
    let (mut arena, ids) = triangle_events();
    // The edge below the first event has no contour yet.
    arena.0[0].prev_in_result = Some(SweepEventId(3));
    let mut processed = vec![];
    let mut contours = vec![];
    assert!(!join_contours(&ids, &mut arena, &mut processed, &mut contours, same));
    assert!(contours.is_empty());
}
