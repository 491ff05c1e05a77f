use std::cmp::Ordering;

use martinez::fill_queue::fill_queue;
use martinez::min_heap::MinHeapByCompareEvents;
use martinez::sweep_event::{SweepEvent, SweepEventArena, SweepEventId};
use martinez::tree_by_compare_segments::TreeByCompareSegments;
use robust::{orient2d, Coord};

type Point = [f64; 2];
type Arena = SweepEventArena<Point>;
type Event = SweepEvent<Point>;

fn ev(arena: &Arena, id: SweepEventId) -> &Event {
    &arena.0[id.0]
}

fn other_point(e: &Event, arena: &Arena) -> Point {
    ev(arena, e.other_event.unwrap()).point
}

fn equals(p1: &Point, p2: &Point) -> bool {
    p1[0] == p2[0] && p1[1] == p2[1]
}

fn signed_area(p0: &Point, p1: &Point, p2: &Point) -> f64 {
    let res = orient2d(
        Coord { x: p0[0], y: p0[1] },
        Coord { x: p1[0], y: p1[1] },
        Coord { x: p2[0], y: p2[1] },
    );
    if res > 0.0 {
        1.0
    } else if res < 0.0 {
        -1.0
    } else {
        0.0
    }
}

fn is_below(e: &Event, p: &Point, arena: &Arena) -> bool {
    let p0 = e.point;
    let p1 = other_point(e, arena);
    if e.left {
        (p0[0] - p[0]) * (p1[1] - p[1]) - (p1[0] - p[0]) * (p0[1] - p[1]) > 0.0
    } else {
        (p1[0] - p[0]) * (p0[1] - p[1]) - (p0[0] - p[0]) * (p1[1] - p[1]) > 0.0
    }
}

fn compare_events(e1: &Event, e2: &Event, arena: &Arena) -> Ordering {
    let p1 = e1.point;
    let p2 = e2.point;
    if p1[0] > p2[0] {
        return Ordering::Greater;
    }
    if p1[0] < p2[0] {
        return Ordering::Less;
    }
    if p1[1] != p2[1] {
        return if p1[1] > p2[1] { Ordering::Greater } else { Ordering::Less };
    }
    if e1.left != e2.left {
        return if e1.left { Ordering::Greater } else { Ordering::Less };
    }
    if signed_area(&p1, &other_point(e1, arena), &other_point(e2, arena)) != 0.0 {
        return if !is_below(e1, &other_point(e2, arena), arena) {
            Ordering::Greater
        } else {
            Ordering::Less
        };
    }
    if !e1.is_subject && e2.is_subject {
        Ordering::Greater
    } else {
        Ordering::Less
    }
}

fn compare_event_ids(arena: &Arena, a: &SweepEventId, b: &SweepEventId) -> Ordering {
    compare_events(ev(arena, *a), ev(arena, *b), arena)
}

fn compare_segments(le1: &Event, le2: &Event, arena: &Arena) -> Ordering {
    if le1.id == le2.id {
        return Ordering::Equal;
    }
    if signed_area(&le1.point, &other_point(le1, arena), &le2.point) != 0.0
        || signed_area(&le1.point, &other_point(le1, arena), &other_point(le2, arena)) != 0.0
    {
        if equals(&le1.point, &le2.point) {
            return if is_below(le1, &other_point(le2, arena), arena) { Ordering::Less } else { Ordering::Greater };
        }
        if le1.point[0] == le2.point[0] {
            return if le1.point[1] < le2.point[1] { Ordering::Less } else { Ordering::Greater };
        }
        if compare_events(le1, le2, arena) == Ordering::Greater {
            return if !is_below(le2, &le1.point, arena) { Ordering::Less } else { Ordering::Greater };
        }
        return if is_below(le1, &le2.point, arena) { Ordering::Less } else { Ordering::Greater };
    }
    if le1.is_subject == le2.is_subject {
        if equals(&le1.point, &le2.point) {
            return if equals(&other_point(le1, arena), &other_point(le2, arena)) {
                Ordering::Equal
            } else if le1.contour_id > le2.contour_id {
                Ordering::Greater
            } else {
                Ordering::Less
            };
        }
    } else {
        return if le1.is_subject { Ordering::Less } else { Ordering::Greater };
    }
    if compare_events(le1, le2, arena) == Ordering::Greater {
        Ordering::Greater
    } else {
        Ordering::Less
    }
}

fn compare_segment_ids(arena: &Arena, a: &SweepEventId, b: &SweepEventId) -> Ordering {
    compare_segments(ev(arena, *a), ev(arena, *b), arena)
}

fn grow_bbox(polygons: &[Vec<Vec<Point>>], bbox: &mut [f64; 4]) {
    for polygon_set in polygons {
        for ring in polygon_set {
            for pair in ring.windows(2) {
                let (s1, s2) = (pair[0], pair[1]);
                if equals(&s1, &s2) {
                    continue;
                }
                bbox[0] = bbox[0].min(s1[0]);
                bbox[1] = bbox[1].min(s1[1]);
                bbox[2] = bbox[2].max(s1[0]);
                bbox[3] = bbox[3].max(s1[1]);
            }
        }
    }
}

/// The two triangles of the shared fixture.
fn two_triangles() -> (Vec<Vec<Vec<Point>>>, Vec<Vec<Vec<Point>>>) {
    let subject = vec![vec![vec![[20.0, -23.5], [170.0, 74.0], [226.5, -113.5], [20.0, -23.5]]]];
    let clipping = vec![vec![vec![[54.5, -170.5], [140.5, 33.5], [239.5, -198.0], [54.5, -170.5]]]];
    (subject, clipping)
}

fn pop(q: &mut MinHeapByCompareEvents, arena: &Arena) -> SweepEventId {
    q.pop(|a: &SweepEventId, b: &SweepEventId| compare_event_ids(arena, a, b)).unwrap()
}

#[test]
fn fill_event_queue() {
    let (subject, clipping) = two_triangles();
    let mut sbbox = [f64::INFINITY, f64::INFINITY, -f64::INFINITY, -f64::INFINITY];
    let mut cbbox = [f64::INFINITY, f64::INFINITY, -f64::INFINITY, -f64::INFINITY];
    let mut arena = SweepEventArena::new();
    grow_bbox(&subject, &mut sbbox);
    grow_bbox(&clipping, &mut cbbox);
    let mut q = fill_queue(&subject, &clipping, None, &mut arena, compare_event_ids, equals);

    assert_eq!(sbbox, [20.0, -113.5, 226.5, 74.0], "subject bbox");
    assert_eq!(cbbox, [54.5, -198.0, 239.5, 33.5], "clipping bbox");

    let expected: [(Point, bool, Point); 12] = [
        ([20.0, -23.5], true, [226.5, -113.5]),
        ([20.0, -23.5], true, [170.0, 74.0]),
        ([54.5, -170.5], true, [239.5, -198.0]),
        ([54.5, -170.5], true, [140.5, 33.5]),
        ([140.5, 33.5], false, [54.5, -170.5]),
        ([140.5, 33.5], true, [239.5, -198.0]),
        ([170.0, 74.0], false, [20.0, -23.5]),
        ([170.0, 74.0], true, [226.5, -113.5]),
        ([226.5, -113.5], false, [20.0, -23.5]),
        ([226.5, -113.5], false, [170.0, 74.0]),
        ([239.5, -198.0], false, [54.5, -170.5]),
        ([239.5, -198.0], false, [140.5, 33.5]),
    ];
    for (point, left, other) in expected {
        let current = arena.0[pop(&mut q, &arena).0];
        assert_eq!(current.point, point);
        if left {
            assert!(current.left, "is left");
        } else {
            assert!(!current.left, "is right");
        }
        let other_event = arena.0[current.other_event.unwrap().0];
        assert_eq!(other_event.point, other, "other event");
        if left {
            assert!(!other_event.left, "other event is right");
        } else {
            assert!(other_event.left, "other event is left");
        }
    }
    assert_eq!(q.len(), 0);
}

/// A left event at `a` whose other event, at `b`, is made first.
fn segment(arena: &mut Arena, a: Point, b: Point) -> SweepEventId {
    let (_, r) = SweepEvent::new(b, false, None, false, None, arena);
    SweepEvent::new(a, true, Some(r), true, None, arena).1
}

#[test]
fn sweep_line() {
    let (subject, clipping) = two_triangles();
    let subject = &subject[0];
    let clipping = &clipping[0];
    let mut arena = SweepEventArena::new();
    let ef_id = segment(&mut arena, subject[0][0], subject[0][2]);
    let eg_id = segment(&mut arena, subject[0][0], subject[0][1]);

    let mut tree = TreeByCompareSegments::new();
    {
        let a = &arena;
        let cmp = |x: &SweepEventId, y: &SweepEventId| compare_segment_ids(a, x, y);
        tree.insert(ef_id, cmp);
        tree.insert(eg_id, cmp);
        assert_eq!(tree.find(ef_id, cmp).map(|node| node.value), Some(ef_id), "able to retrieve node");
        assert_eq!(tree.min().map(|node| node.value), Some(ef_id), "EF is at the begin");
        assert_eq!(tree.max().map(|node| node.value), Some(eg_id), "EG is at the end");

        let it = tree.find(ef_id, cmp).unwrap();
        assert_eq!(tree.next(&it).map(|node| node.value), Some(eg_id));
        let it = tree.find(eg_id, cmp).unwrap();
        assert_eq!(tree.prev(&it).map(|node| node.value), Some(ef_id));
    }

    let da_id = segment(&mut arena, clipping[0][0], clipping[0][2]);
    let dc_id = segment(&mut arena, clipping[0][0], clipping[0][1]);
    let a = &arena;
    let cmp = |x: &SweepEventId, y: &SweepEventId| compare_segment_ids(a, x, y);
    tree.insert(da_id, cmp);
    tree.insert(dc_id, cmp);

    let begin = tree.min().unwrap();
    assert_eq!(begin.value, da_id, "DA");
    let begin = tree.next(&begin).unwrap();
    assert_eq!(begin.value, dc_id, "DC");
    let begin = tree.next(&begin).unwrap();
    assert_eq!(begin.value, ef_id, "EF");
    let begin = tree.next(&begin).unwrap();
    assert_eq!(begin.value, eg_id, "EG");
}
