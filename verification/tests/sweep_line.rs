use martinez::sweep_event::SweepEventId;
use martinez::tree;
use martinez::tree_by_compare_segments;
use martinez::tree_by_compare_segments::list;

const KEYS: [i64; 6] = [30, 10, 50, 20, 40, 20];

fn by_key(a: &SweepEventId, b: &SweepEventId) -> std::cmp::Ordering {
    KEYS[a.0].cmp(&KEYS[b.0])
}

fn id(i: usize) -> SweepEventId {
    SweepEventId(i)
}

#[test]
fn vec_sweep_line_keeps_events_sorted() {
    let mut line = tree::TreeByCompareSegments::new();
    for i in 0..5 {
        line.insert(id(i), by_key);
    }
    assert_eq!(line.0, vec![id(1), id(3), id(0), id(4), id(2)]);
    assert_eq!(line.min(), Some(id(1)));
    assert_eq!(line.max(), Some(id(2)));

    // An equal key goes before the entries equal to it.
    let node = line.insert(id(5), by_key);
    assert_eq!(node.index, 1);
    assert_eq!(line.0, vec![id(1), id(5), id(3), id(0), id(4), id(2)]);

    let found = line.find(id(0), by_key).unwrap();
    assert_eq!(found.index, 3);
    assert_eq!(found.value, id(0));
    let next = line.next(found).unwrap();
    assert_eq!((next.value, next.index), (id(4), 4));
    let prev = line.prev(found).unwrap();
    assert_eq!((prev.value, prev.index), (id(3), 2));
    assert!(line.prev(line.find(id(1), by_key).unwrap()).is_none());
    assert!(line.next(line.find(id(2), by_key).unwrap()).is_none());

    // Removing what was inserted gives the line back.
    line.remove(node);
    assert_eq!(line.0, vec![id(1), id(3), id(0), id(4), id(2)]);
    let empty = tree::TreeByCompareSegments::new();
    assert_eq!(empty.min(), None);
    assert_eq!(empty.max(), None);
}

#[test]
fn splay_sweep_line_keeps_events_sorted() {
    let mut line = tree_by_compare_segments::TreeByCompareSegments::new();
    for i in 0..5 {
        line.insert(id(i), by_key);
    }
    assert_eq!(line.0.to_vec(), vec![id(1), id(3), id(0), id(4), id(2)]);
    assert_eq!(line.min().map(|n| n.value), Some(id(1)));
    assert_eq!(line.max().map(|n| n.value), Some(id(2)));

    // An equal key goes after the entries equal to it.
    let node = line.insert(id(5), by_key);
    assert_eq!(line.0.to_vec(), vec![id(1), id(3), id(5), id(0), id(4), id(2)]);

    let found = line.find(id(0), by_key).unwrap();
    assert_eq!(found.value, id(0));
    assert_eq!(line.next(&found).map(|n| n.value), Some(id(4)));
    assert_eq!(line.prev(&found).map(|n| n.value), Some(id(5)));

    line.remove(node);
    assert_eq!(line.0.to_vec(), vec![id(1), id(3), id(0), id(4), id(2)]);
    line.clear();
    assert!(line.0.is_empty());
    assert!(line.min().is_none());
}

#[test]
fn list_sweep_line_keeps_events_sorted() {
    let mut line = list::TreeByCompareSegments::new();
    for i in 0..5 {
        line.insert(id(i), by_key);
    }
    assert_eq!(line.min().map(|e| e.value), Some(id(1)));
    assert_eq!(line.max().map(|e| e.value), Some(id(2)));

    let node = line.insert(id(5), by_key);
    let found = line.find(id(3), by_key).unwrap();
    assert_eq!(found.value, id(3));
    assert_eq!(line.next(&found).map(|e| e.value), Some(id(5)));
    let after = line.find(id(0), by_key).unwrap();
    assert_eq!(line.prev(&after).map(|e| e.value), Some(id(5)));

    line.remove(node);
    let after = line.find(id(0), by_key).unwrap();
    assert_eq!(line.prev(&after).map(|e| e.value), Some(id(3)));
    assert_eq!(line.find(id(5), by_key).map(|e| e.value), Some(id(3)));
}

#[test]
fn list_and_splay_sweep_lines_agree() {
    let order = [4usize, 0, 5, 2, 1, 3];
    let mut splay = tree_by_compare_segments::TreeByCompareSegments::new();
    let mut list = list::TreeByCompareSegments::new();
    for &i in order.iter() {
        splay.insert(id(i), by_key);
        list.insert(id(i), by_key);
    }
    let mut from_list = vec![];
    let mut cur = list.min();
    while let Some(e) = cur {
        from_list.push(e.value);
        cur = list.next(&e);
    }
    assert_eq!(splay.0.to_vec(), from_list);
}
