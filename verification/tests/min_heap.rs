use martinez::min_heap::{MinHeap, MinHeapByCompareEvents};
use martinez::sweep_event::SweepEventId;

#[test]
fn min_heap() {
    let mut h = MinHeap::<u64>::new();
    let cmp = |a: &u64, b: &u64| a.cmp(b);
    assert!(h.is_empty());
    assert_eq!(h.peek(), None);

    h.push(10, cmp);
    h.push(4, cmp);
    h.push(15, cmp);
    h.push(2, cmp);
    h.push(20, cmp);
    h.push(1, cmp);

    assert_eq!(h.len(), 6);
    assert_eq!(h.peek(), Some(&1));

    let mut actual = vec![];
    while let Some(item) = h.pop(cmp) {
        actual.push(item);
    }
    assert_eq!(actual, vec![1, 2, 4, 10, 15, 20]);
}

#[test]
fn min_heap_pops_in_order_with_duplicates() {
    let mut h = MinHeap::<i64>::new();
    let cmp = |a: &i64, b: &i64| a.cmp(b);
    for v in [5, -3, 5, 0, 12, -3, 7, 0] {
        h.push(v, cmp);
    }
    assert_eq!(h.len(), 8);
    let mut actual = vec![];
    while let Some(item) = h.pop(cmp) {
        actual.push(item);
    }
    assert_eq!(actual, vec![-3, -3, 0, 0, 5, 5, 7, 12]);
    assert!(h.is_empty());
    assert_eq!(h.pop(cmp), None);
}

#[test]
fn min_heap_reverse_order_is_a_max_heap() {
    let mut h = MinHeap::<u64>::new();
    let cmp = |a: &u64, b: &u64| b.cmp(a);
    for v in [3, 9, 1, 4] {
        h.push(v, cmp);
    }
    assert_eq!(h.peek(), Some(&9));
    assert_eq!(h.pop(cmp), Some(9));
    assert_eq!(h.pop(cmp), Some(4));
    assert_eq!(h.len(), 2);
}

#[test]
fn event_queue_orders_by_the_given_comparator() {
    let keys = [30u64, 10, 20];
    let cmp = |a: &SweepEventId, b: &SweepEventId| keys[a.0].cmp(&keys[b.0]);
    let mut q = MinHeapByCompareEvents::new();
    q.push(SweepEventId(0), cmp);
    q.push(SweepEventId(1), cmp);
    q.push(SweepEventId(2), cmp);
    assert_eq!(q.len(), 3);
    assert_eq!(q.pop(cmp), Some(SweepEventId(1)));
    assert_eq!(q.pop(cmp), Some(SweepEventId(2)));
    assert_eq!(q.pop(cmp), Some(SweepEventId(0)));
    assert_eq!(q.pop(cmp), None);
    assert_eq!(q.len(), 0);
}

#[test]
fn sweep_event_id_default_names_no_event() {
    assert_eq!(SweepEventId::default(), SweepEventId(usize::MAX));
}
