use martinez::sorted_list::SortedList;

// Helper function to get the list's contents by traversing forward.
fn collect_forward(list: &SortedList<i32>) -> Vec<i32> {
    let mut vec = Vec::new();
    let mut itr = list.head;
    while let Some(id) = itr {
        vec.push(list.value_arena[id]);
        itr = list.node_arena[id].next;
    }
    vec
}

// Helper function to get the list's contents by traversing backward.
// Crucial for verifying the integrity of `prev` links.
fn collect_backward(list: &SortedList<i32>) -> Vec<i32> {
    let mut vec = Vec::new();
    let mut itr = list.head;
    while let Some(cur) = itr {
        if let Some(next) = list.node_arena[cur].next {
            itr = Some(next);
        } else {
            break;
        }
    }
    while let Some(id) = itr {
        vec.push(list.value_arena[id]);
        itr = list.node_arena[id].prev;
    }
    vec
}

#[test]
fn test_new_list_is_empty() {
    let list = SortedList::<i32>::new();
    assert!(list.head.is_none());
    assert!(list.min().is_none());
    assert!(list.max().is_none());
    assert_eq!(list.len(), 0);
}

#[test]
fn test_insert_into_empty_list() {
    let mut list = SortedList::new();
    list.insert(10, |a: &i32, b: &i32| a.cmp(b));

    assert_eq!(list.head, Some(0));
    assert_eq!(collect_forward(&list), vec![10]);
    assert_eq!(collect_backward(&list), vec![10]);
    assert_eq!(list.min().unwrap().value, 10);
    assert_eq!(list.max().unwrap().value, 10);
    assert_eq!(list.len(), 1);
}

#[test]
fn test_insert_multiple_sorted() {
    let mut list = SortedList::new();
    list.insert(10, |a: &i32, b: &i32| a.cmp(b));
    list.insert(20, |a: &i32, b: &i32| a.cmp(b));
    list.insert(30, |a: &i32, b: &i32| a.cmp(b));

    let expected = vec![10, 20, 30];
    assert_eq!(collect_forward(&list), expected);
    assert_eq!(
        collect_backward(&list),
        expected.iter().rev().cloned().collect::<Vec<_>>()
    );
    assert_eq!(list.min().unwrap().value, 10);
    assert_eq!(list.max().unwrap().value, 30);
    assert_eq!(list.len(), 3);
}

#[test]
fn test_insert_multiple_reverse_sorted() {
    let mut list = SortedList::new();
    list.insert(30, |a: &i32, b: &i32| a.cmp(b));
    list.insert(20, |a: &i32, b: &i32| a.cmp(b));
    list.insert(10, |a: &i32, b: &i32| a.cmp(b));

    let expected = vec![10, 20, 30];
    assert_eq!(collect_forward(&list), expected);
    assert_eq!(
        collect_backward(&list),
        expected.iter().rev().cloned().collect::<Vec<_>>()
    );
    assert_eq!(list.min().unwrap().value, 10);
    assert_eq!(list.max().unwrap().value, 30);
    assert_eq!(list.len(), 3);
}

#[test]
fn test_insert_multiple_random_order() {
    let mut list = SortedList::new();
    list.insert(20, |a: &i32, b: &i32| a.cmp(b));
    list.insert(40, |a: &i32, b: &i32| a.cmp(b));
    list.insert(10, |a: &i32, b: &i32| a.cmp(b));
    list.insert(30, |a: &i32, b: &i32| a.cmp(b));

    let expected = vec![10, 20, 30, 40];
    assert_eq!(collect_forward(&list), expected);
    assert_eq!(
        collect_backward(&list),
        expected.iter().rev().cloned().collect::<Vec<_>>()
    );
    assert_eq!(list.head.map(|id| list.value_arena[id]), Some(10));
    assert_eq!(list.len(), 4);
}

#[test]
fn test_remove_single_element() {
    let mut list = SortedList::new();
    let el = list.insert(10, |a: &i32, b: &i32| a.cmp(b));
    list.remove(el);

    assert!(list.head.is_none());
    assert!(collect_forward(&list).is_empty());
    assert_eq!(list.len(), 0);
}

#[test]
fn test_remove_head() {
    let mut list = SortedList::new();
    let el_10 = list.insert(10, |a: &i32, b: &i32| a.cmp(b));
    list.insert(20, |a: &i32, b: &i32| a.cmp(b));
    list.insert(30, |a: &i32, b: &i32| a.cmp(b));

    list.remove(el_10);

    let expected = vec![20, 30];
    assert_eq!(collect_forward(&list), expected);
    assert_eq!(
        collect_backward(&list),
        expected.iter().rev().cloned().collect::<Vec<_>>()
    );
    assert_eq!(list.min().unwrap().value, 20);
    assert_eq!(list.max().unwrap().value, 30);
    assert_eq!(list.len(), 2);
}

#[test]
fn test_remove_tail() {
    let mut list = SortedList::new();
    list.insert(10, |a: &i32, b: &i32| a.cmp(b));
    list.insert(20, |a: &i32, b: &i32| a.cmp(b));
    let el_30 = list.insert(30, |a: &i32, b: &i32| a.cmp(b));

    list.remove(el_30);

    let expected = vec![10, 20];
    assert_eq!(collect_forward(&list), expected);
    assert_eq!(
        collect_backward(&list),
        expected.iter().rev().cloned().collect::<Vec<_>>()
    );
    assert_eq!(list.min().unwrap().value, 10);
    assert_eq!(list.max().unwrap().value, 20);
    assert_eq!(list.len(), 2);
}

#[test]
fn test_remove_middle() {
    let mut list = SortedList::new();
    list.insert(10, |a: &i32, b: &i32| a.cmp(b));
    let el_20 = list.insert(20, |a: &i32, b: &i32| a.cmp(b));
    list.insert(30, |a: &i32, b: &i32| a.cmp(b));

    list.remove(el_20);

    let expected = vec![10, 30];
    assert_eq!(collect_forward(&list), expected);
    assert_eq!(
        collect_backward(&list),
        expected.iter().rev().cloned().collect::<Vec<_>>()
    );
    assert_eq!(list.min().unwrap().value, 10);
    assert_eq!(list.max().unwrap().value, 30);
    assert_eq!(list.len(), 2);
}

#[test]
fn test_comprehensive_integration() {
    let mut list = SortedList::new();

    // Insert some values
    let el_20 = list.insert(20, |a: &i32, b: &i32| a.cmp(b));
    list.insert(10, |a: &i32, b: &i32| a.cmp(b));
    list.insert(40, |a: &i32, b: &i32| a.cmp(b));
    assert_eq!(collect_forward(&list), vec![10, 20, 40]);
    assert_eq!(list.len(), 3);

    // Remove from the middle
    list.remove(el_20);
    assert_eq!(collect_forward(&list), vec![10, 40]);
    assert_eq!(collect_backward(&list), vec![40, 10]);
    assert_eq!(list.min().unwrap().value, 10);
    assert_eq!(list.max().unwrap().value, 40);
    assert_eq!(list.len(), 2);

    // Add a new min and max
    let el_5 = list.insert(5, |a: &i32, b: &i32| a.cmp(b));
    let el_50 = list.insert(50, |a: &i32, b: &i32| a.cmp(b));
    assert_eq!(collect_forward(&list), vec![5, 10, 40, 50]);
    assert_eq!(list.len(), 4);

    // Remove the new head and tail
    list.remove(el_5);
    list.remove(el_50);
    assert_eq!(collect_forward(&list), vec![10, 40]);
    assert_eq!(list.head.map(|id| list.value_arena[id]), Some(10));
    assert_eq!(list.len(), 2);

    // Remove the rest
    list.remove(list.min().unwrap());
    list.remove(list.max().unwrap());
    assert!(list.head.is_none());
    assert_eq!(list.len(), 0);
}

#[test]
fn sorted_list_insert_goes_after_equal_values() {
    let mut list = SortedList::new();
    let cmp = |a: &(i32, i32), b: &(i32, i32)| a.0.cmp(&b.0);
    list.insert((1, 0), cmp);
    list.insert((2, 0), cmp);
    list.insert((1, 1), cmp);
    let first = list.min().unwrap();
    assert_eq!(first.value, (1, 0));
    let second = list.next(&first).unwrap();
    assert_eq!(second.value, (1, 1));
    let third = list.next(&second).unwrap();
    assert_eq!(third.value, (2, 0));
    assert!(list.next(&third).is_none());
    assert_eq!(list.prev(&third).unwrap().value, (1, 1));
    assert!(list.prev(&first).is_none());
}

#[test]
fn sorted_list_find_gives_the_first_equal_value() {
    let mut list = SortedList::new();
    let cmp = |a: &(i32, i32), b: &(i32, i32)| a.0.cmp(&b.0);
    list.insert((3, 0), cmp);
    list.insert((1, 0), cmp);
    list.insert((3, 1), cmp);
    assert_eq!(list.find(&(3, 9), cmp).unwrap().value, (3, 0));
    assert_eq!(list.find(&(1, 9), cmp).unwrap().value, (1, 0));
    assert!(list.find(&(2, 0), cmp).is_none());
}
