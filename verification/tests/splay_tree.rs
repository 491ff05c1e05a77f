use martinez::splay_tree::{NodeRef, SplayTree, SplayTreeNode};

#[derive(Clone, Copy, PartialEq, Eq, Debug)]
struct KeyedU64 {
    key: u64,
    value: u64,
}

#[derive(Clone, Copy, PartialEq, Eq, Debug)]
struct KeyedI64 {
    key: i64,
    value: u64,
}

#[derive(Clone, Copy, PartialEq, Eq, Debug)]
struct KeyedPair {
    key: i64,
    value: i64,
}

#[test]
fn test_insert_into_empty_tree() {
    let mut tree = SplayTree::new();
    let cmp = |a: &u64, b: &u64| a.cmp(b);

    let new_node_ref = tree.insert(50, cmp);
    assert_eq!(new_node_ref.value, 50);

    assert_eq!(tree.root, Some(new_node_ref.id));

    assert_eq!(tree.value_arena, vec![50]);
    assert_eq!(tree.node_arena, vec![SplayTreeNode::root_no_child()]);
}

#[test]
fn test_insert_with_splay() {
    let mut tree = SplayTree::new();
    let cmp = |a: &u64, b: &u64| a.cmp(b);

    tree.insert(50, cmp);
    tree.insert(30, cmp);

    let new_node_ref = tree.insert(70, cmp);
    assert_eq!(new_node_ref.value, 70);
    assert_eq!(tree.root, Some(new_node_ref.id));

    assert_eq!(tree.value_arena, vec![50, 30, 70]);
    assert_eq!(
        tree.node_arena,
        vec![
            SplayTreeNode::new(Some(2), Some(1), None),
            SplayTreeNode::new(Some(0), None, None),
            SplayTreeNode::new(None, Some(0), None),
        ]
    );
}

#[test]
fn test_insert_duplicate_values() {
    let mut tree = SplayTree::new();
    let cmp = |a: &u64, b: &u64| a.cmp(b);

    tree.insert(50, cmp);
    tree.insert(30, cmp);

    let new_node_ref = tree.insert(50, cmp);

    assert_eq!(new_node_ref.value, 50);
    assert_eq!(tree.root, Some(new_node_ref.id));

    assert_eq!(tree.value_arena, vec![50, 30, 50]);
    assert_eq!(
        tree.node_arena,
        vec![
            SplayTreeNode::new(Some(2), Some(1), None),
            SplayTreeNode::new(Some(0), None, None),
            SplayTreeNode::new(None, Some(0), None),
        ]
    );
}

#[test]
fn remove_node_has_zero_children() {
    let mut tree = SplayTree::<u64> {
        node_arena: vec![SplayTreeNode::root_no_child()],
        value_arena: vec![10],
        root: Some(0),
    };
    tree.remove_node_has_zero_children(0);
    assert_eq!(
        tree,
        SplayTree {
            node_arena: vec![SplayTreeNode::dangling()],
            value_arena: vec![10],
            root: None,
        }
    );

    let mut tree = SplayTree::<u64> {
        node_arena: vec![
            SplayTreeNode::new(None, Some(1), Some(2)),
            SplayTreeNode::leaf_with_parent(0),
            SplayTreeNode::leaf_with_parent(0),
        ],
        value_arena: vec![20, 10, 30],
        root: Some(0),
    };
    tree.remove_node_has_zero_children(2);
    assert_eq!(
        tree,
        SplayTree {
            node_arena: vec![
                SplayTreeNode::new(None, Some(1), None),
                SplayTreeNode::leaf_with_parent(0),
                SplayTreeNode::dangling(),
            ],
            value_arena: vec![20, 10, 30],
            root: Some(0),
        }
    );

    let mut tree = SplayTree::<u64> {
        node_arena: vec![
            SplayTreeNode::new(None, Some(1), Some(2)),
            SplayTreeNode::leaf_with_parent(0),
            SplayTreeNode::leaf_with_parent(0),
        ],
        value_arena: vec![20, 10, 30],
        root: Some(0),
    };
    tree.remove_node_has_zero_children(1);
    assert_eq!(
        tree,
        SplayTree {
            node_arena: vec![
                SplayTreeNode::new(None, None, Some(2)),
                SplayTreeNode::dangling(),
                SplayTreeNode::leaf_with_parent(0)
            ],
            value_arena: vec![20, 10, 30],
            root: Some(0),
        }
    );
}

#[test]
fn remove_node_has_one_children() {
    let mut tree = SplayTree::<u64> {
        node_arena: vec![
            SplayTreeNode::root(None, Some(1)),
            SplayTreeNode::leaf_with_parent(0),
        ],
        value_arena: vec![10, 20],
        root: Some(0),
    };
    tree.remove_node_has_one_children(0);
    assert_eq!(
        tree,
        SplayTree {
            node_arena: vec![SplayTreeNode::dangling(), SplayTreeNode::root_no_child()],
            value_arena: vec![10, 20],
            root: Some(1),
        }
    );

    let mut tree = SplayTree::<u64> {
        node_arena: vec![
            SplayTreeNode::root(Some(1), None),
            SplayTreeNode::leaf_with_parent(0),
        ],
        value_arena: vec![10, 5],
        root: Some(0),
    };
    tree.remove_node_has_one_children(0);
    assert_eq!(
        tree,
        SplayTree {
            node_arena: vec![SplayTreeNode::dangling(), SplayTreeNode::root_no_child()],
            value_arena: vec![10, 5],
            root: Some(1),
        }
    );

    let mut tree = SplayTree::<u64> {
        node_arena: vec![
            SplayTreeNode::root(Some(1), Some(2)),
            SplayTreeNode::new(Some(0), Some(3), None),
            SplayTreeNode::leaf_with_parent(0),
            SplayTreeNode::leaf_with_parent(1),
        ],
        value_arena: vec![10, 5, 20, 1],
        root: Some(0),
    };
    assert_eq!(tree.to_vec(), vec![1, 5, 10, 20]);
    tree.remove_node_has_one_children(1);
    assert_eq!(
        tree,
        SplayTree {
            node_arena: vec![
                SplayTreeNode::root(Some(3), Some(2)),
                SplayTreeNode::dangling(),
                SplayTreeNode::leaf_with_parent(0),
                SplayTreeNode::leaf_with_parent(0),
            ],
            value_arena: vec![10, 5, 20, 1],
            root: Some(0),
        }
    );
    assert_eq!(tree.to_vec(), vec![1, 10, 20]);

    let mut tree = SplayTree::<u64> {
        node_arena: vec![
            SplayTreeNode::root(Some(1), Some(2)),
            SplayTreeNode::new(Some(0), None, Some(3)),
            SplayTreeNode::leaf_with_parent(0),
            SplayTreeNode::leaf_with_parent(1),
        ],
        value_arena: vec![10, 5, 20, 7],
        root: Some(0),
    };
    assert_eq!(tree.to_vec(), vec![5, 7, 10, 20]);
    tree.remove_node_has_one_children(1);
    assert_eq!(
        tree,
        SplayTree {
            node_arena: vec![
                SplayTreeNode::root(Some(3), Some(2)),
                SplayTreeNode::dangling(),
                SplayTreeNode::leaf_with_parent(0),
                SplayTreeNode::leaf_with_parent(0),
            ],
            value_arena: vec![10, 5, 20, 7],
            root: Some(0),
        }
    );
    assert_eq!(tree.to_vec(), vec![7, 10, 20]);
}

#[test]
fn remove_node_has_two_children_where_predecessor_is_left_child() {
    let mut tree = SplayTree::<u64> {
        node_arena: vec![
            SplayTreeNode::root(Some(1), Some(2)),
            SplayTreeNode::leaf_with_parent(0),
            SplayTreeNode::leaf_with_parent(0),
        ],
        value_arena: vec![10, 1, 20],
        root: Some(0),
    };
    assert_eq!(tree.to_vec(), vec![1, 10, 20]);
    let splay_node = tree.remove_node_has_two_children(0);
    assert_eq!(splay_node, None);
    assert_eq!(tree.to_vec(), vec![1, 20]);
    assert_eq!(
        tree,
        SplayTree {
            node_arena: vec![
                SplayTreeNode::dangling(),
                SplayTreeNode::root(None, Some(2)),
                SplayTreeNode::leaf_with_parent(1),
            ],
            value_arena: vec![10, 1, 20],
            root: Some(1),
        },
    );

    let mut tree = SplayTree::<u64> {
        node_arena: vec![
            SplayTreeNode::root(Some(1), Some(2)),
            SplayTreeNode::leaf_with_parent(0),
            SplayTreeNode::new(Some(0), Some(3), Some(4)),
            SplayTreeNode::leaf_with_parent(2),
            SplayTreeNode::leaf_with_parent(2),
        ],
        value_arena: vec![10, 1, 50, 40, 60],
        root: Some(0),
    };
    assert_eq!(tree.to_vec(), vec![1, 10, 40, 50, 60]);
    let splay_node = tree.remove_node_has_two_children(2);
    assert_eq!(splay_node, Some(3));
    assert_eq!(tree.to_vec(), vec![1, 10, 40, 60]);
    assert_eq!(
        tree,
        SplayTree {
            node_arena: vec![
                SplayTreeNode::root(Some(1), Some(3)),
                SplayTreeNode::leaf_with_parent(0),
                SplayTreeNode::dangling(),
                SplayTreeNode::new(Some(0), None, Some(4)),
                SplayTreeNode::leaf_with_parent(3),
            ],
            value_arena: vec![10, 1, 50, 40, 60],
            root: Some(0),
        },
    );

    let mut tree = SplayTree::<u64> {
        node_arena: vec![
            SplayTreeNode::root(Some(1), Some(2)),
            SplayTreeNode::leaf_with_parent(0),
            SplayTreeNode::new(Some(0), Some(3), Some(4)),
            SplayTreeNode::new(Some(2), Some(5), None),
            SplayTreeNode::leaf_with_parent(2),
            SplayTreeNode::leaf_with_parent(3),
        ],
        value_arena: vec![10, 1, 50, 40, 60, 30],
        root: Some(0),
    };
    assert_eq!(tree.to_vec(), vec![1, 10, 30, 40, 50, 60]);
    let splay_node = tree.remove_node_has_two_children(2);
    assert_eq!(splay_node, Some(3));
    assert_eq!(tree.to_vec(), vec![1, 10, 30, 40, 60]);
    assert_eq!(
        tree,
        SplayTree {
            node_arena: vec![
                SplayTreeNode::root(Some(1), Some(3)),
                SplayTreeNode::leaf_with_parent(0),
                SplayTreeNode::dangling(),
                SplayTreeNode::new(Some(0), Some(5), Some(4)),
                SplayTreeNode::leaf_with_parent(3),
                SplayTreeNode::leaf_with_parent(3),
            ],
            value_arena: vec![10, 1, 50, 40, 60, 30],
            root: Some(0),
        },
    );
}

#[test]
fn remove_node_has_two_children() {
    let mut tree = SplayTree::<u64> {
        node_arena: vec![
            SplayTreeNode::root(Some(1), Some(2)),
            SplayTreeNode::new(Some(0), None, Some(3)),
            SplayTreeNode::leaf_with_parent(0),
            SplayTreeNode::leaf_with_parent(1),
        ],
        value_arena: vec![10, 1, 20, 5],
        root: Some(0),
    };
    assert_eq!(tree.to_vec(), vec![1, 5, 10, 20]);
    let splay_node = tree.remove_node_has_two_children(0);
    assert_eq!(splay_node, Some(1));
    assert_eq!(tree.to_vec(), vec![1, 5, 20]);
    assert_eq!(
        tree,
        SplayTree {
            node_arena: vec![
                SplayTreeNode::dangling(),
                SplayTreeNode::leaf_with_parent(3),
                SplayTreeNode::leaf_with_parent(3),
                SplayTreeNode::root(Some(1), Some(2)),
            ],
            value_arena: vec![10, 1, 20, 5],
            root: Some(3),
        },
    );

    let mut tree = SplayTree::<u64> {
        node_arena: vec![
            SplayTreeNode::root(Some(1), Some(2)),
            SplayTreeNode::leaf_with_parent(0),
            SplayTreeNode::new(Some(0), Some(3), Some(4)),
            SplayTreeNode::new(Some(2), None, Some(5)),
            SplayTreeNode::leaf_with_parent(2),
            SplayTreeNode::leaf_with_parent(3),
        ],
        value_arena: vec![10, 1, 50, 40, 60, 45],
        root: Some(0),
    };
    assert_eq!(tree.to_vec(), vec![1, 10, 40, 45, 50, 60]);
    let splay_node = tree.remove_node_has_two_children(2);
    assert_eq!(splay_node, Some(3));
    assert_eq!(tree.to_vec(), vec![1, 10, 40, 45, 60]);
    assert_eq!(
        tree,
        SplayTree {
            node_arena: vec![
                SplayTreeNode::root(Some(1), Some(5)),
                SplayTreeNode::leaf_with_parent(0),
                SplayTreeNode::dangling(),
                SplayTreeNode::leaf_with_parent(5),
                SplayTreeNode::leaf_with_parent(5),
                SplayTreeNode::new(Some(0), Some(3), Some(4)),
            ],
            value_arena: vec![10, 1, 50, 40, 60, 45],
            root: Some(0),
        },
    );

    let mut tree = SplayTree::<u64> {
        node_arena: vec![
            SplayTreeNode::root(Some(1), Some(2)),
            SplayTreeNode::leaf_with_parent(0),
            SplayTreeNode::new(Some(0), Some(3), Some(4)),
            SplayTreeNode::new(Some(2), Some(5), None),
            SplayTreeNode::leaf_with_parent(2),
            SplayTreeNode::leaf_with_parent(3),
        ],
        value_arena: vec![10, 1, 50, 40, 60, 35],
        root: Some(0),
    };
    assert_eq!(tree.to_vec(), vec![1, 10, 35, 40, 50, 60]);
    let splay_node = tree.remove_node_has_two_children(2);
    assert_eq!(splay_node, Some(3));
    assert_eq!(tree.to_vec(), vec![1, 10, 35, 40, 60]);
    assert_eq!(
        tree,
        SplayTree {
            node_arena: vec![
                SplayTreeNode::root(Some(1), Some(3)),
                SplayTreeNode::leaf_with_parent(0),
                SplayTreeNode::dangling(),
                SplayTreeNode::new(Some(0), Some(5), Some(4)),
                SplayTreeNode::leaf_with_parent(3),
                SplayTreeNode::leaf_with_parent(3),
            ],
            value_arena: vec![10, 1, 50, 40, 60, 35],
            root: Some(0),
        },
    );
}

#[test]
fn should_function_correctly_given_a_non_reverse_cmp() {
    let mut tree = SplayTree::new();
    let cmp = |a: &u64, b: &u64| a.cmp(b).reverse();
    tree.insert(2, cmp);
    let id_1 = tree.insert(1, cmp).id;
    let id_3 = tree.insert(3, cmp).id;
    assert_eq!(tree.len(), 3);
    assert_eq!(tree.min().unwrap(), NodeRef { value: 3, id: id_3 });
    assert_eq!(tree.max().unwrap(), NodeRef { value: 1, id: id_1 });
    let node = tree.find(&3, cmp).unwrap();
    tree.remove(node);
    assert_eq!(tree.len(), 2);
    assert_eq!(tree.value_arena[tree.root.unwrap()], 2);
    assert!(tree.node_arena[tree.root.unwrap()].left.is_none());
    assert_eq!(
        tree.value_arena[tree.node_arena[tree.root.unwrap()].right.unwrap()],
        1
    );
}

#[test]
fn should_support_custom_cmp() {
    let mut objects = (0u64..10)
        .map(|i| KeyedU64 { key: i, value: i * i })
        .collect::<Vec<_>>();
    // A fixed shuffle of the ten keys.
    let order = [7usize, 2, 9, 0, 5, 3, 8, 1, 6, 4];
    let shuffled: Vec<KeyedU64> = order.iter().map(|&i| objects[i]).collect();

    let mut tree = SplayTree::new();
    let cmp = |a: &KeyedU64, b: &KeyedU64| a.key.cmp(&b.key);

    for obj in shuffled.iter() {
        tree.insert(*obj, cmp);
    }

    objects.sort_by(cmp);
    assert_eq!(tree.to_vec(), objects);
}

#[test]
fn should_return_none_if_the_tree_is_empty() {
    let mut tree = SplayTree::new();
    let cmp = |a: &u64, b: &u64| a.cmp(b);
    assert!(tree.find(&1, cmp).is_none());
}

#[test]
fn should_return_whether_the_tree_contains_a_node() {
    let mut tree = SplayTree::new();
    let cmp = |a: &u64, b: &u64| a.cmp(b);
    assert!(tree.find(&1, cmp).is_none());
    assert!(tree.find(&2, cmp).is_none());
    assert!(tree.find(&3, cmp).is_none());
    tree.insert(3, cmp);
    tree.insert(1, cmp);
    tree.insert(2, cmp);
    assert!(tree.find(&1, cmp).is_some());
    assert!(tree.find(&2, cmp).is_some());
    assert!(tree.find(&3, cmp).is_some());
}

#[test]
fn should_return_none_when_the_expected_parent_has_no_children() {
    let mut tree = SplayTree::new();
    let cmp = |a: &u64, b: &u64| a.cmp(b);
    tree.insert(2, cmp);
    assert!(tree.find(&1, cmp).is_none());
    assert!(tree.find(&3, cmp).is_none());
}

#[test]
fn should_allow_inserting_of_duplicate_key() {
    let mut tree = SplayTree::new();
    let cmp = |a: &i64, b: &i64| a.cmp(b);

    for v in [2, 12, 1, -6, 1] {
        tree.insert(v, cmp);
    }

    assert_eq!(tree.to_vec(), vec![-6, 1, 1, 2, 12]);
}

#[test]
fn should_allow_multiple_duplicate_keys_in_a_row() {
    let mut tree = SplayTree::new();
    let cmp = |a: &i64, b: &i64| a.cmp(b);

    for v in [2, 12, 1, 1, -6, 2, 1, 1, 13] {
        tree.insert(v, cmp);
    }

    assert_eq!(tree.to_vec(), vec![-6, 1, 1, 1, 1, 2, 2, 12, 13]);
}

#[test]
fn should_remove_from_a_tree_with_duplicate_keys_correctly() {
    let mut tree = SplayTree::new();
    let cmp = |a: &i64, b: &i64| a.cmp(b);

    for v in [2, 12, 1, 1, -6, 1, 1] {
        tree.insert(v, cmp);
    }

    let mut l = tree.len();
    for i in 0..4 {
        let node = tree.find(&1, cmp).unwrap();
        tree.remove(node);

        if i < 3 {
            assert!(tree.find(&1, cmp).is_some());
        }
        l -= 1;
        assert_eq!(tree.len(), l);
    }

    assert!(tree.find(&1, cmp).is_none());
}

#[test]
fn should_remove_from_a_tree_with_multiple_duplicate_keys_correctly() {
    let mut tree = SplayTree::new();
    let cmp = |a: &i64, b: &i64| a.cmp(b);

    for v in [2, 12, 1, 1, -6, 1, 1, 2, 0, 2] {
        tree.insert(v, cmp);
    }

    let mut l = tree.len();
    while !tree.is_empty() {
        let node = tree.min().unwrap();
        tree.remove(node);
        l -= 1;
        assert_eq!(tree.len(), l);
    }
}

#[test]
fn should_return_whether_the_tree_is_empty() {
    let mut tree = SplayTree::new();
    let cmp = |a: &u64, b: &u64| a.cmp(b);

    assert!(tree.is_empty());
    tree.insert(1, cmp);
    assert!(!tree.is_empty());
    let node = tree.find(&1, cmp).unwrap();
    tree.remove(node);
    assert!(tree.is_empty());
}

#[test]
fn should_return_key_as_the_result_of_search() {
    let mut tree = SplayTree::new();
    let cmp = |a: &KeyedI64, b: &KeyedI64| a.key.cmp(&b.key);

    assert!(tree.find(&KeyedI64 { key: 1, value: 0 }, cmp).is_none());
    assert!(tree.find(&KeyedI64 { key: 2, value: 0 }, cmp).is_none());
    assert!(tree.find(&KeyedI64 { key: 3, value: 0 }, cmp).is_none());
    tree.insert(KeyedI64 { key: 1, value: 4 }, cmp);
    tree.insert(KeyedI64 { key: 2, value: 5 }, cmp);
    tree.insert(KeyedI64 { key: 3, value: 6 }, cmp);

    let old_root = tree.root;
    assert_eq!(
        tree.find(&KeyedI64 { key: 1, value: 0 }, cmp).map(|n| n.value),
        Some(KeyedI64 { key: 1, value: 4 }),
    );
    assert_ne!(old_root, tree.root);
}

#[test]
fn should_allow_finding_node_without_splaying() {
    let mut tree = SplayTree::new();
    let cmp = |a: &KeyedPair, b: &KeyedPair| a.key.cmp(&b.key);

    assert_eq!(tree.find_static(&KeyedPair { key: 1, value: 0 }, cmp), None);
    assert_eq!(tree.find_static(&KeyedPair { key: 2, value: 0 }, cmp), None);
    assert_eq!(tree.find_static(&KeyedPair { key: 3, value: 0 }, cmp), None);
    tree.insert(KeyedPair { key: -2, value: 8 }, cmp);
    tree.insert(KeyedPair { key: 1, value: 4 }, cmp);
    tree.insert(KeyedPair { key: 2, value: 5 }, cmp);
    tree.insert(KeyedPair { key: 3, value: 6 }, cmp);

    tree.find(&KeyedPair { key: 2, value: 0 }, cmp);
    let root = tree.root;
    assert_eq!(
        tree.find_static(&KeyedPair { key: 1, value: 0 }, cmp).map(|n| n.value.value),
        Some(4),
    );
    assert_eq!(root, tree.root);

    assert_eq!(
        tree.find_static(&KeyedPair { key: 2, value: 0 }, cmp).map(|n| n.value.value),
        Some(5),
    );
    assert_eq!(root, tree.root);

    assert_eq!(
        tree.find_static(&KeyedPair { key: 3, value: 0 }, cmp).map(|n| n.value.value),
        Some(6),
    );
    assert_eq!(root, tree.root);

    assert_eq!(
        tree.find_static(&KeyedPair { key: -2, value: 0 }, cmp).map(|n| n.value.value),
        Some(8),
    );
    assert_eq!(
        tree.find(&KeyedPair { key: 2, value: 0 }, cmp).map(|n| n.id),
        tree.root
    );
}
