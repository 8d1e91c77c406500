use trees::bst::{BinarySearchTree, Tree};

// `contains` answers true for every inserted value and false for values
// never inserted.
#[test]
fn inserted_values_are_contained() {
    let mut tree = Tree::empty();
    let values: [i64; 6] = [42, -7, 0, 13, 99, -100];
    for v in values {
        assert!(tree.insert(v));
    }
    for v in values {
        assert!(tree.contains(&v));
    }
    let absent: [i64; 4] = [1, -1, 100, 43];
    for v in absent {
        assert!(!tree.contains(&v));
    }
}

// Inserting an already-present value answers false and leaves the elements
// unchanged.
#[test]
fn duplicate_insert_changes_nothing() {
    let mut tree = Tree::empty();
    assert!(tree.insert(5));
    assert!(tree.insert(3));
    assert!(tree.insert(8));
    assert!(!tree.insert(3));
    assert_eq!(tree.in_order_vec(), vec![3i64, 5, 8]);
}

// `min` and `max` answer the extremes of the inserted values, and `None` on
// an empty tree.
#[test]
fn min_max_match_extremes() {
    let mut tree = Tree::empty();
    assert_eq!(tree.min(), None);
    assert_eq!(tree.max(), None);
    let values: [i64; 4] = [4, -2, 9, 7];
    for v in values {
        tree.insert(v);
    }
    assert_eq!(tree.min(), Some(&-2i64));
    assert_eq!(tree.max(), Some(&9i64));
}

// After a successful removal the target is gone, every other element answers
// as before, and the in-order sequence stays strictly increasing.
#[test]
fn remove_detaches_only_the_target() {
    let mut tree = Tree::empty();
    let values: [i64; 6] = [6, 2, 1, 0, 9, 3];
    for v in values {
        tree.insert(v);
    }
    let detached = tree.remove(&2);
    assert!(detached.is_some());
    assert_eq!(detached.unwrap().in_order_vec(), vec![2i64]);
    assert!(!tree.contains(&2));
    let kept: [i64; 5] = [6, 1, 0, 9, 3];
    for v in kept {
        assert!(tree.contains(&v));
    }
    assert!(!tree.contains(&7));
    let in_order = tree.in_order_vec();
    for pair in in_order.windows(2) {
        assert!(pair[0] < pair[1]);
    }
}

// Removing a value that is not there answers absent and changes nothing.
#[test]
fn remove_absent_value_changes_nothing() {
    let mut tree = Tree::empty();
    let values: [i64; 6] = [6, 2, 1, 0, 9, 3];
    for v in values {
        tree.insert(v);
    }
    assert!(tree.remove(&5).is_none());
    assert!(tree.remove(&-1).is_none());
    assert_eq!(tree.in_order_vec(), vec![0i64, 1, 2, 3, 6, 9]);
    assert_eq!(tree.min(), Some(&0i64));
    assert_eq!(tree.max(), Some(&9i64));
}

// The two-children case: removing 2 from the tree built by inserting
// [6, 2, 1, 0, 9, 3] promotes its in-order successor.
#[test]
fn remove_inner_node_with_two_children() {
    let mut tree = Tree::empty();
    let values: [i64; 6] = [6, 2, 1, 0, 9, 3];
    for v in values {
        assert!(tree.insert(v));
    }
    let detached = tree.remove(&2);
    assert!(detached.is_some());
    assert_eq!(tree.in_order_vec(), vec![0i64, 1, 3, 6, 9]);
    assert_eq!(tree.min(), Some(&0i64));
    assert_eq!(tree.max(), Some(&9i64));
}

// Each removal shape: a leaf, a node with only a left child, a node with
// only a right child, and the root.
#[test]
fn remove_cases_by_child_count() {
    let mut tree = Tree::empty();
    let values: [i64; 6] = [6, 2, 1, 0, 9, 3];
    for v in values {
        tree.insert(v);
    }
    assert!(tree.remove(&0).is_some());
    assert_eq!(tree.in_order_vec(), vec![1i64, 2, 3, 6, 9]);
    assert!(tree.remove(&2).is_some());
    assert_eq!(tree.in_order_vec(), vec![1i64, 3, 6, 9]);
    assert!(tree.remove(&6).is_some());
    assert_eq!(tree.in_order_vec(), vec![1i64, 3, 9]);

    let mut right_only = Tree::empty();
    let more: [i64; 3] = [5, 7, 8];
    for v in more {
        right_only.insert(v);
    }
    assert!(right_only.remove(&7).is_some());
    assert_eq!(right_only.in_order_vec(), vec![5i64, 8]);
}

// Removing every element, in an order other than insertion, empties the
// tree: `min` and `max` answer absent again.
#[test]
fn removing_everything_empties_the_tree() {
    let mut tree = Tree::empty();
    let values: [i64; 6] = [5, 1, 8, 3, -4, 10];
    for v in values {
        tree.insert(v);
    }
    let order: [i64; 6] = [8, -4, 5, 10, 1, 3];
    for v in order {
        assert!(tree.remove(&v).is_some());
    }
    assert_eq!(tree.min(), None);
    assert_eq!(tree.max(), None);
    assert_eq!(tree.in_order_vec(), Vec::<i64>::new());
}

// The counted wrapper keeps its length equal to the number of elements.
#[test]
fn counted_tree_tracks_its_size() {
    let mut tree = BinarySearchTree::new();
    assert_eq!(tree.len(), 0);
    assert_eq!(tree.min(), None);
    assert!(tree.insert(4));
    assert!(tree.insert(2));
    assert!(!tree.insert(4));
    assert_eq!(tree.len(), 2);
    assert!(tree.contains(&2));
    assert!(!tree.contains(&3));
    assert_eq!(tree.min(), Some(&2i64));
    assert_eq!(tree.max(), Some(&4i64));
    let detached = tree.remove(&4);
    assert!(detached.is_some());
    assert_eq!(tree.len(), 1);
    assert!(tree.remove(&4).is_none());
    assert_eq!(tree.len(), 1);
    assert_eq!(tree.in_order_vec(), vec![2i64]);
}
