use trees::nodes::{BSTree, Node};

fn a_numric_tree() -> BSTree {
    let three = Node::new(3);

    let mut four = Node::new(4);
    four.add_left_child(three);

    let mut two = Node::new(2);
    two.add_left_child(Node::new(1));
    two.add_right_child(four);

    let mut six = Node::new(6);
    six.add_left_child(two);

    let eight = Node::new(8);
    six.add_right_child(eight);

    BSTree::new(six.to_link())
}

#[test]
fn contains() {
    let tree = a_numric_tree();

    let target_two: i64 = 2;
    assert!(tree.contains(&target_two));

    let target_seven: i64 = 7;
    assert!(tree.contains(&target_seven) == false);

    let target_six: i64 = 6;
    assert!(tree.contains(&target_six));
}

#[test]
fn insert() {
    let mut tree = a_numric_tree();

    let target: i64 = 7;

    assert!(tree.contains(&target) == false);

    tree.insert(target);
    assert!(tree.contains(&target));

    let mut tree: BSTree = BSTree::new(None);
    let numbers: [i64; 7] = [6, 2, 1, 4, 3, 8, 7];
    for number in numbers {
        tree.insert(number);
    }
    for number in numbers {
        assert!(tree.contains(&number));
    }
    assert_eq!(tree.pre_order_vec(), vec![6i64, 2, 1, 4, 3, 8, 7]);
}

#[test]
fn pre_order_walk_of_hand_built_tree() {
    let tree = a_numric_tree();
    assert_eq!(tree.pre_order_vec(), vec![6i64, 2, 1, 4, 3, 8]);
    let empty = BSTree::new(None);
    assert_eq!(empty.pre_order_vec(), Vec::<i64>::new());
}

#[test]
fn replaced_children_come_back() {
    let mut parent = Node::new(10);
    assert!(parent.add_left_child(Node::new(4)).is_none());
    assert!(parent.add_right_child(Node::new(15)).is_none());
    let evicted = parent.add_left_child(Node::new(5));
    assert!(evicted.is_some());
    let tree = BSTree::new(parent.to_link());
    assert!(tree.contains(&5));
    assert!(tree.contains(&15));
    assert!(!tree.contains(&4));
}

#[test]
fn duplicate_node_insert_is_ignored() {
    let mut tree = BSTree::new(Node::new(2).to_link());
    tree.insert(1);
    tree.insert(3);
    tree.insert(3);
    assert!(tree.contains(&1));
    assert!(tree.contains(&2));
    assert!(tree.contains(&3));
    assert!(!tree.contains(&4));
}

#[test]
fn empty_wrapper_contains_nothing() {
    let tree = BSTree::new(None);
    assert!(!tree.contains(&0));
}
