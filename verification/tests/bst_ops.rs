use trees::bst::Tree;

// init a numric tree
//          6
//        2   9
//      1   3
//    0
fn a_numric_tree() -> Tree {
    let mut tree = Tree::empty();
    assert!(tree.insert(6));
    assert!(tree.insert(2));
    assert!(tree.insert(1));
    assert!(tree.insert(0));
    assert!(tree.insert(9));
    assert!(tree.insert(3));
    tree
}

#[test]
fn bsb_insert() {
    let mut tree = a_numric_tree();
    assert!(tree.insert(1) == false);
}

#[test]
fn bsb_min() {
    let tree = a_numric_tree();
    assert_eq!(tree.min(), Some(&0i64));
}

#[test]
fn bsb_max() {
    let tree = a_numric_tree();
    assert_eq!(tree.max(), Some(&9i64));
}

#[test]
fn binary_search_nonnull_bst2_insert() {
    let tree = a_numric_tree();
    let _ = tree;
}

#[test]
fn bst2_min() {
    let tree = a_numric_tree();
    assert_eq!(tree.min(), Some(&0i64));
}

#[test]
fn bst2_max() {
    let tree = a_numric_tree();
    assert_eq!(tree.max(), Some(&9i64));
}

#[test]
fn bst2_remove() {
    let mut tree = a_numric_tree();
    tree.remove(&2i64);
    assert_eq!(tree.max(), Some(&9i64));
    assert_eq!(tree.min(), Some(&0i64));
}

#[test]
fn binary_search_v2_bst2_insert() {
    let mut tree = Tree::empty();
    assert!(tree.insert(1));
    assert!(tree.insert(2));
    assert!(tree.insert(1) == false);
}

#[test]
fn find_min_matches_min() {
    let mut tree = Tree::empty();
    assert_eq!(tree.find_min(), None);
    assert!(tree.insert(3));
    assert!(tree.insert(1));
    assert!(tree.insert(2));
    assert_eq!(tree.find_min(), Some(&1i64));
    assert_eq!(tree.min(), Some(&1i64));
}
