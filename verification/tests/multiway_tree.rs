use trees::multiway::{Common, FileData, Node};

#[test]
fn new() {
}

#[test]
fn add_first_child() {
}

#[test]
fn add_next_siblings() {
}

#[test]
fn preorder_traversal() {
}

#[test]
fn file_tree_assembly() {
    let mut root = Node::new(FileData::new_dir("/usr"));
    let old_child = root.add_first_child(FileData::new_file("readme", 420));
    assert!(old_child.is_none());
    root.add_next_siblings(FileData::new_dir("/bin"));
    root.add_next_siblings(FileData::new_file("notes", 1));
    let evicted = root.add_first_child(FileData::new_dir("/usr/local"));
    assert!(evicted.is_some());
    let tree = Common::new(root.to_link());
    let _ = tree;
}

#[test]
fn entry_name_and_size() {
    let file = FileData::new_file("readme", 420);
    assert_eq!(file.name(), "readme");
    assert_eq!(file.size(), 420);
    let dir = FileData::new_dir("/usr");
    assert_eq!(dir.name(), "/usr");
    assert_eq!(dir.size(), 1);
}

#[test]
fn entry_to_node_link() {
    let entry = FileData::new_file("log", 7);
    let link = entry.to_node();
    assert!(link.is_some());
    let none_tree: Common<FileData> = Common::new(None);
    let _ = none_tree;
}
