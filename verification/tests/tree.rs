use logdrain::tree::{LeafBucket, TreeNode};

fn keys(ks: &[&str]) -> Vec<String> {
    ks.iter().map(|k| k.to_string()).collect()
}

#[test]
fn leaf_membership_and_capacity() {
    let mut leaf = LeafBucket::new(2);
    assert!(!leaf.is_full());
    leaf.insert(10);
    leaf.insert(20);
    assert!(leaf.is_full());
    let mut ids = leaf.ids().to_vec();
    ids.sort_unstable();
    assert_eq!(ids, vec![10, 20]);
    leaf.remove(10);
    assert!(!leaf.is_full());
    assert_eq!(leaf.ids(), &[20]);
}

#[test]
fn descend_creates_path_and_returns_leaf() {
    let mut root = TreeNode::new_internal();
    let ks = keys(&["GET", "/api"]);
    root.insert_at(&ks, 100, 1);
    // Descending the same path again reaches the same leaf.
    root.descend_or_create(&ks, 100);
    assert_eq!(root.descend(&ks).unwrap().ids(), &[1]);
}

#[test]
fn descend_readonly_misses_on_absent_path() {
    let mut root = TreeNode::new_internal();
    let ks = keys(&["GET"]);
    root.insert_at(&ks, 100, 1);
    let other = keys(&["POST"]);
    assert!(root.descend(&other).is_none());
    assert!(root.descend(&ks).is_some());
}

#[test]
fn empty_keys_make_root_a_leaf() {
    let mut root = TreeNode::new_internal();
    let ks: Vec<String> = Vec::new();
    root.insert_at(&ks, 5, 1);
    assert_eq!(root.descend(&ks).unwrap().ids(), &[1]);
}

#[test]
fn remove_swaps_last_into_place() {
    let mut leaf = LeafBucket::new(5);
    leaf.insert(1);
    leaf.insert(2);
    leaf.insert(3);
    leaf.remove(1);
    assert_eq!(leaf.ids(), &[3, 2]);
    leaf.remove(42);
    assert_eq!(leaf.ids(), &[3, 2]);
}

#[test]
fn remove_at_takes_id_out_of_its_leaf() {
    let mut root = TreeNode::new_internal();
    let ks = keys(&["a", "b"]);
    root.insert_at(&ks, 10, 7);
    root.insert_at(&ks, 10, 8);
    root.remove_at(&ks, 10, 7);
    assert_eq!(root.descend(&ks).unwrap().ids(), &[8]);
}
