use search_trees::trees::bst::BinarySearchTree;

fn bst_sample_tree() -> BinarySearchTree {
    //        50
    //      /    \
    //    30      70
    //   /  \    /  \
    // 20   40  60   80
    let mut tree = BinarySearchTree::new(50, None, None);
    for v in [30, 70, 20, 40, 60, 80] {
        tree.insert(v);
    }
    tree
}

#[test]
fn bst_insert_and_exists() {
    let tree = bst_sample_tree();
    assert!(tree.contains(50));
    assert!(tree.contains(20));
    assert!(tree.contains(80));
    assert!(!tree.contains(99));
    assert!(!tree.contains(-5));
}

#[test]
fn bst_insert_duplicate_goes_right() {
    let mut tree = BinarySearchTree::new(50, None, None);
    tree.insert(50);
    assert!(tree.right.is_some());
    assert_eq!(tree.right.unwrap().val, 50);
}

#[test]
fn bst_delete_leaf_node() {
    let mut tree = bst_sample_tree();
    tree.delete(20);
    assert!(!tree.contains(20));
    assert!(tree.contains(30));
    assert!(tree.contains(40));
}

#[test]
fn bst_delete_node_with_one_child() {
    let mut tree = BinarySearchTree::new(50, None, None);
    for v in [30, 20] {
        tree.insert(v);
    }
    tree.delete(30);
    assert!(!tree.contains(30));
    assert!(tree.contains(20));
}

#[test]
fn bst_delete_node_with_two_children() {
    let mut tree = bst_sample_tree();
    tree.delete(30);
    assert!(!tree.contains(30));
    assert!(tree.contains(20));
    assert!(tree.contains(40));
    assert!(tree.contains(50));
    assert!(tree.contains(70));
}

#[test]
fn bst_delete_root_with_two_children() {
    let mut tree = bst_sample_tree();
    tree.delete(50);
    assert_eq!(tree.val, 50);
}

#[test]
fn bst_delete_nonexistent_value_does_not_panic() {
    let mut tree = bst_sample_tree();
    tree.delete(999);
    assert!(tree.contains(50));
}

#[test]
fn bst_distance_to_root_is_zero() {
    let tree = bst_sample_tree();
    assert_eq!(tree.distance(50), 0);
}

#[test]
fn bst_distance_to_child() {
    let tree = bst_sample_tree();
    assert_eq!(tree.distance(30), 1);
    assert_eq!(tree.distance(20), 2);
}

// Own tests.

#[test]
fn bst_insert_places_values_on_search_path() {
    let tree = bst_sample_tree();
    let left = tree.left.as_ref().unwrap();
    let right = tree.right.as_ref().unwrap();
    assert_eq!(left.val, 30);
    assert_eq!(right.val, 70);
    assert_eq!(left.left.as_ref().unwrap().val, 20);
    assert_eq!(left.right.as_ref().unwrap().val, 40);
    assert_eq!(right.left.as_ref().unwrap().val, 60);
    assert_eq!(right.right.as_ref().unwrap().val, 80);
    assert_eq!(tree.distance(80), 2);
    assert_eq!(tree.distance(60), 2);
}

#[test]
fn bst_delete_two_children_splices_left_under_right() {
    // deleting 30 puts 40 in its place and hangs 20 below 40
    let mut tree = bst_sample_tree();
    tree.delete(30);
    let left = tree.left.as_ref().unwrap();
    assert_eq!(left.val, 40);
    assert_eq!(left.left.as_ref().unwrap().val, 20);
    assert!(left.right.is_none());
    assert_eq!(tree.distance(20), 2);
}

#[test]
fn bst_duplicate_deleted_once() {
    // the root value occurs again below the root; deleting removes that copy
    let mut tree = bst_sample_tree();
    tree.insert(50);
    assert_eq!(tree.distance(50), 0);
    tree.delete(50);
    assert_eq!(tree.val, 50);
    assert!(tree.contains(50));
    assert!(tree.right.as_ref().unwrap().left.as_ref().unwrap().left.is_none());
    // the value left at the root is never removed
    tree.delete(50);
    assert_eq!(tree.val, 50);
}

#[test]
fn bst_delete_then_insert_again() {
    let mut tree = bst_sample_tree();
    tree.delete(70);
    assert!(!tree.contains(70));
    assert!(tree.contains(60));
    assert!(tree.contains(80));
    tree.insert(70);
    assert!(tree.contains(70));
}

#[test]
fn bst_extreme_values() {
    let mut tree = BinarySearchTree::new(0, None, None);
    tree.insert(i64::MIN);
    tree.insert(i64::MAX);
    assert!(tree.contains(i64::MIN));
    assert!(tree.contains(i64::MAX));
    assert_eq!(tree.distance(i64::MAX), 1);
}

#[test]
fn bst_default_is_single_zero() {
    let tree = BinarySearchTree::default();
    assert_eq!(tree.val, 0);
    assert!(tree.left.is_none());
    assert!(tree.right.is_none());
    assert!(tree.contains(0));
}

fn bst_inorder(t: &BinarySearchTree, out: &mut Vec<i64>) {
    if let Some(l) = &t.left {
        bst_inorder(l, out);
    }
    out.push(t.val);
    if let Some(r) = &t.right {
        bst_inorder(r, out);
    }
}

#[test]
fn bst_insert_puts_the_value_after_the_last_value_not_above_it() {
    let mut tree = bst_sample_tree();
    tree.insert(40);
    tree.insert(55);
    let mut seen = Vec::new();
    bst_inorder(&tree, &mut seen);
    assert_eq!(seen, vec![20, 30, 40, 40, 50, 55, 60, 70, 80]);
}

#[test]
fn bst_distance_is_the_least_depth_holding_the_value() {
    let mut tree = bst_sample_tree();
    tree.insert(30);
    tree.insert(30);
    assert!(tree.contains(30));
    assert_eq!(tree.distance(30), 1);
    assert_eq!(tree.distance(60), 2);
}
