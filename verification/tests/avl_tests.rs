use search_trees::trees::avl::AVLTree;

fn avl_sample_tree() -> AVLTree {
    let mut tree = AVLTree::new(50, None, None, 0);
    for v in [30, 70, 20, 40, 60, 80] {
        tree.balanced_insert(v);
    }
    tree
}

fn height(t: &Option<Box<AVLTree>>) -> usize {
    match t {
        Some(n) => 1 + height(&n.left).max(height(&n.right)),
        None => 0,
    }
}

fn check_balanced(t: &AVLTree) {
    let l = height(&t.left) as isize;
    let r = height(&t.right) as isize;
    assert!((l - r).abs() <= 1);
    if let Some(n) = &t.left {
        assert!(n.val < t.val);
        check_balanced(n);
    }
    if let Some(n) = &t.right {
        assert!(n.val > t.val);
        check_balanced(n);
    }
}

#[test]
fn avl_insert_and_exists() {
    let tree = avl_sample_tree();
    assert!(tree.contains(50));
    assert!(tree.contains(20));
    assert!(tree.contains(80));
    assert!(!tree.contains(99));
    assert!(!tree.contains(-5));
}

#[test]
fn avl_insert_duplicate_ignored() {
    let mut tree = AVLTree::new(50, None, None, 0);
    tree.balanced_insert(50);
    assert!(tree.left.is_none());
    assert!(tree.right.is_none());
}

#[test]
fn avl_delete_leaf_node() {
    let mut tree = avl_sample_tree();
    tree.balanced_delete(20);
    assert!(!tree.contains(20));
    assert!(tree.contains(30));
    assert!(tree.contains(40));
}

#[test]
fn avl_delete_node_with_one_child() {
    let mut tree = avl_sample_tree();
    tree.balanced_delete(60);
    tree.balanced_delete(70);
    assert!(!tree.contains(70));
    assert!(tree.contains(80));
}

#[test]
fn avl_delete_node_with_two_children() {
    let mut tree = avl_sample_tree();
    tree.balanced_delete(30);
    assert!(!tree.contains(30));
    assert!(tree.contains(20));
    assert!(tree.contains(40));
    assert!(tree.contains(50));
    assert!(tree.contains(70));
}

#[test]
fn avl_delete_root_is_not_supported() {
    let mut tree = avl_sample_tree();
    tree.balanced_delete(50);
    assert_eq!(tree.val, 50);
}

#[test]
fn avl_delete_nonexistent_value_does_not_panic() {
    let mut tree = avl_sample_tree();
    tree.balanced_delete(999);
    assert!(tree.contains(50));
}

#[test]
fn avl_distance_to_root_is_zero() {
    let tree = avl_sample_tree();
    assert_eq!(tree.distance(50), 0);
}

#[test]
fn avl_distance_to_child() {
    let tree = avl_sample_tree();
    assert_eq!(tree.distance(30), 1);
    assert_eq!(tree.distance(20), 2);
}

// Own tests.

#[test]
fn avl_ascending_inserts_rotate_left() {
    let mut tree = AVLTree::new(1, None, None, 0);
    assert!(tree.balanced_insert(2));
    assert!(!tree.balanced_insert(3));
    // a single left rotation brings 2 to the root
    assert_eq!(tree.val, 2);
    assert_eq!(tree.left.as_ref().unwrap().val, 1);
    assert_eq!(tree.right.as_ref().unwrap().val, 3);
    check_balanced(&tree);
}

#[test]
fn avl_descending_inserts_rotate_right() {
    let mut tree = AVLTree::new(3, None, None, 0);
    tree.balanced_insert(2);
    tree.balanced_insert(1);
    assert_eq!(tree.val, 2);
    assert_eq!(tree.left.as_ref().unwrap().val, 1);
    assert_eq!(tree.right.as_ref().unwrap().val, 3);
}

#[test]
fn avl_left_right_double_rotation() {
    let mut tree = AVLTree::new(3, None, None, 0);
    tree.balanced_insert(1);
    tree.balanced_insert(2);
    assert_eq!(tree.val, 2);
    assert_eq!(tree.left.as_ref().unwrap().val, 1);
    assert_eq!(tree.right.as_ref().unwrap().val, 3);
}

#[test]
fn avl_right_left_double_rotation() {
    let mut tree = AVLTree::new(1, None, None, 0);
    tree.balanced_insert(3);
    tree.balanced_insert(2);
    assert_eq!(tree.val, 2);
    assert_eq!(tree.left.as_ref().unwrap().val, 1);
    assert_eq!(tree.right.as_ref().unwrap().val, 3);
}

#[test]
fn avl_many_inserts_stay_balanced() {
    let mut tree = AVLTree::new(0, None, None, 0);
    for v in 1..200 {
        tree.balanced_insert(v);
        check_balanced(&tree);
    }
    for v in 0..200 {
        assert!(tree.contains(v));
    }
    // 200 values fit in a tree of height 8
    assert!(height(&Some(Box::new(tree.clone()))) <= 8);
}

#[test]
fn avl_many_deletes_stay_balanced() {
    let mut tree = AVLTree::new(0, None, None, 0);
    for v in 1..100 {
        tree.balanced_insert(v);
    }
    let root = tree.val;
    for v in 0..100 {
        if v % 3 != 0 {
            tree.balanced_delete(v);
            check_balanced(&tree);
        }
    }
    for v in 0..100 {
        assert_eq!(tree.contains(v), v % 3 == 0 || v == root);
    }
}

#[test]
fn avl_insert_reports_growth() {
    let mut tree = AVLTree::new(10, None, None, 0);
    assert!(tree.balanced_insert(5));
    assert!(!tree.balanced_insert(15));
    assert!(!tree.balanced_insert(10));
}

#[test]
fn avl_delete_reports_shrink() {
    let mut tree = AVLTree::new(10, None, None, 0);
    tree.balanced_insert(5);
    assert!(tree.balanced_delete(5));
    assert!(tree.left.is_none());
    assert!(!tree.balanced_delete(5));
}

#[test]
fn avl_clone_is_equal() {
    let tree = avl_sample_tree();
    let copy = tree.clone();
    assert_eq!(copy.val, tree.val);
    for v in [20, 30, 40, 50, 60, 70, 80] {
        assert!(copy.contains(v));
        assert_eq!(copy.distance(v), tree.distance(v));
    }
}
