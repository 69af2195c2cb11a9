use search_trees::trees::btree::{Btree, Pager, DEGREE};
use search_trees::trees::page::{BtreeError, PAGE_SIZE};

fn btree_sample_tree() -> Result<Btree, BtreeError> {
    let mut btree = Btree::new(20)?;
    btree.insert(5)?;
    btree.insert(7)?;
    btree.insert(3)?;
    btree.insert(1)?;
    btree.insert(9)?;
    btree.insert(6)?;
    Ok(btree)
}

#[test]
fn btree_check_search() {
    let btree = btree_sample_tree().unwrap();
    assert!(btree.search(6).unwrap());
}

#[test]
fn btree_search_finds_exactly_the_inserted_keys() {
    let btree = btree_sample_tree().unwrap();
    for k in [20, 5, 7, 3, 1, 9, 6] {
        assert!(btree.search(k).unwrap());
    }
    for k in [0, 2, 4, 8, 10, 21, -1] {
        assert!(!btree.search(k).unwrap());
    }
}

#[test]
fn btree_new_holds_one_key_in_one_leaf() {
    let btree = Btree::new(20).unwrap();
    assert_eq!(btree.root_id, 1);
    assert!(btree.search(20).unwrap());
    assert_eq!(btree.levels().unwrap(), vec![vec![vec![20]]]);
}

#[test]
fn btree_split_of_a_full_leaf_makes_a_new_root() {
    let mut btree = Btree::new(20).unwrap();
    for k in [5, 7, 3] {
        btree.insert(k).unwrap();
    }
    assert_eq!(btree.levels().unwrap(), vec![vec![vec![3, 5, 7, 20]]]);
    btree.insert(1).unwrap();
    // [1, 3, 5, 7, 20] splits around 5; the new root gets the next id
    assert_eq!(btree.root_id, 3);
    assert_eq!(btree.levels().unwrap(), vec![vec![vec![5]], vec![vec![1, 3], vec![7, 20]]]);
}

#[test]
fn btree_sample_tree_levels() {
    let btree = btree_sample_tree().unwrap();
    assert_eq!(btree.levels().unwrap(), vec![vec![vec![5]], vec![vec![1, 3], vec![6, 7, 9, 20]]]);
}

#[test]
fn btree_insert_duplicate_is_refused() {
    let mut btree = btree_sample_tree().unwrap();
    let before = btree.levels().unwrap();
    assert_eq!(btree.insert(7), Err(BtreeError::AlreadyExists));
    assert_eq!(btree.insert(20), Err(BtreeError::AlreadyExists));
    assert_eq!(btree.levels().unwrap(), before);
}

fn main_sequence_tree() -> Btree {
    let mut btree = Btree::new(20).unwrap();
    for k in [9, 6, 7, 21, 32, 43, 12, 3] {
        btree.insert(k).unwrap();
    }
    btree
}

#[test]
fn btree_split_promotes_into_the_parent() {
    let btree = main_sequence_tree();
    assert_eq!(
        btree.levels().unwrap(),
        vec![vec![vec![9, 21]], vec![vec![3, 6, 7], vec![12, 20], vec![32, 43]]]
    );
}

#[test]
fn btree_remove_borrows_from_the_left_sibling() {
    let mut btree = main_sequence_tree();
    assert_eq!(btree.remove(12), Ok(true));
    assert_eq!(
        btree.levels().unwrap(),
        vec![vec![vec![7, 21]], vec![vec![3, 6], vec![9, 20], vec![32, 43]]]
    );
    assert!(!btree.search(12).unwrap());
}

#[test]
fn btree_remove_merges_with_the_left_sibling() {
    let mut btree = main_sequence_tree();
    assert_eq!(btree.remove(12), Ok(true));
    assert_eq!(btree.remove(9), Ok(true));
    assert_eq!(
        btree.levels().unwrap(),
        vec![vec![vec![21]], vec![vec![3, 6, 7, 20], vec![32, 43]]]
    );
}

#[test]
fn btree_remove_from_internal_page_takes_the_predecessor() {
    let mut btree = main_sequence_tree();
    btree.remove(12).unwrap();
    btree.remove(9).unwrap();
    assert_eq!(btree.remove(21), Ok(true));
    assert_eq!(btree.levels().unwrap(), vec![vec![vec![20]], vec![vec![3, 6, 7], vec![32, 43]]]);
    for k in [3, 6, 7, 20, 32, 43] {
        assert!(btree.search(k).unwrap());
    }
    for k in [9, 12, 21] {
        assert!(!btree.search(k).unwrap());
    }
}

#[test]
fn btree_remove_borrows_from_the_right_sibling() {
    let mut btree = Btree::new(10).unwrap();
    for k in [20, 30, 40, 50, 60] {
        btree.insert(k).unwrap();
    }
    // [10, 20, 30, 40, 50] split around 30, then 60 joins the right leaf
    assert_eq!(btree.levels().unwrap(), vec![vec![vec![30]], vec![vec![10, 20], vec![40, 50, 60]]]);
    assert_eq!(btree.remove(10), Ok(true));
    assert_eq!(btree.levels().unwrap(), vec![vec![vec![40]], vec![vec![20, 30], vec![50, 60]]]);
}

#[test]
fn btree_merge_into_empty_root_lowers_the_tree() {
    let mut btree = Btree::new(10).unwrap();
    for k in [20, 30, 40, 50] {
        btree.insert(k).unwrap();
    }
    assert_eq!(btree.levels().unwrap(), vec![vec![vec![30]], vec![vec![10, 20], vec![40, 50]]]);
    assert_eq!(btree.remove(10), Ok(true));
    // the leaves merge around 30 and the root, left without keys, gives way
    assert_eq!(btree.levels().unwrap(), vec![vec![vec![20, 30, 40, 50]]]);
    assert_eq!(btree.root_id, 1);
}

#[test]
fn btree_remove_missing_key_reports_false() {
    let mut btree = btree_sample_tree().unwrap();
    let before = btree.levels().unwrap();
    assert_eq!(btree.remove(99), Ok(false));
    assert_eq!(btree.levels().unwrap(), before);
}

#[test]
fn btree_insert_then_remove_everything() {
    let mut btree = Btree::new(0).unwrap();
    for k in 1..200 {
        assert!(btree.room_to_grow());
        btree.insert((k * 37) % 200).unwrap();
    }
    for k in 0..200 {
        assert!(btree.search(k).unwrap());
    }
    let levels = btree.levels().unwrap();
    let total: usize = levels.iter().map(|l| l.iter().map(|p| p.len()).sum::<usize>()).sum();
    assert_eq!(total, 200);
    for page in levels.iter().flatten() {
        assert!(page.len() <= 2 * DEGREE - 2);
        assert!(page.windows(2).all(|w| w[0] < w[1]));
    }
    for k in 0..200 {
        assert_eq!(btree.remove((k * 13) % 200), Ok(true));
        assert!(!btree.search((k * 13) % 200).unwrap());
    }
    assert_eq!(btree.levels().unwrap(), vec![vec![Vec::<i64>::new()]]);
}

#[test]
fn btree_insert_then_remove_restores_the_keys() {
    let mut btree = btree_sample_tree().unwrap();
    btree.insert(8).unwrap();
    assert!(btree.search(8).unwrap());
    assert_eq!(btree.remove(8), Ok(true));
    for k in [20, 5, 7, 3, 1, 9, 6] {
        assert!(btree.search(k).unwrap());
    }
    assert!(!btree.search(8).unwrap());
}

#[test]
fn btree_room_to_grow_on_a_small_tree() {
    let btree = btree_sample_tree().unwrap();
    assert!(btree.room_to_grow());
}

#[test]
fn pager_allocates_ids_from_one() {
    let mut pager = Pager::new();
    assert_eq!(pager.allocate(), 1);
    assert_eq!(pager.allocate(), 2);
    assert_eq!(Pager::page_offset(3), 3 * PAGE_SIZE as u64);
}

#[test]
fn pager_flush_hands_out_offset_and_bytes() {
    let mut pager = Pager::new();
    let id = pager.allocate();
    let (offset, bytes) = pager.flush(id).unwrap();
    assert_eq!(offset, PAGE_SIZE as u64);
    assert_eq!(bytes.len(), PAGE_SIZE);
    assert!(bytes.iter().all(|b| *b == 0));
    assert!(pager.flush(id).is_none());
}

#[test]
fn pager_flush_all_empties_the_cache() {
    let mut btree = btree_sample_tree().unwrap();
    let mut written = btree.pager.flush_all();
    written.sort_by_key(|(off, _)| *off);
    let offsets: Vec<u64> = written.iter().map(|(off, _)| *off).collect();
    assert_eq!(offsets, vec![4096, 8192, 12288]);
    assert!(btree.pager.flush_all().is_empty());
}

#[test]
fn btree_handle_underflow_with_empty_breadcrumb_changes_nothing() {
    let mut btree = btree_sample_tree().unwrap();
    let before = btree.levels().unwrap();
    let mut bc: Vec<u32> = Vec::new();
    assert_eq!(btree.handle_underflow(&mut bc), Ok(()));
    assert_eq!(btree.levels().unwrap(), before);
    assert_eq!(btree.root_id, 3);
}

#[test]
fn pager_load_puts_back_a_flushed_page() {
    let mut btree = btree_sample_tree().unwrap();
    let before = btree.levels().unwrap();
    let written = btree.pager.flush_all();
    for (offset, bytes) in &written {
        btree.pager.load((*offset / PAGE_SIZE as u64) as u32, bytes);
    }
    assert_eq!(btree.levels().unwrap(), before);
    assert!(btree.search(6).unwrap());
}

#[test]
fn btree_insert_into_a_leaf_with_room_changes_only_that_leaf() {
    let mut btree = btree_sample_tree().unwrap();
    let root = btree.root_id;
    btree.insert(2).unwrap();
    assert_eq!(btree.root_id, root);
    assert_eq!(btree.levels().unwrap(), vec![vec![vec![5]], vec![vec![1, 2, 3], vec![6, 7, 9, 20]]]);
}

#[test]
fn btree_remove_from_a_leaf_with_keys_to_spare_changes_only_that_leaf() {
    let mut btree = btree_sample_tree().unwrap();
    let root = btree.root_id;
    assert!(btree.remove(9).unwrap());
    assert_eq!(btree.root_id, root);
    assert_eq!(btree.levels().unwrap(), vec![vec![vec![5]], vec![vec![1, 3], vec![6, 7, 20]]]);
}

#[test]
fn btree_underflow_borrows_from_the_left_before_the_right() {
    let mut btree = Btree::new(10).unwrap();
    for k in [20, 30, 40, 50, 60, 70, 80, 15, 75] {
        btree.insert(k).unwrap();
    }
    assert_eq!(
        btree.levels().unwrap(),
        vec![vec![vec![30, 60]], vec![vec![10, 15, 20], vec![40, 50], vec![70, 75, 80]]]
    );
    assert!(btree.remove(40).unwrap());
    assert_eq!(
        btree.levels().unwrap(),
        vec![vec![vec![20, 60]], vec![vec![10, 15], vec![30, 50], vec![70, 75, 80]]]
    );
}
