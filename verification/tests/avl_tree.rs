use ds_and_algos::trees::avl_tree::AVLTree;

#[test]
fn avl_tree_can_insert() {
    let mut nums = vec![1, 2, 3, 4, 5, 6, -1, -2];
    let tree = AVLTree::from_iter(nums.clone());

    assert_eq!(tree.height(), 4);

    let tree = AVLTree::from_iter(nums.clone());
    assert_eq!(tree.preorder_to_vec()[0], 4);

    // Inorder traversal should yield elements sorted
    let tree = AVLTree::from_iter(nums.clone());
    nums.sort();
    assert_eq!(tree.inorder_to_vec(), nums);
}

#[test]
fn can_check_contains() {
    let nums = vec![1, 2, 3, 4];
    let tree = AVLTree::from_iter(nums.clone());

    for num in nums {
        assert_eq!(tree.contains(&num), true);
    }

    assert_eq!(tree.contains(&0), false);
}

#[test]
fn can_remove_1() {
    let mut tree = AVLTree::from_iter(vec![1, 2, 3, 4, 5, 6, 7, 8, 9]);
    tree.remove(&4);

    assert_eq!(tree.len(), 8);
    // removing an inner node promotes its in-order successor and rebalances
    // the subtree the successor left, so the root is 5 and the tree stays
    // height-balanced at every node
    assert_eq!(tree.preorder_to_vec(), [5, 2, 1, 3, 8, 6, 7, 9]);
}

#[test]
fn can_remove_2() {
    let tree = AVLTree::from_iter(vec![9, 5, 10, 0, 6, 11, -1, 1, 2]);
    assert_eq!(tree.preorder_to_vec(), [9, 1, 0, -1, 5, 2, 6, 10, 11]);

    let mut tree = AVLTree::from_iter(vec![9, 5, 10, 0, 6, 11, -1, 1, 2]);
    tree.remove(&10);
    assert_eq!(tree.preorder_to_vec(), [1, 0, -1, 9, 5, 2, 6, 11])
}

#[test]
fn can_remove_3() {
    let mut tree = AVLTree::from_iter(vec![9, 8, 15, 7, 13, 20, 10]);
    tree.remove(&8);

    assert_eq!(tree.preorder_to_vec(), [13, 9, 7, 10, 15, 20])
}

#[test]
fn inorder_is_sorted_for_any_insertion_order() {
    let tree = AVLTree::from_iter(vec![42, -5, 17, 0, 99, -100, 3, 8, 64, 1]);
    let inorder = tree.inorder_to_vec();
    assert_eq!(inorder, [-100, -5, 0, 1, 3, 8, 17, 42, 64, 99]);
    for window in inorder.windows(2) {
        assert!(window[0] < window[1]);
    }
}

#[test]
fn height_stays_logarithmic_after_sorted_inserts() {
    // 15 ascending inserts would make a plain search tree a chain of
    // height 15; the rotations keep it perfectly balanced
    let tree = AVLTree::from_iter((1..=15).collect());
    assert_eq!(tree.len(), 15);
    assert_eq!(tree.height(), 4);
}

#[test]
fn len_matches_full_traversal() {
    let mut tree = AVLTree::from_iter(vec![5, 3, 9, 1, 4]);
    assert_eq!(tree.len(), 5);
    assert!(!tree.is_empty());
    tree.remove(&3);
    assert_eq!(tree.len(), 4);
    assert_eq!(tree.inorder_to_vec().len(), 4);
}

#[test]
fn insert_then_remove_restores_the_value_set() {
    let mut tree = AVLTree::from_iter(vec![10, 20, 30, 40]);
    tree.insert(25);
    assert!(tree.contains(&25));
    assert_eq!(tree.remove(&25), Some(25));
    assert!(!tree.contains(&25));
    assert_eq!(tree.len(), 4);
    assert_eq!(tree.inorder_to_vec(), [10, 20, 30, 40]);
}

#[test]
fn removing_an_absent_value_changes_nothing() {
    let mut tree = AVLTree::from_iter(vec![2, 1, 3]);
    assert_eq!(tree.remove(&7), None);
    assert_eq!(tree.len(), 3);
    assert_eq!(tree.height(), 2);
    assert_eq!(tree.preorder_to_vec(), [2, 1, 3]);
}

#[test]
fn duplicate_inserts_are_rejected_silently() {
    let mut tree = AVLTree::from_iter(vec![4, 2, 6]);
    tree.insert(4);
    tree.insert(2);
    assert_eq!(tree.len(), 3);
    assert_eq!(tree.inorder_to_vec(), [2, 4, 6]);
}

#[test]
fn empty_tree_behaves() {
    let mut tree = AVLTree::new();
    assert!(tree.is_empty());
    assert_eq!(tree.len(), 0);
    assert_eq!(tree.height(), 0);
    assert_eq!(tree.contains(&1), false);
    assert_eq!(tree.remove(&1), None);
    assert_eq!(tree.inorder_to_vec(), Vec::<i64>::new());
}

#[test]
fn membership_tracks_inserts_and_removes() {
    let mut tree = AVLTree::new();
    for v in [8, 3, 11, 3] {
        tree.insert(v);
    }
    assert!(tree.contains(&8) && tree.contains(&3) && tree.contains(&11));
    assert!(!tree.contains(&5));
    tree.remove(&3);
    assert!(!tree.contains(&3));
    assert!(tree.contains(&8) && tree.contains(&11));
}
