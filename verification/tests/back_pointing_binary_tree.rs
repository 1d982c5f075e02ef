use ds_and_algos::trees::back_pointing_binary_tree::BackPointingBinaryTree;

#[test]
fn can_in_order_to_vec() {
    let tree = BackPointingBinaryTree::from_iter(vec![6, 4, 8, 2, 5, 1, 3, 7, 9, 10]);

    let expected = vec![1, 2, 3, 4, 5, 6, 7, 8, 9, 10];

    assert_eq!(tree.to_vec_in_order(), expected);
}

#[test]
fn can_get_height() {
    let tree = BackPointingBinaryTree::from_iter(vec![6, 4, 8, 2, 5, 1, 3, 7, 9, 10]);

    let expected = 3;

    assert_eq!(tree.height(), expected);
}

#[test]
fn keeps_duplicate_values() {
    let mut tree = BackPointingBinaryTree::new();
    tree.insert(5);
    tree.insert(5);
    tree.insert(3);

    assert_eq!(tree.size(), 3);
    assert_eq!(tree.to_vec_in_order(), vec![3, 5, 5]);
}

#[test]
fn empty_tree_has_height_zero() {
    let tree = BackPointingBinaryTree::new();
    assert_eq!(tree.size(), 0);
    assert_eq!(tree.height(), 0);

    let mut lone = BackPointingBinaryTree::new();
    lone.insert(1);
    assert_eq!(lone.height(), 0);
}
