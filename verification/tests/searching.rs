use ds_and_algos::searching::binary_search::binary_search_iter;
use ds_and_algos::searching::binary_search::binary_search_recur;
use ds_and_algos::searching::linear_search::linear_search;

#[test]
fn can_binary_search_recur() {
    let nums = [0, 1, 2, 3, 4];

    assert_eq!(binary_search_recur(&nums, &0), Some(0));
    assert_eq!(binary_search_recur(&nums, &2), Some(2));
    assert_eq!(binary_search_recur(&nums, &4), Some(4));

    assert_eq!(binary_search_recur(&nums, &5), None);
    assert_eq!(binary_search_recur(&nums, &-1), None);
}

#[test]
fn can_binary_search_iter() {
    let nums = [0, 1, 2, 3, 4];

    assert_eq!(binary_search_iter(&nums, &0), Some(0));
    assert_eq!(binary_search_iter(&nums, &2), Some(2));
    assert_eq!(binary_search_iter(&nums, &4), Some(4));

    assert_eq!(binary_search_iter(&nums, &5), None);
    assert_eq!(binary_search_iter(&nums, &-1), None);
}

#[test]
fn can_linear_search() {
    let nums = [0, 1, 2, 3, 4];

    assert_eq!(linear_search(&nums, &0), Some(0));
    assert_eq!(linear_search(&nums, &4), Some(4));
    assert_eq!(linear_search(&nums, &5), None);
}

#[test]
fn binary_search_handles_empty_and_single() {
    let empty: [i64; 0] = [];
    assert_eq!(binary_search_recur(&empty, &1), None);
    assert_eq!(binary_search_iter(&empty, &1), None);

    let one = [7];
    assert_eq!(binary_search_recur(&one, &7), Some(0));
    assert_eq!(binary_search_iter(&one, &7), Some(0));
    assert_eq!(binary_search_recur(&one, &6), None);
    assert_eq!(binary_search_iter(&one, &8), None);
}

#[test]
fn linear_search_finds_first_match() {
    let nums = [5, 3, 5, 1];
    assert_eq!(linear_search(&nums, &5), Some(0));
    assert_eq!(linear_search(&nums, &1), Some(3));
}
