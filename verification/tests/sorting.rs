use ds_and_algos::sorting::bubble_sort::bubble_sort;
use ds_and_algos::sorting::bubble_sort::bubble_sort_by;
use ds_and_algos::sorting::merge_sort::merge_sort;
use ds_and_algos::sorting::merge_sort::merge_sort_zero_copy;
use ds_and_algos::sorting::quick_sort::quick_sort;
use ds_and_algos::sorting::quick_sort::quick_sort_by;

#[test]
fn bubble_sort_can_sort() {
    let mut nums = vec![3, 1, 2, 4, 6, 5];
    bubble_sort(&mut nums);

    assert_eq!(nums, [1, 2, 3, 4, 5, 6]);
}

#[test]
fn bubble_sort_can_sort_when_sorted() {
    let mut nums = vec![1, 2, 3, 4, 5, 6];
    bubble_sort(&mut nums);

    assert_eq!(nums, [1, 2, 3, 4, 5, 6]);
}

#[test]
fn bubble_sort_can_sort_when_in_reverse_order() {
    let mut nums = vec![6, 5, 4, 3, 2, 1];
    bubble_sort(&mut nums);

    assert_eq!(nums, [1, 2, 3, 4, 5, 6]);
}

#[test]
fn bubble_sort_can_sort_by() {
    let mut nums = vec![3, 1, 2, 4, 6, 5];
    bubble_sort_by(&mut nums, |a, b| a > b);

    assert_eq!(nums, [1, 2, 3, 4, 5, 6]);
}

#[test]
fn bubble_sort_can_sort_by_when_sorted() {
    let mut nums = vec![1, 2, 3, 4, 5, 6];
    bubble_sort_by(&mut nums, |a, b| a > b);

    assert_eq!(nums, [1, 2, 3, 4, 5, 6]);
}

#[test]
fn bubble_sort_can_sort_by_when_in_reverse_order() {
    let mut nums = vec![6, 5, 4, 3, 2, 1];
    bubble_sort_by(&mut nums, |a, b| a > b);

    assert_eq!(nums, [1, 2, 3, 4, 5, 6]);
}

#[test]
fn bubble_sort_by_can_sort_descending() {
    let mut nums = vec![3, 1, 2, 4, 6, 5];
    bubble_sort_by(&mut nums, |a, b| a < b);

    assert_eq!(nums, [6, 5, 4, 3, 2, 1]);
}

#[test]
fn merge_sort_can_sort() {
    let mut nums = [3, 1, 2, 4, 6, 5];

    assert_eq!(merge_sort(&mut nums[..]), [1, 2, 3, 4, 5, 6]);
}

#[test]
fn merge_sort_can_sort_when_sorted() {
    let mut nums = [1, 2, 3, 4, 5, 6];

    assert_eq!(merge_sort(&mut nums[..]), [1, 2, 3, 4, 5, 6]);
}

#[test]
fn merge_sort_can_sort_when_in_reverse_order() {
    let mut nums = [6, 5, 4, 3, 2, 1];

    assert_eq!(merge_sort(&mut nums[..]), [1, 2, 3, 4, 5, 6]);
}

#[test]
fn can_sort_zero_copy() {
    let mut nums = [3, 1, 2, 4, 6, 5];

    assert_eq!(merge_sort(&mut nums[..]), [1, 2, 3, 4, 5, 6]);
}

#[test]
fn can_sort_when_sorted_zero_copy() {
    let mut nums = [1, 2, 3, 4, 5, 6];

    assert_eq!(merge_sort(&mut nums[..]), [1, 2, 3, 4, 5, 6]);
}

#[test]
fn can_sort_when_in_reverse_order_zero_copy() {
    let mut nums = [6, 5, 4, 3, 2, 1];

    assert_eq!(merge_sort(&mut nums[..]), [1, 2, 3, 4, 5, 6]);
}

#[test]
fn merge_sort_zero_copy_sorts_in_place() {
    let mut nums = vec![4, -2, 9, 0, 4, 1];
    merge_sort_zero_copy(&mut nums);

    assert_eq!(nums, [-2, 0, 1, 4, 4, 9]);
}

#[test]
fn merge_sort_handles_empty_and_duplicates() {
    let empty: [i64; 0] = [];
    assert_eq!(merge_sort(&empty), Vec::<i64>::new());

    let dups = [2, 1, 2, 1];
    assert_eq!(merge_sort(&dups), [1, 1, 2, 2]);
}

#[test]
fn quick_sort_can_sort() {
    let mut nums = vec![3, 1, 2, 4, 6, 5];
    quick_sort(&mut nums);

    assert_eq!(nums, [1, 2, 3, 4, 5, 6]);
}

#[test]
fn quick_sort_can_sort_when_sorted() {
    let mut nums = vec![1, 2, 3, 4, 5, 6];
    quick_sort(&mut nums);

    assert_eq!(nums, [1, 2, 3, 4, 5, 6]);
}

#[test]
fn quick_sort_can_sort_when_in_reverse_order() {
    let mut nums = vec![6, 5, 4, 3, 2, 1];
    quick_sort(&mut nums);

    assert_eq!(nums, [1, 2, 3, 4, 5, 6]);
}

#[test]
fn quick_sort_can_sort_by() {
    let mut nums = vec![3, 1, 2, 4, 6, 5];
    quick_sort_by(&mut nums, |a, b| a < b);

    assert_eq!(nums, [1, 2, 3, 4, 5, 6]);
}

#[test]
fn quick_sort_can_sort_by_when_sorted() {
    let mut nums = vec![1, 2, 3, 4, 5, 6];
    quick_sort_by(&mut nums, |a, b| a < b);

    assert_eq!(nums, [1, 2, 3, 4, 5, 6]);
}

#[test]
fn quick_sort_can_sort_by_when_in_reverse_order() {
    let mut nums = vec![6, 5, 4, 3, 2, 1];
    quick_sort_by(&mut nums, |a, b| a < b);

    assert_eq!(nums, [1, 2, 3, 4, 5, 6]);
}

#[test]
fn quick_sort_by_can_sort_descending() {
    let mut nums = vec![3, 1, 2, 4, 6, 5];
    quick_sort_by(&mut nums, |a, b| a > b);

    assert_eq!(nums, [6, 5, 4, 3, 2, 1]);
}

#[test]
fn sorts_handle_short_inputs() {
    let mut empty: Vec<i64> = vec![];
    bubble_sort(&mut empty);
    assert_eq!(empty, Vec::<i64>::new());

    let mut one = vec![42];
    quick_sort(&mut one);
    assert_eq!(one, [42]);

    let mut two = vec![2, -3];
    bubble_sort(&mut two);
    assert_eq!(two, [-3, 2]);
}
