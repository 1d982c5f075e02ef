use ds_and_algos::lists::array_list::ArrayList;

#[test]
fn can_push_and_pop() {
    let mut list = ArrayList::new();
    list.push(1);
    assert_eq!(list.as_slice(), &[1]);

    list.push(2);
    assert_eq!(list.as_slice(), &[1, 2]);

    list.push(3);
    assert_eq!(list.as_slice(), &[1, 2, 3]);

    list.push(4);
    assert_eq!(list.as_slice(), &[1, 2, 3, 4]);

    assert_eq!(list.pop(), Some(4));
    assert_eq!(list.as_slice(), &[1, 2, 3]);

    assert_eq!(list.pop(), Some(3));
    assert_eq!(list.as_slice(), &[1, 2]);

    assert_eq!(list.pop(), Some(2));
    assert_eq!(list.as_slice(), &[1]);

    assert_eq!(list.pop(), Some(1));
    assert_eq!(list.as_slice(), &[] as &[i64]);

    assert_eq!(list.pop(), None);
    assert_eq!(list.len(), 0);
    assert_eq!(list.capacity(), 4);
}

#[test]
fn can_grow_capacity() {
    let mut list = ArrayList::new();
    assert_eq!(list.capacity(), 0);

    list.push(1);
    assert_eq!(list.capacity(), 4);
    list.push(2);
    assert_eq!(list.capacity(), 4);
    list.push(3);
    assert_eq!(list.capacity(), 4);
    list.push(4);
    assert_eq!(list.capacity(), 4);

    list.push(5);
    assert_eq!(list.capacity(), 8);
}

#[test]
fn can_get() {
    let list = ArrayList::from_iter(vec![1, 2, 3]);

    assert_eq!(list.get(0), Some(&1));
    assert_eq!(list.get(1), Some(&2));
    assert_eq!(list.get(2), Some(&3));
    assert_eq!(list.get(3), None);
}

#[test]
fn array_list_can_insert() {
    let mut list = ArrayList::from_iter(vec![1, 3, 5]);

    // Insert front
    list.insert(0, 0);
    assert_eq!(list.as_slice(), &[0, 1, 3, 5]);

    // Insert middle
    list.insert(2, 2);
    assert_eq!(list.as_slice(), &[0, 1, 2, 3, 5]);

    // Insert middle
    list.insert(4, 4);
    assert_eq!(list.as_slice(), &[0, 1, 2, 3, 4, 5]);

    // Insert back
    list.insert(6, 6);
    assert_eq!(list.as_slice(), &[0, 1, 2, 3, 4, 5, 6]);

    assert_eq!(list.len(), 7);
}

#[test]
fn array_list_can_remove() {
    let mut list = ArrayList::from_iter(vec![1, 2, 3, 4, 5]);

    assert_eq!(list.remove(0), 1); // Remove first
    assert_eq!(list.remove(3), 5); // Remove last
    assert_eq!(list.remove(1), 3); // Remove middle
    assert_eq!(list.remove(0), 2); // Remove first
    assert_eq!(list.remove(0), 4); // Remove first

    assert!(list.is_empty());
    assert_eq!(list.capacity(), 8);
}

#[test]
fn with_capacity_starts_empty() {
    let list: ArrayList<i64> = ArrayList::with_capacity(16);
    assert!(list.is_empty());
    assert_eq!(list.capacity(), 16);
}

#[test]
fn clear_keeps_capacity() {
    let mut list = ArrayList::from_iter(vec![1, 2, 3, 4, 5]);
    let capacity = list.capacity();
    list.clear();
    assert!(list.is_empty());
    assert_eq!(list.capacity(), capacity);
}

#[test]
fn can_get_mut() {
    let mut list = ArrayList::from_iter(vec![1, 2, 3]);

    assert_eq!(list.get_mut(0), Some(&mut 1));
    assert_eq!(list.get_mut(1), Some(&mut 2));
    assert_eq!(list.get_mut(2), Some(&mut 3));
    assert_eq!(list.get_mut(3), None);

    *list.get_mut(0).unwrap() = 3;
    *list.get_mut(1).unwrap() = 2;
    *list.get_mut(2).unwrap() = 1;

    assert_eq!(list.as_slice(), &[3, 2, 1]);
}
