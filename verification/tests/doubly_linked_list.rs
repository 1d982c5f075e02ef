use ds_and_algos::linked_lists::doubly_linked_list::DoublyLinkedList;

#[test]
fn unsafe_doubly_linked_list_can_construct_from_iterator_and_to_vec() {
    let vec = vec![1, 2, 3, 4, 5, 6, 7];
    let linked_list = DoublyLinkedList::from_iter(vec.clone());

    assert_eq!(linked_list.to_vec(), vec);
}

#[test]
fn unsafe_doubly_linked_list_can_push_front() {
    let vec = vec![1, 2, 3, 4, 5, 6, 7];
    let mut linked_list = DoublyLinkedList::new();

    for n in vec.iter().rev() {
        linked_list.push_front(*n);
    }

    assert_eq!(linked_list.to_vec(), vec);
}

#[test]
fn unsafe_doubly_linked_list_can_get_value_by_index() {
    let vec = vec![1, 2, 3, 4, 5, 6, 7];
    let linked_list = DoublyLinkedList::from_iter(vec.clone());

    for (idx, n) in vec.iter().enumerate() {
        assert_eq!(linked_list.get(idx), Some(n));
    }
}

#[test]
fn unsafe_doubly_linked_list_can_get_and_mutate_value_by_index() {
    let vec = vec![1, 2, 3, 4, 5, 6, 7];
    let mut linked_list = DoublyLinkedList::from_iter(vec.clone());

    for idx in 0..linked_list.len() {
        *linked_list.get_mut(idx).unwrap() += 1;
    }

    for (idx, n) in vec.iter().enumerate() {
        assert_eq!(linked_list.get(idx), Some(&(n + 1)));
    }
}

#[test]
fn unsafe_doubly_linked_list_can_remove() {
    let mut linked_list = DoublyLinkedList::from_iter(vec![1, 2, 3, 4, 5, 6]);

    assert_eq!(linked_list.remove(5), Some(6)); // Result: [1, 2, 3, 4, 5]

    assert_eq!(linked_list.remove(3), Some(4)); // Result: [1, 2, 3, 5]

    assert_eq!(linked_list.remove(3), Some(5)); // Result: [1, 2, 3]

    assert_eq!(linked_list.remove(1), Some(2)); // Result: [1, 3]

    assert_eq!(linked_list.remove(1), Some(3)); // Result: [1]

    assert_eq!(linked_list.remove(0), Some(1)); // Result: []

    // Empty
    assert_eq!(linked_list.remove(0), None);
    assert_eq!(linked_list.len(), 0);
}

#[test]
fn unsafe_doubly_linked_list_can_insert() {
    let mut linked_list = DoublyLinkedList::new();
    linked_list.insert(0, 1); // [1]
    linked_list.insert(1, 3); // [1, 3]
    linked_list.insert(2, 5); // [1, 3, 5]

    linked_list.insert(1, 2); // [1, 2, 3, 5]
    linked_list.insert(3, 4); // [1, 2, 3, 4, 5]

    assert_eq!(linked_list.get(0), Some(&1));
    assert_eq!(linked_list.get(1), Some(&2));
    assert_eq!(linked_list.get(2), Some(&3));
    assert_eq!(linked_list.get(3), Some(&4));
    assert_eq!(linked_list.get(4), Some(&5));
    assert_eq!(linked_list.get(5), None);
}

#[test]
fn unsafe_doubly_linked_list_can_get_and_pop_front() {
    let mut linked_list = DoublyLinkedList::from_iter(vec![1, 2, 3]);

    assert_eq!(linked_list.front(), Some(&1));
    assert_eq!(linked_list.pop_front(), Some(1));

    assert_eq!(linked_list.front(), Some(&2));
    assert_eq!(linked_list.pop_front(), Some(2));

    assert_eq!(linked_list.front(), Some(&3));
    assert_eq!(linked_list.pop_front(), Some(3));

    assert_eq!(linked_list.front(), None);
    assert_eq!(linked_list.pop_front(), None);
}

#[test]
fn unsafe_doubly_linked_list_can_get_and_pop_back() {
    let mut linked_list = DoublyLinkedList::from_iter(vec![1, 2, 3]);

    assert_eq!(linked_list.back(), Some(&3));
    assert_eq!(linked_list.pop_back(), Some(3));

    assert_eq!(linked_list.back(), Some(&2));
    assert_eq!(linked_list.pop_back(), Some(2));

    assert_eq!(linked_list.back(), Some(&1));
    assert_eq!(linked_list.pop_back(), Some(1));

    assert_eq!(linked_list.back(), None);
    assert_eq!(linked_list.pop_back(), None);
}

#[test]
fn unsafe_doubly_linked_list_can_clear() {
    let mut linked_list = DoublyLinkedList::from_iter(vec![1, 2, 3, 4, 5]);

    linked_list.clear();

    assert_eq!(linked_list.front(), None);
    assert_eq!(linked_list.back(), None);
    assert_eq!(linked_list.len(), 0);
}

#[test]
fn front_mut_and_back_mut_update_the_ends() {
    let mut linked_list = DoublyLinkedList::from_iter(vec![1, 2, 3]);

    *linked_list.front_mut().unwrap() = 10;
    *linked_list.back_mut().unwrap() = 30;

    assert_eq!(linked_list.to_vec(), vec![10, 2, 30]);
}
