use ds_and_algos::lists::ring_buffer::RingBuffer;

#[test]
fn ring_buffer_can_construct_from_iterator_and_to_vec() {
    let vec = vec![1, 2, 3, 4, 5, 6, 7];
    let buffer = RingBuffer::from_iter(vec.clone());

    assert_eq!(buffer.to_vec(), vec);
}

#[test]
fn ring_buffer_can_push_front() {
    let vec = vec![1, 2, 3, 4, 5, 6, 7];
    let mut buffer = RingBuffer::new();

    for n in vec.iter().rev() {
        buffer.push_front(*n);
    }

    assert_eq!(buffer.to_vec(), vec);
}

#[test]
fn ring_buffer_can_get_value_by_index() {
    let vec = vec![1, 2, 3, 4, 5, 6, 7];
    let buffer = RingBuffer::from_iter(vec.clone());

    for (idx, n) in vec.iter().enumerate() {
        assert_eq!(buffer.get(idx), Some(n));
    }
}

#[test]
fn ring_buffer_can_insert() {
    let mut buffer = RingBuffer::from_iter(vec![1, 3, 5]);

    buffer.insert(1, 2); // [1, 2, 3, 5]
    buffer.insert(3, 4); // [1, 2, 3, 4, 5]

    assert_eq!(buffer.get(0), Some(&1));
    assert_eq!(buffer.get(1), Some(&2));
    assert_eq!(buffer.get(2), Some(&3));
    assert_eq!(buffer.get(3), Some(&4));
    assert_eq!(buffer.get(4), Some(&5));
    assert_eq!(buffer.get(5), None);
}

#[test]
fn ring_buffer_can_get_and_pop_front() {
    let mut buffer = RingBuffer::from_iter(vec![1, 2, 3]);

    assert_eq!(buffer.front(), Some(&1));
    assert_eq!(buffer.pop_front(), Some(1));

    assert_eq!(buffer.front(), Some(&2));
    assert_eq!(buffer.pop_front(), Some(2));

    assert_eq!(buffer.front(), Some(&3));
    assert_eq!(buffer.pop_front(), Some(3));

    assert_eq!(buffer.front(), None);
    assert_eq!(buffer.pop_front(), None);
}

#[test]
fn ring_buffer_can_clear() {
    let mut buffer = RingBuffer::from_iter(vec![1, 2, 3, 4, 5]);

    buffer.clear();

    assert_eq!(buffer.front(), None);
    assert_eq!(buffer.back(), None);
    assert_eq!(buffer.len(), 0);
}

#[test]
fn ring_buffer_can_get_and_pop_back() {
    let mut buffer = RingBuffer::from_iter(vec![1, 2, 3]);

    assert_eq!(buffer.back(), Some(&3));
    assert_eq!(buffer.pop_back(), Some(3));

    assert_eq!(buffer.back(), Some(&2));
    assert_eq!(buffer.pop_back(), Some(2));

    assert_eq!(buffer.back(), Some(&1));
    assert_eq!(buffer.pop_back(), Some(1));

    assert_eq!(buffer.back(), None);
    assert_eq!(buffer.pop_back(), None);
}

#[test]
fn ring_buffer_can_remove_by_index() {
    let mut buffer = RingBuffer::from_iter(vec![1, 2, 3, 4]);

    assert_eq!(buffer.remove(buffer.len() - 1), Some(4));
    assert_eq!(buffer.remove(buffer.len() - 1), Some(3));
    assert_eq!(buffer.remove(1), Some(2));
    assert_eq!(buffer.remove(0), Some(1));
    assert_eq!(buffer.remove(0), None);
    assert_eq!(buffer.len(), 0);
}
