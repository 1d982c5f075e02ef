use vstd::prelude::*;
use std::collections::VecDeque;

verus! {

/// A double-ended queue of values, viewed as the sequence it holds from
/// front to back.
pub struct RingBuffer<T> {
    inner: VecDeque<T>,
}

impl<T> View for RingBuffer<T> {
    type V = Seq<T>;

    closed spec fn view(&self) -> Seq<T> {
        self.inner@
    }
}

impl<T> RingBuffer<T> {
    pub fn new() -> (buffer: Self)
        ensures
            buffer@ == Seq::<T>::empty(),
    {
        RingBuffer { inner: VecDeque::new() }
    }

    pub fn from_iter(values: Vec<T>) -> (buffer: Self)
        ensures
            buffer@ == values@,
    {
        let mut values = values;
        let mut buffer = RingBuffer::new();
        let ghost all = values@;
        proof {
            assert(all =~= values@ + buffer@);
        }
        while values.len() > 0
            invariant
                all == values@ + buffer@,
            decreases values@.len(),
        {
            let ghost before = values@;
            let value = values.pop().unwrap();
            buffer.push_front(value);
            proof {
                assert(all =~= values@ + buffer@) by {
                    assert(before =~= values@.push(value));
                }
            }
        }
        proof {
            assert(buffer@ =~= all);
        }
        buffer
    }

    pub fn push_front(&mut self, value: T)
        ensures
            final(self)@ == seq![value] + old(self)@,
    {
        self.inner.push_front(value);
    }

    pub fn push_back(&mut self, value: T)
        ensures
            final(self)@ == old(self)@.push(value),
    {
        self.inner.push_back(value);
    }

    pub fn pop_front(&mut self) -> (popped: Option<T>)
        ensures
            match popped {
                Some(value) => old(self)@.len() > 0 && value == old(self)@[0] && final(self)@
                    == old(self)@.drop_first(),
                None => old(self)@.len() == 0 && final(self)@ == old(self)@,
            },
    {
        self.inner.pop_front()
    }

    pub fn pop_back(&mut self) -> (popped: Option<T>)
        ensures
            match popped {
                Some(value) => old(self)@.len() > 0 && value == old(self)@.last() && final(self)@
                    == old(self)@.drop_last(),
                None => old(self)@.len() == 0 && final(self)@ == old(self)@,
            },
    {
        self.inner.pop_back()
    }

    pub fn front(&self) -> (element: Option<&T>)
        ensures
            match element {
                Some(value) => self@.len() > 0 && *value == self@[0],
                None => self@.len() == 0,
            },
    {
        if self.inner.len() > 0 {
            Some(&self.inner[0])
        } else {
            None
        }
    }

    pub fn back(&self) -> (element: Option<&T>)
        ensures
            match element {
                Some(value) => self@.len() > 0 && *value == self@.last(),
                None => self@.len() == 0,
            },
    {
        let length = self.inner.len();
        if length > 0 {
            Some(&self.inner[length - 1])
        } else {
            None
        }
    }

    pub fn get(&self, index: usize) -> (element: Option<&T>)
        ensures
            match element {
                Some(value) => index < self@.len() && *value == self@[index as int],
                None => index >= self@.len(),
            },
    {
        if index < self.inner.len() {
            Some(&self.inner[index])
        } else {
            None
        }
    }

    pub fn insert(&mut self, index: usize, value: T)
        requires
            index <= old(self)@.len(),
        ensures
            final(self)@ == old(self)@.insert(index as int, value),
    {
        self.inner.insert(index, value);
    }

    pub fn remove(&mut self, index: usize) -> (removed: Option<T>)
        ensures
            match removed {
                Some(value) => index < old(self)@.len() && value == old(self)@[index as int]
                    && final(self)@ == old(self)@.remove(index as int),
                None => index >= old(self)@.len() && final(self)@ == old(self)@,
            },
    {
        self.inner.remove(index)
    }

    pub fn clear(&mut self)
        ensures
            final(self)@ == Seq::<T>::empty(),
    {
        self.inner.clear()
    }

    pub fn len(&self) -> (length: usize)
        ensures
            length == self@.len(),
    {
        self.inner.len()
    }

    pub fn to_vec(self) -> (values: Vec<T>)
        ensures
            values@ == self@,
    {
        let mut inner = self.inner;
        let mut values: Vec<T> = Vec::new();
        let ghost all = inner@;
        proof {
            assert(all =~= values@ + inner@);
        }
        while inner.len() > 0
            invariant
                all == values@ + inner@,
            decreases inner@.len(),
        {
            let value = inner.pop_front().unwrap();
            values.push(value);
            proof {
                assert(all =~= values@ + inner@);
            }
        }
        proof {
            assert(values@ =~= all);
        }
        values
    }
}

} // verus!
