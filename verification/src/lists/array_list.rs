use vstd::prelude::*;

verus! {

/// Capacity given to an empty list on its first growth.
pub const INITIAL_CAPACITY: usize = 4;

/// A growable array with an explicit capacity that starts at zero and
/// doubles whenever the stored values fill it.
pub struct ArrayList<T> {
    items: Vec<T>,
    capacity: usize,
}

impl<T> View for ArrayList<T> {
    type V = Seq<T>;

    closed spec fn view(&self) -> Seq<T> {
        self.items@
    }
}

impl<T> ArrayList<T> {
    /// The number of values the list can hold before growing again.
    pub closed spec fn spec_capacity(self) -> nat {
        self.capacity as nat
    }

    /// The stored values never exceed the capacity.
    pub open spec fn wf(self) -> bool {
        self@.len() <= self.spec_capacity()
    }

    /// The capacity after one more value is stored.
    pub open spec fn grown_capacity(self) -> nat {
        if self@.len() < self.spec_capacity() {
            self.spec_capacity()
        } else if self.spec_capacity() == 0 {
            INITIAL_CAPACITY as nat
        } else {
            self.spec_capacity() * 2
        }
    }

    pub fn new() -> (list: Self)
        ensures
            list.wf(),
            list@ == Seq::<T>::empty(),
            list.spec_capacity() == 0,
    {
        ArrayList { items: Vec::new(), capacity: 0 }
    }

    pub fn with_capacity(capacity: usize) -> (list: Self)
        ensures
            list.wf(),
            list@ == Seq::<T>::empty(),
            list.spec_capacity() == capacity,
    {
        ArrayList { items: Vec::with_capacity(capacity), capacity }
    }

    pub fn from_iter(values: Vec<T>) -> (list: Self)
        requires
            values@.len() < usize::MAX / 2,
        ensures
            list.wf(),
            list@ == values@,
    {
        let mut values = values;
        let mut list = ArrayList::new();
        let ghost all = values@;
        let mut taken: usize = 0;
        proof {
            assert(all =~= all.take(0) + values@);
        }
        while values.len() > 0
            invariant
                list.wf(),
                taken + values@.len() == all.len(),
                all.len() < usize::MAX / 2,
                list@ == all.take(taken as int),
                values@ == all.skip(taken as int),
                list.spec_capacity() <= 2 * list@.len() + 4,
            decreases values@.len(),
        {
            let ghost before = values@;
            let value = values.remove(0);
            proof {
                assert(value == all[taken as int]);
                assert(values@ =~= all.skip(taken as int + 1));
            }
            list.push(value);
            taken = taken + 1;
            proof {
                assert(list@ =~= all.take(taken as int));
            }
        }
        proof {
            assert(all.take(taken as int) =~= all);
        }
        list
    }

    /// Append a value, doubling the capacity when the list is full.
    pub fn push(&mut self, value: T)
        requires
            old(self).wf(),
            old(self)@.len() == old(self).spec_capacity() ==> old(self).spec_capacity()
                <= usize::MAX / 2,
        ensures
            final(self).wf(),
            final(self)@ == old(self)@.push(value),
            final(self).spec_capacity() == old(self).grown_capacity(),
    {
        if self.items.len() >= self.capacity {
            self.grow();
        }
        self.items.push(value);
    }

    /// Remove and return the last value, if any.
    pub fn pop(&mut self) -> (popped: Option<T>)
        requires
            old(self).wf(),
        ensures
            final(self).wf(),
            final(self).spec_capacity() == old(self).spec_capacity(),
            match popped {
                Some(value) => old(self)@.len() > 0 && value == old(self)@.last() && final(self)@
                    == old(self)@.drop_last(),
                None => old(self)@.len() == 0 && final(self)@ == old(self)@,
            },
    {
        if self.items.len() == 0 {
            return None;
        }
        self.items.pop()
    }

    /// Insert a value at `index`, shifting the rest one place towards the
    /// end and doubling the capacity when the list is full.
    pub fn insert(&mut self, index: usize, value: T)
        requires
            old(self).wf(),
            index <= old(self)@.len(),
            old(self)@.len() == old(self).spec_capacity() ==> old(self).spec_capacity()
                <= usize::MAX / 2,
        ensures
            final(self).wf(),
            final(self)@ == old(self)@.insert(index as int, value),
            final(self).spec_capacity() == old(self).grown_capacity(),
    {
        if self.items.len() >= self.capacity {
            self.grow();
        }
        self.items.insert(index, value);
    }

    /// Remove and return the value at `index`, shifting the rest one place
    /// towards the front.
    pub fn remove(&mut self, index: usize) -> (removed: T)
        requires
            old(self).wf(),
            index < old(self)@.len(),
        ensures
            final(self).wf(),
            final(self).spec_capacity() == old(self).spec_capacity(),
            removed == old(self)@[index as int],
            final(self)@ == old(self)@.remove(index as int),
    {
        self.items.remove(index)
    }

    pub fn get(&self, index: usize) -> (element: Option<&T>)
        ensures
            match element {
                Some(value) => index < self@.len() && *value == self@[index as int],
                None => index >= self@.len(),
            },
    {
        if index >= self.items.len() {
            return None;
        }
        Some(&self.items[index])
    }

    pub fn get_mut(&mut self, index: usize) -> (element: Option<&mut T>)
        ensures
            match element {
                Some(value) => {
                    &&& index < old(self)@.len()
                    &&& *value == old(self)@[index as int]
                    &&& final(self)@ == old(self)@.update(index as int, *final(value))
                    &&& final(self).spec_capacity() == old(self).spec_capacity()
                },
                None => index >= old(self)@.len() && *final(self) == *old(self),
            },
    {
        if index >= self.items.len() {
            return None;
        }
        Some(&mut self.items[index])
    }

    pub fn capacity(&self) -> (capacity: usize)
        ensures
            capacity == self.spec_capacity(),
    {
        self.capacity
    }

    pub fn len(&self) -> (length: usize)
        ensures
            length == self@.len(),
    {
        self.items.len()
    }

    pub fn is_empty(&self) -> (empty: bool)
        ensures
            empty == (self@.len() == 0),
    {
        self.items.len() == 0
    }

    /// Drop every stored value; the capacity is kept.
    pub fn clear(&mut self)
        requires
            old(self).wf(),
        ensures
            final(self).wf(),
            final(self)@ == Seq::<T>::empty(),
            final(self).spec_capacity() == old(self).spec_capacity(),
    {
        self.items.clear();
    }

    pub fn as_slice(&self) -> (slice: &[T])
        ensures
            slice@ == self@,
    {
        self.items.as_slice()
    }

    fn grow(&mut self)
        requires
            old(self).spec_capacity() <= usize::MAX / 2,
        ensures
            final(self)@ == old(self)@,
            final(self).spec_capacity() == (if old(self).spec_capacity() == 0 {
                INITIAL_CAPACITY as nat
            } else {
                old(self).spec_capacity() * 2
            }),
    {
        if self.capacity == 0 {
            self.capacity = INITIAL_CAPACITY;
        } else {
            self.capacity = self.capacity * 2;
        }
        self.items.reserve(self.capacity);
    }
}

} // verus!
