use vstd::prelude::*;

verus! {

/// A singly linked list of owned nodes, viewed as the sequence it holds
/// from front to back.
pub struct SinglyLinkedList<T> {
    head: Option<Box<Node<T>>>,
    len: usize,
}

struct Node<T> {
    value: T,
    next: Option<Box<Node<T>>>,
}

spec fn seq_of<T>(n: Option<Box<Node<T>>>) -> Seq<T>
    decreases n,
{
    match n {
        None => Seq::empty(),
        Some(node) => seq![node.value] + seq_of(node.next),
    }
}

/// Place `value` in front of the `index`th node of an owned chain.
fn insert_at<T>(n: Option<Box<Node<T>>>, value: T, index: usize) -> (r: Option<Box<Node<T>>>)
    requires
        index <= seq_of(n).len(),
    ensures
        seq_of(r) == seq_of(n).insert(index as int, value),
    decreases n,
{
    if index == 0 {
        let node = Box::new(Node { value, next: n });
        proof {
            assert(seq_of(Some(node)) =~= seq_of(n).insert(0, value));
        }
        Some(node)
    } else {
        let mut node = n.unwrap();
        let ghost tail = node.next;
        let rest = insert_at(node.next.take(), value, index - 1);
        node.next = rest;
        proof {
            assert(seq_of(Some(node)) =~= (seq![node.value] + seq_of(tail)).insert(
                index as int,
                value,
            ));
        }
        Some(node)
    }
}

/// Append `value` at the back of an owned chain.
fn append_node<T>(n: Option<Box<Node<T>>>, value: T) -> (r: Option<Box<Node<T>>>)
    ensures
        seq_of(r) == seq_of(n).push(value),
    decreases n,
{
    match n {
        None => {
            let node = Box::new(Node { value, next: None });
            proof {
                assert(seq_of(Some(node)) =~= seq_of(n).push(value));
            }
            Some(node)
        },
        Some(mut node) => {
            let ghost tail = node.next;
            let rest = append_node(node.next.take(), value);
            node.next = rest;
            proof {
                assert(seq_of(Some(node)) =~= (seq![node.value] + seq_of(tail)).push(value));
            }
            Some(node)
        },
    }
}

/// Detach the `index`th node of an owned chain.
fn remove_at<T>(n: Option<Box<Node<T>>>, index: usize) -> (r: (Option<Box<Node<T>>>, T))
    requires
        index < seq_of(n).len(),
    ensures
        r.1 == seq_of(n)[index as int],
        seq_of(r.0) == seq_of(n).remove(index as int),
    decreases n,
{
    let mut node = n.unwrap();
    let ghost tail = node.next;
    if index == 0 {
        let b = *node;
        proof {
            assert(seq_of(b.next) =~= seq_of(n).remove(0));
        }
        (b.next, b.value)
    } else {
        let (rest, removed) = remove_at(node.next.take(), index - 1);
        node.next = rest;
        proof {
            assert(seq_of(Some(node)) =~= (seq![node.value] + seq_of(tail)).remove(index as int));
        }
        (Some(node), removed)
    }
}

/// Detach the last node of a non-empty owned chain.
fn detach_back<T>(mut n: Box<Node<T>>) -> (r: (Option<Box<Node<T>>>, T))
    ensures
        seq_of(Some(n)).len() > 0,
        r.1 == seq_of(Some(n)).last(),
        seq_of(r.0) == seq_of(Some(n)).drop_last(),
    decreases n,
{
    if n.next.is_none() {
        let node = *n;
        proof {
            assert(seq_of(node.next) =~= Seq::<T>::empty());
            assert(seq_of(None::<Box<Node<T>>>) =~= seq_of(Some(n)).drop_last());
        }
        (None, node.value)
    } else {
        let ghost whole = n;
        let (rest, last) = detach_back(n.next.take().unwrap());
        n.next = rest;
        proof {
            assert(seq_of(Some(n)) =~= seq_of(Some(whole)).drop_last());
        }
        (Some(n), last)
    }
}

/// Reference to the value of the `index`th node of a chain.
fn get_at<'a, T>(n: &'a Option<Box<Node<T>>>, index: usize) -> (r: Option<&'a T>)
    ensures
        match r {
            Some(value) => index < seq_of(*n).len() && *value == seq_of(*n)[index as int],
            None => index >= seq_of(*n).len(),
        },
    decreases n,
{
    match n {
        None => None,
        Some(node) => {
            if index == 0 {
                Some(&node.value)
            } else {
                get_at(&node.next, index - 1)
            }
        },
    }
}

/// Mutable reference to the value of the `index`th node of a chain.
fn get_mut_at<'a, T>(n: &'a mut Option<Box<Node<T>>>, index: usize) -> (r: Option<&'a mut T>)
    ensures
        match r {
            Some(value) => {
                &&& index < seq_of(*old(n)).len()
                &&& *value == seq_of(*old(n))[index as int]
                &&& seq_of(*final(n)) == seq_of(*old(n)).update(index as int, *final(value))
            },
            None => index >= seq_of(*old(n)).len() && *final(n) == *old(n),
        },
    decreases *old(n),
{
    match n {
        None => None,
        Some(node) => {
            if index == 0 {
                Some(&mut node.value)
            } else {
                get_mut_at(&mut node.next, index - 1)
            }
        },
    }
}

/// Move the values of an owned chain onto the back of `out`.
fn collect_into<T>(n: Option<Box<Node<T>>>, out: &mut Vec<T>)
    ensures
        final(out)@ == old(out)@ + seq_of(n),
    decreases n,
{
    match n {
        None => {
            proof {
                assert(out@ =~= out@ + seq_of(n));
            }
        },
        Some(node) => {
            let ghost prefix = out@;
            let b = *node;
            out.push(b.value);
            collect_into(b.next, out);
            proof {
                assert(out@ =~= prefix + seq_of(n));
            }
        },
    }
}

impl<T> SinglyLinkedList<T> {
    /// The length counter matches the stored chain.
    pub closed spec fn wf(self) -> bool {
        self.len == seq_of(self.head).len()
    }

    pub fn new() -> (list: Self)
        ensures
            list.wf(),
            list@ == Seq::<T>::empty(),
    {
        SinglyLinkedList { head: None, len: 0 }
    }

    pub fn from_iter(values: Vec<T>) -> (list: Self)
        ensures
            list.wf(),
            list@ == values@,
    {
        let mut values = values;
        let mut list = SinglyLinkedList::new();
        let ghost all = values@;
        let total = values.len();
        while values.len() > 0
            invariant
                list.wf(),
                all == list@ + values@,
                list@.len() + values@.len() == total,
            decreases values@.len(),
        {
            let ghost before = values@;
            let value = values.remove(0);
            proof {
                assert(values@ =~= before.drop_first());
            }
            list.push_back(value);
            proof {
                assert(all =~= list@ + values@);
            }
        }
        proof {
            assert(list@ =~= all);
        }
        list
    }

    /// Insert `value` so that it becomes the `index`th element.
    pub fn insert(&mut self, value: T, index: usize)
        requires
            old(self).wf(),
            index <= old(self)@.len(),
            old(self)@.len() < usize::MAX,
        ensures
            final(self).wf(),
            final(self)@ == old(self)@.insert(index as int, value),
    {
        let head = self.head.take();
        self.head = insert_at(head, value, index);
        self.len = self.len + 1;
    }

    pub fn push_front(&mut self, value: T)
        requires
            old(self).wf(),
            old(self)@.len() < usize::MAX,
        ensures
            final(self).wf(),
            final(self)@ == seq![value] + old(self)@,
    {
        let head = self.head.take();
        let node = Box::new(Node { value, next: head });
        self.head = Some(node);
        self.len = self.len + 1;
    }

    pub fn push_back(&mut self, value: T)
        requires
            old(self).wf(),
            old(self)@.len() < usize::MAX,
        ensures
            final(self).wf(),
            final(self)@ == old(self)@.push(value),
    {
        let head = self.head.take();
        self.head = append_node(head, value);
        self.len = self.len + 1;
    }

    pub fn pop_front(&mut self) -> (popped: Option<T>)
        requires
            old(self).wf(),
        ensures
            final(self).wf(),
            match popped {
                Some(value) => old(self)@.len() > 0 && value == old(self)@[0] && final(self)@
                    == old(self)@.drop_first(),
                None => old(self)@.len() == 0 && final(self)@ == old(self)@,
            },
    {
        match self.head.take() {
            None => None,
            Some(node) => {
                let b = *node;
                self.head = b.next;
                self.len = self.len - 1;
                Some(b.value)
            },
        }
    }

    /// Remove and return the last element, if any.
    pub fn pop_back(&mut self) -> (popped: Option<T>)
        requires
            old(self).wf(),
        ensures
            final(self).wf(),
            match popped {
                Some(value) => old(self)@.len() > 0 && value == old(self)@.last() && final(self)@
                    == old(self)@.drop_last(),
                None => old(self)@.len() == 0 && final(self)@ == old(self)@,
            },
    {
        match self.head.take() {
            None => None,
            Some(node) => {
                let (rest, last) = detach_back(node);
                self.head = rest;
                self.len = self.len - 1;
                Some(last)
            },
        }
    }

    pub fn get(&self, index: usize) -> (element: Option<&T>)
        ensures
            match element {
                Some(value) => index < self@.len() && *value == self@[index as int],
                None => index >= self@.len(),
            },
    {
        get_at(&self.head, index)
    }

    /// Remove and return the `index`th element, if there is one.
    pub fn remove(&mut self, index: usize) -> (removed: Option<T>)
        requires
            old(self).wf(),
        ensures
            final(self).wf(),
            match removed {
                Some(value) => index < old(self)@.len() && value == old(self)@[index as int]
                    && final(self)@ == old(self)@.remove(index as int),
                None => index >= old(self)@.len() && *final(self) == *old(self),
            },
    {
        if index >= self.len() {
            return None;
        }
        let head = self.head.take();
        let (rest, removed) = remove_at(head, index);
        self.head = rest;
        self.len = self.len - 1;
        Some(removed)
    }

    pub fn get_mut(&mut self, index: usize) -> (element: Option<&mut T>)
        requires
            old(self).wf(),
        ensures
            match element {
                Some(value) => {
                    &&& final(self).wf()
                    &&& index < old(self)@.len()
                    &&& *value == old(self)@[index as int]
                    &&& final(self)@ == old(self)@.update(index as int, *final(value))
                },
                None => index >= old(self)@.len() && *final(self) == *old(self),
            },
    {
        get_mut_at(&mut self.head, index)
    }

    pub fn clear(&mut self)
        ensures
            final(self).wf(),
            final(self)@ == Seq::<T>::empty(),
    {
        self.head = None;
        self.len = 0;
    }

    pub fn len(&self) -> (length: usize)
        requires
            self.wf(),
        ensures
            length == self@.len(),
    {
        self.len
    }

    pub fn front(&self) -> (element: Option<&T>)
        ensures
            match element {
                Some(value) => self@.len() > 0 && *value == self@[0],
                None => self@.len() == 0,
            },
    {
        self.get(0)
    }

    pub fn front_mut(&mut self) -> (element: Option<&mut T>)
        requires
            old(self).wf(),
        ensures
            match element {
                Some(value) => {
                    &&& final(self).wf()
                    &&& old(self)@.len() > 0
                    &&& *value == old(self)@[0]
                    &&& final(self)@ == old(self)@.update(0, *final(value))
                },
                None => old(self)@.len() == 0 && *final(self) == *old(self),
            },
    {
        self.get_mut(0)
    }

    pub fn back(&self) -> (element: Option<&T>)
        requires
            self.wf(),
        ensures
            match element {
                Some(value) => self@.len() > 0 && *value == self@.last(),
                None => self@.len() == 0,
            },
    {
        if self.len() >= 1 {
            self.get(self.len() - 1)
        } else {
            None
        }
    }

    pub fn back_mut(&mut self) -> (element: Option<&mut T>)
        requires
            old(self).wf(),
        ensures
            match element {
                Some(value) => {
                    &&& final(self).wf()
                    &&& old(self)@.len() > 0
                    &&& *value == old(self)@.last()
                    &&& final(self)@ == old(self)@.update(old(self)@.len() - 1, *final(value))
                },
                None => old(self)@.len() == 0 && *final(self) == *old(self),
            },
    {
        if self.len() >= 1 {
            let index = self.len() - 1;
            self.get_mut(index)
        } else {
            None
        }
    }

    pub fn to_vec(self) -> (values: Vec<T>)
        ensures
            values@ == self@,
    {
        let mut values: Vec<T> = Vec::new();
        collect_into(self.head, &mut values);
        proof {
            assert(values@ =~= seq_of(self.head));
        }
        values
    }
}

impl<T> View for SinglyLinkedList<T> {
    type V = Seq<T>;

    closed spec fn view(&self) -> Seq<T> {
        seq_of(self.head)
    }
}

fn contains_from(n: &Option<Box<Node<i64>>>, value: i64) -> (found: bool)
    ensures
        found == seq_of(*n).contains(value),
    decreases n,
{
    match n {
        None => {
            proof {
                assert(!seq_of(*n).contains(value));
            }
            false
        },
        Some(node) => {
            if node.value == value {
                proof {
                    assert(seq_of(*n)[0] == value);
                }
                true
            } else {
                let found = contains_from(&node.next, value);
                proof {
                    if found {
                        let i = choose|i: int|
                            0 <= i < seq_of(node.next).len() && seq_of(node.next)[i] == value;
                        assert(seq_of(*n)[i + 1] == value);
                    } else {
                        if seq_of(*n).contains(value) {
                            let i = choose|i: int|
                                0 <= i < seq_of(*n).len() && seq_of(*n)[i] == value;
                            assert(i != 0);
                            assert(seq_of(node.next)[i - 1] == value);
                        }
                    }
                }
                found
            }
        },
    }
}

impl SinglyLinkedList<i64> {
    /// Whether some element equals `value`.
    pub fn contains(&self, value: i64) -> (found: bool)
        ensures
            found == self@.contains(value),
    {
        contains_from(&self.head, value)
    }
}

} // verus!
