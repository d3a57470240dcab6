//! Walking a slab in recency order, from either end.

use vstd::prelude::*;
use crate::links::{first_link, last_link, live_node, recency_linked, Slot};

verus! {

/// Iterator over elements of an `LruSlab`, from most to least recently used.
pub struct Iter<'a, T> {
    slots: &'a [Slot<T>],
    head: u32,
    tail: u32,
    len: u32,
    /// The recency list of the slab that is being walked.
    order: Ghost<Seq<u32>>,
    /// How many of its handles were already yielded from the front.
    taken: Ghost<nat>,
}

impl<'a, T> View for Iter<'a, T> {
    type V = Seq<T>;

    /// The values still to be yielded, most recently used first.
    closed spec fn view(&self) -> Seq<T> {
        Seq::new(
            self.len as nat,
            |i: int| self.slots@[self.order@[self.taken@ + i] as int].value->0,
        )
    }
}

impl<'a, T> Iter<'a, T> {
    /// The iterator stands on a stretch of a well-linked recency list: `head`
    /// and `tail` are the ends of the stretch and `len` is its length.
    pub closed spec fn wf(&self) -> bool {
        &&& recency_linked(self.slots@, self.order@)
        &&& self.taken@ + self.len <= self.order@.len()
        &&& self.len > 0 ==> self.head == self.order@[self.taken@ as int]
        &&& self.len > 0 ==> self.tail == self.order@[self.taken@ + self.len - 1]
    }

    /// An iterator over the whole of a recency list.
    pub(crate) fn over(
        slots: &'a [Slot<T>],
        head: u32,
        tail: u32,
        len: u32,
        Ghost(order): Ghost<Seq<u32>>,
    ) -> (it: Self)
        requires
            recency_linked(slots@, order),
            len == order.len(),
            head == first_link(order),
            tail == last_link(order),
        ensures
            it.wf(),
            it@ == Seq::new(order.len(), |i: int| slots@[order[i] as int].value->0),
    {
        Iter { slots, head, tail, len, order: Ghost(order), taken: Ghost(0) }
    }

    /// Yield the most recently used of the remaining elements.
    pub fn next(&mut self) -> (item: Option<&'a T>)
        requires
            old(self).wf(),
        ensures
            final(self).wf(),
            match item {
                None => old(self)@.len() == 0 && final(self)@ == old(self)@,
                Some(value) => {
                    &&& old(self)@.len() > 0
                    &&& *value == old(self)@.first()
                    &&& final(self)@ == old(self)@.drop_first()
                },
            },
    {
        if self.len == 0 {
            return None;
        }
        proof {
            assert(live_node(self.slots@, self.order@, self.taken@ as int));
        }
        let idx = self.head as usize;
        let result = self.slots[idx].value.as_ref().expect("corrupt LRU list");
        self.head = self.slots[idx].next;
        self.len -= 1;
        proof {
            self.taken = Ghost(self.taken@ + 1);
        }
        Some(result)
    }

    /// Yield the least recently used of the remaining elements.
    pub fn next_back(&mut self) -> (item: Option<&'a T>)
        requires
            old(self).wf(),
        ensures
            final(self).wf(),
            match item {
                None => old(self)@.len() == 0 && final(self)@ == old(self)@,
                Some(value) => {
                    &&& old(self)@.len() > 0
                    &&& *value == old(self)@.last()
                    &&& final(self)@ == old(self)@.drop_last()
                },
            },
    {
        if self.len == 0 {
            return None;
        }
        proof {
            assert(live_node(self.slots@, self.order@, self.taken@ + self.len - 1));
        }
        let idx = self.tail as usize;
        let result = self.slots[idx].value.as_ref().expect("corrupt LRU list");
        self.tail = self.slots[idx].prev;
        self.len -= 1;
        Some(result)
    }

    /// Bounds on the number of remaining elements: both are that number.
    pub fn size_hint(&self) -> (hint: (usize, Option<usize>))
        ensures
            hint.0 == self@.len(),
            hint.1 == Some(hint.0),
    {
        (self.len as usize, Some(self.len as usize))
    }

    /// Number of remaining elements.
    pub fn len(&self) -> (n: usize)
        ensures
            n == self@.len(),
    {
        self.len as usize
    }
}

} // verus!
