//! The slab itself: slot storage, the free list, the recency list and growth.

use vstd::prelude::*;
use crate::iter::Iter;
use crate::links::{
    first_link, free_linked, free_node, last_link, lemma_contains_front, lemma_contains_remove,
    lemma_fill, lemma_free_frame, lemma_free_pop, lemma_free_push, lemma_link_front,
    lemma_lists_disjoint, lemma_recency_frame, lemma_refill, lemma_unlink, live_node,
    recency_linked, refilled, Slot,
};
use crate::model::{SlabModel, NONE};

verus! {

/// A random-access table that maintains an LRU list in constant time.
pub struct LruSlab<T> {
    slots: Vec<Slot<T>>,
    /// Most recently used
    head: u32,
    /// Least recently used
    tail: u32,
    /// First unused
    free: u32,
    /// Number of occupied slots
    len: u32,
    /// The recency list as a sequence of handles, most recently used first.
    order: Ghost<Seq<u32>>,
    /// The free list as a sequence of handles, next to be handed out first.
    spare: Ghost<Seq<u32>>,
}

impl<T> View for LruSlab<T> {
    type V = SlabModel<T>;

    /// The handles in recency order, the value in each occupied slot, and the
    /// handles on the free list.
    closed spec fn view(&self) -> SlabModel<T> {
        SlabModel {
            order: self.order@,
            values: Map::new(
                |h: u32| self.order@.contains(h),
                |h: u32| self.slots@[h as int].value->0,
            ),
            spare: self.spare@,
        }
    }
}

impl<T> LruSlab<T> {
    /// The two lists are threaded through the slots as the ghost sequences say,
    /// and `head`, `tail` and `free` are their ends.
    spec fn linked(&self) -> bool {
        &&& self.slots@.len() < NONE
        &&& recency_linked(self.slots@, self.order@)
        &&& free_linked(self.slots@, self.spare@)
        &&& self.head == first_link(self.order@)
        &&& self.tail == last_link(self.order@)
        &&& self.free == first_link(self.spare@)
    }

    /// The representation invariant: both lists are well linked, together they
    /// account for every slot, and `len` counts the occupied ones.
    pub closed spec fn wf(&self) -> bool {
        &&& self.linked()
        &&& self.len == self.order@.len()
        &&& self.order@.len() + self.spare@.len() == self.slots@.len()
    }

    /// A well-formed slab has a well-formed model.
    pub proof fn lemma_view_wf(&self)
        requires
            self.wf(),
        ensures
            self@.wf(),
    {
        lemma_lists_disjoint(self.slots@, self.order@, self.spare@);
        assert forall|i: int| 0 <= i < self.order@.len() implies (#[trigger] self.order@[i])
            < self@.capacity() by {
            assert(live_node(self.slots@, self.order@, i));
        }
        assert forall|i: int| 0 <= i < self.spare@.len() implies (#[trigger] self.spare@[i])
            < self@.capacity() by {
            assert(free_node(self.slots@, self.spare@, i));
        }
    }

    /// Create an empty [`LruSlab`]
    pub fn new() -> (s: Self)
        ensures
            s.wf(),
            s@ == SlabModel::<T>::empty(0),
    {
        Self::with_capacity(0)
    }

    /// Create an [`LruSlab`] that can store at least `capacity` elements without reallocating
    pub fn with_capacity(capacity: u32) -> (s: Self)
        requires
            capacity != NONE,
        ensures
            s.wf(),
            s@ == SlabModel::<T>::empty(capacity as nat),
    {
        let mut slots: Vec<Slot<T>> = Vec::with_capacity(capacity as usize);
        push_free_chain(&mut slots, capacity);
        LruSlab {
            slots,
            head: NONE,
            tail: NONE,
            free: if capacity == 0 { NONE } else { 0 },
            len: 0,
            order: Ghost(Seq::empty()),
            spare: Ghost(Seq::new(capacity as nat, |i: int| i as u32)),
        }
    }

    /// Whether no elements are stored
    pub fn is_empty(&self) -> (b: bool)
        requires
            self.wf(),
        ensures
            b == (self@.len() == 0),
    {
        self.len == 0
    }

    /// Number of elements stored
    pub fn len(&self) -> (n: u32)
        requires
            self.wf(),
        ensures
            n == self@.len(),
    {
        self.len
    }

    /// Number of elements that can be stored without reallocating
    pub fn capacity(&self) -> (c: u32)
        requires
            self.wf(),
        ensures
            c == self@.capacity(),
    {
        self.slots.len() as u32
    }

    /// Insert a value, returning the slot it was stored in
    ///
    /// The returned slot is marked as the most recently used.
    pub fn insert(&mut self, value: T) -> (id: u32)
        requires
            old(self).wf(),
            old(self)@.can_insert(),
        ensures
            final(self).wf(),
            id == old(self)@.next_handle(),
            final(self)@ == old(self)@.insert(value),
    {
        let id = match self.allocate() {
            Some(id) => id,
            None => {
                let len: u32 = self.capacity();
                let cap: u32 = if len == 0 { 2 } else { 2 * len };
                self.slots.reserve((cap - len) as usize);
                push_free_chain(&mut self.slots, cap);
                self.free = if len + 1 == cap { NONE } else { len + 1 };
                proof {
                    lemma_recency_frame(old(self).slots@, self.slots@, self.order@);
                    self.spare = Ghost(old(self)@.spare_after_insert());
                }
                len
            },
        };
        let idx = id as usize;
        proof {
            lemma_lists_disjoint(old(self).slots@, old(self).order@, old(self).spare@);
            if old(self).spare@.len() > 0 {
                assert(free_node(old(self).slots@, old(self).spare@, 0));
            }
        }
        let ghost mid = self.slots@;
        self.slots[idx].value = Some(value);
        proof {
            lemma_fill(mid, self.slots@, self.order@, self.spare@, id);
        }
        self.link_at_head(id);
        self.len += 1;
        proof {
            lemma_contains_front(old(self).order@, id);
        }
        id
    }

    /// Get the least recently used slot, if any
    pub fn lru(&self) -> (slot: Option<u32>)
        requires
            self.wf(),
        ensures
            slot == self@.lru(),
    {
        proof {
            if self.order@.len() > 0 {
                assert(live_node(self.slots@, self.order@, self.order@.len() - 1));
            }
        }
        if self.tail == NONE {
            assert(self.head == NONE);
            None
        } else {
            Some(self.tail)
        }
    }

    /// Remove the element stored in `slot`, returning it
    pub fn remove(&mut self, slot: u32) -> (value: T)
        requires
            old(self).wf(),
            old(self)@.contains(slot),
        ensures
            final(self).wf(),
            value == old(self)@.values[slot],
            final(self)@ == old(self)@.remove(slot),
    {
        let ghost k = self.order@.index_of(slot);
        proof {
            lemma_lists_disjoint(self.slots@, self.order@, self.spare@);
        }
        self.unlink(slot);
        let ghost mid = self.slots@;
        self.slots[slot as usize].next = self.free;
        self.slots[slot as usize].prev = NONE;
        self.free = slot;
        self.len -= 1;
        let value = self.slots[slot as usize].value.take().expect("removing empty slot");
        proof {
            lemma_fill(mid, self.slots@, self.order@, self.spare@, slot);
            lemma_free_push(mid, self.slots@, self.spare@, slot);
            self.spare = Ghost(seq![slot] + self.spare@);
            lemma_contains_remove(old(self).order@, k);
        }
        value
    }

    /// Mark `slot` as the most recently used and access it uniquely
    pub fn get_mut(&mut self, slot: u32) -> (value: &mut T)
        requires
            old(self).wf(),
            old(self)@.contains(slot),
        ensures
            *value == old(self)@.values[slot],
            final(self).wf(),
            final(self)@ == old(self)@.touch(slot).set(slot, *final(value)),
    {
        self.freshen(slot);
        proof {
            lemma_contains_front(old(self)@.order_without(slot), slot);
        }
        self.peek_mut(slot)
    }

    /// Access `slot` without marking it as most recently used
    pub fn peek(&self, slot: u32) -> (value: &T)
        requires
            self.wf(),
            self@.contains(slot),
        ensures
            *value == self@.values[slot],
    {
        proof {
            lemma_lists_disjoint(self.slots@, self.order@, self.spare@);
        }
        self.slots[slot as usize].value.as_ref().unwrap()
    }

    /// Access `slot` uniquely without marking it as most recently used
    pub fn peek_mut(&mut self, slot: u32) -> (value: &mut T)
        requires
            old(self).wf(),
            old(self)@.contains(slot),
        ensures
            *value == old(self)@.values[slot],
            final(self).wf(),
            final(self)@ == old(self)@.set(slot, *final(value)),
    {
        proof {
            lemma_lists_disjoint(self.slots@, self.order@, self.spare@);
            let before = self.slots@;
            let order = self.order@;
            let spare = self.spare@;
            assert forall|after: Seq<Slot<T>>| #[trigger]
                refilled(before, after, slot) implies recency_linked(after, order) && free_linked(
                after,
                spare,
            ) by {
                lemma_refill(before, after, order, spare, slot);
            }
        }
        slot_value_mut(&mut self.slots, slot)
    }

    /// Walk the container from most to least recently used
    pub fn iter(&self) -> (it: Iter<'_, T>)
        requires
            self.wf(),
        ensures
            it.wf(),
            it@ == self@.contents(),
    {
        proof {
            lemma_lists_disjoint(self.slots@, self.order@, self.spare@);
        }
        Iter::over(self.slots.as_slice(), self.head, self.tail, self.len, Ghost(self.order@))
    }

    /// Both slabs have the same number of slots, holding the same values.
    spec fn same_values(&self, other: &Self) -> bool {
        &&& self.slots@.len() == other.slots@.len()
        &&& forall|j: int|
            0 <= j < self.slots@.len() ==> (#[trigger] self.slots@[j]).value
                == other.slots@[j].value
    }

    /// Remove a slot from the freelist
    fn allocate(&mut self) -> (r: Option<u32>)
        requires
            old(self).linked(),
        ensures
            final(self).linked(),
            final(self).slots == old(self).slots,
            final(self).order == old(self).order,
            final(self).len == old(self).len,
            match r {
                None => old(self).spare@.len() == 0 && final(self).spare == old(self).spare,
                Some(id) => {
                    &&& old(self).spare@.len() > 0
                    &&& id == old(self).spare@[0]
                    &&& final(self).spare@ == old(self).spare@.drop_first()
                    &&& !final(self).spare@.contains(id)
                },
            },
    {
        if self.free == NONE {
            proof {
                if self.spare@.len() > 0 {
                    assert(free_node(self.slots@, self.spare@, 0));
                }
            }
            return None;
        }
        let slot = self.free;
        proof {
            assert(free_node(self.slots@, self.spare@, 0));
            lemma_free_pop(self.slots@, self.spare@);
        }
        self.free = self.slots[slot as usize].next;
        proof {
            self.spare = Ghost(self.spare@.drop_first());
        }
        Some(slot)
    }

    /// Mark `slot` as the most recently used
    fn freshen(&mut self, slot: u32)
        requires
            old(self).wf(),
            old(self).order@.contains(slot),
        ensures
            final(self).wf(),
            final(self)@ == old(self)@.touch(slot),
    {
        let ghost k = self.order@.index_of(slot);
        proof {
            assert(live_node(self.slots@, self.order@, k));
        }
        if self.slots[slot as usize].prev == NONE {
            // This is already the freshest slot, so we don't need to do anything
            proof {
                if k > 0 {
                    assert(live_node(self.slots@, self.order@, k - 1));
                }
            }
            return;
        }
        self.unlink(slot);
        self.link_at_head(slot);
        proof {
            lemma_contains_remove(old(self).order@, k);
            lemma_contains_front(old(self).order@.remove(k), slot);
            lemma_lists_disjoint(old(self).slots@, old(self).order@, old(self).spare@);
        }
    }

    /// Add a link to the head of the list
    fn link_at_head(&mut self, slot: u32)
        requires
            old(self).linked(),
            slot < old(self).slots@.len(),
            old(self).slots@[slot as int].value is Some,
            !old(self).order@.contains(slot),
        ensures
            final(self).linked(),
            final(self).order@ == seq![slot] + old(self).order@,
            final(self).spare == old(self).spare,
            final(self).len == old(self).len,
            final(self).same_values(old(self)),
    {
        let idx = slot as usize;
        proof {
            if self.order@.len() > 0 {
                assert(live_node(self.slots@, self.order@, 0));
            }
        }
        if self.head == NONE {
            // List was empty
            self.slots[idx].next = NONE;
            self.tail = slot;
        } else {
            self.slots[idx].next = self.head;
            let first = self.head as usize;
            self.slots[first].prev = slot;
        }
        self.slots[idx].prev = NONE;
        self.head = slot;
        proof {
            lemma_link_front(old(self).slots@, self.slots@, self.order@, slot);
            lemma_free_frame(old(self).slots@, self.slots@, self.spare@);
            self.order = Ghost(seq![slot] + self.order@);
        }
    }

    /// Remove a link from anywhere in the list
    fn unlink(&mut self, slot: u32)
        requires
            old(self).linked(),
            old(self).order@.contains(slot),
        ensures
            final(self).linked(),
            final(self).order@ == old(self).order@.remove(old(self).order@.index_of(slot)),
            final(self).spare == old(self).spare,
            final(self).len == old(self).len,
            final(self).same_values(old(self)),
            !final(self).order@.contains(slot),
    {
        let idx = slot as usize;
        let ghost k = self.order@.index_of(slot);
        proof {
            assert(live_node(self.slots@, self.order@, k));
            if k > 0 {
                assert(live_node(self.slots@, self.order@, k - 1));
            }
            if k + 1 < self.order@.len() {
                assert(live_node(self.slots@, self.order@, k + 1));
            }
        }
        let prev = self.slots[idx].prev;
        let next = self.slots[idx].next;
        if prev != NONE {
            self.slots[prev as usize].next = next;
        } else {
            self.head = next;
        }
        if next != NONE {
            self.slots[next as usize].prev = prev;
        } else {
            // This was the tail
            self.tail = prev;
        }
        proof {
            lemma_unlink(old(self).slots@, self.slots@, self.order@, k);
            lemma_free_frame(old(self).slots@, self.slots@, self.spare@);
            self.order = Ghost(self.order@.remove(k));
        }
    }
}

impl<T> Default for LruSlab<T> {
    /// Create an empty [`LruSlab`]
    fn default() -> (s: Self)
        ensures
            s.wf(),
            s@ == SlabModel::<T>::empty(0),
    {
        Self::new()
    }
}

impl<T: Clone> Clone for LruSlab<T> {
    /// A slab with the same handles in the same order, each holding a clone of
    /// the value that it holds here.
    fn clone(&self) -> (copy: Self)
        ensures
            self.wf() ==> {
                &&& copy.wf()
                &&& copy@.order == self@.order
                &&& copy@.spare == self@.spare
                &&& forall|h: u32| #[trigger]
                    self@.contains(h) ==> cloned(self@.values[h], copy@.values[h])
            },
    {
        let mut slots: Vec<Slot<T>> = Vec::with_capacity(self.slots.len());
        let mut i: usize = 0;
        while i < self.slots.len()
            invariant
                i <= self.slots@.len(),
                slots@.len() == i,
                forall|j: int|
                    0 <= j < i ==> {
                        &&& (#[trigger] slots@[j]).next == self.slots@[j].next
                        &&& slots@[j].prev == self.slots@[j].prev
                        &&& slots@[j].value is Some <==> self.slots@[j].value is Some
                        &&& slots@[j].value is Some ==> cloned(
                            self.slots@[j].value->0,
                            slots@[j].value->0,
                        )
                    },
            decreases self.slots@.len() - i,
        {
            let slot = &self.slots[i];
            let value = match &slot.value {
                Some(value) => Some(value.clone()),
                None => None,
            };
            slots.push(Slot { value, next: slot.next, prev: slot.prev });
            i += 1;
        }
        let copy = LruSlab {
            slots,
            head: self.head,
            tail: self.tail,
            free: self.free,
            len: self.len,
            order: Ghost(self.order@),
            spare: Ghost(self.spare@),
        };
        proof {
            if self.wf() {
                assert forall|i: int| 0 <= i < self.order@.len() implies #[trigger] live_node(
                    copy.slots@,
                    self.order@,
                    i,
                ) by {
                    assert(live_node(self.slots@, self.order@, i));
                }
                assert forall|i: int| 0 <= i < self.spare@.len() implies #[trigger] free_node(
                    copy.slots@,
                    self.spare@,
                    i,
                ) by {
                    assert(free_node(self.slots@, self.spare@, i));
                }
                lemma_lists_disjoint(self.slots@, self.order@, self.spare@);
            }
        }
        copy
    }
}

/// Append empty slots up to index `end`, each linked to the one after it and
/// the last one to none.
fn push_free_chain<T>(slots: &mut Vec<Slot<T>>, end: u32)
    requires
        old(slots)@.len() <= end < NONE,
    ensures
        final(slots)@.len() == end,
        forall|j: int| 0 <= j < old(slots)@.len() ==> final(slots)@[j] == old(slots)@[j],
        forall|j: int|
            old(slots)@.len() <= j < end ==> {
                &&& (#[trigger] final(slots)@[j]).value is None
                &&& final(slots)@[j].prev == NONE
                &&& final(slots)@[j].next == (if j + 1 == end {
                    NONE
                } else {
                    (j + 1) as u32
                })
            },
{
    let start: usize = slots.len();
    let mut n: u32 = start as u32;
    while n < end
        invariant
            start <= n <= end < NONE,
            start == old(slots)@.len(),
            slots@.len() == n,
            forall|j: int| 0 <= j < start ==> slots@[j] == old(slots)@[j],
            forall|j: int|
                start <= j < n ==> {
                    &&& (#[trigger] slots@[j]).value is None
                    &&& slots@[j].prev == NONE
                    &&& slots@[j].next == (if j + 1 == end {
                        NONE
                    } else {
                        (j + 1) as u32
                    })
                },
        decreases end - n,
    {
        let next: u32 = if n + 1 == end { NONE } else { n + 1 };
        slots.push(Slot { value: None, prev: NONE, next });
        n += 1;
    }
}

/// Exclusive access to the value in an occupied slot.
fn slot_value_mut<T>(slots: &mut Vec<Slot<T>>, slot: u32) -> (value: &mut T)
    requires
        slot < old(slots)@.len(),
        old(slots)@[slot as int].value is Some,
    ensures
        *value == old(slots)@[slot as int].value->0,
        final(slots)@[slot as int].value == Some(*final(value)),
        refilled(old(slots)@, final(slots)@, slot),
{
    slots[slot as usize].value.as_mut().unwrap()
}

} // verus!
