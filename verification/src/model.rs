//! The mathematical model of a slab: which handles are live, in what recency
//! order, what they hold, and which handles will be given out next. The
//! operations of `LruSlab` are specified as the steps defined here.

use vstd::prelude::*;

verus! {

/// Link value reserved to mean "no slot". No handle ever equals it.
pub const NONE: u32 = u32::MAX;

/// Abstract state of a slab.
#[verifier::ext_equal]
pub struct SlabModel<T> {
    /// The live handles, most recently used first.
    pub order: Seq<u32>,
    /// The value stored under each live handle.
    pub values: Map<u32, T>,
    /// The unused handles, in the order in which insertions will take them.
    pub spare: Seq<u32>,
}

impl<T> SlabModel<T> {
    /// A slab of `capacity` unused slots, to be handed out in index order.
    pub open spec fn empty(capacity: nat) -> Self {
        SlabModel {
            order: Seq::empty(),
            values: Map::empty(),
            spare: Seq::new(capacity, |i: int| i as u32),
        }
    }

    /// Number of live handles.
    pub open spec fn len(self) -> nat {
        self.order.len()
    }

    /// Number of slots, live and unused together.
    pub open spec fn capacity(self) -> nat {
        self.order.len() + self.spare.len()
    }

    /// Whether `handle` denotes a stored value.
    pub open spec fn contains(self, handle: u32) -> bool {
        self.order.contains(handle)
    }

    /// The stored values, most recently used first.
    pub open spec fn contents(self) -> Seq<T> {
        Seq::new(self.order.len(), |i: int| self.values[self.order[i]])
    }

    /// The least recently used handle, if any value is stored.
    pub open spec fn lru(self) -> Option<u32> {
        if self.order.len() == 0 {
            None
        } else {
            Some(self.order.last())
        }
    }

    /// Consistency of the three components: no handle occurs twice, be it
    /// among the live ones, among the unused ones, or once in each; every
    /// handle is a slot index below the capacity; the live handles are exactly
    /// the keys of `values`; and the capacity stays below the reserved link
    /// value.
    pub open spec fn wf(self) -> bool {
        &&& self.capacity() < NONE
        &&& self.order.no_duplicates()
        &&& self.spare.no_duplicates()
        &&& self.order.disjoint(self.spare)
        &&& forall|i: int|
            0 <= i < self.order.len() ==> (#[trigger] self.order[i]) < self.capacity()
        &&& forall|i: int|
            0 <= i < self.spare.len() ==> (#[trigger] self.spare[i]) < self.capacity()
        &&& forall|h: u32| #[trigger] self.values.dom().contains(h) <==> self.order.contains(h)
    }

    /// Capacity after growing a full slab of `capacity` slots: twice as many,
    /// and at least two.
    pub open spec fn grown(capacity: nat) -> nat {
        if capacity == 0 {
            2
        } else {
            2 * capacity
        }
    }

    /// Whether an insertion can be served: a slot is unused, or the slab can
    /// grow without its capacity reaching the reserved link value.
    pub open spec fn can_insert(self) -> bool {
        self.spare.len() > 0 || Self::grown(self.capacity()) < NONE
    }

    /// The handle that the next insertion returns: the first unused one, or the
    /// first of the slots that growth appends.
    pub open spec fn next_handle(self) -> u32 {
        if self.spare.len() > 0 {
            self.spare[0]
        } else {
            self.capacity() as u32
        }
    }

    /// The unused handles left after the next insertion.
    pub open spec fn spare_after_insert(self) -> Seq<u32> {
        if self.spare.len() > 0 {
            self.spare.drop_first()
        } else {
            let old_cap = self.capacity();
            Seq::new(
                (Self::grown(old_cap) - old_cap - 1) as nat,
                |i: int| (old_cap + 1 + i) as u32,
            )
        }
    }

    /// State after inserting `value`: it is stored under `next_handle()`, which
    /// becomes the most recently used.
    pub open spec fn insert(self, value: T) -> Self {
        let handle = self.next_handle();
        SlabModel {
            order: seq![handle] + self.order,
            values: self.values.insert(handle, value),
            spare: self.spare_after_insert(),
        }
    }

    /// The recency order with `handle` taken out and all others left in place.
    pub open spec fn order_without(self, handle: u32) -> Seq<u32> {
        self.order.remove(self.order.index_of(handle))
    }

    /// State after removing the live `handle`: it becomes the first to be reused.
    pub open spec fn remove(self, handle: u32) -> Self {
        SlabModel {
            order: self.order_without(handle),
            values: self.values.remove(handle),
            spare: seq![handle] + self.spare,
        }
    }

    /// State after marking the live `handle` as most recently used.
    pub open spec fn touch(self, handle: u32) -> Self {
        SlabModel { order: seq![handle] + self.order_without(handle), ..self }
    }

    /// State after overwriting the value under the live `handle`.
    pub open spec fn set(self, handle: u32, value: T) -> Self {
        SlabModel { values: self.values.insert(handle, value), ..self }
    }
}

} // verus!
