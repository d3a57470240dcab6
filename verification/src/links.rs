//! Slots and the two chains threaded through them: what it means for a
//! sequence of handles to be linked through the slot array, and how the
//! constant-time link updates change that sequence.

use vstd::prelude::*;
use crate::model::NONE;

verus! {

/// One cell of the backing array.
pub(crate) struct Slot<T> {
    /// The stored value; present exactly while the slot is occupied.
    pub(crate) value: Option<T>,
    /// Next slot in the recency list, or next unused slot while free.
    pub(crate) next: u32,
    /// Previous slot in the recency list; `NONE` while free.
    pub(crate) prev: u32,
}

/// The element that follows position `i` of a chain, as a link value.
pub(crate) open spec fn link_after(chain: Seq<u32>, i: int) -> u32 {
    if i + 1 < chain.len() {
        chain[i + 1]
    } else {
        NONE
    }
}

/// The element that precedes position `i` of a chain, as a link value.
pub(crate) open spec fn link_before(chain: Seq<u32>, i: int) -> u32 {
    if 0 < i {
        chain[i - 1]
    } else {
        NONE
    }
}

/// The first element of a chain as a link value.
pub(crate) open spec fn first_link(chain: Seq<u32>) -> u32 {
    if chain.len() > 0 {
        chain[0]
    } else {
        NONE
    }
}

/// The last element of a chain as a link value.
pub(crate) open spec fn last_link(chain: Seq<u32>) -> u32 {
    if chain.len() > 0 {
        chain[chain.len() - 1]
    } else {
        NONE
    }
}

/// The slot named at position `i` of `order` is occupied and linked to its
/// neighbours in `order`.
pub(crate) open spec fn live_node<T>(slots: Seq<Slot<T>>, order: Seq<u32>, i: int) -> bool {
    let h = order[i];
    &&& h < slots.len()
    &&& slots[h as int].value is Some
    &&& slots[h as int].next == link_after(order, i)
    &&& slots[h as int].prev == link_before(order, i)
}

/// The slots named by `order` are occupied and doubly linked in that order.
pub(crate) open spec fn recency_linked<T>(slots: Seq<Slot<T>>, order: Seq<u32>) -> bool {
    &&& order.no_duplicates()
    &&& forall|i: int| 0 <= i < order.len() ==> #[trigger] live_node(slots, order, i)
}

/// The slot named at position `i` of `spare` is empty and linked to its
/// successor in `spare`.
pub(crate) open spec fn free_node<T>(slots: Seq<Slot<T>>, spare: Seq<u32>, i: int) -> bool {
    let h = spare[i];
    &&& h < slots.len()
    &&& slots[h as int].value is None
    &&& slots[h as int].next == link_after(spare, i)
    &&& slots[h as int].prev == NONE
}

/// The slots named by `spare` are empty and singly linked in that order.
pub(crate) open spec fn free_linked<T>(slots: Seq<Slot<T>>, spare: Seq<u32>) -> bool {
    &&& spare.no_duplicates()
    &&& forall|i: int| 0 <= i < spare.len() ==> #[trigger] free_node(slots, spare, i)
}

/// An occupied slot is on no free list, an empty one on no recency list.
pub(crate) proof fn lemma_lists_disjoint<T>(
    slots: Seq<Slot<T>>,
    order: Seq<u32>,
    spare: Seq<u32>,
)
    requires
        recency_linked(slots, order),
        free_linked(slots, spare),
    ensures
        order.disjoint(spare),
        forall|h: u32| order.contains(h) ==> h < slots.len() && slots[h as int].value is Some,
        forall|h: u32| spare.contains(h) ==> h < slots.len() && slots[h as int].value is None,
{
    assert forall|i: int, j: int| 0 <= i < order.len() && 0 <= j < spare.len() implies order[i]
        != spare[j] by {
        assert(live_node(slots, order, i));
        assert(free_node(slots, spare, j));
    }
    assert forall|h: u32| order.contains(h) implies h < slots.len()
        && slots[h as int].value is Some by {
        let i = order.index_of(h);
        assert(live_node(slots, order, i));
    }
    assert forall|h: u32| spare.contains(h) implies h < slots.len()
        && slots[h as int].value is None by {
        let i = spare.index_of(h);
        assert(free_node(slots, spare, i));
    }
}

/// Changes that leave the links of the listed slots alone, and their values
/// present, leave the recency list as it was. The array may have grown.
pub(crate) proof fn lemma_recency_frame<T>(
    before: Seq<Slot<T>>,
    after: Seq<Slot<T>>,
    order: Seq<u32>,
)
    requires
        recency_linked(before, order),
        before.len() <= after.len(),
        forall|j: int|
            0 <= j < before.len() && (#[trigger] before[j]).value is Some ==> {
                &&& after[j].value is Some
                &&& after[j].next == before[j].next
                &&& after[j].prev == before[j].prev
            },
    ensures
        recency_linked(after, order),
{
    assert forall|i: int| 0 <= i < order.len() implies #[trigger] live_node(after, order, i) by {
        assert(live_node(before, order, i));
    }
}

/// Changes to occupied slots only leave the free list as it was. The array may
/// have grown.
pub(crate) proof fn lemma_free_frame<T>(
    before: Seq<Slot<T>>,
    after: Seq<Slot<T>>,
    spare: Seq<u32>,
)
    requires
        free_linked(before, spare),
        before.len() <= after.len(),
        forall|j: int|
            0 <= j < before.len() && (#[trigger] before[j]).value is None ==> after[j] == before[j],
    ensures
        free_linked(after, spare),
{
    assert forall|i: int| 0 <= i < spare.len() implies #[trigger] free_node(after, spare, i) by {
        assert(free_node(before, spare, i));
    }
}

/// Taking the first handle off the free list leaves the rest linked.
pub(crate) proof fn lemma_free_pop<T>(slots: Seq<Slot<T>>, spare: Seq<u32>)
    requires
        free_linked(slots, spare),
        spare.len() > 0,
    ensures
        free_linked(slots, spare.drop_first()),
        !spare.drop_first().contains(spare[0]),
        slots[spare[0] as int].next == first_link(spare.drop_first()),
{
    let rest = spare.drop_first();
    assert forall|i: int| 0 <= i < rest.len() implies #[trigger] free_node(slots, rest, i) by {
        assert(free_node(slots, spare, i + 1));
    }
    assert(free_node(slots, spare, 0));
}

/// Filling a slot that is on neither list leaves both lists as they were.
pub(crate) proof fn lemma_fill<T>(
    before: Seq<Slot<T>>,
    after: Seq<Slot<T>>,
    order: Seq<u32>,
    spare: Seq<u32>,
    slot: u32,
)
    requires
        recency_linked(before, order),
        free_linked(before, spare),
        !order.contains(slot),
        !spare.contains(slot),
        after.len() == before.len(),
        forall|j: int| 0 <= j < before.len() && j != slot ==> #[trigger] after[j] == before[j],
    ensures
        recency_linked(after, order),
        free_linked(after, spare),
{
    assert forall|i: int| 0 <= i < order.len() implies #[trigger] live_node(after, order, i) by {
        assert(live_node(before, order, i));
    }
    assert forall|i: int| 0 <= i < spare.len() implies #[trigger] free_node(after, spare, i) by {
        assert(free_node(before, spare, i));
    }
}

/// Putting a free slot back in front of the free list.
pub(crate) proof fn lemma_free_push<T>(
    before: Seq<Slot<T>>,
    after: Seq<Slot<T>>,
    spare: Seq<u32>,
    slot: u32,
)
    requires
        free_linked(before, spare),
        !spare.contains(slot),
        slot < before.len(),
        after.len() == before.len(),
        after[slot as int].value is None,
        after[slot as int].next == first_link(spare),
        after[slot as int].prev == NONE,
        forall|j: int| 0 <= j < before.len() && j != slot ==> #[trigger] after[j] == before[j],
    ensures
        free_linked(after, seq![slot] + spare),
{
    let longer = seq![slot] + spare;
    assert forall|i: int| 0 <= i < longer.len() implies #[trigger] free_node(after, longer, i) by {
        if i > 0 {
            assert(free_node(before, spare, i - 1));
        }
    }
}

/// Linking an occupied slot that is on no list in front of the recency list.
pub(crate) proof fn lemma_link_front<T>(
    before: Seq<Slot<T>>,
    after: Seq<Slot<T>>,
    order: Seq<u32>,
    slot: u32,
)
    requires
        recency_linked(before, order),
        !order.contains(slot),
        slot < before.len(),
        before[slot as int].value is Some,
        after.len() == before.len(),
        forall|j: int|
            0 <= j < before.len() ==> {
                &&& (#[trigger] after[j]).value == before[j].value
                &&& after[j].next == (if j == slot {
                    first_link(order)
                } else {
                    before[j].next
                })
                &&& after[j].prev == (if j == slot {
                    NONE
                } else if j == first_link(order) {
                    slot
                } else {
                    before[j].prev
                })
            },
    ensures
        recency_linked(after, seq![slot] + order),
{
    let longer = seq![slot] + order;
    assert forall|i: int| 0 <= i < longer.len() implies #[trigger] live_node(after, longer, i) by {
        if i > 0 {
            assert(live_node(before, order, i - 1));
        }
    }
}

/// Splicing the slot at position `k` out of the recency list.
pub(crate) proof fn lemma_unlink<T>(
    before: Seq<Slot<T>>,
    after: Seq<Slot<T>>,
    order: Seq<u32>,
    k: int,
)
    requires
        recency_linked(before, order),
        0 <= k < order.len(),
        before.len() < NONE,
        after.len() == before.len(),
        forall|j: int|
            0 <= j < before.len() ==> {
                &&& (#[trigger] after[j]).value == before[j].value
                &&& after[j].next == (if j == link_before(order, k) {
                    link_after(order, k)
                } else {
                    before[j].next
                })
                &&& after[j].prev == (if j == link_after(order, k) {
                    link_before(order, k)
                } else {
                    before[j].prev
                })
            },
    ensures
        recency_linked(after, order.remove(k)),
        !order.remove(k).contains(order[k]),
        first_link(order.remove(k)) == (if k == 0 {
            link_after(order, k)
        } else {
            first_link(order)
        }),
        last_link(order.remove(k)) == (if k + 1 == order.len() {
            link_before(order, k)
        } else {
            last_link(order)
        }),
{
    let shorter = order.remove(k);
    assert forall|i: int| 0 <= i < shorter.len() implies #[trigger] live_node(
        after,
        shorter,
        i,
    ) by {
        let a = if i < k { i } else { i + 1 };
        assert(live_node(before, order, a));
    }
    if shorter.contains(order[k]) {
        let i = shorter.index_of(order[k]);
        assert(shorter[i] == order[if i < k { i } else { i + 1 }]);
    }
}

/// `after` differs from `before` at most in the value that the occupied slot
/// `slot` holds.
pub(crate) open spec fn refilled<T>(
    before: Seq<Slot<T>>,
    after: Seq<Slot<T>>,
    slot: u32,
) -> bool {
    &&& after.len() == before.len()
    &&& slot < before.len()
    &&& before[slot as int].value is Some
    &&& after[slot as int].value is Some
    &&& after[slot as int].next == before[slot as int].next
    &&& after[slot as int].prev == before[slot as int].prev
    &&& forall|j: int| 0 <= j < before.len() && j != slot ==> #[trigger] after[j] == before[j]
}

/// Replacing the value in an occupied slot leaves both lists as they were.
pub(crate) proof fn lemma_refill<T>(
    before: Seq<Slot<T>>,
    after: Seq<Slot<T>>,
    order: Seq<u32>,
    spare: Seq<u32>,
    slot: u32,
)
    requires
        recency_linked(before, order),
        free_linked(before, spare),
        refilled(before, after, slot),
    ensures
        recency_linked(after, order),
        free_linked(after, spare),
{
    lemma_recency_frame(before, after, order);
    lemma_free_frame(before, after, spare);
}

/// Membership in a sequence with one element put in front.
pub(crate) proof fn lemma_contains_front(chain: Seq<u32>, x: u32)
    ensures
        forall|h: u32| #[trigger] (seq![x] + chain).contains(h) <==> h == x || chain.contains(h),
{
    let longer = seq![x] + chain;
    assert forall|h: u32| #[trigger] longer.contains(h) <==> h == x || chain.contains(h) by {
        if h == x {
            assert(longer[0] == x);
        }
        if chain.contains(h) {
            let i = chain.index_of(h);
            assert(longer[i + 1] == chain[i]);
        }
    }
}

/// Membership in a duplicate-free sequence with position `k` taken out.
pub(crate) proof fn lemma_contains_remove(chain: Seq<u32>, k: int)
    requires
        chain.no_duplicates(),
        0 <= k < chain.len(),
    ensures
        forall|h: u32| #[trigger]
            chain.remove(k).contains(h) <==> h != chain[k] && chain.contains(h),
{
    let shorter = chain.remove(k);
    assert forall|h: u32| #[trigger]
        shorter.contains(h) <==> h != chain[k] && chain.contains(h) by {
        if shorter.contains(h) {
            let i = shorter.index_of(h);
            assert(shorter[i] == chain[if i < k { i } else { i + 1 }]);
        }
        if h != chain[k] && chain.contains(h) {
            let a = chain.index_of(h);
            let i = if a < k { a } else { a - 1 };
            assert(shorter[i] == chain[a]);
        }
    }
}

} // verus!
