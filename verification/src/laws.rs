//! Laws of the slab operations, proved over [`SlabModel`].
//!
//! Each executable operation of `LruSlab` is specified as one step of the
//! model, so what is proved here of the model's steps holds of every run of the
//! slab.

use vstd::prelude::*;
use vstd::seq_lib::seq_to_set_is_finite;
use vstd::set_lib::{lemma_int_range, lemma_subset_equality, set_int_range};
use crate::links::{lemma_contains_front, lemma_contains_remove};
use crate::model::{SlabModel, NONE};

verus! {

/// One call that changes a slab.
pub enum Op<T> {
    /// `insert(value)`
    Insert(T),
    /// `remove(slot)`
    Remove(u32),
    /// The reordering done by `get_mut(slot)`
    Touch(u32),
    /// A write through the reference that `get_mut(slot)` or `peek_mut(slot)` gave
    Write(u32, T),
}

impl<T> SlabModel<T> {
    /// Whether `op` may be called in this state.
    pub open spec fn admits(self, op: Op<T>) -> bool {
        match op {
            Op::Insert(_) => self.can_insert(),
            Op::Remove(slot) => self.contains(slot),
            Op::Touch(slot) => self.contains(slot),
            Op::Write(slot, _) => self.contains(slot),
        }
    }

    /// The state after `op`.
    pub open spec fn apply(self, op: Op<T>) -> Self {
        match op {
            Op::Insert(value) => self.insert(value),
            Op::Remove(slot) => self.remove(slot),
            Op::Touch(slot) => self.touch(slot),
            Op::Write(slot, value) => self.set(slot, value),
        }
    }

    /// The state after the calls `ops`, made in order.
    pub open spec fn run(self, ops: Seq<Op<T>>) -> Self
        decreases ops.len(),
    {
        if ops.len() == 0 {
            self
        } else {
            self.run(ops.drop_last()).apply(ops.last())
        }
    }

    /// Whether each of the calls `ops` may be made when its turn comes.
    pub open spec fn admits_all(self, ops: Seq<Op<T>>) -> bool
        decreases ops.len(),
    {
        ops.len() == 0 || (self.admits_all(ops.drop_last()) && self.run(ops.drop_last()).admits(
            ops.last(),
        ))
    }

    /// The state after inserting `values` one after the other.
    pub open spec fn insert_all(self, values: Seq<T>) -> Self
        decreases values.len(),
    {
        if values.len() == 0 {
            self
        } else {
            self.insert_all(values.drop_last()).insert(values.last())
        }
    }

    /// Whether `values` can be inserted one after the other.
    pub open spec fn can_insert_all(self, values: Seq<T>) -> bool
        decreases values.len(),
    {
        values.len() == 0 || (self.can_insert_all(values.drop_last()) && self.insert_all(
            values.drop_last(),
        ).can_insert())
    }

    /// The state after removing the least recently used value.
    pub open spec fn evict(self) -> Self {
        self.remove(self.order.last())
    }

    /// The state after removing the least recently used value `n` times.
    pub open spec fn drained(self, n: nat) -> Self
        decreases n,
    {
        if n == 0 {
            self
        } else {
            self.evict().drained((n - 1) as nat)
        }
    }

    /// The values that those `n` removals return, in the order of the calls.
    pub open spec fn evicted(self, n: nat) -> Seq<T>
        decreases n,
    {
        if n == 0 {
            Seq::empty()
        } else {
            seq![self.values[self.order.last()]] + self.evict().evicted((n - 1) as nat)
        }
    }
}

/// Whether `op` neither removes `handle` nor writes to its value.
pub open spec fn leaves_alone<T>(op: Op<T>, handle: u32) -> bool {
    match op {
        Op::Insert(_) => true,
        Op::Remove(slot) => slot != handle,
        Op::Touch(_) => true,
        Op::Write(slot, _) => slot != handle,
    }
}

/// Number of insertions among `ops`.
pub open spec fn inserts<T>(ops: Seq<Op<T>>) -> nat
    decreases ops.len(),
{
    if ops.len() == 0 {
        0
    } else {
        inserts(ops.drop_last()) + (if ops.last() is Insert { 1nat } else { 0nat })
    }
}

/// Number of removals among `ops`.
pub open spec fn removes<T>(ops: Seq<Op<T>>) -> nat
    decreases ops.len(),
{
    if ops.len() == 0 {
        0
    } else {
        removes(ops.drop_last()) + (if ops.last() is Remove { 1nat } else { 0nat })
    }
}

/// The live and the unused handles partition the slots: every index below
/// the capacity is a handle of exactly one of the two kinds, and no other
/// number is a handle.
pub proof fn lemma_slots_partitioned<T>(m: SlabModel<T>)
    requires
        m.wf(),
    ensures
        forall|h: u32| h < m.capacity() ==> (#[trigger] m.order.contains(h)) != m.spare.contains(h),
        forall|h: u32| h >= m.capacity() ==> !(#[trigger] m.order.contains(h)),
        forall|h: u32| h >= m.capacity() ==> !(#[trigger] m.spare.contains(h)),
{
    let n = m.order.len();
    let all = Seq::new(
        m.capacity(),
        |i: int| if i < n { m.order[i] as int } else { m.spare[i - n] as int },
    );
    let range = set_int_range(0, m.capacity() as int);
    all.unique_seq_to_set();
    seq_to_set_is_finite(all);
    lemma_int_range(0, m.capacity() as int);
    lemma_subset_equality(all.to_set(), range);
    assert forall|h: u32| h < m.capacity() implies (#[trigger] m.order.contains(h))
        != m.spare.contains(h) by {
        assert(all.to_set().contains(h as int));
    }
}

/// An insertion keeps the state consistent, puts the new value in front of
/// the others, and takes a handle that was not live.
pub proof fn lemma_insert<T>(m: SlabModel<T>, value: T)
    requires
        m.wf(),
        m.can_insert(),
    ensures
        m.insert(value).wf(),
        !m.contains(m.next_handle()),
        m.insert(value).contains(m.next_handle()),
        m.insert(value).values[m.next_handle()] == value,
        m.insert(value).len() == m.len() + 1,
        m.insert(value).contents() == seq![value] + m.contents(),
{
    lemma_contains_front(m.order, m.next_handle());
}

/// An insertion leaves every live handle live with the value it had, whether
/// or not the slab has to grow for it. A slab with an unused slot keeps its
/// capacity; a full one doubles it, to two slots at least.
pub proof fn lemma_insert_keeps_handles<T>(m: SlabModel<T>, value: T)
    requires
        m.wf(),
        m.can_insert(),
    ensures
        forall|h: u32| #[trigger]
            m.contains(h) ==> m.insert(value).contains(h) && m.insert(value).values[h]
                == m.values[h],
        m.len() < m.capacity() ==> m.insert(value).capacity() == m.capacity(),
        m.len() == m.capacity() ==> m.insert(value).capacity() == SlabModel::<T>::grown(
            m.capacity(),
        ),
        SlabModel::<T>::grown(m.capacity()) >= 2 * m.capacity(),
        SlabModel::<T>::grown(m.capacity()) >= 2,
{
    lemma_insert(m, value);
    lemma_contains_front(m.order, m.next_handle());
}

/// A removal keeps the state consistent, takes the value out of the recency
/// order without moving the others, and leaves the other values as they were.
pub proof fn lemma_remove<T>(m: SlabModel<T>, slot: u32)
    requires
        m.wf(),
        m.contains(slot),
    ensures
        m.remove(slot).wf(),
        !m.remove(slot).contains(slot),
        m.remove(slot).len() == m.len() - 1,
        m.remove(slot).capacity() == m.capacity(),
        m.remove(slot).contents() == m.contents().remove(m.order.index_of(slot)),
        forall|h: u32| #[trigger]
            m.contains(h) && h != slot ==> m.remove(slot).contains(h) && m.remove(slot).values[h]
                == m.values[h],
{
    lemma_contains_remove(m.order, m.order.index_of(slot));
    lemma_contains_front(m.spare, slot);
}

/// Marking a live handle as most recently used moves it to the front of the
/// recency order. All other handles keep their relative order, no value
/// changes, and no handle is gained or lost.
pub proof fn lemma_touch_moves_to_front<T>(m: SlabModel<T>, slot: u32)
    requires
        m.wf(),
        m.contains(slot),
    ensures
        m.touch(slot).wf(),
        m.touch(slot).order.first() == slot,
        m.touch(slot).order_without(slot) == m.order_without(slot),
        m.touch(slot).contents() == seq![m.values[slot]] + m.contents().remove(
            m.order.index_of(slot),
        ),
        m.touch(slot).values == m.values,
        m.touch(slot).spare == m.spare,
        forall|h: u32| m.touch(slot).contains(h) <==> m.contains(h),
{
    lemma_contains_remove(m.order, m.order.index_of(slot));
    lemma_contains_front(m.order_without(slot), slot);
    assert(m.touch(slot).order[0] == slot);
}

/// Overwriting the value under a live handle changes that value and nothing
/// else.
pub proof fn lemma_set<T>(m: SlabModel<T>, slot: u32, value: T)
    requires
        m.wf(),
        m.contains(slot),
    ensures
        m.set(slot, value).wf(),
        m.set(slot, value).order == m.order,
        m.set(slot, value).spare == m.spare,
        m.set(slot, value).contents() == m.contents().update(m.order.index_of(slot), value),
{
}

/// Values inserted one after the other, with no other call in between, read
/// back newest first, in front of what was stored before. On an empty slab
/// the contents are the inserted values reversed.
pub proof fn lemma_inserts_read_back_reversed<T>(m: SlabModel<T>, values: Seq<T>)
    requires
        m.wf(),
        m.can_insert_all(values),
    ensures
        m.insert_all(values).wf(),
        m.insert_all(values).contents() == values.reverse() + m.contents(),
        m.len() == 0 ==> m.insert_all(values).contents() == values.reverse(),
    decreases values.len(),
{
    if values.len() > 0 {
        let front = values.drop_last();
        lemma_inserts_read_back_reversed(m, front);
        lemma_insert(m.insert_all(front), values.last());
        assert(seq![values.last()] + (front.reverse() + m.contents()) =~= values.reverse()
            + m.contents());
    }
}

/// Taking the least recently used handle and removing it, `n` times over,
/// returns the stored values from the stalest towards the freshest and leaves
/// the `len() - n` freshest in place. After `len()` such removals nothing is
/// stored and there is no least recently used handle.
pub proof fn lemma_drain_by_lru<T>(m: SlabModel<T>, n: nat)
    requires
        m.wf(),
        n <= m.len(),
    ensures
        m.drained(n).wf(),
        m.evicted(n) == m.contents().reverse().take(n as int),
        m.drained(n).contents() == m.contents().take(m.len() - n),
        n == m.len() ==> m.drained(n).lru() is None && m.evicted(n) == m.contents().reverse(),
    decreases n,
{
    if n > 0 {
        lemma_remove(m, m.order.last());
        lemma_drain_by_lru(m.evict(), (n - 1) as nat);
    }
}

/// The handle of a removed value is the one that the next insertion returns.
pub proof fn lemma_removed_handle_is_next<T>(m: SlabModel<T>, slot: u32)
    requires
        m.wf(),
        m.contains(slot),
    ensures
        m.remove(slot).can_insert(),
        m.remove(slot).next_handle() == slot,
{
}

/// Inserting a value, removing it and inserting again gives the same handle
/// twice, and the slab then holds one value more than at the start.
pub proof fn lemma_reinsert_gives_same_handle<T>(m: SlabModel<T>, first: T, second: T)
    requires
        m.wf(),
        m.can_insert(),
    ensures
        m.insert(first).remove(m.next_handle()).next_handle() == m.next_handle(),
        m.insert(first).remove(m.next_handle()).insert(second).len() == m.len() + 1,
{
    lemma_insert(m, first);
    lemma_remove(m.insert(first), m.next_handle());
}

/// Freed handles are reused last in, first out: after removing `a` and then
/// `b`, the next insertion reuses `b` and the one after it reuses `a`.
pub proof fn lemma_reuse_is_last_in_first_out<T>(m: SlabModel<T>, a: u32, b: u32, value: T)
    requires
        m.wf(),
        m.contains(a),
        m.contains(b),
        a != b,
    ensures
        m.remove(a).contains(b),
        m.remove(a).remove(b).next_handle() == b,
        m.remove(a).remove(b).insert(value).next_handle() == a,
{
    lemma_remove(m, a);
}

/// One admitted call keeps the state consistent, changes the length by one
/// only if it inserts or removes, and never lowers the capacity.
pub proof fn lemma_apply<T>(m: SlabModel<T>, op: Op<T>)
    requires
        m.wf(),
        m.admits(op),
    ensures
        m.apply(op).wf(),
        m.apply(op).len() == m.len() + (if op is Insert { 1int } else { 0int }) - (if op is Remove {
            1int
        } else {
            0int
        }),
        m.apply(op).capacity() >= m.capacity(),
{
    match op {
        Op::Insert(value) => {
            lemma_insert(m, value);
        },
        Op::Remove(slot) => {
            lemma_remove(m, slot);
        },
        Op::Touch(slot) => {
            lemma_touch_moves_to_front(m, slot);
        },
        Op::Write(slot, value) => {
            lemma_set(m, slot, value);
        },
    }
}

/// With `m` the slab at any point and `ops` the calls made since then, the
/// length has grown by the number of insertions less the number of removals,
/// the capacity has not decreased, and the slab is still consistent. Started
/// from an empty slab, the length is the number of insertions less the number
/// of removals.
pub proof fn lemma_bookkeeping<T>(m: SlabModel<T>, ops: Seq<Op<T>>)
    requires
        m.wf(),
        m.admits_all(ops),
    ensures
        m.run(ops).wf(),
        m.run(ops).len() == m.len() + inserts(ops) - removes(ops),
        m.run(ops).capacity() >= m.capacity(),
        m.len() == 0 ==> m.run(ops).len() == inserts(ops) - removes(ops),
    decreases ops.len(),
{
    if ops.len() > 0 {
        lemma_bookkeeping(m, ops.drop_last());
        lemma_apply(m.run(ops.drop_last()), ops.last());
    }
}

/// A live handle stays live, with the value it denotes, through every call
/// that neither removes it nor writes to it, whatever is inserted, removed or
/// reordered around it and however often the slab grows.
pub proof fn lemma_handles_are_stable<T>(m: SlabModel<T>, ops: Seq<Op<T>>, handle: u32)
    requires
        m.wf(),
        m.admits_all(ops),
        m.contains(handle),
        forall|i: int| 0 <= i < ops.len() ==> leaves_alone(#[trigger] ops[i], handle),
    ensures
        m.run(ops).contains(handle),
        m.run(ops).values[handle] == m.values[handle],
    decreases ops.len(),
{
    if ops.len() > 0 {
        let before = m.run(ops.drop_last());
        lemma_handles_are_stable(m, ops.drop_last(), handle);
        lemma_bookkeeping(m, ops.drop_last());
        assert(leaves_alone(ops[ops.len() - 1], handle));
        match ops.last() {
            Op::Insert(value) => {
                lemma_insert_keeps_handles(before, value);
            },
            Op::Remove(slot) => {
                lemma_remove(before, slot);
            },
            Op::Touch(slot) => {
                lemma_touch_moves_to_front(before, slot);
            },
            Op::Write(slot, value) => {},
        }
    }
}

/// A slab made with a capacity is consistent and empty, and accepts an
/// insertion.
pub proof fn lemma_empty<T>(capacity: nat)
    requires
        capacity < NONE,
    ensures
        SlabModel::<T>::empty(capacity).wf(),
        SlabModel::<T>::empty(capacity).len() == 0,
        SlabModel::<T>::empty(capacity).capacity() == capacity,
        SlabModel::<T>::empty(capacity).lru() is None,
        SlabModel::<T>::empty(capacity).can_insert(),
{
}

/// A slab made with a capacity stores that many values without growing: the
/// insertions are served from its own slots in index order, and the capacity
/// stays what it was.
pub proof fn lemma_capacity_is_used_first<T>(capacity: nat, values: Seq<T>)
    requires
        capacity < NONE,
        values.len() <= capacity,
    ensures
        SlabModel::<T>::empty(capacity).can_insert_all(values),
        SlabModel::<T>::empty(capacity).insert_all(values).capacity() == capacity,
        SlabModel::<T>::empty(capacity).insert_all(values).order == Seq::new(
            values.len(),
            |i: int| (values.len() - 1 - i) as u32,
        ),
        SlabModel::<T>::empty(capacity).insert_all(values).spare == Seq::new(
            (capacity - values.len()) as nat,
            |i: int| (values.len() + i) as u32,
        ),
    decreases values.len(),
{
    if values.len() > 0 {
        lemma_capacity_is_used_first(capacity, values.drop_last());
    }
}

} // verus!
