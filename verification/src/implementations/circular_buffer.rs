//! A ring buffer of fixed capacity as a keyed container. The key is the
//! logical position, counted from the oldest slot in use: position `i` is kept
//! in the physical slot `(start + i) mod n`, where `n` is the number of slots
//! in use. Pushing onto a full buffer overwrites the oldest element.
//!
//! Keys are positions, not identities: removing an element moves every later
//! element one position down.

use crate::collection_trait::{Collection, SequentialCollection};
use crate::implementations::positional::{indexed, lemma_indexed, positions_below};
use crate::implementations::vec::exchange;
use vstd::arithmetic::div_mod::lemma_fundamental_div_mod_converse;
use vstd::prelude::*;

verus! {

/// What a ring buffer is, mathematically: the physical slots in use, the
/// offset of the slot that holds logical position 0, and the capacity.
pub struct RingModel<T> {
    pub slots: Seq<T>,
    pub start: nat,
    pub capacity: nat,
}

/// The physical slot of logical position `i` among `n` slots that start at
/// offset `start`.
pub open spec fn wrap(start: nat, i: nat, n: nat) -> nat {
    (start + i) % n
}

/// Wrapping goes around at most once.
pub proof fn lemma_wrap(start: nat, i: nat, n: nat)
    requires
        0 < n,
        start <= n,
        i <= n,
    ensures
        start + i < n ==> wrap(start, i, n) == start + i,
        n <= start + i < 2 * n ==> wrap(start, i, n) == start + i - n,
        start + i == 2 * n ==> wrap(start, i, n) == 0,
        wrap(start, i, n) < n,
{
    let sum = (start + i) as int;
    let m = n as int;
    if sum < m {
        lemma_fundamental_div_mod_converse(sum, m, 0, sum);
    } else if sum < 2 * m {
        lemma_fundamental_div_mod_converse(sum, m, 1, sum - m);
    } else {
        lemma_fundamental_div_mod_converse(sum, m, 2, 0);
    }
}

/// `(index + by) mod modulus`, computed without leaving the machine integers.
pub fn wrapped_sum(index: usize, by: usize, modulus: usize) -> (sum: usize)
    requires
        0 < modulus,
        index <= modulus,
        by <= modulus,
    ensures
        sum == wrap(index as nat, by as nat, modulus as nat),
        sum < modulus,
{
    proof {
        lemma_wrap(index as nat, by as nat, modulus as nat);
    }
    let room: usize = modulus - index;
    if by < room {
        index + by
    } else if by - room == modulus {
        0
    } else {
        by - room
    }
}

impl<T> RingModel<T> {
    /// How many elements the buffer holds.
    pub open spec fn len(self) -> nat {
        self.slots.len()
    }

    /// The physical slot of logical position `i`.
    pub open spec fn slot(self, i: nat) -> nat {
        wrap(self.start, i, self.slots.len())
    }

    /// The elements in logical order.
    pub open spec fn row(self) -> Seq<T> {
        Seq::new(self.slots.len(), |i: int| self.slots[self.slot(i as nat) as int])
    }

    /// The consistent states: at least one slot of capacity, no more slots in
    /// use than the capacity, and an offset within both.
    pub open spec fn consistent(self) -> bool {
        &&& 1 <= self.capacity <= usize::MAX
        &&& self.slots.len() <= self.capacity
        &&& self.start <= self.slots.len()
        &&& self.start < self.capacity
    }

    /// The buffer after the element at position `key` was replaced.
    pub open spec fn replaced(self, key: nat, value: T) -> Self {
        if key < self.len() {
            RingModel { slots: self.slots.update(self.slot(key) as int, value), ..self }
        } else {
            self
        }
    }

    /// The buffer after the element at position `key` was taken out: its
    /// physical slot is closed up, and the offset follows where the slot lay
    /// before it.
    pub open spec fn without(self, key: nat) -> Self {
        if key < self.len() {
            let physical = self.slot(key);
            RingModel {
                slots: self.slots.remove(physical as int),
                start: if physical < self.start {
                    (self.start - 1) as nat
                } else {
                    self.start
                },
                capacity: self.capacity,
            }
        } else {
            self
        }
    }

    /// The buffer after `value` was pushed: appended to the slots while there
    /// is room, else written over the oldest element, whose successor becomes
    /// the oldest.
    pub open spec fn with_pushed(self, value: T) -> Self {
        if self.slots.len() < self.capacity {
            RingModel { slots: self.slots.push(value), ..self }
        } else {
            RingModel {
                slots: self.slots.update(
                    ((self.start + self.slots.len()) % self.capacity) as int,
                    value,
                ),
                start: (self.start + 1) % self.capacity,
                capacity: self.capacity,
            }
        }
    }

    /// The empty buffer of the same capacity.
    pub open spec fn emptied(self) -> Self {
        RingModel { slots: Seq::empty(), start: 0, capacity: self.capacity }
    }
}

/// A buffer that holds at most `capacity` elements and, once full, gives up
/// its oldest element for each new one.
#[derive(Debug, Clone, PartialEq)]
pub struct CircularBuffer<T> {
    data: Vec<T>,
    capacity: usize,
    start: usize,
    len: usize,
}

impl<T> View for CircularBuffer<T> {
    type V = RingModel<T>;

    closed spec fn view(&self) -> RingModel<T> {
        RingModel { slots: self.data@, start: self.start as nat, capacity: self.capacity as nat }
    }
}

impl<T> CircularBuffer<T> {
    /// The representation invariant: a consistent model, and the recorded
    /// length is the number of slots in use.
    pub closed spec fn inv(&self) -> bool {
        &&& self@.consistent()
        &&& self.len == self.data@.len()
    }

    /// An empty buffer that holds up to `capacity` elements.
    pub fn new(capacity: usize) -> (buffer: Self)
        requires
            capacity > 0,
        ensures
            buffer.inv(),
            buffer@ == (RingModel::<T> { slots: Seq::empty(), start: 0, capacity: capacity as nat }),
    {
        CircularBuffer { data: Vec::new(), capacity, start: 0, len: 0 }
    }

    /// How many elements the buffer can hold.
    pub fn capacity(&self) -> (capacity: usize)
        requires
            self.inv(),
        ensures
            capacity == self@.capacity,
    {
        self.capacity
    }

    /// The physical slot of a logical position, if the position is in use.
    fn real_index(&self, logical_index: usize) -> (physical: Option<usize>)
        requires
            self.inv(),
        ensures
            physical == (if logical_index < self@.len() {
                Some(self@.slot(logical_index as nat) as usize)
            } else {
                None
            }),
            logical_index < self@.len() ==> self@.slot(logical_index as nat) < self@.len(),
    {
        if logical_index >= self.len {
            return None;
        }
        Some(wrapped_sum(self.start, logical_index, self.data.len()))
    }
}

/// The slots of two different positions are different.
pub proof fn lemma_slots_differ<T>(model: RingModel<T>, i: nat, j: nat)
    requires
        model.consistent(),
        i < model.len(),
        j < model.len(),
        i != j,
    ensures
        model.slot(i) != model.slot(j),
        model.slot(i) < model.len(),
{
    lemma_wrap(model.start, i, model.len());
    lemma_wrap(model.start, j, model.len());
}

/// While the buffer is full, and while it has not wrapped around, the slot of
/// a position is `(start + i) mod capacity`. After a removal from a buffer that
/// has wrapped around there are fewer slots than the capacity says, and the
/// positions go around the slots in use instead.
pub proof fn lemma_slot_by_capacity<T>(model: RingModel<T>, i: nat)
    requires
        model.consistent(),
        i < model.len(),
        model.len() == model.capacity || model.start == 0,
    ensures
        model.slot(i) == (model.start + i) % model.capacity,
{
    lemma_wrap(model.start, i, model.len());
    if model.len() < model.capacity {
        lemma_fundamental_div_mod_converse(i as int, model.capacity as int, 0, i as int);
    }
}

/// Replacing the element at a position changes the row at that position only.
pub proof fn lemma_row_replaced<T>(model: RingModel<T>, key: nat, value: T)
    requires
        model.consistent(),
        key < model.len(),
    ensures
        model.replaced(key, value).consistent(),
        model.replaced(key, value).row() == model.row().update(key as int, value),
{
    let next = model.replaced(key, value);
    lemma_wrap(model.start, key, model.len());
    assert forall|i: int| 0 <= i < model.len() implies next.row()[i] == model.row().update(
        key as int,
        value,
    )[i] by {
        lemma_wrap(model.start, i as nat, model.len());
        if i != key {
            lemma_slots_differ(model, i as nat, key);
        }
    }
    assert(next.row() =~= model.row().update(key as int, value));
}

/// Taking out the element at a position moves every later element of the row
/// one position down and leaves the earlier ones where they were.
pub proof fn lemma_row_without<T>(model: RingModel<T>, key: nat)
    requires
        model.consistent(),
        key < model.len(),
    ensures
        model.without(key).consistent(),
        model.without(key).row() == model.row().remove(key as int),
{
    let next = model.without(key);
    let n = model.len();
    let physical = model.slot(key);
    lemma_wrap(model.start, key, n);
    assert forall|i: int| 0 <= i < n - 1 implies next.row()[i] == model.row().remove(
        key as int,
    )[i] by {
        lemma_wrap(next.start, i as nat, next.len());
        lemma_wrap(model.start, i as nat, n);
        lemma_wrap(model.start, (i + 1) as nat, n);
    }
    assert(next.row() =~= model.row().remove(key as int));
}

/// Pushing onto a full buffer drops the oldest element of the row and puts
/// the new one at its end.
pub proof fn lemma_row_pushed_full<T>(model: RingModel<T>, value: T)
    requires
        model.consistent(),
        model.len() == model.capacity,
    ensures
        model.with_pushed(value).consistent(),
        model.with_pushed(value).row() == model.row().drop_first().push(value),
{
    let next = model.with_pushed(value);
    let n = model.len();
    lemma_wrap(model.start, n, n);
    lemma_wrap(model.start, 1, n);
    assert forall|i: int| 0 <= i < n implies next.row()[i] == model.row().drop_first().push(
        value,
    )[i] by {
        lemma_wrap(next.start, i as nat, n);
        if i + 1 < n {
            lemma_wrap(model.start, (i + 1) as nat, n);
        }
    }
    assert(next.row() =~= model.row().drop_first().push(value));
}

/// Pushing while there is room appends to the physical slots. In the row the
/// new element comes to stand behind the element in the last slot, which is
/// the end of the row unless elements were removed after the buffer had
/// wrapped around.
pub proof fn lemma_row_pushed_room<T>(model: RingModel<T>, value: T)
    requires
        model.consistent(),
        model.len() < model.capacity,
    ensures
        model.with_pushed(value).consistent(),
        model.with_pushed(value).row() == model.row().insert(model.len() - model.start, value),
        model.start == 0 ==> model.with_pushed(value).row() == model.row().push(value),
{
    let next = model.with_pushed(value);
    let n = model.len();
    let gap = n - model.start;
    assert forall|i: int| 0 <= i < n + 1 implies next.row()[i] == model.row().insert(
        gap,
        value,
    )[i] by {
        lemma_wrap(model.start, i as nat, n + 1);
        if i < gap {
            lemma_wrap(model.start, i as nat, n);
        } else if i > gap {
            lemma_wrap(model.start, (i - 1) as nat, n);
        }
    }
    assert(next.row() =~= model.row().insert(gap, value));
    if model.start == 0 {
        assert(model.row().insert(n as int, value) =~= model.row().push(value));
    }
}

impl<T> Collection for CircularBuffer<T> {
    type Key = usize;

    type Value = T;

    open spec fn wf(&self) -> bool {
        self.inv()
    }

    open spec fn valid(model: RingModel<T>) -> bool {
        model.consistent()
    }

    open spec fn entries(model: RingModel<T>) -> Map<usize, T> {
        indexed(model.row())
    }

    open spec fn key_order(model: RingModel<T>, order: Seq<usize>) -> bool {
        &&& order.len() == model.len()
        &&& forall|i: int| 0 <= i < order.len() ==> order[i] == i
    }

    open spec fn inserted(model: RingModel<T>, key: usize, value: T) -> RingModel<T> {
        model.replaced(key as nat, value)
    }

    open spec fn removed(model: RingModel<T>, key: usize) -> RingModel<T> {
        model.without(key as nat)
    }

    open spec fn cleared(model: RingModel<T>) -> RingModel<T> {
        model.emptied()
    }

    proof fn law_wf_valid(&self) {
    }

    proof fn law_entries_finite(model: RingModel<T>) {
        lemma_indexed(model.row());
    }

    proof fn law_key_order(model: RingModel<T>, order: Seq<usize>) {
        assert forall|k: usize| order.contains(k) == indexed(model.row()).contains_key(k) by {
            if k < model.len() {
                assert(order[k as int] == k);
            }
        }
    }

    proof fn law_inserted(model: RingModel<T>, key: usize, value: T) {
        if key < model.len() {
            lemma_row_replaced(model, key as nat, value);
            assert(indexed(model.row().update(key as int, value)) =~= indexed(model.row()).insert(
                key,
                value,
            ));
        }
    }

    proof fn law_removed(model: RingModel<T>, key: usize) {
        lemma_indexed(model.row());
        if key < model.len() {
            lemma_row_without(model, key as nat);
            lemma_indexed(model.row().remove(key as int));
        }
    }

    proof fn law_cleared(model: RingModel<T>) {
        assert(indexed(model.emptied().row()) =~= Map::<usize, T>::empty());
    }

    /// The element at a position of the row.
    fn get(&self, key: &usize) -> (found: Option<&T>)
        ensures
            *key < self@.len() ==> found == Some(&self@.row()[*key as int]),
            *key >= self@.len() ==> found is None,
    {
        match self.real_index(*key) {
            Some(physical) => Some(&self.data[physical]),
            None => None,
        }
    }

    fn get_mut(&mut self, key: &usize) -> (slot: Option<&mut T>) {
        match self.real_index(*key) {
            Some(physical) => Some(&mut self.data[physical]),
            None => None,
        }
    }

    fn set(&mut self, key: usize, value: T) -> (updated: bool) {
        match self.real_index(key) {
            Some(physical) => {
                self.data[physical] = value;
                true
            },
            None => false,
        }
    }

    /// It replaces the element at a position of the row and hands back what
    /// stood there. It never adds a position: beyond the row it declines.
    fn insert(&mut self, key: usize, value: T) -> (displaced: Option<T>)
        ensures
            key < old(self)@.len() ==> final(self)@.row() == old(self)@.row().update(
                key as int,
                value,
            ) && displaced == Some(old(self)@.row()[key as int]),
            key >= old(self)@.len() ==> final(self)@ == old(self)@ && displaced is None,
    {
        proof {
            if key < self@.len() {
                lemma_row_replaced(self@, key as nat, value);
            }
        }
        match self.real_index(key) {
            Some(physical) => {
                let mut value = value;
                core::mem::swap(&mut self.data[physical], &mut value);
                Some(value)
            },
            None => None,
        }
    }

    /// It takes the element at a position out of the row, hands it back, and
    /// moves every later element one position down.
    fn remove(&mut self, key: &usize) -> (taken: Option<T>)
        ensures
            *key < old(self)@.len() ==> final(self)@.row() == old(self)@.row().remove(*key as int)
                && taken == Some(old(self)@.row()[*key as int]),
            *key >= old(self)@.len() ==> final(self)@ == old(self)@ && taken is None,
    {
        proof {
            if *key < self@.len() {
                lemma_row_without(self@, *key as nat);
            }
        }
        match self.real_index(*key) {
            Some(physical) => {
                let taken = self.data.remove(physical);
                if physical < self.start {
                    self.start = self.start - 1;
                }
                self.len = self.len - 1;
                Some(taken)
            },
            None => None,
        }
    }

    fn keys(&self) -> (order: Vec<usize>) {
        positions_below(self.len)
    }

    fn len(&self) -> (count: usize)
        ensures
            count == self@.len(),
            count <= self@.capacity,
    {
        proof {
            lemma_indexed(self@.row());
        }
        self.len
    }

    fn is_empty(&self) -> (empty: bool) {
        proof {
            lemma_indexed(self@.row());
        }
        self.len == 0
    }

    fn clear(&mut self) {
        self.data.clear();
        self.start = 0;
        self.len = 0;
    }
}

impl<T> SequentialCollection for CircularBuffer<T> {
    open spec fn pushed(model: RingModel<T>, value: T) -> RingModel<T> {
        model.with_pushed(value)
    }

    proof fn law_positions(model: RingModel<T>) {
        lemma_indexed(model.row());
    }

    proof fn law_pushed(model: RingModel<T>, value: T) {
        lemma_indexed(model.row());
        lemma_indexed(model.with_pushed(value).row());
        let next = model.with_pushed(value);
        let n = model.len();
        if n == model.capacity {
            lemma_row_pushed_full(model, value);
            let place = (n - 1) as usize;
            assert(next.row()[n - 1] == value);
            assert(Self::entries(Self::pushed(model, value)).contains_key(place));
            assert(Self::entries(Self::pushed(model, value))[place] == value);
        } else {
            lemma_row_pushed_room(model, value);
            let place = (n - model.start) as usize;
            assert(next.row()[n - model.start] == value);
            assert(Self::entries(Self::pushed(model, value)).contains_key(place));
            assert(Self::entries(Self::pushed(model, value))[place] == value);
        }
    }

    /// Onto a full buffer it drops the oldest element of the row and puts the
    /// new one at the end, so that the length stays at the capacity. While there
    /// is room it lengthens the row by the new element, at the end unless
    /// elements were removed after the buffer had wrapped around.
    fn push(&mut self, value: T)
        ensures
            old(self)@.len() == old(self)@.capacity ==> final(self)@.row() == old(self)@.row().drop_first().push(value),
            old(self)@.len() < old(self)@.capacity ==> final(self)@.row() == old(self)@.row().insert(old(self)@.len() - old(self)@.start, value),
            old(self)@.len() < old(self)@.capacity && old(self)@.start == 0 ==> final(self)@.row() == old(self)@.row().push(value) && final(self)@.start == 0,
    {
        proof {
            if self@.len() == self@.capacity {
                lemma_row_pushed_full(self@, value);
            } else {
                lemma_row_pushed_room(self@, value);
            }
        }
        if self.data.len() < self.capacity {
            self.data.push(value);
            self.len = self.len + 1;
        } else {
            let write_idx = wrapped_sum(self.start, self.len, self.capacity);
            self.data[write_idx] = value;
            self.start = wrapped_sum(self.start, 1, self.capacity);
        }
    }

    /// It takes the last element off the row and leaves the others in place.
    fn pop(&mut self) -> (popped: Option<T>)
        ensures
            old(self)@.len() > 0 ==> final(self)@.row() == old(self)@.row().drop_last() && popped
                == Some(old(self)@.row().last()),
            old(self)@.len() == 0 ==> final(self)@ == old(self)@ && popped is None,
    {
        proof {
            lemma_indexed(self@.row());
            if self@.len() > 0 {
                assert(self@.row().remove(self@.len() - 1) =~= self@.row().drop_last());
            }
        }
        if self.len == 0 {
            None
        } else {
            let last: usize = self.len - 1;
            self.remove(&last)
        }
    }

    fn first(&self) -> (head: Option<&T>)
        ensures
            self@.len() > 0 ==> head == Some(&self@.row()[0]),
            self@.len() == 0 ==> head is None,
    {
        proof {
            lemma_indexed(self@.row());
        }
        self.get(&0)
    }

    fn swap(&mut self, key1: &usize, key2: &usize) {
        match (self.real_index(*key1), self.real_index(*key2)) {
            (Some(first), Some(second)) => {
                exchange(&mut self.data, first, second);
            },
            _ => {},
        }
    }
}

} // verus!
