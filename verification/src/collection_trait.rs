//! The contract that every keyed container satisfies.
//!
//! A container is described by its view, a mathematical model of whatever shape
//! suits it (a sequence for a growable array, a map for a hash map, slots and an
//! offset for a ring buffer). The trait names what every model has in common:
//! the elements it holds by key, the enumerations of its keys, and the model that
//! each mutation leads to. The executable methods are specified as steps from
//! one model to the next, so that two calls in a row can be reasoned about
//! without looking inside the container.

use vstd::prelude::*;
use vstd::std_specs::cmp::PartialEqSpec;

verus! {

/// Whether keys of type `K` compare and duplicate exactly: `==` in executable
/// code decides equality of the values, and a clone equals what it was made from.
pub open spec fn exact_keys<K: Clone + PartialEq>() -> bool {
    &&& K::obeys_eq_spec()
    &&& forall|a: K, b: K| #[trigger] a.eq_spec(&b) <==> (a == b)
    &&& forall|a: K, b: K| #[trigger] cloned(a, b) ==> a == b
}

/// A copy of `key` that equals it.
pub fn duplicate<K: Clone + PartialEq>(key: &K) -> (copy: K)
    requires
        exact_keys::<K>(),
    ensures
        copy == *key,
{
    let copy = key.clone();
    assert(cloned(*key, copy));
    copy
}

/// Whether two keys are equal.
pub fn same<K: Clone + PartialEq>(a: &K, b: &K) -> (equal: bool)
    requires
        exact_keys::<K>(),
    ensures
        equal == (*a == *b),
{
    *a == *b
}

/// The model reached from `model` by applying `step` to each of `pairs` in turn,
/// first pair first.
pub open spec fn folded<M, K, V>(step: spec_fn(M, K, V) -> M, model: M, pairs: Seq<(K, V)>) -> M
    decreases pairs.len(),
{
    if pairs.len() == 0 {
        model
    } else {
        step(folded(step, model, pairs.drop_last()), pairs.last().0, pairs.last().1)
    }
}

/// A keyed container.
pub trait Collection: View + Sized {
    /// What an element is addressed by.
    type Key;

    /// What an element holds.
    type Value;

    /// The representation invariant of the container itself. Every method asks
    /// for it and hands it back.
    spec fn wf(&self) -> bool;

    /// Which models stand for a container in a consistent state.
    spec fn valid(model: Self::V) -> bool;

    /// The elements of a model, by key: exactly what `get` finds.
    spec fn entries(model: Self::V) -> Map<Self::Key, Self::Value>;

    /// Whether `order` is an enumeration of the keys that `keys` may hand out.
    spec fn key_order(model: Self::V, order: Seq<Self::Key>) -> bool;

    /// The model after `insert(key, value)`.
    spec fn inserted(model: Self::V, key: Self::Key, value: Self::Value) -> Self::V;

    /// The model after `remove(key)`.
    spec fn removed(model: Self::V, key: Self::Key) -> Self::V;

    /// The model after `clear()`.
    spec fn cleared(model: Self::V) -> Self::V;

    /// A well-formed container has a valid model.
    proof fn law_wf_valid(&self)
        requires
            self.wf(),
        ensures
            Self::valid(self@),
    ;

    /// A valid model holds finitely many elements.
    proof fn law_entries_finite(model: Self::V)
        requires
            Self::valid(model),
        ensures
            Self::entries(model).dom().finite(),
    ;

    /// An enumeration of the keys names each key that holds an element once,
    /// and nothing else.
    proof fn law_key_order(model: Self::V, order: Seq<Self::Key>)
        requires
            Self::valid(model),
            Self::key_order(model, order),
        ensures
            order.no_duplicates(),
            forall|k: Self::Key| order.contains(k) <==> Self::entries(model).contains_key(k),
    ;

    /// Inserting under a key that holds an element replaces that element and
    /// nothing else. Inserting under any other key either adds the element or is
    /// declined, leaving the elements as they were.
    proof fn law_inserted(model: Self::V, key: Self::Key, value: Self::Value)
        requires
            Self::valid(model),
        ensures
            Self::valid(Self::inserted(model, key, value)),
            Self::entries(model).contains_key(key) ==> Self::entries(
                Self::inserted(model, key, value),
            ) == Self::entries(model).insert(key, value),
            !Self::entries(model).contains_key(key) ==> {
                ||| Self::entries(Self::inserted(model, key, value)) == Self::entries(model).insert(
                    key,
                    value,
                )
                ||| Self::entries(Self::inserted(model, key, value)) == Self::entries(model)
            },
    ;

    /// Removing a key that holds no element changes nothing. Removing one that
    /// does leaves one element fewer, under keys that were all in use before.
    proof fn law_removed(model: Self::V, key: Self::Key)
        requires
            Self::valid(model),
        ensures
            Self::valid(Self::removed(model, key)),
            !Self::entries(model).contains_key(key) ==> Self::removed(model, key) == model,
            Self::entries(model).contains_key(key) ==> {
                &&& Self::entries(Self::removed(model, key)).len() + 1 == Self::entries(
                    model,
                ).len()
                &&& Self::entries(Self::removed(model, key)).dom().subset_of(
                    Self::entries(model).dom(),
                )
            },
    ;

    /// Clearing leaves a valid model without elements.
    proof fn law_cleared(model: Self::V)
        requires
            Self::valid(model),
        ensures
            Self::valid(Self::cleared(model)),
            Self::entries(Self::cleared(model)) == Map::<Self::Key, Self::Value>::empty(),
    ;

    /// The element under `key`, if there is one.
    fn get(&self, key: &Self::Key) -> (found: Option<&Self::Value>)
        requires
            self.wf(),
        ensures
            found == (if Self::entries(self@).contains_key(*key) {
                Some(&Self::entries(self@)[*key])
            } else {
                None
            }),
    ;

    /// Exclusive access to the element under `key`, if there is one. What the
    /// caller leaves in the slot is what the container holds afterwards.
    fn get_mut(&mut self, key: &Self::Key) -> (slot: Option<&mut Self::Value>)
        requires
            old(self).wf(),
        ensures
            final(self).wf(),
            match slot {
                Some(element) => {
                    &&& Self::entries(old(self)@).contains_key(*key)
                    &&& *element == Self::entries(old(self)@)[*key]
                    &&& final(self)@ == Self::inserted(old(self)@, *key, *final(element))
                },
                None => {
                    &&& !Self::entries(old(self)@).contains_key(*key)
                    &&& final(self)@ == old(self)@
                },
            },
    ;

    /// Replaces the element under `key` if there is one, and says whether it did.
    /// It never adds a key.
    fn set(&mut self, key: Self::Key, value: Self::Value) -> (updated: bool)
        requires
            old(self).wf(),
        ensures
            final(self).wf(),
            updated == Self::entries(old(self)@).contains_key(key),
            final(self)@ == (if updated {
                Self::inserted(old(self)@, key, value)
            } else {
                old(self)@
            }),
    ;

    /// Creates or replaces the element under `key`, and hands back the element
    /// it displaced.
    fn insert(&mut self, key: Self::Key, value: Self::Value) -> (displaced: Option<Self::Value>)
        requires
            old(self).wf(),
        ensures
            final(self).wf(),
            final(self)@ == Self::inserted(old(self)@, key, value),
            displaced == (if Self::entries(old(self)@).contains_key(key) {
                Some(Self::entries(old(self)@)[key])
            } else {
                None
            }),
    ;

    /// Removes the element under `key` and hands it back, if there is one.
    fn remove(&mut self, key: &Self::Key) -> (taken: Option<Self::Value>)
        requires
            old(self).wf(),
        ensures
            final(self).wf(),
            final(self)@ == Self::removed(old(self)@, *key),
            taken == (if Self::entries(old(self)@).contains_key(*key) {
                Some(Self::entries(old(self)@)[*key])
            } else {
                None
            }),
    ;

    /// Whether `key` holds an element.
    fn contains_key(&self, key: &Self::Key) -> (present: bool)
        requires
            self.wf(),
        ensures
            present == Self::entries(self@).contains_key(*key),
    {
        self.get(key).is_some()
    }

    /// A snapshot of all keys, in the container's own order.
    fn keys(&self) -> (order: Vec<Self::Key>)
        requires
            self.wf(),
        ensures
            Self::key_order(self@, order@),
    ;

    /// How many elements there are.
    fn len(&self) -> (count: usize)
        requires
            self.wf(),
        ensures
            count == Self::entries(self@).len(),
    ;

    /// Whether there is no element.
    fn is_empty(&self) -> (empty: bool)
        requires
            self.wf(),
        ensures
            empty == (Self::entries(self@).len() == 0),
    {
        self.len() == 0
    }

    /// Removes every element.
    fn clear(&mut self)
        requires
            old(self).wf(),
        ensures
            final(self).wf(),
            final(self)@ == Self::cleared(old(self)@),
    ;

    /// Inserts each pair in turn, exactly as repeated calls of `insert` would: a
    /// later pair overrides an earlier one with the same key.
    fn extend(&mut self, items: Vec<(Self::Key, Self::Value)>)
        requires
            old(self).wf(),
        ensures
            final(self).wf(),
            final(self)@ == folded(
                |m: Self::V, k: Self::Key, v: Self::Value| Self::inserted(m, k, v),
                old(self)@,
                items@,
            ),
    {
        let ghost start = self@;
        assert(items@.take(0).len() == 0);
        for pair in iter: items
            invariant
                self.wf(),
                iter.seq() == items@,
                self@ == folded(
                    |m: Self::V, k: Self::Key, v: Self::Value| Self::inserted(m, k, v),
                    start,
                    items@.take(iter.index()),
                ),
        {
            let ghost done = iter.index();
            assert(items@.take(done + 1).drop_last() =~= items@.take(done));
            assert(items@.take(done + 1).last() == pair);
            self.insert(pair.0, pair.1);
        }
        assert(items@.take(items@.len() as int) =~= items@);
    }
}

/// A container that keeps its elements in a row: they are addressed by position,
/// and the row can grow and shrink at its end.
pub trait SequentialCollection: Collection<Key = usize> {
    /// The model after `push(value)`.
    spec fn pushed(model: Self::V, value: Self::Value) -> Self::V;

    /// The elements of a row sit at the positions below its length.
    proof fn law_positions(model: Self::V)
        requires
            Self::valid(model),
        ensures
            forall|k: usize| Self::entries(model).contains_key(k) <==> k < Self::entries(model).len(),
    ;

    /// Pushing takes no position away and adds at most one. Where it leads to a
    /// valid model, the pushed element stands somewhere in the row.
    proof fn law_pushed(model: Self::V, value: Self::Value)
        requires
            Self::valid(model),
        ensures
            Self::entries(model).dom().subset_of(Self::entries(Self::pushed(model, value)).dom()),
            Self::entries(Self::pushed(model, value)).len() <= Self::entries(model).len() + 1,
            Self::valid(Self::pushed(model, value)) ==> exists|k: usize|
                #[trigger] Self::entries(Self::pushed(model, value)).contains_key(k)
                    && Self::entries(Self::pushed(model, value))[k] == value,
    ;

    /// Adds an element to the row. Where it comes to stand is the container's
    /// affair: a growable array appends it, and so does a ring buffer, which
    /// gives up its oldest element when it is full and may place the new one
    /// inside the row after elements were removed from it.
    fn push(&mut self, value: Self::Value)
        requires
            old(self).wf(),
        ensures
            final(self).wf(),
            final(self)@ == Self::pushed(old(self)@, value),
    ;

    /// Removes the last element of the row and hands it back, if there is one.
    fn pop(&mut self) -> (popped: Option<Self::Value>)
        requires
            old(self).wf(),
        ensures
            final(self).wf(),
            Self::entries(old(self)@).len() == 0 ==> popped is None && final(self)@ == old(self)@,
            Self::entries(old(self)@).len() > 0 ==> {
                let last = (Self::entries(old(self)@).len() - 1) as usize;
                &&& popped == Some(Self::entries(old(self)@)[last])
                &&& final(self)@ == Self::removed(old(self)@, last)
            },
    ;

    /// The first element of the row, if there is one.
    fn first(&self) -> (head: Option<&Self::Value>)
        requires
            self.wf(),
        ensures
            head == (if Self::entries(self@).len() == 0 {
                None
            } else {
                Some(&Self::entries(self@)[0])
            }),
    ;

    /// Exchanges the elements at two positions. Where either position holds no
    /// element, nothing changes.
    fn swap(&mut self, key1: &usize, key2: &usize)
        requires
            old(self).wf(),
        ensures
            final(self).wf(),
            final(self)@ == (if Self::entries(old(self)@).contains_key(*key1) && Self::entries(
                old(self)@,
            ).contains_key(*key2) {
                Self::inserted(
                    Self::inserted(old(self)@, *key1, Self::entries(old(self)@)[*key2]),
                    *key2,
                    Self::entries(old(self)@)[*key1],
                )
            } else {
                old(self)@
            }),
    ;
}

} // verus!
