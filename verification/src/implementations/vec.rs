//! The growable array as a keyed container: the key is the position.

use crate::collection_trait::{Collection, SequentialCollection};
use crate::implementations::positional::{indexed, lemma_indexed, positions_below};
use vstd::prelude::*;

verus! {

/// Exchanges the elements at two positions of a vector that holds both.
pub fn exchange<T>(row: &mut Vec<T>, a: usize, b: usize)
    requires
        a < old(row)@.len(),
        b < old(row)@.len(),
    ensures
        final(row)@ == old(row)@.update(a as int, old(row)@[b as int]).update(
            b as int,
            old(row)@[a as int],
        ),
{
    if a != b {
        let low: usize = if a < b { a } else { b };
        let high: usize = if a < b { b } else { a };
        let (front, back) = row.as_mut_slice().split_at_mut(high);
        core::mem::swap(&mut front[low], &mut back[0]);
    }
}

impl<T> Collection for Vec<T> {
    type Key = usize;

    type Value = T;

    open spec fn wf(&self) -> bool {
        true
    }

    open spec fn valid(model: Seq<T>) -> bool {
        model.len() <= usize::MAX + 1
    }

    open spec fn entries(model: Seq<T>) -> Map<usize, T> {
        indexed(model)
    }

    open spec fn key_order(model: Seq<T>, order: Seq<usize>) -> bool {
        &&& order.len() == model.len()
        &&& forall|i: int| 0 <= i < order.len() ==> order[i] == i
    }

    open spec fn inserted(model: Seq<T>, key: usize, value: T) -> Seq<T> {
        if key < model.len() {
            model.update(key as int, value)
        } else if key == model.len() {
            model.push(value)
        } else {
            model
        }
    }

    open spec fn removed(model: Seq<T>, key: usize) -> Seq<T> {
        if key < model.len() {
            model.remove(key as int)
        } else {
            model
        }
    }

    open spec fn cleared(model: Seq<T>) -> Seq<T> {
        Seq::empty()
    }

    proof fn law_wf_valid(&self) {
        assert(self@.len() == self.len());
    }

    proof fn law_entries_finite(model: Seq<T>) {
        lemma_indexed(model);
    }

    proof fn law_key_order(model: Seq<T>, order: Seq<usize>) {
        assert forall|k: usize| order.contains(k) <==> indexed(model).contains_key(k) by {
            if k < model.len() {
                assert(order[k as int] == k);
            }
        }
    }

    proof fn law_inserted(model: Seq<T>, key: usize, value: T) {
        let next = Self::inserted(model, key, value);
        if key < model.len() {
            assert(indexed(next) =~= indexed(model).insert(key, value));
        } else if key == model.len() {
            assert(indexed(next) =~= indexed(model).insert(key, value));
        }
    }

    proof fn law_removed(model: Seq<T>, key: usize) {
        lemma_indexed(model);
        lemma_indexed(Self::removed(model, key));
    }

    proof fn law_cleared(model: Seq<T>) {
        assert(indexed(Seq::<T>::empty()) =~= Map::<usize, T>::empty());
    }

    fn get(&self, key: &usize) -> (found: Option<&T>) {
        if *key < self.len() {
            Some(&self[*key])
        } else {
            None
        }
    }

    fn get_mut(&mut self, key: &usize) -> (slot: Option<&mut T>) {
        if *key < self.len() {
            Some(&mut self[*key])
        } else {
            None
        }
    }

    fn set(&mut self, key: usize, value: T) -> (updated: bool) {
        if key < self.len() {
            self[key] = value;
            true
        } else {
            false
        }
    }

    fn insert(&mut self, key: usize, value: T) -> (displaced: Option<T>) {
        if key == self.len() {
            self.push(value);
            None
        } else if key < self.len() {
            let mut value = value;
            core::mem::swap(&mut self[key], &mut value);
            Some(value)
        } else {
            None
        }
    }

    fn remove(&mut self, key: &usize) -> (taken: Option<T>) {
        if *key < self.len() {
            Some(self.remove(*key))
        } else {
            None
        }
    }

    fn keys(&self) -> (order: Vec<usize>) {
        positions_below(self.len())
    }

    fn len(&self) -> (count: usize) {
        proof {
            lemma_indexed(self@);
        }
        self.len()
    }

    fn clear(&mut self) {
        self.clear();
    }
}

/// What `insert` does to a growable array: at the length it appends, below the
/// length it replaces the element there, which is what it hands back, and
/// beyond the length it changes nothing.
pub proof fn law_array_insert<T>(row: Seq<T>, key: usize, value: T)
    ensures
        key == row.len() ==> {
            &&& <Vec<T> as Collection>::inserted(row, key, value) == row.push(value)
            &&& !<Vec<T> as Collection>::entries(row).contains_key(key)
        },
        key < row.len() ==> {
            &&& <Vec<T> as Collection>::inserted(row, key, value) == row.update(key as int, value)
            &&& <Vec<T> as Collection>::entries(row).contains_key(key)
            &&& <Vec<T> as Collection>::entries(row)[key] == row[key as int]
        },
        key > row.len() ==> {
            &&& <Vec<T> as Collection>::inserted(row, key, value) == row
            &&& !<Vec<T> as Collection>::entries(row).contains_key(key)
        },
{
}

/// What `remove` does to a growable array: below the length it takes the
/// element out, hands it back, and moves every later element one position
/// down; from the length on it changes nothing.
pub proof fn law_array_remove<T>(row: Seq<T>, key: usize)
    ensures
        key < row.len() ==> {
            &&& <Vec<T> as Collection>::removed(row, key) == row.remove(key as int)
            &&& <Vec<T> as Collection>::entries(row).contains_key(key)
            &&& <Vec<T> as Collection>::entries(row)[key] == row[key as int]
            &&& forall|i: int|
                key <= i < row.len() - 1 ==> #[trigger] row.remove(key as int)[i] == row[i + 1]
            &&& forall|i: int| 0 <= i < key ==> #[trigger] row.remove(key as int)[i] == row[i]
        },
        key >= row.len() ==> {
            &&& <Vec<T> as Collection>::removed(row, key) == row
            &&& !<Vec<T> as Collection>::entries(row).contains_key(key)
        },
{
}

/// A growable array enumerates its positions in ascending order, so there is
/// one enumeration of its keys only.
pub proof fn law_array_key_order<T>(row: Seq<T>, first: Seq<usize>, second: Seq<usize>)
    requires
        <Vec<T> as Collection>::key_order(row, first),
        <Vec<T> as Collection>::key_order(row, second),
    ensures
        first == second,
{
    assert(first =~= second);
}

impl<T> SequentialCollection for Vec<T> {
    open spec fn pushed(model: Seq<T>, value: T) -> Seq<T> {
        model.push(value)
    }

    proof fn law_positions(model: Seq<T>) {
        lemma_indexed(model);
    }

    proof fn law_pushed(model: Seq<T>, value: T) {
        lemma_indexed(model);
        lemma_indexed(model.push(value));
        if model.len() <= usize::MAX {
            let end = model.len() as usize;
            assert(Self::entries(Self::pushed(model, value)).contains_key(end));
            assert(Self::entries(Self::pushed(model, value))[end] == value);
        }
    }

    fn push(&mut self, value: T) {
        self.push(value);
    }

    fn pop(&mut self) -> (popped: Option<T>) {
        proof {
            assert(self@.len() == self.len());
            lemma_indexed(self@);
        }
        let popped = self.pop();
        proof {
            let n = old(self)@.len();
            if n > 0 {
                assert(old(self)@.subrange(0, n - 1) =~= old(self)@.remove(n - 1));
            }
        }
        popped
    }

    fn first(&self) -> (head: Option<&T>) {
        proof {
            assert(self@.len() == self.len());
            lemma_indexed(self@);
        }
        if self.len() == 0 {
            None
        } else {
            Some(&self[0])
        }
    }

    fn swap(&mut self, key1: &usize, key2: &usize) {
        if *key1 < self.len() && *key2 < self.len() {
            exchange(self, *key1, *key2);
        }
    }
}

} // verus!
