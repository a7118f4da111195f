//! The hash map as a keyed container. Its keys are stable: no operation on one
//! key moves another. The order in which it enumerates its keys is its own
//! affair and may differ from one map to the next.

use crate::collection_trait::{duplicate, exact_keys, Collection};
use std::collections::hash_map::Entry;
use std::collections::HashMap;
use std::hash::Hash;
use vstd::prelude::*;
use vstd::std_specs::hash::*;
use vstd::std_specs::iter::IteratorSpec;

verus! {

/// Whether `order` names every key of `map` once and nothing else.
pub open spec fn enumerates<K, V>(map: Map<K, V>, order: Seq<K>) -> bool {
    &&& order.no_duplicates()
    &&& forall|k: K| order.contains(k) <==> map.contains_key(k)
}

/// A walk over the keys of a map that meets each key once yields, key by key,
/// an enumeration of the map's keys.
pub proof fn lemma_walk_enumerates<K, V>(map: Map<K, V>, walked: Seq<&K>, order: Seq<K>)
    requires
        walked.no_duplicates(),
        walked.unref().to_set() == map.dom(),
        order.len() == walked.len(),
        forall|j: int| 0 <= j < order.len() ==> order[j] == *walked[j],
    ensures
        enumerates(map, order),
{
    assert(order =~= walked.unref());
    assert forall|i: int, j: int|
        0 <= i < order.len() && 0 <= j < order.len() && i != j implies order[i] != order[j] by {
        assert(walked[i] != walked[j]);
    }
    assert forall|k: K| order.contains(k) == map.contains_key(k) by {
        assert(walked.unref().to_set().contains(k) == map.dom().contains(k));
    }
}

impl<K: Eq + Hash + Clone, V> Collection for HashMap<K, V> {
    type Key = K;

    type Value = V;

    /// The map's keys hash, compare and duplicate as the values they are.
    open spec fn wf(&self) -> bool {
        &&& obeys_key_model::<K>()
        &&& exact_keys::<K>()
    }

    open spec fn valid(model: Map<K, V>) -> bool {
        model.dom().finite()
    }

    open spec fn entries(model: Map<K, V>) -> Map<K, V> {
        model
    }

    open spec fn key_order(model: Map<K, V>, order: Seq<K>) -> bool {
        enumerates(model, order)
    }

    open spec fn inserted(model: Map<K, V>, key: K, value: V) -> Map<K, V> {
        model.insert(key, value)
    }

    open spec fn removed(model: Map<K, V>, key: K) -> Map<K, V> {
        model.remove(key)
    }

    open spec fn cleared(model: Map<K, V>) -> Map<K, V> {
        Map::empty()
    }

    proof fn law_wf_valid(&self) {
    }

    proof fn law_entries_finite(model: Map<K, V>) {
    }

    proof fn law_key_order(model: Map<K, V>, order: Seq<K>) {
    }

    proof fn law_inserted(model: Map<K, V>, key: K, value: V) {
    }

    proof fn law_removed(model: Map<K, V>, key: K) {
        if !model.contains_key(key) {
            assert(model.remove(key) =~= model);
        }
    }

    proof fn law_cleared(model: Map<K, V>) {
    }

    fn get(&self, key: &K) -> (found: Option<&V>) {
        self.get(key)
    }

    fn get_mut(&mut self, key: &K) -> (slot: Option<&mut V>) {
        let ghost before = self@;
        match self.entry(duplicate(key)) {
            Entry::Occupied(occupied) => Some(occupied.into_mut()),
            Entry::Vacant(_) => {
                assert(before.remove(*key) =~= before);
                None
            },
        }
    }

    fn set(&mut self, key: K, value: V) -> (updated: bool) {
        let ghost before = self@;
        match self.entry(key) {
            Entry::Occupied(mut occupied) => {
                occupied.insert(value);
                true
            },
            Entry::Vacant(_) => {
                assert(before.remove(key) =~= before);
                false
            },
        }
    }

    fn insert(&mut self, key: K, value: V) -> (displaced: Option<V>) {
        self.insert(key, value)
    }

    fn remove(&mut self, key: &K) -> (taken: Option<V>) {
        self.remove(key)
    }

    fn keys(&self) -> (order: Vec<K>) {
        let mut order: Vec<K> = Vec::new();
        for key in iter: self.keys()
            invariant
                self.wf(),
                iter.seq() == spec_keys_iter(self).remaining(),
                order@.len() == iter.index(),
                forall|j: int| 0 <= j < order@.len() ==> order@[j] == *iter.seq()[j],
        {
            order.push(duplicate(key));
        }
        proof {
            lemma_walk_enumerates(self@, spec_keys_iter(self).remaining(), order@);
        }
        order
    }

    fn len(&self) -> (count: usize) {
        self.len()
    }

    fn is_empty(&self) -> (empty: bool) {
        proof {
            if self@.len() == 0 {
                assert(self@.dom() =~= Set::<K>::empty());
            }
        }
        self.is_empty()
    }

    fn clear(&mut self) {
        self.clear();
    }
}

/// What `set` and `insert` do to a hash map under a key that it lacks: `set`
/// leaves the map as it is, `insert` adds the key; neither has an element to
/// find there before.
pub proof fn law_map_absent_key<K: Eq + Hash + Clone, V>(map: Map<K, V>, key: K, value: V)
    requires
        !map.contains_key(key),
    ensures
        !<HashMap<K, V> as Collection>::entries(map).contains_key(key),
        <HashMap<K, V> as Collection>::inserted(map, key, value) == map.insert(key, value),
        <HashMap<K, V> as Collection>::entries(
            <HashMap<K, V> as Collection>::inserted(map, key, value),
        ).contains_key(key),
{
}

/// The keys of a hash map are stable: removing one key leaves every other key
/// with its element.
pub proof fn law_map_stable_keys<K: Eq + Hash + Clone, V>(map: Map<K, V>, key: K, other: K)
    requires
        other != key,
    ensures
        <HashMap<K, V> as Collection>::entries(
            <HashMap<K, V> as Collection>::removed(map, key),
        ).contains_key(other) == map.contains_key(other),
        map.contains_key(other) ==> <HashMap<K, V> as Collection>::entries(
            <HashMap<K, V> as Collection>::removed(map, key),
        )[other] == map[other],
{
}

} // verus!
