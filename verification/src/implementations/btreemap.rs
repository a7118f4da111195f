//! The ordered map as a keyed container. Its keys are stable, and it
//! enumerates them in ascending order.

use crate::collection_trait::{duplicate, exact_keys, Collection};
use crate::implementations::hashmap::{enumerates, lemma_walk_enumerates};
use std::collections::BTreeMap;
use vstd::laws_cmp::obeys_cmp;
use vstd::prelude::*;
use vstd::std_specs::btree::*;
use vstd::std_specs::cmp::OrdSpec;
use vstd::std_specs::iter::IteratorSpec;

verus! {

/// Whether `a` sorts strictly before `b`.
pub open spec fn precedes<K: Ord>(a: K, b: K) -> bool {
    a.cmp_spec(&b) is Less
}

/// Whether each key of `order` sorts strictly before every later one.
pub open spec fn ascending<K: Ord>(order: Seq<K>) -> bool {
    forall|i: int, j: int| 0 <= i < j < order.len() ==> precedes(order[i], order[j])
}

/// `BTreeMap::get_mut` of std: exclusive access to the value stored under `key`,
/// or nothing where the map has no such key. Writing through the reference
/// changes that one value; the map is otherwise left as it was.
#[verifier::external_body]
fn slot_of<'a, K: Ord, V>(map: &'a mut BTreeMap<K, V>, key: &K) -> (slot: Option<&'a mut V>)
    ensures
        obeys_cmp::<K>() ==> match slot {
            Some(element) => {
                &&& old(map)@.contains_key(*key)
                &&& *element == old(map)@[*key]
                &&& final(map)@ == old(map)@.insert(*key, *final(element))
            },
            None => {
                &&& !old(map)@.contains_key(*key)
                &&& final(map)@ == old(map)@
            },
        },
{
    map.get_mut(key)
}

impl<K: Ord + Clone, V> Collection for BTreeMap<K, V> {
    type Key = K;

    type Value = V;

    /// The map's keys are totally ordered, and compare and duplicate as the
    /// values they are.
    open spec fn wf(&self) -> bool {
        &&& obeys_cmp::<K>()
        &&& exact_keys::<K>()
    }

    open spec fn valid(model: Map<K, V>) -> bool {
        model.dom().finite()
    }

    open spec fn entries(model: Map<K, V>) -> Map<K, V> {
        model
    }

    open spec fn key_order(model: Map<K, V>, order: Seq<K>) -> bool {
        &&& enumerates(model, order)
        &&& ascending(order)
    }

    open spec fn inserted(model: Map<K, V>, key: K, value: V) -> Map<K, V> {
        model.insert(key, value)
    }

    open spec fn removed(model: Map<K, V>, key: K) -> Map<K, V> {
        model.remove(key)
    }

    open spec fn cleared(model: Map<K, V>) -> Map<K, V> {
        Map::empty()
    }

    proof fn law_wf_valid(&self) {
    }

    proof fn law_entries_finite(model: Map<K, V>) {
    }

    proof fn law_key_order(model: Map<K, V>, order: Seq<K>) {
    }

    proof fn law_inserted(model: Map<K, V>, key: K, value: V) {
    }

    proof fn law_removed(model: Map<K, V>, key: K) {
        if !model.contains_key(key) {
            assert(model.remove(key) =~= model);
        }
    }

    proof fn law_cleared(model: Map<K, V>) {
    }

    fn get(&self, key: &K) -> (found: Option<&V>) {
        self.get(key)
    }

    fn get_mut(&mut self, key: &K) -> (slot: Option<&mut V>) {
        slot_of(self, key)
    }

    fn set(&mut self, key: K, value: V) -> (updated: bool) {
        if self.get(&key).is_some() {
            self.insert(key, value);
            true
        } else {
            false
        }
    }

    fn insert(&mut self, key: K, value: V) -> (displaced: Option<V>) {
        self.insert(key, value)
    }

    fn remove(&mut self, key: &K) -> (taken: Option<V>) {
        self.remove(key)
    }

    fn keys(&self) -> (order: Vec<K>) {
        let mut order: Vec<K> = Vec::new();
        for key in iter: self.keys()
            invariant
                self.wf(),
                iter.seq() == spec_keys_iter(self).remaining(),
                order@.len() == iter.index(),
                forall|j: int| 0 <= j < order@.len() ==> order@[j] == *iter.seq()[j],
        {
            order.push(duplicate(key));
        }
        proof {
            let walked = spec_keys_iter(self).remaining();
            lemma_walk_enumerates(self@, walked, order@);
            assert(obeys_cmp::<&K>());
            assert(increasing_seq(walked));
            axiom_increasing_seq_meaning::<&K>(walked);
            assert forall|i: int, j: int| 0 <= i < j < order@.len() implies precedes(
                order@[i],
                order@[j],
            ) by {
                assert(precedes::<&K>(walked[i], walked[j]));
            }
        }
        order
    }

    fn len(&self) -> (count: usize) {
        self.len()
    }

    fn clear(&mut self) {
        self.clear();
    }
}

/// What `set` and `insert` do to an ordered map under a key that it lacks:
/// `set` leaves the map as it is, `insert` adds the key; neither has an element
/// to find there before.
pub proof fn law_tree_absent_key<K: Ord + Clone, V>(map: Map<K, V>, key: K, value: V)
    requires
        !map.contains_key(key),
    ensures
        !<BTreeMap<K, V> as Collection>::entries(map).contains_key(key),
        <BTreeMap<K, V> as Collection>::inserted(map, key, value) == map.insert(key, value),
        <BTreeMap<K, V> as Collection>::entries(
            <BTreeMap<K, V> as Collection>::inserted(map, key, value),
        ).contains_key(key),
{
}

/// The keys of an ordered map are stable: removing one key leaves every other
/// key with its element.
pub proof fn law_tree_stable_keys<K: Ord + Clone, V>(map: Map<K, V>, key: K, other: K)
    requires
        other != key,
    ensures
        <BTreeMap<K, V> as Collection>::entries(
            <BTreeMap<K, V> as Collection>::removed(map, key),
        ).contains_key(other) == map.contains_key(other),
        map.contains_key(other) ==> <BTreeMap<K, V> as Collection>::entries(
            <BTreeMap<K, V> as Collection>::removed(map, key),
        )[other] == map[other],
{
}

} // verus!
