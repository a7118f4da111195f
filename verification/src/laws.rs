//! What holds of every container that satisfies the contract.

use crate::collection_store::{
    first_marked_selected, is_first, marks_equal, scanned_to_first, CollectionStore,
};
use crate::collection_trait::{folded, Collection};
use crate::error::CollectionError;
use vstd::prelude::*;
use vstd::std_specs::cmp::PartialEqSpec;

verus! {

/// The model reached from `model` by inserting `pairs` one after another, first
/// pair first: what `extend` leads to.
pub open spec fn extended<C: Collection>(model: C::V, pairs: Seq<(C::Key, C::Value)>) -> C::V {
    folded(|m: C::V, k: C::Key, v: C::Value| C::inserted(m, k, v), model, pairs)
}

/// Whether `last` is the position of the last pair of `pairs` with the key
/// `key`.
pub open spec fn is_last_with<K, V>(pairs: Seq<(K, V)>, key: K, last: int) -> bool {
    &&& 0 <= last < pairs.len()
    &&& pairs[last].0 == key
    &&& forall|i: int| last < i < pairs.len() ==> pairs[i].0 != key
}

/// Extending by no pair changes nothing, and extending by one pair more is
/// one more insert: `extend` is repeated `insert`, in the order of the pairs.
pub proof fn law_extend_is_repeated_insert<C: Collection>(
    model: C::V,
    pairs: Seq<(C::Key, C::Value)>,
    key: C::Key,
    value: C::Value,
)
    ensures
        extended::<C>(model, Seq::empty()) == model,
        extended::<C>(model, pairs.push((key, value))) == C::inserted(
            extended::<C>(model, pairs),
            key,
            value,
        ),
{
    assert(pairs.push((key, value)).drop_last() =~= pairs);
}

/// Extending a valid model leads to a valid model that has lost no key.
pub proof fn law_extend_keeps_keys<C: Collection>(model: C::V, pairs: Seq<(C::Key, C::Value)>)
    requires
        C::valid(model),
    ensures
        C::valid(extended::<C>(model, pairs)),
        C::entries(model).dom().subset_of(C::entries(extended::<C>(model, pairs)).dom()),
    decreases pairs.len(),
{
    if pairs.len() > 0 {
        let earlier = extended::<C>(model, pairs.drop_last());
        law_extend_keeps_keys::<C>(model, pairs.drop_last());
        C::law_inserted(earlier, pairs.last().0, pairs.last().1);
    }
}

/// Extending leaves the element of every key alone that none of the pairs
/// names: such a key holds afterwards what it held before, or nothing as
/// before.
pub proof fn law_extend_leaves_others<C: Collection>(
    model: C::V,
    pairs: Seq<(C::Key, C::Value)>,
    key: C::Key,
)
    requires
        C::valid(model),
        forall|i: int| 0 <= i < pairs.len() ==> pairs[i].0 != key,
    ensures
        C::entries(extended::<C>(model, pairs)).contains_key(key) == C::entries(
            model,
        ).contains_key(key),
        C::entries(model).contains_key(key) ==> C::entries(extended::<C>(model, pairs))[key]
            == C::entries(model)[key],
    decreases pairs.len(),
{
    if pairs.len() > 0 {
        let earlier = extended::<C>(model, pairs.drop_last());
        law_extend_leaves_others::<C>(model, pairs.drop_last(), key);
        law_extend_keeps_keys::<C>(model, pairs.drop_last());
        C::law_inserted(earlier, pairs.last().0, pairs.last().1);
    }
}

/// Among pairs with the same key the last one wins: where a key that the
/// pairs name holds an element after extending, it is the element of the last
/// pair with that key.
pub proof fn law_extend_later_wins<C: Collection>(
    model: C::V,
    pairs: Seq<(C::Key, C::Value)>,
    key: C::Key,
    last: int,
)
    requires
        C::valid(model),
        is_last_with(pairs, key, last),
    ensures
        C::entries(extended::<C>(model, pairs)).contains_key(key) ==> C::entries(
            extended::<C>(model, pairs),
        )[key] == pairs[last].1,
    decreases pairs.len(),
{
    let earlier = extended::<C>(model, pairs.drop_last());
    law_extend_keeps_keys::<C>(model, pairs.drop_last());
    C::law_inserted(earlier, pairs.last().0, pairs.last().1);
    if last + 1 < pairs.len() {
        assert(is_last_with(pairs.drop_last(), key, last));
        law_extend_later_wins::<C>(model, pairs.drop_last(), key, last);
    }
}

/// Removing one key keeps the selection on another wherever the container
/// leaves every other key in place, as a map does. A container that is
/// addressed by position moves its later elements down instead, and a
/// selection on its last position goes with the position.
pub proof fn law_remove_keeps_selection<C: Collection>(
    before: CollectionStore<C>,
    after: CollectionStore<C>,
    key: C::Key,
) where C::Key: Clone + PartialEq
    requires
        before.selection_valid(),
        after.model() == C::removed(before.model(), key),
        after.selection() == (match before.selection() {
            Some(selected) => if selected != key && after.entries().contains_key(selected) {
                Some(selected)
            } else {
                None
            },
            None => None,
        }),
        forall|other: C::Key|
            other != key && before.entries().contains_key(other) ==> C::entries(
                C::removed(before.model(), key),
            ).contains_key(other),
    ensures
        before.selection() != Some(key) ==> after.selection() == before.selection(),
        after.selection_valid(),
{
}

/// Selecting by value selects the first key, in the order of the keys, whose
/// element equals the value, and finds no key where no element does. This is
/// said of element types whose `==` is specified; of other element types
/// nothing is known about which elements are equal.
pub proof fn law_first_equal_selected<C: Collection>(
    model: C::V,
    before: Option<C::Key>,
    order: Seq<C::Key>,
    flags: Seq<bool>,
    value: C::Value,
    outcome: Result<(), CollectionError>,
    after: Option<C::Key>,
) where C::Value: PartialEq
    requires
        C::valid(model),
        C::key_order(model, order),
        marks_equal(C::entries(model), order, flags, value),
        scanned_to_first(order, flags),
        first_marked_selected(C::entries(model), before, order, flags, outcome, after),
        C::Value::obeys_eq_spec(),
    ensures
        forall|first: int|
            0 <= first < order.len() && #[trigger] C::entries(model)[order[first]].eq_spec(&value)
                && (forall|j: int|
                0 <= j < first ==> !C::entries(model)[order[j]].eq_spec(&value)) ==> outcome is Ok
                && after == Some(order[first]),
        (forall|i: int| 0 <= i < order.len() ==> !C::entries(model)[order[i]].eq_spec(&value))
            ==> outcome == Err::<(), CollectionError>(CollectionError::KeyNotFound) && after
            == before,
{
    C::law_key_order(model, order);
    assert forall|first: int|
        0 <= first < order.len() && #[trigger] C::entries(model)[order[first]].eq_spec(&value)
            && (forall|j: int|
            0 <= j < first ==> !C::entries(model)[order[j]].eq_spec(&value)) implies outcome is Ok
        && after == Some(order[first]) by {
        if first >= flags.len() {
            assert(forall|i: int| 0 <= i < flags.len() ==> !flags[i]);
        }
        assert(flags[first]);
        assert(is_first(flags, first));
        assert(order.contains(order[first]));
    }
}

} // verus!
