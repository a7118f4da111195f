//! The handle on one element of a store.
//!
//! A handle is a key and nothing more. It owns no element and keeps no
//! reference: every access names the store and looks the key up again, so a
//! handle whose element was removed is found out at the access, and reported.
//!
//! Keys are taken as the store's container takes them. Where the container
//! addresses its elements by position, a handle made before a removal may
//! afterwards address the element that moved into its place.

use crate::collection_store::CollectionStore;
use crate::collection_trait::{duplicate, exact_keys, Collection};
use crate::error::CollectionError;
use vstd::prelude::*;
use vstd::std_specs::cmp::{PartialEqSpec, PartialEqSpecImpl};

verus! {

/// A handle on the element that a store keeps under one key.
#[derive(Debug)]
pub struct CollectionItem<C: Collection> {
    key: C::Key,
}

impl<C: Collection> CollectionItem<C> {
    /// The key that the handle addresses.
    pub closed spec fn id(&self) -> C::Key {
        self.key
    }

    /// A handle on whatever is kept under `key`.
    pub fn at(key: C::Key) -> (item: Self)
        ensures
            item.id() == key,
    {
        CollectionItem { key }
    }
}

impl<C: Collection> Clone for CollectionItem<C> where C::Key: Clone + PartialEq {
    /// A second handle on the same key.
    fn clone(&self) -> (copy: Self)
        ensures
            exact_keys::<C::Key>() ==> copy.id() == self.id(),
    {
        let key = self.key.clone();
        assert(cloned(self.key, key));
        CollectionItem { key }
    }
}

impl<C: Collection> PartialEq for CollectionItem<C> where C::Key: PartialEq {
    /// Two handles are equal where their keys are.
    fn eq(&self, other: &Self) -> (equal: bool) {
        self.key == other.key
    }
}

impl<C: Collection> PartialEqSpecImpl for CollectionItem<C> where C::Key: PartialEq {
    open spec fn obeys_eq_spec() -> bool {
        C::Key::obeys_eq_spec()
    }

    open spec fn eq_spec(&self, other: &Self) -> bool {
        self.id().eq_spec(&other.id())
    }
}

impl<C: Collection> CollectionItem<C> where C::Key: Clone + PartialEq {

    /// The key of this handle. The container is not looked at.
    pub fn key(&self) -> (key: C::Key)
        requires
            exact_keys::<C::Key>(),
        ensures
            key == self.id(),
    {
        duplicate(&self.key)
    }

    /// The element, looked up in `store` now. A handle whose key holds no
    /// element is an invalid access.
    pub fn read<'a>(&self, store: &'a CollectionStore<C>) -> (outcome: Result<
        &'a C::Value,
        CollectionError,
    >)
        requires
            store.wf(),
        ensures
            store.entries().contains_key(self.id()) ==> outcome == Ok::<
                &C::Value,
                CollectionError,
            >(&store.entries()[self.id()]),
            !store.entries().contains_key(self.id()) ==> crate::collection_store::is_vanished(
                outcome,
            ),
    {
        store.read(&self.key)
    }

    /// The element, looked up in `store` now, exactly as `read` does.
    pub fn peek<'a>(&self, store: &'a CollectionStore<C>) -> (outcome: Result<
        &'a C::Value,
        CollectionError,
    >)
        requires
            store.wf(),
        ensures
            store.entries().contains_key(self.id()) ==> outcome == Ok::<
                &C::Value,
                CollectionError,
            >(&store.entries()[self.id()]),
            !store.entries().contains_key(self.id()) ==> crate::collection_store::is_vanished(
                outcome,
            ),
    {
        store.peek(&self.key)
    }

    /// Exclusive access to the element, looked up in `store` now. What the
    /// caller leaves in the slot is what the store holds afterwards. A handle
    /// whose key holds no element is an invalid access, and nothing changes.
    pub fn write<'a>(&self, store: &'a mut CollectionStore<C>) -> (outcome: Result<
        &'a mut C::Value,
        CollectionError,
    >)
        requires
            old(store).wf(),
        ensures
            final(store).wf(),
            final(store).selection() == old(store).selection(),
            match outcome {
                Ok(element) => {
                    &&& old(store).entries().contains_key(self.id())
                    &&& *element == old(store).entries()[self.id()]
                    &&& final(store).model() == C::inserted(
                        old(store).model(),
                        self.id(),
                        *final(element),
                    )
                },
                Err(error) => {
                    &&& !old(store).entries().contains_key(self.id())
                    &&& error matches CollectionError::InvalidAccess { reason }
                    &&& reason@ == crate::collection_store::vanished_reason()
                    &&& final(store).model() == old(store).model()
                },
            },
    {
        store.write(&self.key)
    }

    /// The key together with a clone of the element, looked up in `store` now.
    /// A handle whose key holds no element is an invalid access.
    pub fn kv(&self, store: &CollectionStore<C>) -> (outcome: Result<
        (C::Key, C::Value),
        CollectionError,
    >) where C::Value: Clone
        requires
            store.wf(),
        ensures
            match outcome {
                Ok(pair) => {
                    &&& store.entries().contains_key(self.id())
                    &&& pair.0 == self.id()
                    &&& cloned(store.entries()[self.id()], pair.1)
                },
                Err(error) => {
                    &&& !store.entries().contains_key(self.id())
                    &&& error matches CollectionError::InvalidAccess { reason }
                    &&& reason@ == crate::collection_store::vanished_reason()
                },
            },
    {
        proof {
            store.lemma_wf();
        }
        match store.read(&self.key) {
            Ok(element) => Ok((duplicate(&self.key), element.clone())),
            Err(error) => Err(error),
        }
    }

    /// Replaces the element in `store`. Where the key holds no element, nothing
    /// happens.
    pub fn set(&self, store: &mut CollectionStore<C>, value: C::Value)
        requires
            old(store).wf(),
        ensures
            final(store).wf(),
            final(store).selection() == old(store).selection(),
            final(store).model() == (if old(store).entries().contains_key(self.id()) {
                C::inserted(old(store).model(), self.id(), value)
            } else {
                old(store).model()
            }),
    {
        proof {
            store.lemma_wf();
        }
        store.set(duplicate(&self.key), value);
    }

    /// Whether this handle addresses the selected element of `store`.
    pub fn is_selected(&self, store: &CollectionStore<C>) -> (selected: bool)
        requires
            store.wf(),
        ensures
            selected == (store.selection() == Some(self.id())),
    {
        store.is_selected_key(&self.key)
    }

    /// Selects the element in `store`. Where the key holds no element, the
    /// selection stays as it was.
    pub fn select(&self, store: &mut CollectionStore<C>) -> (outcome: Result<(), CollectionError>)
        requires
            old(store).wf(),
        ensures
            final(store).wf(),
            final(store).model() == old(store).model(),
            old(store).entries().contains_key(self.id()) ==> outcome is Ok
                && final(store).selection() == Some(self.id()),
            !old(store).entries().contains_key(self.id()) ==> outcome == Err::<
                (),
                CollectionError,
            >(CollectionError::KeyNotFound) && final(store).selection() == old(store).selection(),
    {
        store.select(&self.key)
    }

    /// Removes the element from `store` and hands it back, if there is one.
    /// The selection is dropped where it was the selected element, and where
    /// the selected key holds no element once the removal is done.
    pub fn remove(&self, store: &mut CollectionStore<C>) -> (taken: Option<C::Value>)
        requires
            old(store).wf(),
        ensures
            final(store).wf(),
            final(store).model() == C::removed(old(store).model(), self.id()),
            taken == (if old(store).entries().contains_key(self.id()) {
                Some(old(store).entries()[self.id()])
            } else {
                None
            }),
            final(store).selection() == (match old(store).selection() {
                Some(selected) => if selected != self.id() && final(store).entries().contains_key(
                    selected,
                ) {
                    Some(selected)
                } else {
                    None
                },
                None => None,
            }),
    {
        store.remove(&self.key)
    }
}

} // verus!
