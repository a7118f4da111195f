//! The store: one container together with at most one selected key.
//!
//! The store passes every operation on elements through to its container and
//! keeps the selection in step, so that a selected key always holds an
//! element: selecting asks that the key holds one, clearing drops the
//! selection, and removing and popping drop it where the selected key is the
//! removed one or holds no element once the elements have moved.

use crate::collection_item::CollectionItem;
use crate::collection_trait::{duplicate, exact_keys, same, Collection, SequentialCollection};
use crate::error::CollectionError;
use crate::laws::{extended, law_extend_keeps_keys};
use vstd::prelude::*;
use vstd::std_specs::cmp::PartialEqSpec;
use vstd::string::{to_string_from_display_ensures, StringExecFns};

verus! {

/// What an access says of a key that holds no element.
pub open spec fn vanished_reason() -> Seq<char> {
    "the key does not exist in the collection"@
}

/// Whether `outcome` reports an access to a key that holds no element.
pub open spec fn is_vanished<T>(outcome: Result<T, CollectionError>) -> bool {
    outcome matches Err(CollectionError::InvalidAccess { reason }) && reason@ == vanished_reason()
}

/// The error for an access to a key that holds no element.
fn vanished() -> (error: CollectionError)
    ensures
        error matches CollectionError::InvalidAccess { reason } && reason@ == vanished_reason(),
{
    CollectionError::InvalidAccess {
        reason: String::from_str("the key does not exist in the collection"),
    }
}

/// Whether position `i` is the first that `flags` marks.
pub open spec fn is_first(flags: Seq<bool>, i: int) -> bool {
    &&& 0 <= i < flags.len()
    &&& flags[i]
    &&& forall|j: int| 0 <= j < i ==> !flags[j]
}

/// Whether `outcome` and the selection `after` are what selecting the first
/// marked key of `order` leads to, from the selection `before` and with the
/// elements `present`: the first marked key is selected if it holds an element;
/// where no key is marked, or the first marked key holds none, the key is not
/// found and the selection stays. A flag without a key marks nothing, and a
/// key without a flag is not marked.
pub open spec fn first_marked_selected<K, V>(
    present: Map<K, V>,
    before: Option<K>,
    order: Seq<K>,
    flags: Seq<bool>,
    outcome: Result<(), CollectionError>,
    after: Option<K>,
) -> bool {
    &&& (forall|i: int| 0 <= i < flags.len() && i < order.len() ==> !flags[i]) ==> outcome
        == Err::<(), CollectionError>(CollectionError::KeyNotFound) && after == before
    &&& forall|i: int| #[trigger]
        is_first(flags, i) && i < order.len() ==> (if present.contains_key(order[i]) {
            outcome is Ok && after == Some(order[i])
        } else {
            outcome == Err::<(), CollectionError>(CollectionError::KeyNotFound) && after == before
        })
}

/// Whether a scan of `order` that left `flags` behind went far enough: it
/// stopped at a key or at the end, and it did not stop before a key was marked.
pub open spec fn scanned_to_first<K>(order: Seq<K>, flags: Seq<bool>) -> bool {
    &&& flags.len() <= order.len()
    &&& (forall|i: int| 0 <= i < flags.len() ==> !flags[i]) ==> flags.len() == order.len()
}

/// Whether `flags` marks, among the keys of `order` that were looked at, those
/// whose element equals `value`, as far as equality of elements is specified
/// at all.
pub open spec fn marks_equal<K, V: PartialEq>(
    present: Map<K, V>,
    order: Seq<K>,
    flags: Seq<bool>,
    value: V,
) -> bool {
    &&& flags.len() <= order.len()
    &&& V::obeys_eq_spec() ==> forall|i: int|
        0 <= i < flags.len() ==> flags[i] == present[order[i]].eq_spec(&value)
}

/// Whether `texts` holds a rendering of the element of each key of `order` that
/// was looked at, and `flags` marks the keys whose rendering is `wanted`.
pub open spec fn marks_rendered<K, V: std::fmt::Display>(
    present: Map<K, V>,
    order: Seq<K>,
    texts: Seq<String>,
    flags: Seq<bool>,
    wanted: Seq<char>,
) -> bool {
    &&& texts.len() == flags.len()
    &&& flags.len() <= order.len()
    &&& forall|i: int|
        0 <= i < flags.len() ==> to_string_from_display_ensures::<V>(
            &present[order[i]],
            #[trigger] texts[i],
        )
    &&& forall|i: int| 0 <= i < flags.len() ==> flags[i] == (texts[i]@ == wanted)
}

/// The keys that a row of handles addresses.
pub open spec fn ids<C: Collection>(handles: Seq<CollectionItem<C>>) -> Seq<C::Key> where
    C::Key: Clone + PartialEq,
{
    Seq::new(handles.len(), |i: int| handles[i].id())
}

/// A container and the key of its selected element, if one is selected.
#[derive(Debug)]
pub struct CollectionStore<C: Collection> {
    items: C,
    selected_key: Option<C::Key>,
}

impl<C: Collection> CollectionStore<C> where C::Key: Clone + PartialEq {
    /// The model of the container that the store holds.
    pub closed spec fn model(&self) -> C::V {
        self.items@
    }

    /// The selected key, if an element is selected.
    pub closed spec fn selection(&self) -> Option<C::Key> {
        self.selected_key
    }

    /// The container is well formed, and its keys compare and duplicate
    /// exactly.
    pub closed spec fn container_wf(&self) -> bool {
        &&& self.items.wf()
        &&& exact_keys::<C::Key>()
    }

    /// The store's invariant: a sound container, and a selection that names an
    /// element of it, if there is a selection at all.
    pub open spec fn wf(&self) -> bool {
        &&& self.container_wf()
        &&& self.selection_valid()
    }

    /// The elements of the store, by key.
    pub open spec fn entries(&self) -> Map<C::Key, C::Value> {
        C::entries(self.model())
    }

    /// Whether the selection, if there is one, names an element of the store.
    pub open spec fn selection_valid(&self) -> bool {
        self.selection() matches Some(key) ==> self.entries().contains_key(key)
    }

    /// A sound container has a valid model and exact keys.
    pub proof fn lemma_wf(&self)
        requires
            self.container_wf(),
        ensures
            C::valid(self.model()),
            exact_keys::<C::Key>(),
    {
        self.items.law_wf_valid();
    }

    /// A store over `collection`, with nothing selected.
    pub fn new(collection: C) -> (store: Self)
        requires
            collection.wf(),
            exact_keys::<C::Key>(),
        ensures
            store.wf(),
            store.model() == collection@,
            store.selection() is None,
    {
        CollectionStore { items: collection, selected_key: None }
    }

    /// How many elements there are.
    pub fn len(&self) -> (count: usize)
        requires
            self.wf(),
        ensures
            count == self.entries().len(),
    {
        self.items.len()
    }

    /// Whether there is no element.
    pub fn is_empty(&self) -> (empty: bool)
        requires
            self.wf(),
        ensures
            empty == (self.entries().len() == 0),
    {
        self.items.is_empty()
    }

    /// The container, to look at.
    pub fn items(&self) -> (container: &C)
        requires
            self.wf(),
        ensures
            container.wf(),
            container@ == self.model(),
    {
        &self.items
    }

    /// The container, to work on directly. The store does not see what is done
    /// to it: the selection stays as it is, and the store is well formed
    /// afterwards only if the container is and the selected key, if any, still
    /// holds an element. Where it does not, `clear_selection` mends the store.
    pub fn items_mut(&mut self) -> (container: &mut C)
        requires
            old(self).wf(),
        ensures
            container.wf(),
            container@ == old(self).model(),
            final(self).model() == final(container)@,
            final(self).selection() == old(self).selection(),
            final(container).wf() ==> final(self).container_wf(),
    {
        &mut self.items
    }

    /// A handle on whatever is kept under `key`. Whether the key holds an
    /// element is found out when the handle is used.
    pub fn get(&self, key: &C::Key) -> (item: CollectionItem<C>)
        requires
            self.wf(),
        ensures
            item.id() == *key,
    {
        CollectionItem::at(duplicate(key))
    }

    /// The element under `key`. A key that holds no element is an invalid
    /// access.
    pub fn read(&self, key: &C::Key) -> (outcome: Result<&C::Value, CollectionError>)
        requires
            self.wf(),
        ensures
            self.entries().contains_key(*key) ==> outcome == Ok::<&C::Value, CollectionError>(
                &self.entries()[*key],
            ),
            !self.entries().contains_key(*key) ==> is_vanished(outcome),
    {
        match self.items.get(key) {
            Some(element) => Ok(element),
            None => Err(vanished()),
        }
    }

    /// The element under `key`, exactly as `read` finds it.
    pub fn peek(&self, key: &C::Key) -> (outcome: Result<&C::Value, CollectionError>)
        requires
            self.wf(),
        ensures
            self.entries().contains_key(*key) ==> outcome == Ok::<&C::Value, CollectionError>(
                &self.entries()[*key],
            ),
            !self.entries().contains_key(*key) ==> is_vanished(outcome),
    {
        self.read(key)
    }

    /// Exclusive access to the element under `key`. What the caller leaves in
    /// the slot is what the store holds afterwards. A key that holds no element
    /// is an invalid access, and nothing changes.
    pub fn write(&mut self, key: &C::Key) -> (outcome: Result<&mut C::Value, CollectionError>)
        requires
            old(self).wf(),
        ensures
            final(self).wf(),
            final(self).selection() == old(self).selection(),
            match outcome {
                Ok(element) => {
                    &&& old(self).entries().contains_key(*key)
                    &&& *element == old(self).entries()[*key]
                    &&& final(self).model() == C::inserted(
                        old(self).model(),
                        *key,
                        *final(element),
                    )
                },
                Err(error) => {
                    &&& !old(self).entries().contains_key(*key)
                    &&& error matches CollectionError::InvalidAccess { reason }
                    &&& reason@ == vanished_reason()
                    &&& final(self).model() == old(self).model()
                },
            },
    {
        proof {
            self.lemma_wf();
        }
        let ghost before = self.model();
        match self.items.get_mut(key) {
            Some(element) => {
                proof {
                    C::law_inserted(before, *key, *final(element));
                }
                Ok(element)
            },
            None => Err(vanished()),
        }
    }

    /// A handle on the selected element, if an element is selected.
    pub fn selected(&self) -> (item: Option<CollectionItem<C>>)
        requires
            self.wf(),
        ensures
            match item {
                Some(handle) => self.selection() == Some(handle.id()),
                None => self.selection() is None,
            },
    {
        match &self.selected_key {
            Some(key) => Some(CollectionItem::at(duplicate(key))),
            None => None,
        }
    }

    /// Whether `key` holds an element.
    pub fn contains_key(&self, key: &C::Key) -> (present: bool)
        requires
            self.wf(),
        ensures
            present == self.entries().contains_key(*key),
    {
        self.items.get(key).is_some()
    }

    /// Whether `key` is the selected key.
    pub fn is_selected_key(&self, key: &C::Key) -> (selected: bool)
        requires
            self.wf(),
        ensures
            selected == (self.selection() == Some(*key)),
    {
        match &self.selected_key {
            Some(current) => same(current, key),
            None => false,
        }
    }

    /// Creates or replaces the element under `key`, and hands back the element
    /// it displaced. The selection is not touched.
    pub fn insert(&mut self, key: C::Key, value: C::Value) -> (displaced: Option<C::Value>)
        requires
            old(self).wf(),
        ensures
            final(self).wf(),
            final(self).selection() == old(self).selection(),
            final(self).model() == C::inserted(old(self).model(), key, value),
            displaced == (if old(self).entries().contains_key(key) {
                Some(old(self).entries()[key])
            } else {
                None
            }),
    {
        proof {
            self.lemma_wf();
            C::law_inserted(self.model(), key, value);
        }
        self.items.insert(key, value)
    }

    /// Replaces the element under `key`. Where the key holds no element,
    /// nothing happens. The selection is not touched.
    pub fn set(&mut self, key: C::Key, value: C::Value)
        requires
            old(self).wf(),
        ensures
            final(self).wf(),
            final(self).selection() == old(self).selection(),
            final(self).model() == (if old(self).entries().contains_key(key) {
                C::inserted(old(self).model(), key, value)
            } else {
                old(self).model()
            }),
    {
        proof {
            self.lemma_wf();
            C::law_inserted(self.model(), key, value);
        }
        self.items.set(key, value);
    }

    /// Removes the element under `key` and hands it back, if there is one. The
    /// selection is dropped where `key` is the selected key, and also where the
    /// selected key holds no element once the removal is done, as happens to a
    /// selected last position when the elements behind `key` move down.
    pub fn remove(&mut self, key: &C::Key) -> (taken: Option<C::Value>)
        requires
            old(self).wf(),
        ensures
            final(self).wf(),
            final(self).model() == C::removed(old(self).model(), *key),
            taken == (if old(self).entries().contains_key(*key) {
                Some(old(self).entries()[*key])
            } else {
                None
            }),
            final(self).selection() == (match old(self).selection() {
                Some(selected) => if selected != *key && final(self).entries().contains_key(
                    selected,
                ) {
                    Some(selected)
                } else {
                    None
                },
                None => None,
            }),
    {
        if self.is_selected_key(key) {
            self.clear_selection();
        }
        let taken = self.items.remove(key);
        let dangling = match &self.selected_key {
            Some(selected) => !self.items.contains_key(selected),
            None => false,
        };
        if dangling {
            self.selected_key = None;
        }
        taken
    }

    /// A handle on each element, in the order of a snapshot of the keys taken
    /// now. What happens to the store afterwards neither reorders nor resizes
    /// the row of handles; each handle looks its element up when it is used.
    pub fn iter(&self) -> (handles: Vec<CollectionItem<C>>)
        requires
            self.wf(),
        ensures
            C::key_order(self.model(), ids(handles@)),
    {
        let keys = self.items.keys();
        let mut handles: Vec<CollectionItem<C>> = Vec::new();
        for key in walk: keys
            invariant
                walk.seq() == keys@,
                handles@.len() == walk.index(),
                forall|j: int| 0 <= j < handles@.len() ==> handles@[j].id() == keys@[j],
        {
            handles.push(CollectionItem::at(key));
        }
        assert(ids(handles@) =~= keys@);
        handles
    }

    /// Selects the element under `key`. Where there is none, the selection stays
    /// as it was.
    pub fn select(&mut self, key: &C::Key) -> (outcome: Result<(), CollectionError>)
        requires
            old(self).wf(),
        ensures
            final(self).wf(),
            final(self).model() == old(self).model(),
            old(self).entries().contains_key(*key) ==> outcome is Ok && final(self).selection()
                == Some(*key),
            !old(self).entries().contains_key(*key) ==> outcome == Err::<(), CollectionError>(
                CollectionError::KeyNotFound,
            ) && final(self).selection() == old(self).selection(),
    {
        if self.contains_key(key) {
            self.selected_key = Some(duplicate(key));
            Ok(())
        } else {
            Err(CollectionError::KeyNotFound)
        }
    }

    /// Selects the first key of `keys` that `flags` marks, exactly as `select`
    /// on that key would. Where no key is marked, the key is not found and the
    /// selection stays as it was.
    pub fn select_first_marked(&mut self, keys: &Vec<C::Key>, flags: &Vec<bool>) -> (outcome:
        Result<(), CollectionError>)
        requires
            old(self).wf(),
        ensures
            final(self).wf(),
            final(self).model() == old(self).model(),
            first_marked_selected(
                old(self).entries(),
                old(self).selection(),
                keys@,
                flags@,
                outcome,
                final(self).selection(),
            ),
    {
        let mut i: usize = 0;
        while i < flags.len() && i < keys.len()
            invariant
                i <= flags@.len(),
                i <= keys@.len(),
                forall|j: int| 0 <= j < i ==> !flags@[j],
                self.wf(),
                *self == *old(self),
            decreases flags@.len() - i,
        {
            if flags[i] {
                assert(is_first(flags@, i as int));
                assert forall|j: int| is_first(flags@, j) implies j == i by {
                    if j < i {
                        assert(!flags@[j]);
                    } else if i < j {
                        assert(!flags@[i as int]);
                    }
                }
                return self.select(&keys[i]);
            }
            i += 1;
        }
        assert forall|j: int| is_first(flags@, j) && j < keys@.len() implies false by {
            assert(!flags@[j]);
        }
        Err(CollectionError::KeyNotFound)
    }

    /// Selects the first element, in the order of the keys, that equals `value`.
    /// Where no element does, the key is not found and the selection stays as
    /// it was. The elements are compared with `==` as the element type has it,
    /// one after another, and no further once one is equal.
    pub fn select_by_value(&mut self, value: &C::Value) -> (outcome: Result<
        (),
        CollectionError,
    >) where C::Value: PartialEq
        requires
            old(self).wf(),
        ensures
            final(self).wf(),
            final(self).model() == old(self).model(),
            exists|order: Seq<C::Key>, flags: Seq<bool>|
                {
                    &&& C::key_order(old(self).model(), order)
                    &&& marks_equal(old(self).entries(), order, flags, *value)
                    &&& scanned_to_first(order, flags)
                    &&& #[trigger] first_marked_selected(
                        old(self).entries(),
                        old(self).selection(),
                        order,
                        flags,
                        outcome,
                        final(self).selection(),
                    )
                },
    {
        let keys = self.items.keys();
        let mut flags: Vec<bool> = Vec::new();
        let mut found = false;
        let mut i: usize = 0;
        proof {
            self.lemma_wf();
            C::law_key_order(self.model(), keys@);
        }
        while i < keys.len() && !found
            invariant
                i <= keys@.len(),
                flags@.len() == i,
                self.wf(),
                *self == *old(self),
                forall|k: C::Key| keys@.contains(k) <==> self.entries().contains_key(k),
                found ==> i > 0 && flags@[i - 1],
                C::Value::obeys_eq_spec() ==> forall|j: int|
                    0 <= j < i ==> flags@[j] == self.entries()[keys@[j]].eq_spec(value),
            decreases keys@.len() - i,
        {
            assert(keys@.contains(keys@[i as int]));
            found = match self.items.get(&keys[i]) {
                Some(element) => *element == *value,
                None => false,
            };
            flags.push(found);
            i += 1;
        }
        assert(marks_equal(old(self).entries(), keys@, flags@, *value));
        assert(scanned_to_first(keys@, flags@));
        self.select_first_marked(&keys, &flags)
    }

    /// Selects the first element, in the order of the keys, whose rendering as
    /// text is `display_value`. Where no element renders so, the key is not found
    /// and the selection stays as it was. The elements are rendered as their
    /// type's `Display` has it, one after another, and no further once one
    /// renders so.
    pub fn select_by_display(&mut self, display_value: &str) -> (outcome: Result<
        (),
        CollectionError,
    >) where C::Value: std::fmt::Display
        requires
            old(self).wf(),
        ensures
            final(self).wf(),
            final(self).model() == old(self).model(),
            exists|order: Seq<C::Key>, texts: Seq<String>, flags: Seq<bool>|
                {
                    &&& C::key_order(old(self).model(), order)
                    &&& #[trigger] marks_rendered(
                        old(self).entries(),
                        order,
                        texts,
                        flags,
                        display_value@,
                    )
                    &&& scanned_to_first(order, flags)
                    &&& first_marked_selected(
                        old(self).entries(),
                        old(self).selection(),
                        order,
                        flags,
                        outcome,
                        final(self).selection(),
                    )
                },
    {
        let keys = self.items.keys();
        let wanted = String::from_str(display_value);
        let mut flags: Vec<bool> = Vec::new();
        let ghost mut texts: Seq<String> = Seq::empty();
        let mut found = false;
        let mut i: usize = 0;
        proof {
            self.lemma_wf();
            C::law_key_order(self.model(), keys@);
        }
        while i < keys.len() && !found
            invariant
                i <= keys@.len(),
                flags@.len() == i,
                texts.len() == i,
                wanted@ == display_value@,
                self.wf(),
                *self == *old(self),
                forall|k: C::Key| keys@.contains(k) <==> self.entries().contains_key(k),
                found ==> i > 0 && flags@[i - 1],
                forall|j: int|
                    0 <= j < i ==> to_string_from_display_ensures::<C::Value>(
                        &self.entries()[keys@[j]],
                        #[trigger] texts[j],
                    ),
                forall|j: int| 0 <= j < i ==> flags@[j] == (texts[j]@ == display_value@),
            decreases keys@.len() - i,
        {
            assert(keys@.contains(keys@[i as int]));
            match self.items.get(&keys[i]) {
                Some(element) => {
                    let text = element.to_string();
                    found = text == wanted;
                    proof {
                        texts = texts.push(text);
                    }
                },
                None => {
                    found = false;
                },
            }
            flags.push(found);
            i += 1;
        }
        assert(marks_rendered(old(self).entries(), keys@, texts, flags@, display_value@));
        assert(scanned_to_first(keys@, flags@));
        self.select_first_marked(&keys, &flags)
    }

    /// The selected key where it is kept, if an element is selected.
    pub fn selected_key_ref(&self) -> (key: &Option<C::Key>)
        ensures
            *key == self.selection(),
    {
        &self.selected_key
    }

    /// The selected key, if an element is selected.
    pub fn selected_key(&self) -> (key: Option<C::Key>)
        requires
            self.wf(),
        ensures
            key == self.selection(),
    {
        match &self.selected_key {
            Some(key) => Some(duplicate(key)),
            None => None,
        }
    }

    /// Drops the selection. A sound container is all it asks for, so that it
    /// also mends a store whose selected key lost its element behind the
    /// store's back.
    pub fn clear_selection(&mut self)
        requires
            old(self).container_wf(),
        ensures
            final(self).wf(),
            final(self).model() == old(self).model(),
            final(self).selection() is None,
    {
        self.selected_key = None;
    }

    /// Removes every element and drops the selection.
    pub fn clear(&mut self)
        requires
            old(self).wf(),
        ensures
            final(self).wf(),
            final(self).model() == C::cleared(old(self).model()),
            final(self).selection() is None,
    {
        self.items.clear();
        self.clear_selection();
    }

    /// Inserts each pair in turn, exactly as repeated calls of `insert` would: a
    /// later pair overrides an earlier one with the same key. The selection is
    /// not touched.
    pub fn extend(&mut self, items: Vec<(C::Key, C::Value)>)
        requires
            old(self).wf(),
        ensures
            final(self).wf(),
            final(self).selection() == old(self).selection(),
            final(self).model() == extended::<C>(old(self).model(), items@),
    {
        proof {
            self.lemma_wf();
            law_extend_keeps_keys::<C>(self.model(), items@);
        }
        self.items.extend(items);
    }
}

impl<C: SequentialCollection> CollectionStore<C> {
    /// Adds an element to the row, where the container puts it. The selection is
    /// not touched.
    pub fn push(&mut self, value: C::Value)
        requires
            old(self).wf(),
        ensures
            final(self).wf(),
            final(self).selection() == old(self).selection(),
            final(self).model() == C::pushed(old(self).model(), value),
    {
        proof {
            self.items.law_wf_valid();
            C::law_pushed(self.model(), value);
        }
        self.items.push(value);
    }

    /// Removes the last element of the row and hands it back, if there is one.
    /// Where the selected key holds no element afterwards, the selection is
    /// dropped.
    pub fn pop(&mut self) -> (popped: Option<C::Value>)
        requires
            old(self).wf(),
        ensures
            final(self).wf(),
            old(self).entries().len() == 0 ==> popped is None && final(self).model() == old(self).model(),
            old(self).entries().len() > 0 ==> {
                let last = (old(self).entries().len() - 1) as usize;
                &&& popped == Some(old(self).entries()[last])
                &&& final(self).model() == C::removed(old(self).model(), last)
            },
            final(self).selection() == (match old(self).selection() {
                Some(key) => if final(self).entries().contains_key(key) {
                    Some(key)
                } else {
                    None
                },
                None => None,
            }),
    {
        let popped = self.items.pop();
        let dangling = match &self.selected_key {
            Some(key) => !self.items.contains_key(key),
            None => false,
        };
        if dangling {
            self.selected_key = None;
        }
        popped
    }

    /// A handle on the first element of the row, if there is one.
    pub fn first(&self) -> (item: Option<CollectionItem<C>>)
        requires
            self.wf(),
        ensures
            match item {
                Some(handle) => self.entries().len() > 0 && handle.id() == 0,
                None => self.entries().len() == 0,
            },
    {
        if self.items.is_empty() {
            None
        } else {
            Some(CollectionItem::at(0))
        }
    }

    /// A handle on the last element of the row, if there is one.
    pub fn last(&self) -> (item: Option<CollectionItem<C>>)
        requires
            self.wf(),
        ensures
            match item {
                Some(handle) => self.entries().len() > 0 && handle.id() == self.entries().len()
                    - 1,
                None => self.entries().len() == 0,
            },
    {
        let len = self.items.len();
        if len == 0 {
            None
        } else {
            Some(CollectionItem::at(len - 1))
        }
    }

    /// Exchanges the elements at two positions. Where either position holds no
    /// element, the key is not found and nothing changes. The selection is not
    /// touched: a selected position stays selected, whatever comes to stand
    /// there.
    pub fn swap(&mut self, key1: &usize, key2: &usize) -> (outcome: Result<(), CollectionError>)
        requires
            old(self).wf(),
        ensures
            final(self).wf(),
            final(self).selection() == old(self).selection(),
            old(self).entries().contains_key(*key1) && old(self).entries().contains_key(*key2)
                ==> outcome is Ok && final(self).model() == C::inserted(
                C::inserted(old(self).model(), *key1, old(self).entries()[*key2]),
                *key2,
                old(self).entries()[*key1],
            ),
            !(old(self).entries().contains_key(*key1) && old(self).entries().contains_key(*key2))
                ==> outcome == Err::<(), CollectionError>(CollectionError::KeyNotFound) && final(self).model() == old(self).model(),
    {
        proof {
            self.items.law_wf_valid();
            let once = C::inserted(self.model(), *key1, self.entries()[*key2]);
            C::law_inserted(self.model(), *key1, self.entries()[*key2]);
            C::law_inserted(once, *key2, self.entries()[*key1]);
        }
        if self.contains_key(key1) && self.contains_key(key2) {
            self.items.swap(key1, key2);
            Ok(())
        } else {
            Err(CollectionError::KeyNotFound)
        }
    }
}

} // verus!
