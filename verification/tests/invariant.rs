use collection_store::{CircularBuffer, Collection, CollectionItem, CollectionStore, SequentialCollection};
use std::cell::Cell;
use std::collections::HashMap;
use std::fmt;
use std::rc::Rc;

fn selection_names_an_element<C: Collection>(store: &CollectionStore<C>) -> bool
where
    C::Key: Clone + PartialEq,
{
    match store.selected_key() {
        Some(key) => store.contains_key(&key),
        None => true,
    }
}

#[test]
fn removing_before_a_selected_last_position_drops_the_selection() {
    let mut store = CollectionStore::new(vec![10, 20, 30]);
    assert_eq!(store.select(&2), Ok(()));
    assert_eq!(store.remove(&0), Some(10));
    assert_eq!(store.selected_key(), None);
    assert!(store.selected().is_none());
    assert!(selection_names_an_element(&store));
    assert_eq!(store.items(), &vec![20, 30]);
}

#[test]
fn removing_through_a_handle_drops_a_selection_left_without_element() {
    let mut store = CollectionStore::new(vec![10, 20, 30]);
    store.select(&2).unwrap();
    let first = store.get(&0);
    assert_eq!(first.remove(&mut store), Some(10));
    assert_eq!(store.selected_key(), None);
    assert!(selection_names_an_element(&store));
}

#[test]
fn removing_keeps_a_selection_that_still_names_an_element() {
    let mut store = CollectionStore::new(vec![10, 20, 30, 40]);
    store.select(&2).unwrap();
    assert_eq!(store.remove(&0), Some(10));
    assert_eq!(store.selected_key(), Some(2));
    assert_eq!(store.selected().unwrap().read(&store), Ok(&40));
    assert_eq!(store.remove(&5), None);
    assert_eq!(store.selected_key(), Some(2));
    assert_eq!(store.remove(&1), Some(30));
    assert_eq!(store.selected_key(), None);
    assert!(selection_names_an_element(&store));
}

#[test]
fn the_selection_names_an_element_after_every_ring_operation() {
    let mut buffer: CircularBuffer<i32> = CircularBuffer::new(3);
    for value in [1, 2, 3, 4] {
        SequentialCollection::push(&mut buffer, value);
    }
    let mut store = CollectionStore::new(buffer);
    store.select(&2).unwrap();
    assert_eq!(store.remove(&1), Some(3));
    assert_eq!(store.selected_key(), None);
    store.select(&1).unwrap();
    store.push(5);
    assert!(selection_names_an_element(&store));
    assert_eq!(store.pop(), Some(4));
    assert!(selection_names_an_element(&store));
    store.clear();
    assert_eq!(store.selected_key(), None);
}

#[test]
fn a_store_worked_on_behind_its_back_is_mended_by_clearing_the_selection() {
    let mut store = CollectionStore::new(HashMap::from([(1u64, 'a'), (2u64, 'b')]));
    store.select(&2).unwrap();
    Collection::remove(store.items_mut(), &2);
    assert!(!selection_names_an_element(&store));
    store.clear_selection();
    assert!(selection_names_an_element(&store));
    assert_eq!(store.selected_key_ref(), &None);
    store.select(&1).unwrap();
    assert_eq!(store.selected_key_ref(), &Some(1));
}

#[derive(Debug)]
struct Counted {
    value: i32,
    looked: Rc<Cell<usize>>,
}

impl PartialEq for Counted {
    fn eq(&self, other: &Self) -> bool {
        self.looked.set(self.looked.get() + 1);
        self.value == other.value
    }
}

impl fmt::Display for Counted {
    fn fmt(&self, f: &mut fmt::Formatter<'_>) -> fmt::Result {
        self.looked.set(self.looked.get() + 1);
        f.write_str(&self.value.to_string())
    }
}

fn counted(values: &[i32], looked: &Rc<Cell<usize>>) -> Vec<Counted> {
    values.iter().map(|value| Counted { value: *value, looked: looked.clone() }).collect()
}

#[test]
fn select_by_value_stops_at_the_first_equal_element() {
    let looked = Rc::new(Cell::new(0));
    let mut store = CollectionStore::new(counted(&[5, 7, 7, 9], &looked));
    let wanted = Counted { value: 7, looked: Rc::new(Cell::new(0)) };
    assert_eq!(store.select_by_value(&wanted), Ok(()));
    assert_eq!(store.selected_key(), Some(1));
    assert_eq!(looked.get(), 2);

    looked.set(0);
    let absent = Counted { value: 8, looked: Rc::new(Cell::new(0)) };
    assert!(store.select_by_value(&absent).is_err());
    assert_eq!(store.selected_key(), Some(1));
    assert_eq!(looked.get(), 4);
}

#[test]
fn select_by_display_stops_at_the_first_matching_rendering() {
    let looked = Rc::new(Cell::new(0));
    let mut store = CollectionStore::new(counted(&[5, 7, 7, 9], &looked));
    assert_eq!(store.select_by_display("5"), Ok(()));
    assert_eq!(store.selected_key(), Some(0));
    assert_eq!(looked.get(), 1);

    looked.set(0);
    assert!(store.select_by_display("6").is_err());
    assert_eq!(store.selected_key(), Some(0));
    assert_eq!(looked.get(), 4);

    let mut empty = CollectionStore::new(counted(&[], &looked));
    assert!(empty.select_by_display("").is_err());
    assert!(empty.select_by_value(&Counted { value: 0, looked: looked.clone() }).is_err());
}

#[test]
fn handles_clone_and_compare_by_key() {
    let store = CollectionStore::new(vec![1, 2]);
    let item = store.get(&1);
    let copy = item.clone();
    assert!(copy == item);
    assert_eq!(copy.key(), 1);
    assert!(item != store.get(&0));
    assert!(CollectionItem::<Vec<i32>>::at(0) == store.get(&0));
}

#[test]
fn ring_buffers_clone_and_compare() {
    let mut buffer: CircularBuffer<i32> = CircularBuffer::new(2);
    SequentialCollection::push(&mut buffer, 1);
    let copy = buffer.clone();
    assert!(copy == buffer);
    SequentialCollection::push(&mut buffer, 2);
    assert!(copy != buffer);
    assert_eq!(Collection::len(&copy), 1);
    assert_eq!(Collection::len(&buffer), 2);
}
