use collection_store::{CircularBuffer, Collection, CollectionStore, SequentialCollection};

fn row(buffer: &CircularBuffer<i32>) -> Vec<i32> {
    Collection::keys(buffer).iter().map(|key| *Collection::get(buffer, key).unwrap()).collect()
}

fn filled(capacity: usize, values: &[i32]) -> CircularBuffer<i32> {
    let mut buffer = CircularBuffer::new(capacity);
    for value in values {
        SequentialCollection::push(&mut buffer, *value);
    }
    buffer
}

#[test]
fn ring_overwrites_the_oldest_when_full() {
    let mut buffer: CircularBuffer<i32> = CircularBuffer::new(5);
    assert!(Collection::is_empty(&buffer));
    for value in [1, 2, 3, 4, 5, 6] {
        SequentialCollection::push(&mut buffer, value);
    }
    assert_eq!(Collection::len(&buffer), 5);
    assert_eq!(Collection::get(&buffer, &0), Some(&2));
    assert_eq!(row(&buffer), vec![2, 3, 4, 5, 6]);

    SequentialCollection::push(&mut buffer, 7);
    assert_eq!(Collection::len(&buffer), 5);
    assert_eq!(Collection::get(&buffer, &0), Some(&3));
    assert_eq!(row(&buffer), vec![3, 4, 5, 6, 7]);
    assert_eq!(buffer.capacity(), 5);
}

#[test]
fn ring_fills_in_order_before_it_wraps() {
    let buffer = filled(4, &[1, 2, 3]);
    assert_eq!(row(&buffer), vec![1, 2, 3]);
    assert_eq!(Collection::len(&buffer), 3);
    assert_eq!(Collection::keys(&buffer), vec![0, 1, 2]);
    assert_eq!(SequentialCollection::first(&buffer), Some(&1));
    assert_eq!(Collection::get(&buffer, &3), None);
}

#[test]
fn ring_of_capacity_one_keeps_the_newest() {
    let mut buffer = filled(1, &[1, 2, 3]);
    assert_eq!(row(&buffer), vec![3]);
    assert_eq!(SequentialCollection::pop(&mut buffer), Some(3));
    assert_eq!(SequentialCollection::pop(&mut buffer), None);
    assert!(Collection::is_empty(&buffer));
}

#[test]
fn ring_remove_shifts_later_positions_down() {
    // Physical slots [6, 7, 3, 4, 5], offset 2.
    let mut buffer = filled(5, &[1, 2, 3, 4, 5, 6, 7]);
    assert_eq!(row(&buffer), vec![3, 4, 5, 6, 7]);

    // A slot before the offset: the offset follows.
    assert_eq!(Collection::remove(&mut buffer, &3), Some(6));
    assert_eq!(row(&buffer), vec![3, 4, 5, 7]);

    // A slot from the offset on: the offset stays.
    assert_eq!(Collection::remove(&mut buffer, &0), Some(3));
    assert_eq!(row(&buffer), vec![4, 5, 7]);

    assert_eq!(Collection::remove(&mut buffer, &3), None);
    assert_eq!(row(&buffer), vec![4, 5, 7]);
    assert_eq!(Collection::remove(&mut buffer, &2), Some(7));
    assert_eq!(Collection::remove(&mut buffer, &1), Some(5));
    assert_eq!(Collection::remove(&mut buffer, &0), Some(4));
    assert!(Collection::is_empty(&buffer));
    assert_eq!(Collection::remove(&mut buffer, &0), None);
}

#[test]
fn ring_pop_takes_the_last_and_keeps_the_order() {
    // Physical slots [4, 2, 3], offset 1.
    let mut buffer = filled(3, &[1, 2, 3, 4]);
    assert_eq!(row(&buffer), vec![2, 3, 4]);
    assert_eq!(SequentialCollection::pop(&mut buffer), Some(4));
    assert_eq!(row(&buffer), vec![2, 3]);
    assert_eq!(SequentialCollection::pop(&mut buffer), Some(3));
    assert_eq!(row(&buffer), vec![2]);
    assert_eq!(SequentialCollection::first(&buffer), Some(&2));
    assert_eq!(SequentialCollection::pop(&mut buffer), Some(2));
    assert_eq!(SequentialCollection::pop(&mut buffer), None);
    assert_eq!(SequentialCollection::first(&buffer), None);
}

#[test]
fn ring_push_after_removal_appends_to_the_slots() {
    // Physical slots [4, 2, 3], offset 1; removing position 0 leaves [4, 3].
    let mut buffer = filled(3, &[1, 2, 3, 4]);
    assert_eq!(Collection::remove(&mut buffer, &0), Some(2));
    assert_eq!(row(&buffer), vec![3, 4]);
    // The new element goes to the last slot, which follows the slot of 3.
    SequentialCollection::push(&mut buffer, 5);
    assert_eq!(row(&buffer), vec![3, 5, 4]);
    assert_eq!(Collection::len(&buffer), 3);
    // Full again: the oldest position is overwritten.
    SequentialCollection::push(&mut buffer, 6);
    assert_eq!(row(&buffer), vec![5, 4, 6]);
}

#[test]
fn ring_insert_and_set_replace_but_never_add() {
    let mut buffer = filled(3, &[1, 2, 3, 4]);
    assert_eq!(Collection::insert(&mut buffer, 0, 20), Some(2));
    assert!(Collection::set(&mut buffer, 2, 40));
    assert_eq!(row(&buffer), vec![20, 3, 40]);
    assert_eq!(Collection::insert(&mut buffer, 3, 9), None);
    assert!(!Collection::set(&mut buffer, 3, 9));
    assert_eq!(row(&buffer), vec![20, 3, 40]);
    *Collection::get_mut(&mut buffer, &1).unwrap() = 30;
    assert_eq!(row(&buffer), vec![20, 30, 40]);
    assert!(Collection::get_mut(&mut buffer, &3).is_none());
}

#[test]
fn ring_swap_and_clear() {
    let mut buffer = filled(3, &[1, 2, 3, 4]);
    SequentialCollection::swap(&mut buffer, &0, &2);
    assert_eq!(row(&buffer), vec![4, 3, 2]);
    SequentialCollection::swap(&mut buffer, &0, &3);
    assert_eq!(row(&buffer), vec![4, 3, 2]);
    Collection::clear(&mut buffer);
    assert!(Collection::is_empty(&buffer));
    assert_eq!(Collection::keys(&buffer), Vec::<usize>::new());
    SequentialCollection::push(&mut buffer, 9);
    assert_eq!(row(&buffer), vec![9]);
    assert_eq!(buffer.capacity(), 3);
}

#[test]
fn ring_extend_replaces_positions_in_turn() {
    let mut buffer = filled(3, &[1, 2, 3]);
    Collection::extend(&mut buffer, vec![(0, 10), (5, 50), (0, 11), (2, 30)]);
    assert_eq!(row(&buffer), vec![11, 2, 30]);
}

#[test]
fn ring_in_a_store() {
    let mut buffer: CircularBuffer<String> = CircularBuffer::new(2);
    SequentialCollection::push(&mut buffer, "a".to_string());
    let mut store = CollectionStore::new(buffer);
    store.push("b".to_string());
    store.select(&0).unwrap();
    store.push("c".to_string());
    // The selection is a position: it now addresses what moved there.
    assert_eq!(store.selected_key(), Some(0));
    assert_eq!(store.selected().unwrap().read(&store).unwrap(), "b");
    assert_eq!(store.last().unwrap().read(&store).unwrap(), "c");
    assert_eq!(store.select_by_display("c"), Ok(()));
    assert_eq!(store.selected_key(), Some(1));
    assert_eq!(store.pop(), Some("c".to_string()));
    assert_eq!(store.selected_key(), None);
    assert_eq!(store.len(), 1);
}
