use collection_store::{Collection, SequentialCollection};
use std::collections::BTreeMap;
use std::collections::HashMap;

#[test]
fn test_vec_collection() {
    let mut vec = vec![1, 2, 3];

    // Test get
    assert_eq!(Collection::get(&vec, &0), Some(&1));
    assert_eq!(Collection::get(&vec, &3), None);

    // Test set
    assert!(Collection::set(&mut vec, 0, 10));
    assert_eq!(vec[0], 10);
    assert!(!Collection::set(&mut vec, 5, 20)); // Out of bounds

    // Test insert
    assert_eq!(Collection::insert(&mut vec, 1, 99), Some(2));
    assert_eq!(vec[1], 99);

    // Test remove
    assert_eq!(Collection::remove(&mut vec, &1), Some(99));

    // Test keys
    let keys = Collection::keys(&vec);
    assert_eq!(keys.len(), 2);
}

#[test]
fn test_vec_sequential() {
    let mut vec: Vec<i32> = Vec::new();

    assert!(Collection::is_empty(&vec));

    SequentialCollection::push(&mut vec, 1);
    SequentialCollection::push(&mut vec, 2);
    SequentialCollection::push(&mut vec, 3);

    assert_eq!(Collection::len(&vec), 3);
    assert!(!Collection::is_empty(&vec));

    // Test first
    assert_eq!(SequentialCollection::first(&vec), Some(&1));

    // Test pop
    assert_eq!(SequentialCollection::pop(&mut vec), Some(3));
    assert_eq!(Collection::len(&vec), 2);

    // Test swap
    SequentialCollection::swap(&mut vec, &0, &1);
    assert_eq!(vec, vec![2, 1]);

    // Test clear
    Collection::clear(&mut vec);
    assert!(Collection::is_empty(&vec));
    assert_eq!(SequentialCollection::first(&vec), None);
}

#[test]
fn test_hashmap_collection() {
    let mut map = HashMap::new();
    map.insert("a".to_string(), 1);
    map.insert("b".to_string(), 2);

    // Test get
    assert_eq!(Collection::get(&map, &"a".to_string()), Some(&1));
    assert_eq!(Collection::get(&map, &"c".to_string()), None);

    // Test set
    assert!(Collection::set(&mut map, "a".to_string(), 10));
    assert_eq!(map["a"], 10);
    assert!(!Collection::set(&mut map, "c".to_string(), 20)); // Key doesn't exist

    // Test insert
    assert_eq!(Collection::insert(&mut map, "a".to_string(), 100), Some(10));
    assert_eq!(Collection::insert(&mut map, "c".to_string(), 3), None);

    // Test extend
    Collection::extend(&mut map, vec![("d".to_string(), 4), ("e".to_string(), 5)]);
    assert_eq!(Collection::len(&map), 5); // a, b, c, d, e

    // Test remove
    assert_eq!(Collection::remove(&mut map, &"a".to_string()), Some(100));
    assert_eq!(Collection::remove(&mut map, &"a".to_string()), None);

    // Test keys
    let keys = Collection::keys(&map);
    assert_eq!(keys.len(), 4); // b, c, d, e

    // Test clear
    Collection::clear(&mut map);
    assert!(Collection::is_empty(&map));
}

#[test]
fn test_btreemap_collection() {
    let mut map = BTreeMap::new();
    map.insert("a".to_string(), 1);
    map.insert("b".to_string(), 2);

    // Test get
    assert_eq!(Collection::get(&map, &"a".to_string()), Some(&1));
    assert_eq!(Collection::get(&map, &"c".to_string()), None);

    // Test set
    assert!(Collection::set(&mut map, "a".to_string(), 10));
    assert_eq!(map["a"], 10);
    assert!(!Collection::set(&mut map, "c".to_string(), 20)); // Key doesn't exist

    // Test insert
    assert_eq!(Collection::insert(&mut map, "a".to_string(), 100), Some(10));
    assert_eq!(Collection::insert(&mut map, "c".to_string(), 3), None);

    // Test extend
    Collection::extend(&mut map, vec![("d".to_string(), 4), ("e".to_string(), 5)]);
    assert_eq!(Collection::len(&map), 5); // a, b, c, d, e

    // Test remove
    assert_eq!(Collection::remove(&mut map, &"a".to_string()), Some(100));
    assert_eq!(Collection::remove(&mut map, &"a".to_string()), None);

    // Test keys (BTreeMap keeps keys sorted)
    let keys = Collection::keys(&map);
    assert_eq!(keys.len(), 4); // b, c, d, e
    assert_eq!(
        keys,
        vec![
            "b".to_string(),
            "c".to_string(),
            "d".to_string(),
            "e".to_string()
        ]
    );

    // Test clear
    Collection::clear(&mut map);
    assert!(Collection::is_empty(&map));
}
