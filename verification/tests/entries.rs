//! Access to single entries.

use std::collections::hash_map::RandomState;

use astenn::{Entry, HashMap, DEFAULT_BUCKET_CAPACITY};

type StdMap<K, V> = HashMap<K, V, RandomState, DEFAULT_BUCKET_CAPACITY>;

#[test]
fn entry_or_insert() {
    let mut map = HashMap::new();
    map.entry("a").or_insert(1);
    map.entry("a").or_insert(2);
    assert_eq!(map["a"], 1);
}

#[test]
fn entry_or_insert_with() {
    let mut map = HashMap::new();
    map.entry(1).or_insert_with(|| 42);
    assert_eq!(map[&1], 42);
}

#[test]
fn entry_or_insert_with_key() {
    let mut map = HashMap::new();
    map.entry(5).or_insert_with_key(|&k| k * 10);
    assert_eq!(map[&5], 50);
}

#[test]
fn entry_and_modify() {
    let mut map = HashMap::new();
    map.insert(1, 10);
    map.entry(1).and_modify(|v| *v += 5).or_insert(0);
    assert_eq!(map[&1], 15);
    map.entry(2).and_modify(|v| *v += 5).or_insert(0);
    assert_eq!(map[&2], 0);
}

#[test]
fn entry_or_default() {
    let mut map: StdMap<u32, Vec<u32>> = HashMap::new();
    map.entry(1).or_default().push(42);
    assert_eq!(map[&1], vec![42]);
}

#[test]
fn entry_occupied_insert_remove() {
    let mut map = HashMap::new();
    map.insert(1, "a");
    match map.entry(1) {
        Entry::Occupied(mut e) => {
            assert_eq!(e.key(), &1);
            assert_eq!(e.get(), &"a");
            assert_eq!(e.insert("b"), "a");
            assert_eq!(e.get(), &"b");
            assert_eq!(e.remove(), "b");
        }
        Entry::Vacant(_) => panic!("expected occupied"),
    }
    assert!(map.is_empty());
}

#[test]
fn entry_vacant_into_key() {
    let mut map: StdMap<String, u32> = HashMap::new();
    match map.entry("hello".to_string()) {
        Entry::Vacant(e) => {
            assert_eq!(e.key(), "hello");
            let key = e.into_key();
            assert_eq!(key, "hello");
        }
        Entry::Occupied(_) => panic!("expected vacant"),
    }
}
