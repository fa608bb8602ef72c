//! Insertion, lookup and removal.

use std::collections::hash_map::RandomState;

use astenn::{HashMap, DEFAULT_BUCKET_CAPACITY};

type StdMap<K, V> = HashMap<K, V, RandomState, DEFAULT_BUCKET_CAPACITY>;

#[test]
fn empty_map() {
    let map: StdMap<u32, u32> = HashMap::new();
    assert!(map.is_empty());
    assert_eq!(map.len(), 0);
    assert_eq!(map.get(&1), None);
    assert!(!map.contains_key(&1));
}

#[test]
fn insert_and_get() {
    let mut map = HashMap::new();
    assert_eq!(map.insert("hello", 1), None);
    assert_eq!(map.insert("world", 2), None);
    assert_eq!(map.len(), 2);
    assert_eq!(map.get("hello"), Some(&1));
    assert_eq!(map.get("world"), Some(&2));
    assert_eq!(map.get("missing"), None);
}

#[test]
fn insert_overwrite() {
    let mut map = HashMap::new();
    assert_eq!(map.insert(1, "a"), None);
    assert_eq!(map.insert(1, "b"), Some("a"));
    assert_eq!(map.len(), 1);
    assert_eq!(map[&1], "b");
}

#[test]
fn get_key_value() {
    let mut map = HashMap::new();
    map.insert(1, "one");
    assert_eq!(map.get_key_value(&1), Some((&1, &"one")));
    assert_eq!(map.get_key_value(&2), None);
}

#[test]
fn get_mut() {
    let mut map = HashMap::new();
    map.insert(1, 10);
    *map.get_mut(&1).unwrap() += 5;
    assert_eq!(map[&1], 15);
}

#[test]
fn remove() {
    let mut map = HashMap::new();
    map.insert(1, "a");
    map.insert(2, "b");
    assert_eq!(map.remove(&1), Some("a"));
    assert_eq!(map.len(), 1);
    assert_eq!(map.remove(&1), None);
    assert_eq!(map.remove(&2), Some("b"));
    assert!(map.is_empty());
}

#[test]
fn remove_entry() {
    let mut map = HashMap::new();
    map.insert(1, "a");
    assert_eq!(map.remove_entry(&1), Some((1, "a")));
    assert!(map.is_empty());
}

#[test]
fn clear() {
    let mut map = HashMap::new();
    for i in 0..100 {
        map.insert(i, i * 2);
    }
    assert_eq!(map.len(), 100);
    map.clear();
    assert!(map.is_empty());
    assert_eq!(map.get(&50), None);
}

#[test]
fn insert_triggers_splits() {
    let mut map = HashMap::new();
    let n = 1000;
    for i in 0..n {
        map.insert(i, i * 3);
    }
    assert_eq!(map.len(), n);
    for i in 0..n {
        assert_eq!(map.get(&i), Some(&(i * 3)), "missing key {i}");
    }
}

#[test]
fn with_capacity_avoids_early_splits() {
    let map: StdMap<u32, u32> = HashMap::with_capacity(100);
    assert!(map.capacity() >= 100);
}

#[test]
fn large_dataset() {
    let mut map = HashMap::new();
    let n = 50_000;
    for i in 0u64..n {
        map.insert(i, i.wrapping_mul(0x517cc1b727220a95));
    }
    assert_eq!(map.len(), n as usize);
    for i in 0u64..n {
        assert_eq!(
            map.get(&i),
            Some(&i.wrapping_mul(0x517cc1b727220a95)),
            "missing key {i}"
        );
    }
    for i in (0u64..n).step_by(2) {
        assert!(map.remove(&i).is_some());
    }
    assert_eq!(map.len(), (n / 2) as usize);
    for i in (1u64..n).step_by(2) {
        assert!(map.contains_key(&i));
    }
}

#[test]
fn bucket_capacity_4() {
    let mut map: HashMap<u32, u32, RandomState, 4> = HashMap::with_hasher(RandomState::new());
    for i in 0..500 {
        map.insert(i, i * 2);
    }
    assert_eq!(map.len(), 500);
    for i in 0..500 {
        assert_eq!(map[&i], i * 2);
    }
}

#[test]
fn bucket_capacity_16() {
    let mut map: HashMap<u32, u32, RandomState, 16> = HashMap::with_hasher(RandomState::new());
    for i in 0..500 {
        map.insert(i, i * 2);
    }
    assert_eq!(map.len(), 500);
    for i in 0..500 {
        assert_eq!(map[&i], i * 2);
    }
}

#[test]
fn composite_key_account_order() {
    let mut map: StdMap<(u32, u64), (u8, u64)> = HashMap::with_capacity(4096);
    for acct in 0..10u32 {
        for oid in 0..100u64 {
            map.insert((acct, oid), (acct as u8 % 2, oid * 100));
        }
    }
    assert_eq!(map.len(), 1000);
    assert_eq!(map.get(&(5, 50)), Some(&(1, 5000)));
    assert_eq!(map.remove(&(5, 50)), Some((1, 5000)));
    assert!(!map.contains_key(&(5, 50)));
}

#[test]
fn composite_key_account_currency() {
    let mut map: StdMap<(u32, u32), (u64, u64)> = HashMap::new();
    for acct in 0..100u32 {
        for cur in 0..5u32 {
            map.insert((acct, cur), (1_000_000, 0));
        }
    }
    assert_eq!(map.len(), 500);
    let bal = map.get_mut(&(42, 2)).unwrap();
    bal.0 -= 1000;
    bal.1 += 1000;
    assert_eq!(map[&(42, 2)], (999_000, 1000));
}

#[test]
fn single_element() {
    let mut map = HashMap::new();
    map.insert(42, "the answer");
    assert_eq!(map.len(), 1);
    assert_eq!(map[&42], "the answer");
    assert_eq!(map.remove(&42), Some("the answer"));
    assert!(map.is_empty());
}

#[test]
fn reinsert_after_remove() {
    let mut map = HashMap::new();
    map.insert(1, "first");
    map.remove(&1);
    map.insert(1, "second");
    assert_eq!(map[&1], "second");
    assert_eq!(map.len(), 1);
}

#[test]
fn many_removes_then_reinsert() {
    let mut map = HashMap::new();
    for i in 0..500 {
        map.insert(i, i);
    }
    for i in 0..500 {
        map.remove(&i);
    }
    assert!(map.is_empty());
    for i in 0..500 {
        map.insert(i, i + 1);
    }
    assert_eq!(map.len(), 500);
    for i in 0..500 {
        assert_eq!(map[&i], i + 1);
    }
}

#[test]
fn with_capacity_zero() {
    let map: StdMap<u32, u32> = HashMap::with_capacity(0);
    assert!(map.is_empty());
    assert!(map.capacity() >= 1);
}

#[test]
fn hasher_accessor() {
    let map: StdMap<u32, u32> = HashMap::new();
    let _ = map.hasher();
}

#[test]
fn for_loop_ref() {
    let mut map = HashMap::new();
    map.insert(1, 2);
    let mut seen = false;
    for (&k, &v) in &map {
        assert_eq!(k, 1);
        assert_eq!(v, 2);
        seen = true;
    }
    assert!(seen);
}

#[test]
fn for_loop_mut() {
    let mut map = HashMap::new();
    map.insert(1, 10);
    for (_, v) in &mut map {
        *v += 1;
    }
    assert_eq!(map[&1], 11);
}
