//! Iteration and operations on whole maps.

use std::collections::hash_map::RandomState;
use std::collections::HashSet;

use astenn::{HashMap, DEFAULT_BUCKET_CAPACITY};

type StdMap<K, V> = HashMap<K, V, RandomState, DEFAULT_BUCKET_CAPACITY>;

#[test]
fn iter_visits_all_entries() {
    let mut map = HashMap::new();
    let n = 200;
    for i in 0..n {
        map.insert(i, i);
    }
    let collected: HashSet<_> = map.iter().map(|(&k, &v)| (k, v)).collect();
    assert_eq!(collected.len(), n);
    for i in 0..n {
        assert!(collected.contains(&(i, i)));
    }
}

#[test]
fn iter_mut_modifies_values() {
    let mut map = HashMap::new();
    for i in 0..50 {
        map.insert(i, i);
    }
    for (_, v) in map.iter_mut() {
        *v *= 2;
    }
    for i in 0..50 {
        assert_eq!(map[&i], i * 2);
    }
}

#[test]
fn into_iter_consumes() {
    let mut map = HashMap::new();
    for i in 0..50 {
        map.insert(i, i);
    }
    let collected: HashSet<_> = map.into_iter().collect();
    assert_eq!(collected.len(), 50);
}

#[test]
fn keys_values() {
    let mut map = HashMap::new();
    map.insert(1, "a");
    map.insert(2, "b");
    let keys: HashSet<_> = map.keys().copied().collect();
    assert_eq!(keys, HashSet::from([1, 2]));
    let values: HashSet<_> = map.values().copied().collect();
    assert_eq!(values, HashSet::from(["a", "b"]));
}

#[test]
fn values_mut() {
    let mut map = HashMap::new();
    map.insert(1, 10);
    map.insert(2, 20);
    for v in map.values_mut() {
        *v += 1;
    }
    assert_eq!(map[&1], 11);
    assert_eq!(map[&2], 21);
}

#[test]
fn drain() {
    let mut map = HashMap::new();
    for i in 0..100 {
        map.insert(i, i);
    }
    let drained: Vec<_> = map.drain().collect();
    assert_eq!(drained.len(), 100);
    assert!(map.is_empty());
}

#[test]
fn retain() {
    let mut map = HashMap::new();
    for i in 0..100 {
        map.insert(i, i);
    }
    map.retain(|&k, _| k % 2 == 0);
    assert_eq!(map.len(), 50);
    for i in 0..100 {
        if i % 2 == 0 {
            assert!(map.contains_key(&i));
        } else {
            assert!(!map.contains_key(&i));
        }
    }
}

#[test]
fn clone_and_eq() {
    let mut map = HashMap::new();
    for i in 0..50 {
        map.insert(i, i * 2);
    }
    let cloned = map.clone();
    assert!(map == cloned);
}

#[test]
fn partial_eq_different_content() {
    let mut a = HashMap::new();
    a.insert(1, 1);
    let mut b = HashMap::new();
    b.insert(1, 2);
    assert!(a != b);
}

#[test]
fn partial_eq_different_len() {
    let mut a = HashMap::new();
    a.insert(1, 1);
    let b = HashMap::new();
    assert!(a != b);
}

#[test]
fn default_is_empty() {
    let map: StdMap<u32, u32> = HashMap::default();
    assert!(map.is_empty());
}

#[test]
fn debug_output() {
    let mut map = HashMap::new();
    map.insert(1, 2);
    let s = map.to_debug_string();
    assert!(s.contains("1"));
    assert!(s.contains("2"));
}

#[test]
fn from_iterator() {
    let map: StdMap<u32, u32> = HashMap::from_iter(vec![(1, 2), (3, 4)].into_iter());
    assert_eq!(map.len(), 2);
    assert_eq!(map[&1], 2);
    assert_eq!(map[&3], 4);
}

#[test]
fn extend_from_iter() {
    let mut map = HashMap::new();
    map.insert(1, 1);
    map.extend(vec![(2, 2), (3, 3)].into_iter());
    assert_eq!(map.len(), 3);
}

#[test]
fn extend_ref() {
    let mut map: StdMap<i32, i32> = HashMap::new();
    map.extend_ref([(&1, &2), (&3, &4)].into_iter());
    assert_eq!(map[&1], 2);
}

#[test]
#[should_panic(expected = "no entry found for key")]
fn index_missing_panics() {
    let map: StdMap<u32, u32> = HashMap::new();
    let _ = map[&1];
}
