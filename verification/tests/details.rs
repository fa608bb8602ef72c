//! Exact values and edge cases.

use std::collections::hash_map::RandomState;

use astenn::bits::{exp2, mask_low_bits, test_bit};
use astenn::bucket::{fingerprint, stored_bits, Bucket, MAX_LOCAL_DEPTH};
use astenn::directory::{double, redirect};
use astenn::{Entry, HashMap, DEFAULT_BUCKET_CAPACITY};

/// Hashes an integer to itself.
struct PlainHasher(u64);

impl std::hash::Hasher for PlainHasher {
    fn finish(&self) -> u64 {
        self.0
    }

    fn write(&mut self, bytes: &[u8]) {
        self.0 = 0;
        for (i, &b) in bytes.iter().enumerate().take(8) {
            self.0 |= (b as u64) << (i * 8);
        }
    }
}

#[derive(Clone, Default)]
struct PlainState;

impl std::hash::BuildHasher for PlainState {
    type Hasher = PlainHasher;

    fn build_hasher(&self) -> PlainHasher {
        PlainHasher(0)
    }
}

type PlainMap<const N: usize> = HashMap<u64, u64, PlainState, N>;

fn filled<const N: usize>(keys: &[u64]) -> PlainMap<N> {
    let mut map: PlainMap<N> = HashMap::with_hasher(PlainState);
    for &key in keys {
        map.insert(key, key + 1);
    }
    map
}

#[test]
fn fingerprints_are_the_top_bits_and_never_zero() {
    assert_eq!(fingerprint(0), 1);
    assert_eq!(fingerprint(0xab00_0000_0000_0000), 0xab);
    assert_eq!(fingerprint(0xaa00_0000_0000_0000), 0xab);
    assert_eq!(fingerprint(u64::MAX), 0xff);
}

#[test]
fn stored_bits_are_the_low_half() {
    assert_eq!(stored_bits(0x1234_5678_9abc_def0), 0x9abc_def0);
    assert_eq!(stored_bits(u64::MAX), u32::MAX);
}

#[test]
fn powers_masks_and_bits() {
    assert_eq!(exp2(0), 1);
    assert_eq!(exp2(5), 32);
    assert_eq!(exp2(32), 0x1_0000_0000);
    assert_eq!(mask_low_bits(0b1101_1010, 4), 0b1010);
    assert_eq!(mask_low_bits(7, 0), 0);
    assert!(test_bit(0b100, 2));
    assert!(!test_bit(0b100, 1));
}

#[test]
fn doubling_repeats_the_directory() {
    let mut directory = vec![3, 1];
    double(&mut directory);
    assert_eq!(directory, vec![3, 1, 3, 1]);
}

#[test]
fn redirecting_touches_every_slot_with_the_pattern() {
    let mut directory = vec![0; 8];
    redirect(&mut directory, 2, 2, 9);
    assert_eq!(directory, vec![0, 0, 9, 0, 0, 0, 9, 0]);
}

#[test]
fn bucket_push_and_swap_remove() {
    let mut bucket: Bucket<u32, char, 4> = Bucket::new(3);
    bucket.push(11, 1, 10, 'a');
    bucket.push(13, 2, 20, 'b');
    bucket.push(15, 3, 30, 'c');
    assert_eq!(bucket.fingerprints, vec![11, 13, 15, 0]);
    assert_eq!(bucket.swap_remove(0), (10, 'a'));
    assert_eq!(bucket.fingerprints, vec![15, 13, 0, 0]);
    assert_eq!(bucket.entries_slice(), &[(30, 'c'), (20, 'b')]);
    assert_eq!(bucket.len(), 2);
    assert_eq!(bucket.local_depth, 3);
}

#[test]
fn bucket_at_the_maximum_depth_grows() {
    let mut bucket: Bucket<u32, u32, 2> = Bucket::new(MAX_LOCAL_DEPTH);
    for i in 0..5 {
        bucket.push(1, 7, i, i);
    }
    assert_eq!(bucket.len(), 5);
    assert_eq!(bucket.fingerprints, vec![1; 5]);
    bucket.clear();
    assert_eq!(bucket.len(), 0);
    assert_eq!(bucket.fingerprints, vec![0; 5]);
}

#[test]
fn bucket_split_parts_on_one_bit() {
    let mut bucket: Bucket<u32, u32, 4> = Bucket::new(1);
    bucket.push(1, 0b01, 1, 1);
    bucket.push(1, 0b11, 2, 2);
    bucket.push(1, 0b101, 3, 3);
    let (low, high) = bucket.split();
    assert_eq!(low.entries_slice(), &[(1, 1), (3, 3)]);
    assert_eq!(high.entries_slice(), &[(2, 2)]);
    assert_eq!(low.local_depth, 2);
    assert_eq!(high.local_depth, 2);
}

#[test]
fn initial_directory_is_the_least_that_holds_the_capacity() {
    let depth = |capacity: usize| {
        let map: PlainMap<8> = HashMap::with_capacity_and_hasher(capacity, PlainState);
        assert_eq!(map.inner.buckets.len(), 1 << map.inner.global_depth);
        assert_eq!(map.inner.directory.len(), 1 << map.inner.global_depth);
        assert_eq!(map.capacity(), map.inner.buckets.len() * 8);
        map.inner.global_depth
    };
    assert_eq!(depth(0), 0);
    assert_eq!(depth(8), 0);
    assert_eq!(depth(9), 1);
    assert_eq!(depth(16), 1);
    assert_eq!(depth(17), 2);
    assert_eq!(depth(1000), 7);
}

#[test]
fn hashes_decide_the_bucket() {
    let map = filled::<2>(&[0, 1, 2, 3]);
    assert_eq!(map.inner.global_depth, 1);
    assert_eq!(map.inner.directory, vec![0, 1]);
    assert_eq!(map.inner.buckets[0].entries_slice(), &[(0, 1), (2, 3)]);
    assert_eq!(map.inner.buckets[1].entries_slice(), &[(1, 2), (3, 4)]);
    assert_eq!(map.inner.buckets[1].hash_low[..2], [1, 3]);
    assert_eq!(map.inner.buckets[1].fingerprints, vec![1, 1]);
}

#[test]
fn a_split_leaves_the_other_buckets_alone() {
    let mut map = filled::<2>(&[0, 1, 2, 3]);
    map.insert(4, 5);
    assert_eq!(map.inner.global_depth, 2);
    assert_eq!(map.inner.directory, vec![0, 1, 2, 1]);
    assert_eq!(map.inner.buckets[0].entries_slice(), &[(0, 1), (4, 5)]);
    assert_eq!(map.inner.buckets[1].entries_slice(), &[(1, 2), (3, 4)]);
    assert_eq!(map.inner.buckets[2].entries_slice(), &[(2, 3)]);
    assert_eq!(map.inner.buckets[1].local_depth, 1);
    assert_eq!(map.inner.buckets[2].local_depth, 2);
}

#[test]
fn a_merge_undoes_a_split_and_frees_a_place() {
    let mut map = filled::<4>(&[0, 1, 2, 3, 4]);
    assert_eq!(map.inner.directory, vec![0, 1]);
    map.remove(&0);
    map.remove(&1);
    assert_eq!(map.inner.freelist.len(), 0);
    map.remove(&2);
    assert_eq!(map.inner.directory, vec![0, 0]);
    assert_eq!(map.inner.freelist, vec![1]);
    assert_eq!(map.inner.global_depth, 1);
    assert_eq!(map.inner.buckets[0].local_depth, 0);
    assert_eq!(map.inner.buckets[0].entries_slice(), &[(4, 5), (3, 4)]);
    for key in [5, 6, 7] {
        map.insert(key, key);
    }
    assert_eq!(map.inner.freelist.len(), 0);
    assert_eq!(map.inner.buckets.len(), 2);
    assert_eq!(map.get(&3), Some(&4));
    assert_eq!(map.get(&7), Some(&7));
}

#[test]
fn a_removal_merges_one_level_only() {
    let mut map = filled::<1>(&[0, 1, 2]);
    assert_eq!(map.inner.directory, vec![0, 1, 2, 1]);
    map.remove(&1);
    map.remove(&0);
    assert_eq!(map.inner.freelist.len(), 0);
    map.remove(&2);
    assert!(map.is_empty());
    assert_eq!(map.inner.directory, vec![2, 1, 2, 1]);
    assert_eq!(map.inner.freelist, vec![0]);
}

#[test]
fn removing_through_an_entry_does_not_merge() {
    let mut map = filled::<4>(&[0, 1, 2, 3, 4]);
    for key in [0, 1, 2, 3, 4] {
        match map.entry(key) {
            Entry::Occupied(e) => assert_eq!(e.remove_entry(), (key, key + 1)),
            Entry::Vacant(_) => panic!("expected occupied"),
        }
    }
    assert!(map.is_empty());
    assert_eq!(map.inner.freelist.len(), 0);
}

#[test]
fn keys_that_share_many_bits_are_told_apart() {
    let keys: Vec<u64> = (0..9).map(|i| i << 12).collect();
    let map = filled::<8>(&keys);
    assert_eq!(map.inner.global_depth, 13);
    assert_eq!(map.len(), 9);
    for &key in &keys {
        assert_eq!(map.get(&key), Some(&(key + 1)));
    }
}

#[test]
fn small_and_large_buckets() {
    let keys: Vec<u64> = (0..300).collect();
    let one = filled::<1>(&keys);
    let many = filled::<100>(&keys);
    for key in 0..300 {
        assert_eq!(one.get(&key), Some(&(key + 1)));
        assert_eq!(many.get(&key), Some(&(key + 1)));
    }
    assert_eq!(one.get(&300), None);
    assert_eq!(many.get(&300), None);
}

#[test]
fn borrowed_queries_find_owned_keys() {
    let mut map: HashMap<String, u32, RandomState, DEFAULT_BUCKET_CAPACITY> = HashMap::new();
    map.insert("one".to_string(), 1);
    map.insert("two".to_string(), 2);
    assert_eq!(map.get("one"), Some(&1));
    assert_eq!(map.get_key_value("two"), Some((&"two".to_string(), &2)));
    assert!(!map.contains_key("three"));
    assert_eq!(map["two"], 2);
    *map.get_mut("one").unwrap() = 7;
    assert_eq!(map.remove_entry("one"), Some(("one".to_string(), 7)));
    assert_eq!(map.remove("one"), None);
    assert_eq!(map.len(), 1);
}

#[test]
fn insert_then_remove_gives_the_map_back() {
    let before = filled::<4>(&[1, 2, 3]);
    let mut map = before.clone();
    assert_eq!(map.insert(9, 9), None);
    assert!(map != before);
    assert_eq!(map.remove(&9), Some(9));
    assert!(map == before);
}

#[test]
fn equality_ignores_the_order_of_insertion() {
    let forward: Vec<u64> = (0..40).collect();
    let backward: Vec<u64> = (0..40).rev().collect();
    let left = filled::<4>(&forward);
    let right = filled::<4>(&backward);
    assert!(left == right);
    assert!(right == left);
    assert!(left == left.clone());
}

#[test]
fn a_clone_is_independent() {
    let map = filled::<2>(&[0, 1, 2, 3, 4]);
    let mut copy = map.clone();
    copy.insert(0, 100);
    copy.remove(&4);
    assert_eq!(map.get(&0), Some(&1));
    assert_eq!(map.get(&4), Some(&5));
    assert_eq!(copy.get(&0), Some(&100));
    assert_eq!(copy.len(), 4);
}

#[test]
fn a_drained_map_is_empty_and_can_be_filled_again() {
    let mut map = filled::<4>(&[0, 1, 2, 3, 4, 5]);
    let buckets = map.inner.buckets.len();
    let mut drain = map.drain();
    assert_eq!(drain.size_hint(), (6, Some(6)));
    assert_eq!(drain.next(), Some((0, 1)));
    assert_eq!(drain.size_hint(), (5, Some(5)));
    drop(drain);
    assert!(map.is_empty());
    assert_eq!(map.inner.buckets.len(), buckets);
    for key in 0..6 {
        assert_eq!(map.get(&key), None);
        assert_eq!(map.insert(key, key), None);
    }
    assert_eq!(map.len(), 6);
    assert_eq!(map.get(&3), Some(&3));
}

#[test]
fn a_cleared_map_keeps_its_directory() {
    let mut map = filled::<2>(&[0, 1, 2, 3, 4]);
    map.clear();
    assert_eq!(map.len(), 0);
    assert_eq!(map.inner.directory, vec![0, 1, 2, 1]);
    assert_eq!(map.inner.buckets.len(), 3);
    assert_eq!(map.get(&4), None);
    map.insert(4, 4);
    assert_eq!(map.get(&4), Some(&4));
}

#[test]
fn retain_keeps_the_values_that_the_predicate_leaves() {
    let mut map = filled::<4>(&[0, 1, 2, 3, 4, 5, 6, 7]);
    map.retain(|key, value| {
        *value *= 10;
        *key > 4
    });
    assert_eq!(map.len(), 3);
    assert_eq!(map.get(&4), None);
    assert_eq!(map.get(&5), Some(&60));
    assert_eq!(map.get(&7), Some(&80));
    map.retain(|_, _| false);
    assert!(map.is_empty());
}

#[test]
fn retaining_everything_changes_nothing() {
    let before = filled::<4>(&[0, 1, 2, 3, 4, 5, 6, 7]);
    let mut map = before.clone();
    map.retain(|_, _| true);
    assert!(map == before);
}

#[test]
fn iteration_goes_bucket_by_bucket() {
    let mut map = filled::<2>(&[0, 1, 2, 3]);
    let pairs: Vec<(u64, u64)> = map.iter().map(|(&k, &v)| (k, v)).collect();
    assert_eq!(pairs, vec![(0, 1), (2, 3), (1, 2), (3, 4)]);
    let keys: Vec<u64> = map.keys().copied().collect();
    assert_eq!(keys, vec![0, 2, 1, 3]);
    let values: Vec<u64> = map.values().copied().collect();
    assert_eq!(values, vec![1, 3, 2, 4]);
    for value in map.values_mut() {
        *value += 10;
    }
    let mut all = map.into_iter();
    assert_eq!(all.size_hint(), (4, Some(4)));
    assert_eq!(all.next(), Some((0, 11)));
    assert_eq!(all.collect::<Vec<(u64, u64)>>(), vec![(2, 13), (1, 12), (3, 14)]);
}

#[test]
fn iteration_can_stop_early() {
    let mut map = filled::<2>(&[0, 1, 2, 3]);
    let mut iter = map.iter_mut();
    if let Some((_, value)) = iter.next() {
        *value = 50;
    }
    assert_eq!(map.get(&0), Some(&50));
    assert_eq!(map.get(&2), Some(&3));
    assert_eq!(map.len(), 4);
}

#[test]
fn size_hint_counts_the_current_bucket() {
    let map = filled::<2>(&[0, 1, 2, 3]);
    let mut iter = map.iter();
    assert_eq!(iter.size_hint(), (0, None));
    iter.next();
    assert_eq!(iter.size_hint(), (1, None));
}

#[test]
fn collecting_reserves_room_and_keeps_the_last_value() {
    let pairs: Vec<(u64, u64)> = (0..100).map(|i| (i, i)).collect();
    let map: PlainMap<8> = HashMap::from_iter(pairs.into_iter());
    assert_eq!(map.len(), 100);
    assert_eq!(map.inner.buckets.len(), 16);
    let twice: PlainMap<8> = HashMap::from_iter(vec![(1, 10), (2, 20), (1, 30)].into_iter());
    assert_eq!(twice.len(), 2);
    assert_eq!(twice.get(&1), Some(&30));
}

#[test]
fn collecting_a_map_gives_it_back() {
    let map = filled::<4>(&[3, 1, 4, 15, 9, 2, 6]);
    let again: PlainMap<4> = HashMap::from_iter(map.clone().into_iter());
    assert!(again == map);
    let mut extended: PlainMap<4> = HashMap::with_hasher(PlainState);
    extended.extend_ref(map.iter());
    assert!(extended == map);
}

#[test]
fn text_lists_the_entries_in_order() {
    let empty = filled::<2>(&[]);
    assert_eq!(empty.to_debug_string(), "{}");
    let map = filled::<2>(&[0, 1, 2]);
    assert_eq!(map.to_debug_string(), "{0: 1, 2: 3, 1: 2}");
    let mut words: HashMap<&str, Option<u8>, PlainState, 8> = HashMap::with_hasher(PlainState);
    words.insert("a", Some(1));
    assert_eq!(words.to_debug_string(), "{\"a\": Some(1)}");
}

#[test]
fn entry_values_can_be_changed_in_place() {
    let mut map = filled::<4>(&[1]);
    match map.entry(1) {
        Entry::Occupied(mut e) => {
            assert_eq!(e.key(), &1);
            *e.get_mut() += 5;
            assert_eq!(e.insert(20), 7);
            *e.into_mut() += 1;
        }
        Entry::Vacant(_) => panic!("expected occupied"),
    }
    assert_eq!(map.get(&1), Some(&21));
    match map.entry(2) {
        Entry::Vacant(e) => *e.insert(5) += 1,
        Entry::Occupied(_) => panic!("expected vacant"),
    }
    assert_eq!(map.get(&2), Some(&6));
    assert_eq!(map.entry(3).key(), &3);
    assert_eq!(map.len(), 2);
}

#[test]
fn default_maps_use_the_default_builder() {
    let mut map: PlainMap<2> = HashMap::default();
    map.insert(1, 1);
    assert_eq!(map.inner.buckets[0].hash_low[0], 1);
    assert_eq!(map.capacity(), 2);
}

/// A word that is equal to the same word in other letters.
#[derive(Clone)]
struct Word(String);

impl PartialEq for Word {
    fn eq(&self, other: &Self) -> bool {
        self.0.to_lowercase() == other.0.to_lowercase()
    }
}

impl Eq for Word {}

impl std::hash::Hash for Word {
    fn hash<H: std::hash::Hasher>(&self, state: &mut H) {
        self.0.to_lowercase().hash(state);
    }
}

fn word(text: &str) -> Word {
    Word(text.to_string())
}

#[test]
fn the_first_of_two_equal_keys_stays() {
    let mut map = HashMap::new();
    assert_eq!(map.insert(word("Rust"), 1), None);
    assert_eq!(map.insert(word("RUST"), 2), Some(1));
    assert_eq!(map.len(), 1);
    let (key, value) = map.get_key_value(&word("rust")).unwrap();
    assert_eq!(key.0, "Rust");
    assert_eq!(*value, 2);
    assert!(map.get_key_value(&word("go")).is_none());
    map.entry(word("rUsT")).and_modify(|v| *v += 1).or_insert(0);
    let (key, value) = map.remove_entry(&word("RusT")).unwrap();
    assert_eq!(key.0, "Rust");
    assert_eq!(value, 3);
    assert!(map.is_empty());
}

#[test]
fn maps_with_equal_keys_are_equal() {
    let mut left = HashMap::new();
    left.insert(word("one"), 1);
    left.insert(word("two"), 2);
    let mut right = HashMap::new();
    right.insert(word("TWO"), 2);
    right.insert(word("ONE"), 1);
    assert!(left == right);
    assert!(right == left);
}

#[test]
fn a_new_map_has_one_bucket() {
    let map: HashMap<u32, u32, RandomState, DEFAULT_BUCKET_CAPACITY> = HashMap::new();
    assert_eq!(map.capacity(), 8);
    assert_eq!(map.inner.global_depth, 0);
    let other: HashMap<u32, u32, RandomState, DEFAULT_BUCKET_CAPACITY> = HashMap::default();
    assert_eq!(other.capacity(), 8);
}

#[test]
fn inserting_removed_keys_again_leaves_the_capacity() {
    let keys: Vec<u64> = (0..400u64).map(|i| i.wrapping_mul(0x9e37_79b9_7f4a_7c15) >> 40).collect();
    let mut map = filled::<4>(&keys);
    let capacity = map.capacity();
    for round in 1..5 {
        for &key in keys.iter().step_by(round) {
            map.remove(&key);
        }
        assert!(map.capacity() == capacity);
        for &key in keys.iter().rev() {
            map.insert(key, round as u64);
        }
        assert_eq!(map.capacity(), capacity);
        assert_eq!(map.len(), 400);
        assert_eq!(map.get(&keys[7]), Some(&(round as u64)));
    }
}

#[test]
fn the_initial_directory_leads_slot_by_slot() {
    let map: PlainMap<4> = HashMap::with_capacity_and_hasher(16, PlainState);
    assert_eq!(map.inner.directory, vec![0, 1, 2, 3]);
    let one: PlainMap<4> = HashMap::with_hasher(PlainState);
    assert_eq!(one.inner.directory, vec![0]);
}

#[test]
fn reserved_room_is_filled_without_a_split() {
    let mut map: PlainMap<4> = HashMap::with_capacity_and_hasher(16, PlainState);
    for key in 0..16 {
        map.insert(key, key);
    }
    assert_eq!(map.inner.directory, vec![0, 1, 2, 3]);
    assert_eq!(map.capacity(), 16);
    map.insert(16, 16);
    assert_eq!(map.inner.buckets.len(), 5);
}

#[test]
fn a_merge_delays_the_next_split() {
    let mut map = filled::<4>(&[0, 2, 4, 6, 1]);
    for key in [0, 2, 4] {
        map.remove(&key);
    }
    assert_eq!(map.inner.directory, vec![0, 0]);
    assert_eq!(map.inner.buckets[0].len(), 2);
    map.insert(8, 8);
    map.insert(10, 10);
    assert_eq!(map.inner.directory, vec![0, 0]);
    assert_eq!(map.inner.buckets[0].len(), 4);
    map.insert(12, 12);
    assert_eq!(map.inner.directory, vec![0, 1]);
}

#[test]
fn extending_makes_the_table_that_single_insertions_make() {
    let keys: Vec<u64> = (0..60u64).map(|i| i * i * 7 % 509).collect();
    let single = filled::<4>(&keys);
    let mut extended: PlainMap<4> = HashMap::with_hasher(PlainState);
    extended.extend(keys.iter().map(|&k| (k, k + 1)));
    let mut by_reference: PlainMap<4> = HashMap::with_hasher(PlainState);
    let values: Vec<u64> = keys.iter().map(|&k| k + 1).collect();
    by_reference.extend_ref(keys.iter().zip(values.iter()));
    for other in [&extended, &by_reference] {
        assert_eq!(other.inner.directory, single.inner.directory);
        assert_eq!(other.inner.buckets.len(), single.inner.buckets.len());
        for (bucket, expected) in other.inner.buckets.iter().zip(single.inner.buckets.iter()) {
            assert_eq!(bucket.entries_slice(), expected.entries_slice());
            assert_eq!(bucket.local_depth, expected.local_depth);
        }
    }
}

#[test]
fn the_capacity_never_decreases() {
    let keys: Vec<u64> = (0..100).collect();
    let mut map = filled::<4>(&keys);
    let mut capacity = map.capacity();
    assert!(capacity >= 4 && capacity >= map.len());
    for key in 0..50 {
        map.remove(&key);
        assert!(map.capacity() >= capacity);
    }
    map.retain(|key, _| key % 3 == 0);
    assert_eq!(map.capacity(), capacity);
    if let Entry::Occupied(e) = map.entry(51) {
        e.remove();
    }
    assert_eq!(map.capacity(), capacity);
    for key in 0..300 {
        map.insert(key, key);
        assert!(map.capacity() >= capacity && map.capacity() >= map.len());
        capacity = map.capacity();
    }
    drop(map.drain());
    assert_eq!(map.capacity(), capacity);
    map.insert(1, 1);
    map.clear();
    assert_eq!(map.capacity(), capacity);
    let total: usize = map.inner.buckets.iter().map(|b| b.len()).sum();
    assert_eq!(total, map.len());
}
