//! Laws of the capacity: how the number of buckets depends on the keys.

use std::hash::{BuildHasher, Hash};

use vstd::prelude::*;
use vstd::std_specs::cmp::PartialEqSpec;

use crate::bits::low_bits;
use crate::bucket::{fingerprint_of, new_slot, stored_bits_of, Slot, MAX_LOCAL_DEPTH};
use crate::bulk::is_insert_history;
use crate::contents::{
    distinct_keys, lemma_map_of_len, lemma_map_of_slot, lemma_slot_of_key, map_of,
};
use crate::directory::target_depth;
use crate::growth::{
    bucket_limit, fits, is_forced, leaves, lemma_buckets_within_capacity,
    lemma_insertion_is_forced, lemma_leaves_positive,
    lemma_live_buckets_of_crowd, lemma_removal_is_forced, lemma_same_depths_are_forced, population,
};
use crate::hashing::{find_key, hashes_to, holds, key_matches, lemma_key_matches_itself};
use crate::map::{is_insert, lemma_removed, slot_hashed, HashMap};
use crate::steps::{changed, inserted, is_removal};
use crate::table_laws::{law_len_within_capacity, law_live_buckets};

verus! {

broadcast use {
    vstd::multiset::group_multiset_axioms,
    vstd::seq_lib::group_to_multiset_ensures,
    lemma_key_matches_itself,
};

/// Whether the stored part of a hash of the key ends in the given bits.
pub open spec fn hash_ends_in<K: Hash, S: BuildHasher>(
    builder: &S,
    key: &K,
    depth: nat,
    pattern: int,
) -> bool {
    exists|hash: u64| #[trigger]
        hashes_to(builder, key, hash) && low_bits(stored_bits_of(hash) as int, depth) == pattern
}

/// How many of the keys have a hash that ends in given bits.
pub open spec fn crowd_of<K: Hash, S: BuildHasher>(builder: &S, keys: Set<K>) -> spec_fn(
    nat,
    int,
) -> nat {
    |depth: nat, pattern: int|
        keys.filter(|key: K| hash_ends_in(builder, &key, depth, pattern)).len()
}

/// The number of buckets that a set of keys needs, with buckets of the given capacity.
pub open spec fn buckets_needed<K: Hash, S: BuildHasher>(
    builder: &S,
    keys: Set<K>,
    capacity: usize,
) -> nat {
    leaves(crowd_of(builder, keys), bucket_limit(capacity), 0, 0)
}

/// Whether a map is one that insertions and removals of the given keys alone can make: its keys are
/// among them, and it has made no split and no place that they do not need.
pub open spec fn is_settled<K: Eq + Hash, V, S: BuildHasher, const N: usize>(
    map: HashMap<K, V, S, N>,
    keys: Set<K>,
) -> bool {
    &&& map.wf()
    &&& map.lawful::<K>()
    &&& keys.finite()
    &&& map@.dom().subset_of(keys)
    &&& is_forced(map.inner, crowd_of(&map.hash_builder, keys))
    &&& map.inner.buckets@.len() <= buckets_needed(&map.hash_builder, keys, N)
}

/// Whether `after` is what removing a key, which may be missing, makes of `before`.
pub open spec fn is_remove<K: Eq + Hash, V, S: BuildHasher, const N: usize>(
    before: HashMap<K, V, S, N>,
    after: HashMap<K, V, S, N>,
) -> bool {
    &&& after.wf()
    &&& after.hash_builder == before.hash_builder
    &&& {
        ||| after == before
        ||| exists|hash: u64, entry: int| #[trigger]
            is_removal(before.inner, after.inner, hash, entry)
    }
}

/// There are no more entries under a pattern of hash bits than keys, and as many if all keys are
/// stored.
proof fn lemma_population_of_keys<K: Eq + Hash, V, S: BuildHasher, const N: usize>(
    map: HashMap<K, V, S, N>,
    keys: Set<K>,
    depth: nat,
    pattern: int,
)
    requires
        map.wf(),
        map.lawful::<K>(),
        keys.finite(),
        map@.dom().subset_of(keys),
    ensures
        population(map.inner.contents(), depth, pattern) <= crowd_of(&map.hash_builder, keys)(
            depth,
            pattern,
        ),
        map@.dom() == keys ==> population(map.inner.contents(), depth, pattern) == crowd_of(
            &map.hash_builder,
            keys,
        )(depth, pattern),
{
    let contents = map.inner.contents();
    let part = contents.filter(|s: Slot<K, V>| low_bits(s.hash_low as int, depth) == pattern);
    let ends = |key: K| hash_ends_in(&map.hash_builder, &key, depth, pattern);
    assert forall|s: Slot<K, V>| #[trigger] part.contains(s) implies contents.contains(s)
        && low_bits(s.hash_low as int, depth) == pattern by {}
    assert(distinct_keys(part)) by {
        assert forall|s: Slot<K, V>| #[trigger] part.count(s) <= 1 by {
            assert(contents.count(s) <= 1);
        }
    }
    lemma_map_of_len(part);
    keys.lemma_len_filter(ends);
    assert forall|key: K| map_of(part).dom().contains(key) implies keys.filter(ends).contains(
        key,
    ) by {
        assert(map_of(part).contains_key(key));
        let slot = lemma_slot_of_key(part, key);
        lemma_map_of_slot(contents, slot);
        assert(map@.dom().contains(key));
        assert(slot_hashed(&map.hash_builder, slot));
        let hash = choose|hash: u64| #[trigger]
            hashes_to(&map.hash_builder, &slot.key, hash) && slot.fingerprint == fingerprint_of(
                hash,
            ) && slot.hash_low == stored_bits_of(hash);
        assert(hashes_to(&map.hash_builder, &key, hash));
    }
    vstd::set_lib::lemma_len_subset(map_of(part).dom(), keys.filter(ends));
    if map@.dom() == keys {
        assert forall|key: K| keys.filter(ends).contains(key) implies map_of(part).dom().contains(
            key,
        ) by {
            assert(map@.contains_key(key));
            let slot = lemma_slot_of_key(contents, key);
            assert(slot_hashed(&map.hash_builder, slot));
            let stored = choose|hash: u64| #[trigger]
                hashes_to(&map.hash_builder, &slot.key, hash) && slot.fingerprint
                    == fingerprint_of(hash) && slot.hash_low == stored_bits_of(hash);
            let hash = choose|hash: u64| #[trigger]
                hashes_to(&map.hash_builder, &key, hash) && low_bits(
                    stored_bits_of(hash) as int,
                    depth,
                ) == pattern;
            assert((&key).eq_spec(&key));
            assert(key_matches::<K, K>(key, &key));
            assert(stored == hash);
            assert(part.contains(slot));
        }
        assert(map_of(part).dom() =~= keys.filter(ends));
    }
}

/// An empty map with a single bucket is settled, whatever the keys will be.
pub proof fn law_settled_when_new<K: Eq + Hash, V, S: BuildHasher, const N: usize>(
    map: HashMap<K, V, S, N>,
    keys: Set<K>,
)
    requires
        map.wf(),
        map.lawful::<K>(),
        map@ == Map::<K, V>::empty(),
        map.inner.global_depth == 0,
        map.inner.buckets@.len() == 1,
        keys.finite(),
    ensures
        is_settled(map, keys),
{
    lemma_leaves_positive(crowd_of(&map.hash_builder, keys), bucket_limit(N), 0, 0);
    assert forall|s: int| 0 <= s < map.inner.directory@.len() implies target_depth(
        map.inner.directory@,
        map.inner.buckets@,
        s,
    ) == 0 by {
        assert(map.inner.directory@[s] < map.inner.buckets@.len());
    }
}

/// Inserting one of the keys leaves a map settled.
pub proof fn law_settled_after_insert<K: Eq + Hash, V, S: BuildHasher, const N: usize>(
    before: HashMap<K, V, S, N>,
    after: HashMap<K, V, S, N>,
    keys: Set<K>,
    key: K,
    value: V,
)
    requires
        is_settled(before, keys),
        keys.contains(key),
        is_insert(before, after, key, value),
    ensures
        is_settled(after, keys),
{
    let crowd = crowd_of(&before.hash_builder, keys);
    if find_key(before@, &key) is Some {
        let stored = find_key(before@, &key)->0;
        assert(holds(before@, &key, stored));
        assert(before@.dom().contains(stored));
    }
    assert(after@.dom().subset_of(keys));
    if exists|slot: Slot<K, V>| #[trigger] changed(before.inner, after.inner, slot, value) {
        lemma_same_depths_are_forced(before.inner, after.inner, crowd);
    } else {
        let hash = choose|hash: u64| #[trigger]
            hashes_to(&before.hash_builder, &key, hash) && inserted(
                before.inner,
                after.inner,
                hash,
                new_slot(hash, key, value),
            );
        assert forall|depth: nat, pattern: int| #[trigger]
            population(after.inner.contents(), depth, pattern) <= crowd(depth, pattern) by {
            lemma_population_of_keys(after, keys, depth, pattern);
        }
        assert(fits(after.inner.contents(), crowd));
        lemma_insertion_is_forced(
            before.inner,
            after.inner,
            hash,
            new_slot(hash, key, value),
            crowd,
        );
        lemma_live_buckets_of_crowd(after.inner, crowd);
    }
}

/// Inserting pairs one after the other, as extending or collecting a map does, leaves it settled.
pub proof fn law_settled_after_inserts<K: Eq + Hash, V, S: BuildHasher, const N: usize>(
    history: Seq<HashMap<K, V, S, N>>,
    pairs: Seq<(K, V)>,
    keys: Set<K>,
)
    requires
        is_insert_history(history, pairs),
        is_settled(history.first(), keys),
        forall|i: int| 0 <= i < pairs.len() ==> keys.contains((#[trigger] pairs[i]).0),
    ensures
        is_settled(history.last(), keys),
    decreases pairs.len(),
{
    if pairs.len() > 0 {
        let n = pairs.len() - 1;
        let earlier = history.drop_last();
        let front = pairs.drop_last();
        assert forall|i: int|
            #![trigger front[i]]
            0 <= i < front.len() implies is_insert(
            earlier[i],
            earlier[i + 1],
            front[i].0,
            front[i].1,
        ) && keys.contains(front[i].0) by {
            assert(front[i] == pairs[i]);
        }
        law_settled_after_inserts(earlier, front, keys);
        assert(is_insert(history[n], history[n + 1], pairs[n].0, pairs[n].1));
        law_settled_after_insert(history[n], history[n + 1], keys, pairs[n].0, pairs[n].1);
    }
}

/// Removing a key leaves a map settled.
pub proof fn law_settled_after_remove<K: Eq + Hash, V, S: BuildHasher, const N: usize>(
    before: HashMap<K, V, S, N>,
    after: HashMap<K, V, S, N>,
    keys: Set<K>,
)
    requires
        is_settled(before, keys),
        is_remove(before, after),
    ensures
        is_settled(after, keys),
{
    if after != before {
        let (hash, entry) = choose|hash: u64, entry: int| #[trigger]
            is_removal(before.inner, after.inner, hash, entry);
        let slot = before.inner.buckets@[before.inner.bucket_of(hash)].slots()[entry];
        lemma_removal_is_forced(
            before.inner,
            after.inner,
            hash,
            entry,
            crowd_of(&before.hash_builder, keys),
        );
        lemma_removed(before, after.inner, slot);
        assert(after@ == before@.remove(slot.key));
    }
}

/// A settled map that stores all of the keys has exactly as many buckets as they need, none of them
/// free.
pub proof fn law_buckets_of_settled_map<K: Eq + Hash, V, S: BuildHasher, const N: usize>(
    map: HashMap<K, V, S, N>,
    keys: Set<K>,
)
    requires
        is_settled(map, keys),
        map@.dom() == keys,
    ensures
        map.inner.buckets@.len() == buckets_needed(&map.hash_builder, keys, N),
        map.inner.freelist@.len() == 0,
        map.inner.len == keys.len(),
{
    let crowd = crowd_of(&map.hash_builder, keys);
    assert forall|depth: nat, pattern: int| #[trigger]
        population(map.inner.contents(), depth, pattern) == crowd(depth, pattern) by {
        lemma_population_of_keys(map, keys, depth, pattern);
    }
    lemma_live_buckets_of_crowd(map.inner, crowd);
    law_live_buckets(map.inner);
    lemma_map_of_len(map.inner.contents());
}

/// Whether each map comes from the one before by inserting one of the keys or by a removal.
pub open spec fn is_history<K: Eq + Hash, V, S: BuildHasher, const N: usize>(
    history: Seq<HashMap<K, V, S, N>>,
    keys: Set<K>,
) -> bool {
    forall|i: int, j: int|
        #![trigger history[i], history[j]]
        0 <= i < history.len() && j == i + 1 && j < history.len() ==> {
            ||| is_remove(history[i], history[j])
            ||| exists|key: K, value: V|
                keys.contains(key) && #[trigger] is_insert(history[i], history[j], key, value)
        }
}

/// Every map in a history of insertions and removals that starts with a settled map is settled.
proof fn lemma_history<K: Eq + Hash, V, S: BuildHasher, const N: usize>(
    history: Seq<HashMap<K, V, S, N>>,
    keys: Set<K>,
    index: int,
)
    requires
        0 <= index < history.len(),
        is_settled(history[0], keys),
        is_history(history, keys),
    ensures
        is_settled(history[index], keys),
        history[index].hash_builder == history[0].hash_builder,
    decreases index,
{
    if index > 0 {
        lemma_history(history, keys, index - 1);
        if is_remove(history[index - 1], history[index]) {
            law_settled_after_remove(history[index - 1], history[index], keys);
        } else {
            let (key, value) = choose|key: K, value: V|
                keys.contains(key) && #[trigger] is_insert(
                    history[index - 1],
                    history[index],
                    key,
                    value,
                );
            law_settled_after_insert(history[index - 1], history[index], keys, key, value);
        }
    }
}

/// While the given keys are inserted and removed in any order, starting with an empty map of one
/// bucket, the pool never has more buckets than all of the keys need. Whenever all of them are
/// stored, it has exactly that many: buckets that merges have freed are reused before the pool
/// grows, and inserting removed keys again leaves the capacity as it was.
pub proof fn law_capacity_is_settled_by_the_keys<
    K: Eq + Hash,
    V,
    S: BuildHasher,
    const N: usize,
>(history: Seq<HashMap<K, V, S, N>>, keys: Set<K>, first: int, second: int)
    requires
        0 <= first < history.len(),
        0 <= second < history.len(),
        history[0].wf(),
        history[0].lawful::<K>(),
        history[0]@ == Map::<K, V>::empty(),
        history[0].inner.global_depth == 0,
        history[0].inner.buckets@.len() == 1,
        keys.finite(),
        is_history(history, keys),
        history[first]@.dom() == keys,
    ensures
        history[second].inner.buckets@.len() <= history[first].inner.buckets@.len(),
        history[second]@.dom() == keys ==> {
            &&& history[second].inner.buckets@.len() == history[first].inner.buckets@.len()
            &&& history[second].inner.len == history[first].inner.len
        },
{
    law_settled_when_new(history[0], keys);
    lemma_history(history, keys, first);
    lemma_history(history, keys, second);
    law_buckets_of_settled_map(history[first], keys);
    if history[second]@.dom() == keys {
        law_buckets_of_settled_map(history[second], keys);
    }
}

/// The length of a map is within its capacity, as long as no more than `N` of its keys share all
/// hash bits that are stored: only then does a bucket hold more than `N` entries.
pub proof fn law_len_within_capacity_of_map<K: Eq + Hash, V, S: BuildHasher, const N: usize>(
    map: HashMap<K, V, S, N>,
)
    requires
        map.wf(),
        map.lawful::<K>(),
        N > 0,
        forall|pattern: int| #[trigger]
            crowd_of(&map.hash_builder, map@.dom())(MAX_LOCAL_DEPTH as nat, pattern) <= N,
    ensures
        map.inner.len <= map.inner.capacity(),
        map.inner.len == map@.len(),
{
    lemma_map_of_len(map.inner.contents());
    assert forall|pattern: int| #[trigger]
        population(map.inner.contents(), MAX_LOCAL_DEPTH as nat, pattern) <= N by {
        lemma_population_of_keys(map, map@.dom(), MAX_LOCAL_DEPTH as nat, pattern);
        assert(crowd_of(&map.hash_builder, map@.dom())(MAX_LOCAL_DEPTH as nat, pattern) <= N);
    }
    lemma_buckets_within_capacity(map.inner);
    law_len_within_capacity(map.inner);
}

} // verus!
