//! Laws of the map: what holds of its operations together, stated over what their contracts speak
//! of.

use std::hash::{BuildHasher, Hash};

use vstd::prelude::*;
use vstd::std_specs::cmp::PartialEqSpec;
use vstd::std_specs::hash::obeys_key_model;

use crate::bucket::{fingerprint_of, new_slot, stored_bits_of, with_value, Slot};
use crate::bulk::{dereferenced, insert_all};
use crate::contents::{
    lemma_distinct_keys_seq, lemma_map_of_empty, lemma_map_of_len, lemma_pairs,
    lemma_pool_revalued, lemma_slot_of_key, lemma_total_len, pool_pairs, pool_slots, total_len,
};
use crate::hashing::{
    consistent, equality_is_identity, find_key, hashes_to, holds, is_equivalence, key_matches,
    keys_differ, lemma_find_key_itself, lemma_key_matches_itself, lemma_lends_itself, lends,
    plain_keys, put,
};
use crate::inner::{lemma_entry_is_where_its_hash_leads, HashMapInner};
use crate::map::{is_insert, lemma_slot_hashed, slot_hashed, HashMap};
use crate::retain::accepts;
use crate::steps::{is_rewritten, lemma_changed_twice};
use crate::traits::{
    has_counterpart, is_bucket_clone, is_table_clone, lemma_pool_clone, lemma_table_clone,
    maps_equal,
};

verus! {

broadcast use {
    vstd::multiset::group_multiset_axioms,
    vstd::seq_lib::group_to_multiset_ensures,
    lemma_key_matches_itself,
};

/// In a map whose keys are all different under `==`, a query that matches a key finds that key.
proof fn lemma_found<K: Eq + Hash, V, S: BuildHasher, Q: Hash + Eq + ?Sized>(
    builder: &S,
    map: Map<K, V>,
    key: K,
    query: &Q,
)
    requires
        consistent::<K, Q, S>(builder),
        keys_differ(map),
        map.contains_key(key),
        key_matches::<K, Q>(key, query),
    ensures
        find_key(map, query) == Some(key),
{
    assert(holds(map, query, key));
    let found = find_key(map, query)->0;
    assert(holds(map, query, found));
    assert(key_matches::<K, Q>(found, query) <==> key.eq_spec(&found));
}

/// After an insertion, a query that matches the key finds the stored key, with the new value; any
/// other query finds what it found before. The keys are still all different.
pub proof fn law_insert_then_find<K: Eq + Hash, V, S: BuildHasher, Q: Hash + Eq + ?Sized>(
    builder: &S,
    map: Map<K, V>,
    key: K,
    value: V,
    query: &Q,
)
    requires
        consistent::<K, K, S>(builder),
        consistent::<K, Q, S>(builder),
        keys_differ(map),
    ensures
        keys_differ(put(map, key, value)),
        key_matches::<K, Q>(key, query) ==> {
            let stored = match find_key(map, &key) {
                Some(found) => found,
                None => key,
            };
            &&& find_key(put(map, key, value), query) == Some(stored)
            &&& put(map, key, value)[stored] == value
        },
        !key_matches::<K, Q>(key, query) ==> {
            &&& find_key(put(map, key, value), query) == find_key(map, query)
            &&& find_key(map, query) matches Some(found) ==> put(map, key, value)[found]
                == map[found]
        },
{
    let after = put(map, key, value);
    let stored = match find_key(map, &key) {
        Some(found) => found,
        None => key,
    };
    assert((&key).eq_spec(&key));
    if find_key(map, &key) is Some {
        assert(holds(map, &key, stored));
    }
    assert(stored.eq_spec(&key) && key.eq_spec(&stored)) by {
        assert((&stored).eq_spec(&key) ==> (&key).eq_spec(&stored));
    }
    assert forall|other: K|
        #[trigger] map.contains_key(other) && other.eq_spec(&key) implies other == stored by {
        assert(holds(map, &key, other));
        assert((&key).eq_spec(&stored) && (&other).eq_spec(&key));
        assert((&other).eq_spec(&stored));
    }
    assert forall|a: K, b: K|
        #![trigger after.contains_key(a), after.contains_key(b)]
        after.contains_key(a) && after.contains_key(b) && a.eq_spec(&b) implies a == b by {
        assert((&a).eq_spec(&b) ==> (&b).eq_spec(&a));
        assert(a == stored || map.contains_key(a));
        assert(b == stored || map.contains_key(b));
        assert((&a).eq_spec(&stored) ==> (&a).eq_spec(&key)) by {
            assert((&stored).eq_spec(&key));
        }
        assert((&b).eq_spec(&stored) ==> (&b).eq_spec(&key)) by {
            assert((&stored).eq_spec(&key));
        }
    }
    if key_matches::<K, Q>(key, query) {
        assert(key_matches::<K, Q>(stored, query) <==> key.eq_spec(&stored));
        lemma_found(builder, after, stored, query);
    } else {
        assert(!key_matches::<K, Q>(stored, query)) by {
            if key_matches::<K, Q>(stored, query) {
                assert(key_matches::<K, Q>(key, query) <==> stored.eq_spec(&key));
            }
        }
        assert forall|other: K| #[trigger]
            holds(after, query, other) <==> holds(map, query, other) by {}
        if exists|other: K| holds(map, query, other) {
            let other = choose|other: K| holds(map, query, other);
            lemma_found(builder, map, other, query);
            lemma_found(builder, after, other, query);
        }
    }
}

/// After a removal, a query that matches the key finds nothing; any other query finds what it found
/// before.
pub proof fn law_remove_then_find<K: Eq + Hash, V, S: BuildHasher, Q: Hash + Eq + ?Sized>(
    builder: &S,
    map: Map<K, V>,
    key: K,
    query: &Q,
)
    requires
        consistent::<K, Q, S>(builder),
        keys_differ(map),
        map.contains_key(key),
    ensures
        keys_differ(map.remove(key)),
        key_matches::<K, Q>(key, query) ==> find_key(map.remove(key), query) is None,
        !key_matches::<K, Q>(key, query) ==> {
            &&& find_key(map.remove(key), query) == find_key(map, query)
            &&& find_key(map, query) matches Some(found) ==> map.remove(key)[found] == map[found]
        },
{
    let after = map.remove(key);
    assert forall|a: K, b: K|
        #![trigger after.contains_key(a), after.contains_key(b)]
        after.contains_key(a) && after.contains_key(b) && a.eq_spec(&b) implies a == b by {
        assert(map.contains_key(a) && map.contains_key(b));
    }
    if key_matches::<K, Q>(key, query) {
        assert forall|other: K| !#[trigger] holds(after, query, other) by {
            if holds(after, query, other) {
                assert(key_matches::<K, Q>(other, query) <==> key.eq_spec(&other));
                assert(map.contains_key(other));
            }
        }
    } else {
        assert forall|other: K| #[trigger]
            holds(after, query, other) <==> holds(map, query, other) by {}
        if exists|other: K| holds(map, query, other) {
            let other = choose|other: K| holds(map, query, other);
            lemma_found(builder, map, other, query);
            lemma_found(builder, after, other, query);
        }
    }
}

/// Removing a key that has just been inserted for the first time gives the map back as it was.
pub proof fn law_insert_then_remove<K: Eq, V>(map: Map<K, V>, key: K, value: V)
    requires
        is_equivalence::<K>(),
        find_key(map, &key) is None,
    ensures
        put(map, key, value).remove(key) == map,
{
    assert((&key).eq_spec(&key));
    assert(!holds(map, &key, key));
    assert(put(map, key, value).remove(key) =~= map);
}

/// Of two insertions for keys that are `==`, the first gives the key and the second the value: the
/// key that was inserted first stays, and is what a lookup of either key finds.
pub proof fn law_insert_equal_keys<K: Eq + Hash, V, S: BuildHasher>(
    builder: &S,
    map: Map<K, V>,
    first: K,
    second: K,
    old_value: V,
    new_value: V,
)
    requires
        consistent::<K, K, S>(builder),
        keys_differ(map),
        first.eq_spec(&second),
    ensures
        put(put(map, first, old_value), second, new_value) == put(map, first, new_value),
        find_key(put(map, first, old_value), &second) matches Some(stored) && put(
            map,
            first,
            old_value,
        )[stored] == old_value,
        find_key(map, &first) is None ==> {
            let after = put(put(map, first, old_value), second, new_value);
            &&& find_key(after, &first) == Some(first)
            &&& find_key(after, &second) == Some(first)
            &&& after[first] == new_value
        },
{
    let between = put(map, first, old_value);
    let stored = match find_key(map, &first) {
        Some(found) => found,
        None => first,
    };
    law_insert_then_find(builder, map, first, old_value, &second);
    law_insert_then_find(builder, map, first, new_value, &second);
    assert((&first).eq_spec(&first));
    law_insert_then_find(builder, map, first, new_value, &first);
    assert(put(between, second, new_value) =~= put(map, first, new_value));
}

/// A map without entries is well-formed, whatever its hash builder does.
pub broadcast proof fn law_empty_map_is_well_formed<K: Eq + Hash, V, S: BuildHasher, const N: usize>(
    map: HashMap<K, V, S, N>,
)
    requires
        map.inner.wf(),
        map.inner.contents().len() == 0,
    ensures
        #[trigger] map.wf(),
        map@ == Map::<K, V>::empty(),
{
    assert(map.inner.contents() =~= vstd::multiset::Multiset::empty());
    lemma_map_of_empty::<K, V>();
}

/// An entry is in the bucket to which any hash of its key leads.
pub proof fn law_entries_are_where_hashes_lead<K: Eq + Hash, V, S: BuildHasher, const N: usize>(
    map: HashMap<K, V, S, N>,
    key: K,
    hash: u64,
)
    requires
        map.wf(),
        map.lawful::<K>(),
        map@.contains_key(key),
        hashes_to(&map.hash_builder, &key, hash),
    ensures
        map.inner.buckets@[map.inner.bucket_of(hash)].slots().contains(
            new_slot(hash, key, map@[key]),
        ),
{
    let slot = lemma_slot_of_key(map.inner.contents(), key);
    assert(slot_hashed(&map.hash_builder, slot));
    let stored = choose|stored: u64| #[trigger]
        hashes_to(&map.hash_builder, &slot.key, stored) && slot.fingerprint == fingerprint_of(
            stored,
        ) && slot.hash_low == stored_bits_of(stored);
    assert((&key).eq_spec(&key));
    assert(key_matches::<K, K>(slot.key, &key));
    assert(stored == hash);
    lemma_entry_is_where_its_hash_leads(map.inner, slot, hash);
}

/// A copy of a map with the same entries and the same hash builder is well-formed, and is the same
/// map.
pub proof fn law_clone<K: Eq + Hash, V, S: BuildHasher, const N: usize>(
    map: HashMap<K, V, S, N>,
    copy: HashMap<K, V, S, N>,
)
    requires
        map.wf(),
        copy.inner.wf(),
        copy.inner.contents() == map.inner.contents(),
        copy.hash_builder == map.hash_builder,
    ensures
        copy.wf(),
        copy@ == map@,
{
}

/// Iteration visits every entry of the map exactly once.
pub proof fn law_iteration<K: Eq + Hash, V, S: BuildHasher, const N: usize>(
    map: HashMap<K, V, S, N>,
)
    requires
        map.wf(),
        map.lawful::<K>(),
    ensures
        pool_pairs(map.inner.buckets@).len() == map.inner.len,
        map.inner.len == map@.len(),
        forall|key: K, value: V| #[trigger]
            pool_pairs(map.inner.buckets@).contains((key, value)) <==> map@.contains_key(key)
                && map@[key] == value,
        forall|i: int, j: int|
            0 <= i < map.inner.len && 0 <= j < map.inner.len && i != j ==> (
            #[trigger] pool_pairs(map.inner.buckets@)[i]).0 != (
            #[trigger] pool_pairs(map.inner.buckets@)[j]).0,
{
    lemma_pairs(map.inner.buckets@);
}

/// The length of a map is the number of its keys, the number of entries in all buckets of the pool,
/// and the number of pairs that iteration visits. It is zero exactly when the map is empty.
pub proof fn law_len<K: Eq + Hash, V, S: BuildHasher, const N: usize>(map: HashMap<K, V, S, N>)
    requires
        map.wf(),
        map.lawful::<K>(),
    ensures
        map.inner.len == map@.len(),
        map.inner.len == total_len(map.inner.buckets@),
        map.inner.len == pool_pairs(map.inner.buckets@).len(),
        map.inner.len == 0 <==> map@ == Map::<K, V>::empty(),
{
    lemma_map_of_len(map.inner.contents());
    lemma_total_len(map.inner.buckets@);
    if map.inner.len == 0 {
        assert(map@.dom() =~= Set::empty());
        assert(map@ =~= Map::empty());
    }
}

/// A map in which only values have been overwritten is well-formed, has the same keys, and gives
/// for each of them the value that iteration shows.
pub proof fn law_rewritten<K: Eq + Hash, V, S: BuildHasher, const N: usize>(
    before: HashMap<K, V, S, N>,
    after: HashMap<K, V, S, N>,
)
    requires
        before.wf(),
        after.hash_builder == before.hash_builder,
        is_rewritten(before.inner, after.inner),
    ensures
        after.wf(),
        before.lawful::<K>() ==> {
            &&& after@.dom() == before@.dom()
            &&& forall|i: int|
                0 <= i < after.inner.len ==> {
                    let old_pair = pool_pairs(before.inner.buckets@)[i];
                    let new_pair = #[trigger] pool_pairs(after.inner.buckets@)[i];
                    &&& new_pair.0 == old_pair.0
                    &&& before@[new_pair.0] == old_pair.1
                    &&& after@[new_pair.0] == new_pair.1
                }
        },
{
    let old_slots = pool_slots(before.inner.buckets@);
    let new_slots = pool_slots(after.inner.buckets@);
    lemma_pool_revalued(before.inner.buckets@, after.inner.buckets@);
    assert forall|slot: Slot<K, V>| #[trigger] after.inner.contents().contains(slot) implies slot_hashed(
        &after.hash_builder,
        slot,
    ) by {
        let i = new_slots.index_of(slot);
        assert(before.inner.contents().contains(old_slots[i]));
        lemma_slot_hashed(&before.hash_builder, old_slots[i], slot.value);
        assert(slot == with_value(old_slots[i], slot.value));
    }
    if consistent::<K, K, S>(&before.hash_builder) {
        lemma_distinct_keys_seq(old_slots);
        lemma_distinct_keys_seq(new_slots);
        assert forall|i: int, j: int|
            0 <= i < new_slots.len() && 0 <= j < new_slots.len() && i != j implies (
        #[trigger] new_slots[i]).key != (#[trigger] new_slots[j]).key by {
            assert(old_slots[i].key != old_slots[j].key);
        }
        assert forall|a: Slot<K, V>, b: Slot<K, V>| #[trigger]
            after.inner.contents().contains(a) && #[trigger] after.inner.contents().contains(b)
                && a.key.eq_spec(&b.key) implies a == b by {
            let i = new_slots.index_of(a);
            let j = new_slots.index_of(b);
            assert(new_slots[i] == a && new_slots[j] == b);
            assert(before.inner.contents().contains(old_slots[i]));
            assert(before.inner.contents().contains(old_slots[j]));
            assert(old_slots[i] == old_slots[j]);
        }
        lemma_pairs(before.inner.buckets@);
        lemma_pairs(after.inner.buckets@);
        assert forall|key: K| after@.contains_key(key) <==> before@.contains_key(key) by {
            if after@.contains_key(key) {
                let i = pool_pairs(after.inner.buckets@).index_of((key, after@[key]));
                assert(pool_pairs(before.inner.buckets@)[i].0 == key);
            }
            if before@.contains_key(key) {
                let i = pool_pairs(before.inner.buckets@).index_of((key, before@[key]));
                assert(pool_pairs(after.inner.buckets@)[i].0 == key);
            }
        }
        assert(after@.dom() =~= before@.dom());
    }
}

/// Collecting the pairs of a map, in the order of iteration, gives the same map again.
pub proof fn law_collect<K: Eq + Hash, V, S: BuildHasher, const N: usize>(map: HashMap<K, V, S, N>)
    requires
        map.wf(),
        map.lawful::<K>(),
    ensures
        insert_all(Map::<K, V>::empty(), pool_pairs(map.inner.buckets@)) == map@,
{
    let pairs = pool_pairs(map.inner.buckets@);
    let slots = pool_slots(map.inner.buckets@);
    lemma_pairs(map.inner.buckets@);
    assert forall|i: int, j: int|
        0 <= i < pairs.len() && 0 <= j < pairs.len() && i != j implies !(
    #[trigger] pairs[i]).0.eq_spec(&(#[trigger] pairs[j]).0) by {
        assert(map.inner.contents().contains(slots[i]) && map.inner.contents().contains(slots[j]));
        assert(pairs[i].0 != pairs[j].0);
    }
    lemma_insert_all(Map::<K, V>::empty(), pairs);
    assert(insert_all(Map::<K, V>::empty(), pairs) =~= map@) by {
        assert forall|key: K| map@.contains_key(key) implies pairs.contains((key, map@[key])) by {}
    }
}

/// Inserting pairs with different keys, which are new to the map, adds exactly these pairs and
/// leaves other keys alone.
proof fn lemma_insert_all<K: Eq, V>(map: Map<K, V>, pairs: Seq<(K, V)>)
    requires
        forall|i: int, j: int|
            0 <= i < pairs.len() && 0 <= j < pairs.len() && i != j ==> !(
            #[trigger] pairs[i]).0.eq_spec(&(#[trigger] pairs[j]).0) && pairs[i].0 != pairs[j].0,
        forall|key: K, i: int|
            #![trigger map.contains_key(key), pairs[i]]
            map.contains_key(key) && 0 <= i < pairs.len() ==> !key.eq_spec(&pairs[i].0),
    ensures
        forall|i: int|
            0 <= i < pairs.len() ==> {
                &&& insert_all(map, pairs).contains_key((#[trigger] pairs[i]).0)
                &&& insert_all(map, pairs)[pairs[i].0] == pairs[i].1
            },
        forall|key: K|
            (forall|i: int| 0 <= i < pairs.len() ==> (#[trigger] pairs[i]).0 != key) ==> {
                &&& #[trigger] insert_all(map, pairs).contains_key(key) == map.contains_key(key)
                &&& map.contains_key(key) ==> insert_all(map, pairs)[key] == map[key]
            },
    decreases pairs.len(),
{
    if pairs.len() > 0 {
        let rest = pairs.drop_first();
        let first = map.insert(pairs[0].0, pairs[0].1);
        assert(find_key(map, &pairs[0].0) is None);
        assert forall|i: int, j: int|
            0 <= i < rest.len() && 0 <= j < rest.len() && i != j implies !(
        #[trigger] rest[i]).0.eq_spec(&(#[trigger] rest[j]).0) && rest[i].0 != rest[j].0 by {
            assert(!pairs[i + 1].0.eq_spec(&pairs[j + 1].0));
        }
        assert forall|key: K, i: int|
            #![trigger first.contains_key(key), rest[i]]
            first.contains_key(key) && 0 <= i < rest.len() implies !key.eq_spec(&rest[i].0) by {
            assert(rest[i] == pairs[i + 1]);
            assert(!pairs[0].0.eq_spec(&pairs[i + 1].0));
        }
        lemma_insert_all(first, rest);
        assert forall|i: int| 0 <= i < pairs.len() implies {
            &&& insert_all(map, pairs).contains_key((#[trigger] pairs[i]).0)
            &&& insert_all(map, pairs)[pairs[i].0] == pairs[i].1
        } by {
            if i > 0 {
                assert(rest[i - 1] == pairs[i]);
            } else {
                assert forall|j: int| 0 <= j < rest.len() implies (#[trigger] rest[j]).0
                    != pairs[0].0 by {
                    assert(pairs[j + 1].0 != pairs[0].0);
                }
                assert(insert_all(first, rest).contains_key(pairs[0].0));
            }
        }
        assert forall|key: K|
            (forall|i: int| 0 <= i < pairs.len() ==> (#[trigger] pairs[i]).0 != key) implies {
            &&& #[trigger] insert_all(map, pairs).contains_key(key) == map.contains_key(key)
            &&& map.contains_key(key) ==> insert_all(map, pairs)[key] == map[key]
        } by {
            assert forall|j: int| 0 <= j < rest.len() implies (#[trigger] rest[j]).0 != key by {
                assert(pairs[j + 1].0 != key);
            }
            assert(pairs[0].0 != key);
            assert(insert_all(first, rest).contains_key(key) == first.contains_key(key));
        }
    }
}

/// What a query finds is a key of the map that it matches; if it finds nothing, it matches none.
pub proof fn law_find_key<K, V, Q: PartialEq + ?Sized>(map: Map<K, V>, query: &Q)
    ensures
        match find_key(map, query) {
            Some(key) => map.contains_key(key) && exists|lent: &Q| #[trigger]
                lends::<K, Q>(key, lent) && lent.eq_spec(query),
            None => forall|key: K, lent: &Q|
                map.contains_key(key) && #[trigger] lends::<K, Q>(key, lent) ==> !lent.eq_spec(
                    query,
                ),
        },
{
    match find_key(map, query) {
        Some(key) => {
            assert(holds(map, query, key));
        },
        None => {
            assert forall|key: K, lent: &Q|
                map.contains_key(key) && #[trigger] lends::<K, Q>(key, lent) implies !lent.eq_spec(
                query,
            ) by {
                assert(!holds(map, query, key));
            }
        },
    }
}

/// Putting a value for a key changes the map at one key: at a stored key that is `==` to the given
/// one if there is such a key, and otherwise at the given one.
pub proof fn law_put<K: PartialEq, V>(map: Map<K, V>, key: K, value: V)
    ensures
        (exists|stored: K|
            {
                &&& map.contains_key(stored)
                &&& stored.eq_spec(&key)
                &&& put(map, key, value) == #[trigger] map.insert(stored, value)
            }) || ((forall|stored: K| #[trigger]
            map.contains_key(stored) ==> !stored.eq_spec(&key)) && put(map, key, value)
            == map.insert(key, value)),
{
    match find_key(map, &key) {
        Some(stored) => {
            assert(holds(map, &key, stored));
            assert(put(map, key, value) == map.insert(stored, value));
        },
        None => {
            assert forall|stored: K| #[trigger] map.contains_key(stored) implies !stored.eq_spec(
                &key,
            ) by {
                assert(!holds(map, &key, stored));
            }
        },
    }
}

/// After inserting a key into a lawful map, a key that is `==` to it is found with the new value,
/// any other key is found as before, and the length has grown exactly if the key was not found.
pub proof fn law_insert<K: Eq + Hash, V, S: BuildHasher, const N: usize>(
    before: HashMap<K, V, S, N>,
    after: HashMap<K, V, S, N>,
    key: K,
    value: V,
    query: K,
)
    requires
        before.wf(),
        before.lawful::<K>(),
        is_insert(before, after, key, value),
    ensures
        after.wf(),
        after.lawful::<K>(),
        key.eq_spec(&query) ==> {
            &&& find_key(after@, &query) is Some
            &&& after@[find_key(after@, &query)->0] == value
        },
        !key.eq_spec(&query) ==> {
            &&& find_key(after@, &query) == find_key(before@, &query)
            &&& find_key(before@, &query) matches Some(found) ==> after@[found] == before@[found]
        },
        after.inner.len == before.inner.len + if find_key(before@, &key) is None {
            1int
        } else {
            0
        },
{
    law_keys_differ(before);
    law_keys_differ(after);
    law_insert_then_find(&before.hash_builder, before@, key, value, &query);
    lemma_map_of_len(before.inner.contents());
    lemma_map_of_len(after.inner.contents());
    match find_key(before@, &key) {
        Some(stored) => {
            assert(holds(before@, &key, stored));
            assert(after@.dom() =~= before@.dom());
        },
        None => {
            assert((&key).eq_spec(&key));
            assert(!holds(before@, &key, key));
            assert(after@.dom() =~= before@.dom().insert(key));
        },
    }
}

/// Inserting pairs leaves the keys different, and leaves alone every key that is `==` to none of
/// theirs.
pub proof fn law_insert_all_others<K: Eq + Hash, V, S: BuildHasher>(
    builder: &S,
    map: Map<K, V>,
    pairs: Seq<(K, V)>,
    query: K,
)
    requires
        consistent::<K, K, S>(builder),
        keys_differ(map),
    ensures
        keys_differ(insert_all(map, pairs)),
        (forall|i: int| 0 <= i < pairs.len() ==> !(#[trigger] pairs[i]).0.eq_spec(&query)) ==> {
            &&& find_key(insert_all(map, pairs), &query) == find_key(map, &query)
            &&& find_key(map, &query) matches Some(found) ==> insert_all(map, pairs)[found]
                == map[found]
        },
    decreases pairs.len(),
{
    if pairs.len() > 0 {
        let rest = pairs.drop_first();
        let first = put(map, pairs[0].0, pairs[0].1);
        law_insert_then_find(builder, map, pairs[0].0, pairs[0].1, &query);
        law_insert_all_others(builder, first, rest, query);
        if forall|i: int| 0 <= i < pairs.len() ==> !(#[trigger] pairs[i]).0.eq_spec(&query) {
            assert forall|i: int| 0 <= i < rest.len() implies !(#[trigger] rest[i]).0.eq_spec(
                &query,
            ) by {
                assert(!pairs[i + 1].0.eq_spec(&query));
            }
        }
    }
}

/// After inserting pairs, every one of their keys is found, with the value of the last pair whose
/// key is `==` to it.
pub proof fn law_insert_all_finds<K: Eq + Hash, V, S: BuildHasher>(
    builder: &S,
    map: Map<K, V>,
    pairs: Seq<(K, V)>,
    last: int,
    query: K,
)
    requires
        consistent::<K, K, S>(builder),
        keys_differ(map),
        0 <= last < pairs.len(),
        pairs[last].0.eq_spec(&query),
        forall|i: int| last < i < pairs.len() ==> !(#[trigger] pairs[i]).0.eq_spec(&query),
    ensures
        find_key(insert_all(map, pairs), &query) matches Some(found) && insert_all(map, pairs)[found]
            == pairs[last].1,
    decreases pairs.len(),
{
    let rest = pairs.drop_first();
    let first = put(map, pairs[0].0, pairs[0].1);
    law_insert_then_find(builder, map, pairs[0].0, pairs[0].1, &query);
    assert forall|i: int| last <= i < rest.len() implies !(#[trigger] rest[i]).0.eq_spec(
        &query,
    ) by {
        assert(!pairs[i + 1].0.eq_spec(&query));
    }
    if last == 0 {
        law_insert_all_others(builder, first, rest, query);
    } else {
        assert(rest[last - 1] == pairs[last]);
        law_insert_all_finds(builder, first, rest, last - 1, query);
    }
}

/// Extending a lawful map by references inserts a copy of every pair that is referred to: each key
/// is found afterwards, with the value of the last pair whose key is `==` to it, and keys that are
/// `==` to none of them are left alone.
pub proof fn law_extend_by_reference<K: Eq + Hash, V, S: BuildHasher>(
    builder: &S,
    map: Map<K, V>,
    items: Seq<(&K, &V)>,
    query: K,
)
    requires
        consistent::<K, K, S>(builder),
        keys_differ(map),
    ensures
        dereferenced(items).len() == items.len(),
        forall|last: int|
            0 <= last < items.len() && (#[trigger] items[last]).0.eq_spec(&query) && (forall|
                i: int,
            |
                last < i < items.len() ==> !(#[trigger] items[i]).0.eq_spec(&query)) ==> {
                &&& find_key(insert_all(map, dereferenced(items)), &query) is Some
                &&& insert_all(map, dereferenced(items))[find_key(
                    insert_all(map, dereferenced(items)),
                    &query,
                )->0] == *items[last].1
            },
        (forall|i: int| 0 <= i < items.len() ==> !(#[trigger] items[i]).0.eq_spec(&query)) ==> {
            &&& find_key(insert_all(map, dereferenced(items)), &query) == find_key(map, &query)
            &&& find_key(map, &query) matches Some(found) ==> insert_all(
                map,
                dereferenced(items),
            )[found] == map[found]
        },
{
    let pairs = dereferenced(items);
    assert forall|last: int|
        0 <= last < items.len() && (#[trigger] items[last]).0.eq_spec(&query) && (forall|i: int|
            last < i < items.len() ==> !(#[trigger] items[i]).0.eq_spec(&query)) implies {
        &&& find_key(insert_all(map, pairs), &query) is Some
        &&& insert_all(map, pairs)[find_key(insert_all(map, pairs), &query)->0] == *items[last].1
    } by {
        assert(pairs[last].0 == *items[last].0);
        assert forall|i: int| last < i < pairs.len() implies !(#[trigger] pairs[i]).0.eq_spec(
            &query,
        ) by {
            assert(!items[i].0.eq_spec(&query));
        }
        law_insert_all_finds(builder, map, pairs, last, query);
    }
    if forall|i: int| 0 <= i < items.len() ==> !(#[trigger] items[i]).0.eq_spec(&query) {
        assert forall|i: int| 0 <= i < pairs.len() implies !(#[trigger] pairs[i]).0.eq_spec(
            &query,
        ) by {
            assert(!items[i].0.eq_spec(&query));
        }
    }
    law_insert_all_others(builder, map, pairs, query);
}

/// A map is lawful, whatever its bucket capacity, if `==` on its keys is an equivalence relation and
/// its hash builder hashes keys that are `==` alike, every time.
pub proof fn law_lawful<K: Eq + Hash, V, S: BuildHasher, const N: usize>(map: HashMap<K, V, S, N>)
    requires
        K::obeys_eq_spec(),
        forall|a: K| #[trigger] a.eq_spec(&a),
        forall|a: K, b: K| #[trigger] a.eq_spec(&b) ==> b.eq_spec(&a),
        forall|a: K, b: K, c: K|
            #![trigger a.eq_spec(&b), b.eq_spec(&c)]
            a.eq_spec(&b) && b.eq_spec(&c) ==> a.eq_spec(&c),
        forall|a: K, b: K, first: u64, second: u64|
            #![trigger hashes_to(&map.hash_builder, &a, first), hashes_to(&map.hash_builder, &b, second)]
            a.eq_spec(&b) && hashes_to(&map.hash_builder, &a, first) && hashes_to(
                &map.hash_builder,
                &b,
                second,
            ) ==> first == second,
    ensures
        map.lawful::<K>(),
{
    broadcast use lemma_lends_itself;

    assert forall|a: &K, b: &K| #[trigger] a.eq_spec(b) == (*a).eq_spec(&*b) by {}
    assert forall|key: &K, query: &K, key_hash: u64, query_hash: u64|
        #![trigger hashes_to(&map.hash_builder, key, key_hash), hashes_to(&map.hash_builder, query, query_hash)]
        key_matches::<K, K>(*key, query) && hashes_to(&map.hash_builder, key, key_hash)
            && hashes_to(&map.hash_builder, query, query_hash) implies key_hash == query_hash by {
        assert((*key).eq_spec(query));
        assert(hashes_to(&map.hash_builder, &*key, key_hash));
        assert(hashes_to(&map.hash_builder, &*query, query_hash));
    }
}

/// A map is lawful for queries of another type if, besides, what a key is borrowed as is compared
/// and hashed as the key is.
pub proof fn law_lawful_for_queries<K, V, S, Q, const N: usize>(map: HashMap<K, V, S, N>) where
    K: Eq + Hash,
    S: BuildHasher,
    Q: Hash + Eq + ?Sized,

    requires
        map.lawful::<K>(),
        Q::obeys_eq_spec(),
        forall|a: &Q| #[trigger] a.eq_spec(a),
        forall|a: &Q, b: &Q| #[trigger] a.eq_spec(b) ==> b.eq_spec(a),
        forall|a: &Q, b: &Q, c: &Q|
            #![trigger a.eq_spec(b), b.eq_spec(c)]
            a.eq_spec(b) && b.eq_spec(c) ==> a.eq_spec(c),
        forall|key: K, a: &Q, b: &Q|
            #![trigger lends::<K, Q>(key, a), lends::<K, Q>(key, b)]
            lends::<K, Q>(key, a) && lends::<K, Q>(key, b) ==> a.eq_spec(b),
        forall|key: K, other: K, query: &Q|
            #![trigger key_matches::<K, Q>(key, query), key_matches::<K, Q>(other, query)]
            #![trigger key_matches::<K, Q>(key, query), key.eq_spec(&other)]
            key_matches::<K, Q>(key, query) ==> (key_matches::<K, Q>(other, query) <==> key.eq_spec(
                &other,
            )),
        forall|key: &K, query: &Q, first: u64, second: u64|
            #![trigger hashes_to(&map.hash_builder, key, first), hashes_to(&map.hash_builder, query, second)]
            key_matches::<K, Q>(*key, query) && hashes_to(&map.hash_builder, key, first)
                && hashes_to(&map.hash_builder, query, second) ==> first == second,
    ensures
        map.lawful::<Q>(),
{
}

/// Keys that obey the key model, with `==` telling any two apart, are plain.
pub proof fn law_plain_keys<K: Eq>()
    requires
        obeys_key_model::<K>(),
        K::obeys_eq_spec(),
        forall|a: K, b: K| #[trigger] a.eq_spec(&b) <==> a == b,
    ensures
        plain_keys::<K>(),
{
}

/// A predicate that can be called on every key and value can be called on every entry.
pub proof fn law_accepts<K, V, F: FnMut(&K, &mut V) -> bool>(f: F, slot: Slot<K, V>)
    requires
        forall|k: &K, v: &mut V|
            *k == slot.key && *v == slot.value ==> #[trigger] call_requires(f, (k, v)),
    ensures
        accepts(f, slot),
{
}

/// Two maps whose keys are all different are equal exactly when they have equally many keys and
/// every key of the one has a key of the other that is `==` to it, with an equal value.
pub proof fn law_equality<K: Eq, V: PartialEq>(left: Map<K, V>, right: Map<K, V>)
    requires
        forall|a: K| #[trigger] a.eq_spec(&a),
        forall|a: K, b: K| #[trigger] a.eq_spec(&b) ==> b.eq_spec(&a),
        forall|a: K, b: K, c: K|
            #![trigger a.eq_spec(&b), b.eq_spec(&c)]
            a.eq_spec(&b) && b.eq_spec(&c) ==> a.eq_spec(&c),
        forall|a: K, b: K|
            #![trigger right.contains_key(a), right.contains_key(b)]
            right.contains_key(a) && right.contains_key(b) && a.eq_spec(&b) ==> a == b,
    ensures
        maps_equal(left, right) <==> left.len() == right.len() && forall|key: K| #[trigger]
            left.contains_key(key) ==> exists|other: K| #[trigger]
                right.contains_key(other) && other.eq_spec(&key) && right[other].eq_spec(
                    &left[key],
                ),
{
    assert forall|key: K| #[trigger] left.contains_key(key) implies (has_counterpart(
        left,
        right,
        key,
    ) <==> exists|other: K| #[trigger]
        right.contains_key(other) && other.eq_spec(&key) && right[other].eq_spec(&left[key])) by {
        if has_counterpart(left, right, key) {
            let found = find_key(right, &key)->0;
            assert(holds(right, &key, found));
            assert(right.contains_key(found));
        }
        if exists|other: K| #[trigger]
            right.contains_key(other) && other.eq_spec(&key) && right[other].eq_spec(&left[key]) {
            let other = choose|other: K| #[trigger]
                right.contains_key(other) && other.eq_spec(&key) && right[other].eq_spec(
                    &left[key],
                );
            assert(holds(right, &key, other));
            let found = find_key(right, &key)->0;
            assert(holds(right, &key, found));
            assert(key.eq_spec(&other));
            assert(found.eq_spec(&other));
        }
    }
}

/// A clone of a table has the same directory, free places, depths and hash data, and in the place of
/// each key and value a clone of it.
pub proof fn law_table_clone<K: Clone, V: Clone, const N: usize>(
    original: HashMapInner<K, V, N>,
    copy: HashMapInner<K, V, N>,
    bucket: int,
    entry: int,
)
    requires
        is_table_clone(original, copy),
        0 <= bucket < original.buckets@.len(),
        0 <= entry < original.buckets@[bucket].entries@.len(),
    ensures
        copy.directory@ == original.directory@,
        copy.freelist@ == original.freelist@,
        copy.global_depth == original.global_depth,
        copy.len == original.len,
        copy.buckets@.len() == original.buckets@.len(),
        copy.buckets@[bucket].local_depth == original.buckets@[bucket].local_depth,
        copy.buckets@[bucket].fingerprints@ == original.buckets@[bucket].fingerprints@,
        copy.buckets@[bucket].hash_low@ == original.buckets@[bucket].hash_low@,
        copy.buckets@[bucket].entries@.len() == original.buckets@[bucket].entries@.len(),
        cloned(
            original.buckets@[bucket].entries@[entry].0,
            copy.buckets@[bucket].entries@[entry].0,
        ),
        cloned(
            original.buckets@[bucket].entries@[entry].1,
            copy.buckets@[bucket].entries@[entry].1,
        ),
{
    assert(is_bucket_clone(original.buckets@[bucket], copy.buckets@[bucket]));
}

/// If clones of keys and of values are equal to what they are clones of, the clone of a map under
/// the same hash builder is well-formed and is the same map.
pub proof fn law_exact_clone<K: Eq + Hash + Clone, V: Clone, S: BuildHasher, const N: usize>(
    original: HashMap<K, V, S, N>,
    copy: HashMap<K, V, S, N>,
)
    requires
        original.wf(),
        is_table_clone(original.inner, copy.inner),
        copy.hash_builder == original.hash_builder,
        forall|a: K, b: K| #[trigger] cloned(a, b) ==> a == b,
        forall|a: V, b: V| #[trigger] cloned(a, b) ==> a == b,
    ensures
        copy.wf(),
        copy@ == original@,
        pool_pairs(copy.inner.buckets@) == pool_pairs(original.inner.buckets@),
{
    lemma_pool_clone(original.inner.buckets@, copy.inner.buckets@);
    lemma_table_clone(original.inner, copy.inner);
}

/// The keys of a lawful map are all different under `==`, and there are finitely many.
pub proof fn law_keys_differ<K: Eq + Hash, V, S: BuildHasher, const N: usize>(
    map: HashMap<K, V, S, N>,
)
    requires
        map.wf(),
        map.lawful::<K>(),
    ensures
        keys_differ(map@),
        map@.dom().finite(),
{
    lemma_map_of_len(map.inner.contents());
    assert forall|a: K, b: K|
        #![trigger map@.contains_key(a), map@.contains_key(b)]
        map@.contains_key(a) && map@.contains_key(b) && a.eq_spec(&b) implies a == b by {
        let first = lemma_slot_of_key(map.inner.contents(), a);
        let second = lemma_slot_of_key(map.inner.contents(), b);
    }
}

/// In a map whose keys are all different under `==`, a key that is `==` to a given one is what the
/// given one finds.
proof fn lemma_find_equal<K: Eq, V>(map: Map<K, V>, key: K, query: K)
    requires
        is_equivalence::<K>(),
        keys_differ(map),
        map.contains_key(key),
        key.eq_spec(&query),
    ensures
        find_key(map, &query) == Some(key),
{
    assert(holds(map, &query, key));
    let found = find_key(map, &query)->0;
    assert(holds(map, &query, found));
    assert((&key).eq_spec(&query));
    assert((&found).eq_spec(&query) && (&query).eq_spec(&key));
    assert((&found).eq_spec(&key));
}

/// A map equals itself, if its values do.
pub proof fn law_equality_is_reflexive<K: Eq, V: PartialEq>(map: Map<K, V>)
    requires
        is_equivalence::<K>(),
        keys_differ(map),
        forall|value: V| #[trigger] value.eq_spec(&value),
    ensures
        maps_equal(map, map),
{
    assert forall|key: K| #[trigger] map.contains_key(key) implies has_counterpart(
        map,
        map,
        key,
    ) by {
        assert((&key).eq_spec(&key));
        lemma_find_equal(map, key, key);
    }
}

/// Two maps are equal either way round, if that holds of their values.
pub proof fn law_equality_is_symmetric<K: Eq, V: PartialEq>(left: Map<K, V>, right: Map<K, V>)
    requires
        is_equivalence::<K>(),
        keys_differ(left),
        keys_differ(right),
        left.dom().finite(),
        right.dom().finite(),
        forall|a: V, b: V| #[trigger] a.eq_spec(&b) ==> b.eq_spec(&a),
        maps_equal(left, right),
    ensures
        maps_equal(right, left),
{
    // The keys of the left map have different counterparts, so every key of the right map is one.
    let partner = |key: K| find_key(right, &key)->0;
    let partners = left.dom().map(partner);
    assert forall|key: K| #[trigger] left.dom().contains(key) implies {
        &&& right.contains_key(partner(key))
        &&& partner(key).eq_spec(&key)
        &&& right[partner(key)].eq_spec(&left[key])
    } by {
        assert(left.contains_key(key));
        assert(has_counterpart(left, right, key));
        assert(holds(right, &key, partner(key)));
    }
    assert forall|a: K, b: K|
        left.dom().contains(a) && left.dom().contains(b) && #[trigger] partner(a)
            == #[trigger] partner(b) implies a == b by {
        assert(left.contains_key(a) && left.contains_key(b));
        let c = partner(a);
        assert((&c).eq_spec(&a) && (&c).eq_spec(&b));
        assert((&a).eq_spec(&c));
        assert((&a).eq_spec(&b));
    }
    vstd::set_lib::lemma_map_size(left.dom(), partners, partner);
    vstd::set_lib::lemma_subset_equality(partners, right.dom());
    assert forall|key: K| #[trigger] right.contains_key(key) implies has_counterpart(
        right,
        left,
        key,
    ) by {
        assert(partners.contains(key));
        let other = choose|other: K| left.dom().contains(other) && key == partner(other);
        assert((&key).eq_spec(&other));
        assert((&other).eq_spec(&key));
        lemma_find_equal(left, other, key);
    }
}

/// Maps that are equal to the same map are equal, if that holds of their values.
pub proof fn law_equality_is_transitive<K: Eq, V: PartialEq>(
    left: Map<K, V>,
    middle: Map<K, V>,
    right: Map<K, V>,
)
    requires
        is_equivalence::<K>(),
        keys_differ(right),
        forall|a: V, b: V, c: V|
            #![trigger a.eq_spec(&b), b.eq_spec(&c)]
            a.eq_spec(&b) && b.eq_spec(&c) ==> a.eq_spec(&c),
        maps_equal(left, middle),
        maps_equal(middle, right),
    ensures
        maps_equal(left, right),
{
    assert forall|key: K| #[trigger] left.contains_key(key) implies has_counterpart(
        left,
        right,
        key,
    ) by {
        assert(has_counterpart(left, middle, key));
        let second = find_key(middle, &key)->0;
        assert(holds(middle, &key, second));
        assert(has_counterpart(middle, right, second));
        let third = find_key(right, &second)->0;
        assert(holds(right, &second, third));
        assert((&third).eq_spec(&second) && (&second).eq_spec(&key));
        assert((&third).eq_spec(&key));
        lemma_find_equal(right, third, key);
    }
}

/// For keys that are `==` only to themselves, maps are equal when they have the same keys, and
/// equal values for each of them.
pub proof fn law_equality_of_plain_maps<K: Eq, V: PartialEq>(left: Map<K, V>, right: Map<K, V>)
    requires
        equality_is_identity::<K>(),
        left.dom().finite(),
        right.dom().finite(),
    ensures
        maps_equal(left, right) <==> left.dom() == right.dom() && forall|key: K| #[trigger]
            left.contains_key(key) ==> right[key].eq_spec(&left[key]),
{
    assert forall|key: K| #[trigger] left.contains_key(key) implies has_counterpart(
        left,
        right,
        key,
    ) == (right.contains_key(key) && right[key].eq_spec(&left[key])) by {
        lemma_find_key_itself(right, &key);
    }
    if maps_equal(left, right) {
        assert(left.dom().subset_of(right.dom())) by {
            assert forall|key: K| left.dom().contains(key) implies right.dom().contains(key) by {
                assert(left.contains_key(key));
            }
        }
        vstd::set_lib::lemma_subset_equality(left.dom(), right.dom());
    }
    if left.dom() == right.dom() {
        assert forall|key: K| #[trigger] left.contains_key(key) implies right.contains_key(key) by {
            assert(right.dom().contains(key));
        }
    }
}

/// What a caller needs to reason about a map whose keys are looked up under their own type.
pub broadcast group group_map_laws {
    vstd::std_specs::hash::group_hash_axioms,
    lemma_key_matches_itself,
    lemma_find_key_itself,
    lemma_changed_twice,
    law_empty_map_is_well_formed,
}

} // verus!
