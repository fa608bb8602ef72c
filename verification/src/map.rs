//! The hash map: a table of buckets together with the hash builder for its keys.

use std::borrow::Borrow;
use std::collections::hash_map::RandomState;
use std::hash::{BuildHasher, Hash};

use vstd::arithmetic::power2::pow2;
use vstd::multiset::Multiset;
use vstd::prelude::*;
use vstd::std_specs::cmp::PartialEqSpec;

use crate::DEFAULT_BUCKET_CAPACITY;
use crate::bits::{exp2, lemma_low_bits_bound, lemma_pow2_range, low_bits};
use crate::bucket::{
    fingerprint_of, new_slot, stored_bits_of, with_value, Bucket, Slot, MAX_LOCAL_DEPTH,
};
use crate::contents::{
    distinct_keys, is_revalued, lemma_map_of_empty, lemma_map_of_insert, lemma_map_of_len,
    lemma_map_of_remove, lemma_map_of_replace, lemma_map_of_slot, lemma_pool_contains,
    lemma_pool_empty, lemma_slot_of_key, lemma_unequal_replace, map_of, pool_pairs, unequal_keys,
};
use crate::directory::{placed, routes};
use crate::entry::{Entry, OccupiedEntry, VacantEntry};
use crate::hashing::{
    consistent, find_key, hash_key, hashes_to, holds, lemma_key_matches_itself,
    lemma_plain_keys_are_consistent, plain_keys, put, random_state,
};
use crate::inner::{
    lemma_entry_is_where_its_hash_leads, lemma_rewritten, lemma_value_changed, pooled,
    HashMapInner,
};
use crate::iter::{Iter, IterMut, Keys, Values, ValuesMut};
use crate::steps::{added, changed, inserted, is_changed_in_place, is_removal, is_rewritten, removed};

verus! {

broadcast use {
    vstd::multiset::group_multiset_axioms,
    vstd::seq_lib::group_to_multiset_ensures,
    lemma_key_matches_itself,
};

/// A hash map that uses extendible hashing.
///
/// When a bucket overflows, only that bucket is split. The directory, a power-of-two array of
/// bucket indices, doubles when it has to; no entry is hashed again.
///
/// The constant `N` is the number of entries per bucket; [`crate::DEFAULT_BUCKET_CAPACITY`] is a
/// good choice.
pub struct HashMap<K, V, S, const N: usize> {
    pub inner: HashMapInner<K, V, N>,
    pub hash_builder: S,
}

impl<K, V, S, const N: usize> View for HashMap<K, V, S, N> {
    type V = Map<K, V>;

    open spec fn view(&self) -> Map<K, V> {
        map_of(self.inner.contents())
    }
}

/// Whether the hash data in a slot comes from a hash of its key.
pub open spec fn slot_hashed<K: Hash, V, S: BuildHasher>(builder: &S, slot: Slot<K, V>) -> bool {
    exists|hash: u64| #[trigger]
        hashes_to(builder, &slot.key, hash) && slot.fingerprint == fingerprint_of(hash)
            && slot.hash_low == stored_bits_of(hash)
}

impl<K: Eq + Hash, V, S: BuildHasher, const N: usize> HashMap<K, V, S, N> {
    /// The invariant of the map: the table is well-formed, every entry is filed under a hash of
    /// its key, and, if the hash builder is consistent, no two keys are `==`.
    pub open spec fn wf(self) -> bool {
        &&& self.inner.wf()
        &&& forall|slot: Slot<K, V>| #[trigger]
            self.inner.contents().contains(slot) ==> slot_hashed(&self.hash_builder, slot)
        &&& consistent::<K, K, S>(&self.hash_builder) ==> distinct_keys(self.inner.contents())
            && unequal_keys(self.inner.contents())
    }

    /// Whether keys and queries of type `Q` hash and compare as `Hash`, `Eq` and `Borrow` demand.
    /// Only then does the map behave as a map.
    pub open spec fn lawful<Q: Hash + Eq + ?Sized>(self) -> bool {
        consistent::<K, K, S>(&self.hash_builder) && consistent::<K, Q, S>(&self.hash_builder)
    }
}

/// Whether `depth` is the least depth at which a directory of full buckets of `bucket_capacity`
/// entries holds `capacity` entries.
pub open spec fn is_initial_depth(depth: nat, capacity: nat, bucket_capacity: nat) -> bool {
    &&& capacity <= bucket_capacity * pow2(depth)
    &&& depth > 0 ==> bucket_capacity * pow2((depth - 1) as nat) < capacity
}

/// Whether a table is a new one for `capacity` entries: it is empty, all buckets have the depth of
/// the directory, slot by slot, and no place is free.
pub open spec fn is_fresh<K, V, const N: usize>(
    table: HashMapInner<K, V, N>,
    capacity: nat,
) -> bool {
    &&& table.wf()
    &&& table.contents() == Multiset::<Slot<K, V>>::empty()
    &&& table.len == 0
    &&& table.freelist@.len() == 0
    &&& is_initial_depth(table.global_depth as nat, capacity, N as nat)
    &&& table.directory@.len() == pow2(table.global_depth as nat)
    &&& table.buckets@.len() == pow2(table.global_depth as nat)
    &&& capacity <= table.buckets@.len() * N
    &&& forall|s: int| 0 <= s < table.directory@.len() ==> #[trigger] table.directory@[s] == s
    &&& forall|b: int|
        0 <= b < table.buckets@.len() ==> (#[trigger] table.buckets@[b]).local_depth
            == table.global_depth
}

/// Whether `after` is what inserting a key and a value makes of `before`: either an entry has got
/// the value, or a new entry has been inserted under a hash of the key.
pub open spec fn is_insert<K: Eq + Hash, V, S: BuildHasher, const N: usize>(
    before: HashMap<K, V, S, N>,
    after: HashMap<K, V, S, N>,
    key: K,
    value: V,
) -> bool {
    &&& after.wf()
    &&& after.hash_builder == before.hash_builder
    &&& before.lawful::<K>() ==> after@ == put(before@, key, value)
    &&& {
        ||| {
            &&& exists|slot: Slot<K, V>| #[trigger]
                changed(before.inner, after.inner, slot, value)
            &&& is_changed_in_place(before.inner, after.inner, value)
        }
        ||| exists|hash: u64| #[trigger]
            hashes_to(&before.hash_builder, &key, hash) && inserted(
                before.inner,
                after.inner,
                hash,
                new_slot(hash, key, value),
            )
    }
}

/// Finds the depth of the directory for a given capacity.
fn initial_depth(capacity: usize, bucket_capacity: usize) -> (depth: u8)
    requires
        capacity <= bucket_capacity * 0x1_0000_0000,
    ensures
        depth <= MAX_LOCAL_DEPTH,
        is_initial_depth(depth as nat, capacity as nat, bucket_capacity as nat),
{
    let mut depth: u8 = 0;
    let mut reached: u128 = bucket_capacity as u128;
    proof {
        lemma_pow2_range(0);
    }
    while reached < capacity as u128
        invariant
            depth <= MAX_LOCAL_DEPTH,
            reached == bucket_capacity * pow2(depth as nat),
            depth > 0 ==> bucket_capacity * pow2((depth - 1) as nat) < capacity,
            capacity <= bucket_capacity * 0x1_0000_0000,
        decreases MAX_LOCAL_DEPTH - depth,
    {
        proof {
            lemma_pow2_range(depth as nat);
            if depth < 32 {
                vstd::arithmetic::power2::lemma_pow2_unfold((depth + 1) as nat);
            }
            assert(bucket_capacity * (2 * pow2(depth as nat)) == 2 * (bucket_capacity * pow2(
                depth as nat,
            ))) by (nonlinear_arith);
        }
        reached = 2 * reached;
        depth = depth + 1;
    }
    depth
}

impl<K, V, S, const N: usize> HashMap<K, V, S, N> {
    /// Creates an empty map that uses the given hash builder.
    pub fn with_hasher(hash_builder: S) -> (map: Self)
        ensures
            map.inner.wf(),
            map.hash_builder == hash_builder,
            map.inner.contents() == Multiset::<Slot<K, V>>::empty(),
            map@ == Map::<K, V>::empty(),
            is_fresh(map.inner, 0),
            map.inner.global_depth == 0,
            map.inner.buckets@.len() == 1,
            map.inner.directory@ == seq![0u32],
    {
        let map = Self::with_capacity_and_hasher(0, hash_builder);
        proof {
            if map.inner.global_depth > 0 {
                assert(false) by (nonlinear_arith)
                    requires
                        N * pow2((map.inner.global_depth - 1) as nat) < 0,
                ;
            }
            lemma_pow2_range(0);
            assert(map.inner.directory@ =~= seq![0u32]);
        }
        map
    }

    /// Creates an empty map with the given capacity and hash builder.
    ///
    /// The pool starts with the least power of two of buckets that holds `capacity` entries when
    /// all buckets are full. No bucket is split before more than `N` keys lead to it. A directory
    /// indexes its buckets with 32 bits, so it has `2^32` buckets at most.
    pub fn with_capacity_and_hasher(capacity: usize, hash_builder: S) -> (map: Self)
        requires
            capacity <= N * 0x1_0000_0000,
        ensures
            map.inner.wf(),
            map.hash_builder == hash_builder,
            map.inner.contents() == Multiset::<Slot<K, V>>::empty(),
            map@ == Map::<K, V>::empty(),
            is_fresh(map.inner, capacity as nat),
    {
        let global_depth: u8 = initial_depth(capacity, N);
        let dir_size: u64 = exp2(global_depth);
        // As the map fills up, each of these buckets is split about once. With room for the halves
        // no split has to move the other buckets in memory.
        let mut buckets: Vec<Bucket<K, V, N>> = Vec::with_capacity((2 * dir_size) as usize);
        let mut directory: Vec<u32> = Vec::with_capacity(dir_size as usize);
        let mut i: u64 = 0;
        while i < dir_size
            invariant
                i <= dir_size <= 0x1_0000_0000,
                global_depth <= MAX_LOCAL_DEPTH,
                buckets@.len() == i,
                directory@.len() == i,
                forall|b: int|
                    0 <= b < i ==> {
                        &&& (#[trigger] buckets@[b]).wf()
                        &&& buckets@[b].local_depth == global_depth
                        &&& buckets@[b].slots().len() == 0
                    },
                forall|s: int| 0 <= s < i ==> #[trigger] directory@[s] == s,
            decreases dir_size - i,
        {
            buckets.push(Bucket::new(global_depth));
            directory.push(i as u32);
            i += 1;
        }
        let ghost depth = global_depth as nat;
        proof {
            lemma_pool_empty(buckets@);
            lemma_map_of_empty::<K, V>();
            assert forall|s: int| 0 <= s < directory@.len() implies low_bits(s, depth) == s by {
                lemma_low_bits_bound(s, depth);
            }
            assert(routes(directory@, buckets@, depth));
            assert(placed(directory@, buckets@));
            assert forall|b: int| 0 <= b < buckets@.len() implies #[trigger] directory@.contains(
                b as u32,
            ) by {
                assert(directory@[b] == b as u32);
            }
            assert(pooled(directory@, buckets@, Seq::<u32>::empty()));
            assert(buckets@.len() * N == N * pow2(depth)) by (nonlinear_arith)
                requires
                    buckets@.len() == pow2(depth),
            ;
        }
        HashMap {
            inner: HashMapInner {
                directory,
                buckets,
                freelist: Vec::new(),
                global_depth,
                mask: (dir_size - 1) as usize,
                len: 0,
            },
            hash_builder,
        }
    }

    /// Returns a reference to the map's hash builder.
    pub fn hasher(&self) -> (builder: &S)
        ensures
            *builder == self.hash_builder,
    {
        &self.hash_builder
    }

    /// Returns the number of elements in the map.
    pub fn len(&self) -> (count: usize)
        ensures
            count == self.inner.len,
            self.inner.wf() ==> count == self.inner.contents().len(),
            self.inner.wf() && distinct_keys(self.inner.contents()) ==> count == self@.len(),
    {
        proof {
            if distinct_keys(self.inner.contents()) {
                lemma_map_of_len(self.inner.contents());
            }
        }
        self.inner.len
    }

    /// Returns `true` if the map contains no elements.
    pub fn is_empty(&self) -> (empty: bool)
        ensures
            empty == (self.inner.len == 0),
            self.inner.wf() ==> empty == (self@ == Map::<K, V>::empty()),
    {
        proof {
            let contents = self.inner.contents();
            lemma_map_of_empty::<K, V>();
            if self.inner.wf() {
                if contents.len() == 0 {
                    assert(contents =~= Multiset::empty());
                } else {
                    let slot = contents.choose();
                    assert(contents.contains(slot));
                    assert(self@.contains_key(slot.key));
                }
            }
        }
        self.inner.len == 0
    }

    /// Returns the number of entries that all buckets of the pool hold together when full.
    pub fn capacity(&self) -> (capacity: usize)
        ensures
            capacity == self.inner.capacity(),
    {
        match self.inner.buckets.len().checked_mul(N) {
            Some(capacity) => capacity,
            None => usize::MAX,
        }
    }

    /// An iterator visiting all key-value pairs.
    pub fn iter(&self) -> (iter: Iter<'_, K, V, N>)
        ensures
            iter.rest() == pool_pairs(self.inner.buckets@),
            iter.current@.len() == 0,
    {
        Iter::new(self.inner.buckets.as_slice())
    }

    /// An iterator visiting all key-value pairs, with mutable references to the values.
    ///
    /// Through the iterator only values can be changed. The map is then as well-formed as it was,
    /// and holds the pairs that the borrows leave.
    pub fn iter_mut(&mut self) -> (iter: IterMut<'_, K, V, N>)
        ensures
            iter.rest() == pool_pairs(old(self).inner.buckets@),
            iter.current@.len() == 0,
            iter.buckets@ == old(self).inner.buckets@,
            final(self).inner.buckets@ == final(iter.buckets)@,
            final(self).hash_builder == old(self).hash_builder,
            old(self).inner.wf() && is_revalued(iter.buckets@, final(iter.buckets)@)
                ==> is_rewritten(old(self).inner, final(self).inner),
    {
        let ghost before = self.inner;
        let iter = IterMut::new(self.inner.buckets.as_mut_slice());
        proof {
            lemma_rewritten(before, after_borrow(self.inner));
        }
        iter
    }

    /// An iterator visiting all keys.
    pub fn keys(&self) -> (keys: Keys<'_, K, V, N>)
        ensures
            keys.0.rest() == pool_pairs(self.inner.buckets@),
    {
        Keys(self.iter())
    }

    /// An iterator visiting all values.
    pub fn values(&self) -> (values: Values<'_, K, V, N>)
        ensures
            values.0.rest() == pool_pairs(self.inner.buckets@),
    {
        Values(self.iter())
    }

    /// An iterator visiting all values mutably.
    pub fn values_mut(&mut self) -> (values: ValuesMut<'_, K, V, N>)
        ensures
            values.0.rest() == pool_pairs(old(self).inner.buckets@),
            values.0.current@.len() == 0,
            values.0.buckets@ == old(self).inner.buckets@,
            final(self).inner.buckets@ == final(values.0.buckets)@,
            final(self).hash_builder == old(self).hash_builder,
            old(self).inner.wf() && is_revalued(values.0.buckets@, final(values.0.buckets)@)
                ==> is_rewritten(old(self).inner, final(self).inner),
    {
        ValuesMut(self.iter_mut())
    }
}

impl<K: Eq + Hash, V> HashMap<K, V, RandomState, DEFAULT_BUCKET_CAPACITY> {
    /// Creates an empty map with the default bucket capacity.
    pub fn new() -> (map: Self)
        ensures
            map.wf(),
            map@ == Map::<K, V>::empty(),
            is_fresh(map.inner, 0),
            map.inner.global_depth == 0,
            map.inner.buckets@.len() == 1,
            map.inner.directory@ == seq![0u32],
            plain_keys::<K>() ==> map.lawful::<K>(),
    {
        let map = Self::with_hasher(random_state::<K>());
        proof {
            if plain_keys::<K>() {
                lemma_plain_keys_are_consistent::<K, RandomState>(&map.hash_builder);
            }
        }
        map
    }

    /// Creates an empty map with the default bucket capacity and with buckets for at least
    /// `capacity` entries.
    pub fn with_capacity(capacity: usize) -> (map: Self)
        requires
            capacity <= DEFAULT_BUCKET_CAPACITY * 0x1_0000_0000,
        ensures
            map.wf(),
            map@ == Map::<K, V>::empty(),
            is_fresh(map.inner, capacity as nat),
            plain_keys::<K>() ==> map.lawful::<K>(),
    {
        let map = Self::with_capacity_and_hasher(capacity, random_state::<K>());
        proof {
            if plain_keys::<K>() {
                lemma_plain_keys_are_consistent::<K, RandomState>(&map.hash_builder);
            }
        }
        map
    }
}

/// The hash data of an entry does not depend on its value.
pub proof fn lemma_slot_hashed<K: Hash, V, S: BuildHasher>(
    builder: &S,
    slot: Slot<K, V>,
    value: V,
)
    requires
        slot_hashed(builder, slot),
    ensures
        slot_hashed(builder, with_value(slot, value)),
{
    let hash = choose|hash: u64| #[trigger]
        hashes_to(builder, &slot.key, hash) && slot.fingerprint == fingerprint_of(hash)
            && slot.hash_low == stored_bits_of(hash);
    assert(hashes_to(builder, &with_value(slot, value).key, hash));
}

/// A query finds an entry of the map exactly when the table finds one for the query's hash.
pub proof fn lemma_find<K: Eq + Hash, V, S: BuildHasher, Q: Hash + Eq + ?Sized, const N: usize>(
    map: HashMap<K, V, S, N>,
    hash: u64,
    query: &Q,
    place: Option<(usize, usize)>,
)
    requires
        map.wf(),
        map.lawful::<Q>(),
        hashes_to(&map.hash_builder, query, hash),
        match place {
            Some(p) => {
                &&& p.0 < map.inner.buckets@.len()
                &&& p.1 < map.inner.buckets@[p.0 as int].slots().len()
                &&& map.inner.hit(hash, query, p.0 as int, p.1 as int)
            },
            None => forall|e: int|
                0 <= e < map.inner.buckets@[map.inner.bucket_of(hash)].slots().len()
                    ==> !map.inner.hit(hash, query, map.inner.bucket_of(hash), e),
        },
    ensures
        match place {
            Some(p) => {
                let slot = map.inner.buckets@[p.0 as int].slots()[p.1 as int];
                &&& map.inner.contents().contains(slot)
                &&& find_key(map@, query) == Some(slot.key)
                &&& map@[slot.key] == slot.value
            },
            None => find_key(map@, query) is None,
        },
{
    match place {
        Some(p) => {
            let slot = map.inner.buckets@[p.0 as int].slots()[p.1 as int];
            lemma_pool_contains(map.inner.buckets@, slot);
            assert(map.inner.buckets@[p.0 as int].slots().contains(slot));
            lemma_map_of_slot(map.inner.contents(), slot);
            assert(holds(map@, query, slot.key));
        },
        None => {
            assert forall|key: K| !holds(map@, query, key) by {
                if holds(map@, query, key) {
                    let slot = lemma_slot_of_key(map.inner.contents(), key);
                    assert(slot_hashed(&map.hash_builder, slot));
                    let stored = choose|stored: u64| #[trigger]
                        hashes_to(&map.hash_builder, &slot.key, stored) && slot.fingerprint
                            == fingerprint_of(stored) && slot.hash_low == stored_bits_of(stored);
                    assert(stored == hash);
                    lemma_entry_is_where_its_hash_leads(map.inner, slot, hash);
                    let b = map.inner.bucket_of(hash);
                    let e = map.inner.buckets@[b].slots().index_of(slot);
                    assert(map.inner.hit(hash, query, b, e));
                }
            }
        },
    }
}

/// Changing the value of an entry keeps the map well-formed and changes what it gives for the key.
pub proof fn lemma_replaced<K: Eq + Hash, V, S: BuildHasher, const N: usize>(
    map: HashMap<K, V, S, N>,
    after: HashMapInner<K, V, N>,
    slot: Slot<K, V>,
    value: V,
)
    requires
        map.wf(),
        changed(map.inner, after, slot, value),
    ensures
        (HashMap { inner: after, hash_builder: map.hash_builder }).wf(),
        map.lawful::<K>() ==> map_of(after.contents()) == map@.insert(slot.key, value),
{
    assert(slot_hashed(&map.hash_builder, slot));
    lemma_slot_hashed(&map.hash_builder, slot, value);
    assert forall|s: Slot<K, V>| #[trigger] after.contents().contains(s) implies slot_hashed(
        &map.hash_builder,
        s,
    ) by {
        if s != with_value(slot, value) {
            assert(map.inner.contents().contains(s));
        }
    }
    if consistent::<K, K, S>(&map.hash_builder) {
        lemma_map_of_replace(map.inner.contents(), slot, value);
        lemma_unequal_replace(map.inner.contents(), slot, value);
    }
}

/// Adding an entry under a hash of its key keeps the map well-formed, if no key is `==` to it.
pub proof fn lemma_added<K: Eq + Hash, V, S: BuildHasher, const N: usize>(
    map: HashMap<K, V, S, N>,
    after: HashMapInner<K, V, N>,
    hash: u64,
    key: K,
    value: V,
)
    requires
        map.wf(),
        hashes_to(&map.hash_builder, &key, hash),
        added(map.inner, after, new_slot(hash, key, value)),
        map.lawful::<K>() ==> find_key(map@, &key) is None,
    ensures
        (HashMap { inner: after, hash_builder: map.hash_builder }).wf(),
        map.lawful::<K>() ==> map_of(after.contents()) == map@.insert(key, value),
{
    let slot = new_slot(hash, key, value);
    assert forall|s: Slot<K, V>| #[trigger] after.contents().contains(s) implies slot_hashed(
        &map.hash_builder,
        s,
    ) by {
        if s == slot {
            assert(hashes_to(&map.hash_builder, &s.key, hash));
        } else {
            assert(map.inner.contents().contains(s));
        }
    }
    if consistent::<K, K, S>(&map.hash_builder) {
        assert forall|s: Slot<K, V>| #[trigger] map.inner.contents().contains(s) implies {
            &&& !s.key.eq_spec(&key)
            &&& !key.eq_spec(&s.key)
        } by {
            lemma_map_of_slot(map.inner.contents(), s);
            assert(!holds(map@, &key, s.key));
            assert((&key).eq_spec(&s.key) ==> (&s.key).eq_spec(&key));
        }
        if map@.contains_key(key) {
            let s = lemma_slot_of_key(map.inner.contents(), key);
            assert((&key).eq_spec(&key));
        }
        lemma_map_of_insert(map.inner.contents(), slot);
        assert forall|a: Slot<K, V>, b: Slot<K, V>| #[trigger]
            after.contents().contains(a) && #[trigger] after.contents().contains(b)
                && a.key.eq_spec(&b.key) implies a == b by {
            assert(a == slot || map.inner.contents().contains(a));
            assert(b == slot || map.inner.contents().contains(b));
        }
    }
}

/// Removing an entry keeps the map well-formed and removes the key.
pub proof fn lemma_removed<K: Eq + Hash, V, S: BuildHasher, const N: usize>(
    map: HashMap<K, V, S, N>,
    after: HashMapInner<K, V, N>,
    slot: Slot<K, V>,
)
    requires
        map.wf(),
        removed(map.inner, after, slot),
    ensures
        (HashMap { inner: after, hash_builder: map.hash_builder }).wf(),
        map.lawful::<K>() ==> map_of(after.contents()) == map@.remove(slot.key),
{
    assert forall|s: Slot<K, V>| #[trigger] after.contents().contains(s) implies slot_hashed(
        &map.hash_builder,
        s,
    ) by {
        assert(map.inner.contents().contains(s));
    }
    if consistent::<K, K, S>(&map.hash_builder) {
        lemma_map_of_remove(map.inner.contents(), slot);
        assert forall|s: Slot<K, V>| #[trigger] after.contents().contains(s) implies
            map.inner.contents().contains(s) by {}
    }
}

impl<K: Eq + Hash, V, S: BuildHasher, const N: usize> HashMap<K, V, S, N> {
    fn hash_key<Q>(&self, key: &Q) -> (hash: u64) where Q: Hash + ?Sized
        ensures
            hashes_to(&self.hash_builder, key, hash),
    {
        hash_key(&self.hash_builder, key)
    }

    /// Returns a reference to the value corresponding to the key.
    pub fn get<Q>(&self, key: &Q) -> (value: Option<&V>) where
        K: Borrow<Q>,
        Q: Hash + Eq + ?Sized,

        ensures
            self.wf() && self.lawful::<Q>() ==> value == match find_key(self@, key) {
                Some(k) => Some(&self@[k]),
                None => None,
            },
            value matches Some(v) ==> exists|slot: Slot<K, V>| #[trigger]
                self.inner.contents().contains(slot) && slot.value == *v,
    {
        let hash: u64 = self.hash_key(key);
        let place = self.inner.find(hash, key);
        proof {
            if self.wf() && self.lawful::<Q>() {
                lemma_find(*self, hash, key, place);
            }
            if let Some((bi, ei)) = place {
                let slots = self.inner.buckets@[bi as int].slots();
                lemma_pool_contains(self.inner.buckets@, slots[ei as int]);
                assert(slots.contains(slots[ei as int]));
            }
        }
        match place {
            Some((bi, ei)) => Some(&self.inner.buckets[bi].entries[ei].1),
            None => None,
        }
    }

    /// Returns the key-value pair corresponding to the supplied key.
    pub fn get_key_value<Q>(&self, key: &Q) -> (pair: Option<(&K, &V)>) where
        K: Borrow<Q>,
        Q: Hash + Eq + ?Sized,

        ensures
            self.wf() && self.lawful::<Q>() ==> pair == match find_key(self@, key) {
                Some(k) => Some((&k, &self@[k])),
                None => None,
            },
            pair matches Some(p) ==> exists|slot: Slot<K, V>| #[trigger]
                self.inner.contents().contains(slot) && slot.key == *p.0 && slot.value == *p.1,
    {
        let hash: u64 = self.hash_key(key);
        let place = self.inner.find(hash, key);
        proof {
            if self.wf() && self.lawful::<Q>() {
                lemma_find(*self, hash, key, place);
            }
            if let Some((bi, ei)) = place {
                let slots = self.inner.buckets@[bi as int].slots();
                lemma_pool_contains(self.inner.buckets@, slots[ei as int]);
                assert(slots.contains(slots[ei as int]));
            }
        }
        match place {
            Some((bi, ei)) => {
                let entry = &self.inner.buckets[bi].entries[ei];
                Some((&entry.0, &entry.1))
            },
            None => None,
        }
    }

    /// Returns `true` if the map contains a value for the specified key.
    pub fn contains_key<Q>(&self, key: &Q) -> (found: bool) where
        K: Borrow<Q>,
        Q: Hash + Eq + ?Sized,

        ensures
            self.wf() && self.lawful::<Q>() ==> found == (find_key(self@, key) is Some),
    {
        self.get(key).is_some()
    }

    /// Returns a mutable reference to the value corresponding to the key.
    pub fn get_mut<Q>(&mut self, key: &Q) -> (value: Option<&mut V>) where
        K: Borrow<Q>,
        Q: Hash + Eq + ?Sized,

        requires
            old(self).wf(),
        ensures
            final(self).wf(),
            final(self).hash_builder == old(self).hash_builder,
            match value {
                Some(v) => exists|slot: Slot<K, V>|
                    #![trigger old(self).inner.contents().contains(slot)]
                    slot.value == *v && changed(
                        old(self).inner,
                        final(self).inner,
                        slot,
                        *final(v),
                    ),
                None => *final(self) == *old(self),
            },
            value matches Some(v) ==> is_changed_in_place(
                old(self).inner,
                final(self).inner,
                *final(v),
            ),
            old(self).lawful::<Q>() ==> match find_key(old(self)@, key) {
                Some(k) => value matches Some(v) && *v == old(self)@[k] && final(self)@ == old(
                    self,
                )@.insert(k, *final(v)),
                None => value is None,
            },
    {
        let hash: u64 = self.hash_key(key);
        let place = self.inner.find(hash, key);
        proof {
            if self.lawful::<Q>() {
                lemma_find(*self, hash, key, place);
            }
        }
        match place {
            Some((bi, ei)) => {
                let ghost before = *self;
                let ghost slot = self.inner.buckets@[bi as int].slots()[ei as int];
                let value = self.inner.value_mut(bi, ei);
                proof {
                    let after = after_borrow(self.inner);
                    lemma_value_changed(before.inner, after, bi as int, ei as int, *final(value));
                    lemma_replaced(before, after, slot, *final(value));
                }
                Some(value)
            },
            None => None,
        }
    }

    /// Inserts a key-value pair into the map. If the key was already present, the old value is
    /// returned and the entry is updated; the key that is stored stays.
    pub fn insert(&mut self, key: K, value: V) -> (replaced: Option<V>)
        requires
            old(self).wf(),
            old(self).inner.len < usize::MAX,
        ensures
            final(self).wf(),
            final(self).hash_builder == old(self).hash_builder,
            is_insert(*old(self), *final(self), key, value),
            replaced is Some ==> is_changed_in_place(old(self).inner, final(self).inner, value),
            match replaced {
                Some(v) => exists|slot: Slot<K, V>|
                    slot.value == v && #[trigger] changed(
                        old(self).inner,
                        final(self).inner,
                        slot,
                        value,
                    ),
                None => exists|hash: u64| #[trigger]
                    hashes_to(&old(self).hash_builder, &key, hash) && inserted(
                        old(self).inner,
                        final(self).inner,
                        hash,
                        new_slot(hash, key, value),
                    ),
            },
            old(self).lawful::<K>() ==> {
                &&& final(self)@ == put(old(self)@, key, value)
                &&& replaced == match find_key(old(self)@, &key) {
                    Some(stored) => Some(old(self)@[stored]),
                    None => None,
                }
            },
    {
        let hash: u64 = self.hash_key(&key);
        let place = self.inner.find(hash, &key);
        let ghost before = *self;
        proof {
            if self.lawful::<K>() {
                lemma_find(*self, hash, &key, place);
            }
        }
        match place {
            Some((bi, ei)) => {
                let ghost slot = self.inner.buckets@[bi as int].slots()[ei as int];
                let mut old_value = value;
                let entry = self.inner.value_mut(bi, ei);
                std::mem::swap(entry, &mut old_value);
                proof {
                    lemma_value_changed(before.inner, self.inner, bi as int, ei as int, value);
                    lemma_replaced(before, self.inner, slot, value);
                }
                Some(old_value)
            },
            None => {
                self.inner.insert_entry(hash, key, value);
                proof {
                    lemma_added(before, self.inner, hash, key, value);
                }
                None
            },
        }
    }

    /// Removes a key from the map, returning the stored key and value if the key was present.
    pub fn remove_entry<Q>(&mut self, key: &Q) -> (taken: Option<(K, V)>) where
        K: Borrow<Q>,
        Q: Hash + Eq + ?Sized,

        requires
            old(self).wf(),
        ensures
            final(self).wf(),
            final(self).hash_builder == old(self).hash_builder,
            match taken {
                Some(e) => exists|hash: u64, entry: int|
                    hashes_to(&old(self).hash_builder, key, hash) && #[trigger] is_removal(
                        old(self).inner,
                        final(self).inner,
                        hash,
                        entry,
                    ) && e == old(self).inner.pair_at(hash, entry),
                None => *final(self) == *old(self),
            },
            old(self).lawful::<Q>() ==> match find_key(old(self)@, key) {
                Some(k) => taken == Some((k, old(self)@[k])) && final(self)@ == old(
                    self,
                )@.remove(k),
                None => taken is None,
            },
    {
        let hash: u64 = self.hash_key(key);
        let place = self.inner.find(hash, key);
        let ghost before = *self;
        proof {
            if self.lawful::<Q>() {
                lemma_find(*self, hash, key, place);
            }
        }
        match place {
            Some((bi, ei)) => {
                let ghost slot = self.inner.buckets@[bi as int].slots()[ei as int];
                let entry = self.inner.remove_at(bi, ei);
                // The bucket and its sibling may now be sparse enough to share one bucket.
                self.inner.try_merge_bucket(bi, hash);
                proof {
                    assert(is_removal(before.inner, self.inner, hash, ei as int));
                    lemma_removed(before, self.inner, slot);
                }
                Some(entry)
            },
            None => None,
        }
    }

    /// Removes a key from the map, returning the value if the key was present.
    pub fn remove<Q>(&mut self, key: &Q) -> (taken: Option<V>) where
        K: Borrow<Q>,
        Q: Hash + Eq + ?Sized,

        requires
            old(self).wf(),
        ensures
            final(self).wf(),
            final(self).hash_builder == old(self).hash_builder,
            match taken {
                Some(v) => exists|hash: u64, entry: int|
                    hashes_to(&old(self).hash_builder, key, hash) && #[trigger] is_removal(
                        old(self).inner,
                        final(self).inner,
                        hash,
                        entry,
                    ) && v == old(self).inner.pair_at(hash, entry).1,
                None => *final(self) == *old(self),
            },
            old(self).lawful::<Q>() ==> match find_key(old(self)@, key) {
                Some(k) => taken == Some(old(self)@[k]) && final(self)@ == old(self)@.remove(k),
                None => taken is None,
            },
    {
        match self.remove_entry(key) {
            Some((_, value)) => Some(value),
            None => None,
        }
    }

    /// Gets the given key's corresponding entry in the map for in-place manipulation.
    ///
    /// The entry borrows the table. Whatever its methods then do, changing the value, inserting one
    /// or removing the entry, the map stays well-formed, and is what the last three clauses say.
    pub fn entry(&mut self, key: K) -> (entry: Entry<'_, K, V, N>)
        requires
            old(self).wf(),
            old(self).inner.len < usize::MAX,
        ensures
            final(self).hash_builder == old(self).hash_builder,
            entry.wf(),
            match entry {
                Entry::Occupied(e) => {
                    &&& *e.inner == old(self).inner
                    &&& final(self).inner == *final(e.inner)
                    &&& old(self).lawful::<K>() ==> {
                        &&& find_key(old(self)@, &key) == Some(e.slot().key)
                        &&& old(self)@[e.slot().key] == e.slot().value
                    }
                },
                Entry::Vacant(e) => {
                    &&& *e.inner == old(self).inner
                    &&& final(self).inner == *final(e.inner)
                    &&& e.key == key
                    &&& hashes_to(&old(self).hash_builder, &key, e.hash)
                    &&& old(self).lawful::<K>() ==> find_key(old(self)@, &key) is None
                },
            },
            forall|slot: Slot<K, V>, value: V| #[trigger]
                changed(old(self).inner, final(self).inner, slot, value) ==> {
                    &&& final(self).wf()
                    &&& old(self).lawful::<K>() ==> final(self)@ == old(self)@.insert(
                        slot.key,
                        value,
                    )
                },
            entry matches Entry::Vacant(e) ==> forall|value: V| #[trigger]
                inserted(
                    old(self).inner,
                    final(self).inner,
                    e.hash,
                    new_slot(e.hash, key, value),
                ) ==> {
                    &&& final(self).wf()
                    &&& old(self).lawful::<K>() ==> final(self)@ == old(self)@.insert(key, value)
                },
            forall|slot: Slot<K, V>| #[trigger]
                removed(old(self).inner, final(self).inner, slot) ==> {
                    &&& final(self).wf()
                    &&& old(self).lawful::<K>() ==> final(self)@ == old(self)@.remove(slot.key)
                },
    {
        let hash: u64 = self.hash_key(&key);
        let place = self.inner.find(hash, &key);
        let ghost before = *self;
        proof {
            if self.lawful::<K>() {
                lemma_find(*self, hash, &key, place);
            }
        }
        let entry = match place {
            Some((bi, ei)) => Entry::Occupied(OccupiedEntry::new(&mut self.inner, bi, ei)),
            None => Entry::Vacant(VacantEntry::new(&mut self.inner, key, hash)),
        };
        proof {
            let after = after_borrow(self.inner);
            assert forall|slot: Slot<K, V>, value: V| #[trigger]
                changed(before.inner, after, slot, value) implies {
                &&& (HashMap { inner: after, hash_builder: before.hash_builder }).wf()
                &&& before.lawful::<K>() ==> map_of(after.contents()) == before@.insert(
                    slot.key,
                    value,
                )
            } by {
                lemma_replaced(before, after, slot, value);
            }
            assert forall|value: V|
                place is None && #[trigger] inserted(
                    before.inner,
                    after,
                    hash,
                    new_slot(hash, key, value),
                ) implies {
                &&& (HashMap { inner: after, hash_builder: before.hash_builder }).wf()
                &&& before.lawful::<K>() ==> map_of(after.contents()) == before@.insert(key, value)
            } by {
                lemma_added(before, after, hash, key, value);
            }
            assert forall|slot: Slot<K, V>| #[trigger]
                removed(before.inner, after, slot) implies {
                &&& (HashMap { inner: after, hash_builder: before.hash_builder }).wf()
                &&& before.lawful::<K>() ==> map_of(after.contents()) == before@.remove(slot.key)
            } by {
                lemma_removed(before, after, slot);
            }
        }
        entry
    }
}

} // verus!
