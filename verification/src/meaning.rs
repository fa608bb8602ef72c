//! What the contracts mean in plain terms: the predicates that they use, put in terms of the data
//! that a table holds, and of arithmetic.

use std::hash::{BuildHasher, Hash};

use vstd::arithmetic::power2::pow2;
use vstd::prelude::*;
use vstd::std_specs::cmp::PartialEqSpec;

use crate::bits::{
    bit_is_set, lemma_low_bits_bound, lemma_low_bits_next, lemma_pow2_range, low_bits,
};
use crate::bucket::{fingerprint_of, new_slot, stored_bits_of, with_value, Bucket, Slot};
use crate::contents::{
    is_revalued, is_revalued_bucket, lemma_map_of_slot, lemma_pool_contains, lemma_pool_pairs_push,
    lemma_slot_of_key, pool_pairs, pool_slots, total_len,
};
use crate::directory::doubled;
use crate::inner::HashMapInner;
use crate::map::{is_fresh, HashMap};
use crate::steps::{
    changed, inserted, is_bystander, is_changed_at, is_changed_in_place, is_emptied, is_merge,
    is_pushed, is_removal, is_rewritten, is_split, is_split_down, is_taken_out, same_layout,
};
use crate::table_laws::{law_insertion_with_room, law_split_count, lemma_sibling};

verus! {

broadcast use {vstd::multiset::group_multiset_axioms, vstd::seq_lib::group_to_multiset_ensures};

/// The low-order bits of a number are its remainder, and a bit is the parity of the quotient.
pub proof fn law_bits(x: int, depth: nat)
    requires
        0 <= x,
    ensures
        low_bits(x, depth) == x % (pow2(depth) as int),
        bit_is_set(x, depth) <==> (x / (pow2(depth) as int)) % 2 == 1,
{
    reveal(low_bits);
    let m = pow2(depth) as int;
    let q = x / m;
    lemma_low_bits_next(x, depth);
    vstd::arithmetic::power2::lemma_pow2_pos(depth);
    vstd::arithmetic::div_mod::lemma_mod_breakdown(x, m, 2);
    assert(m * (q % 2) == if q % 2 == 1 {
        m
    } else {
        0
    }) by (nonlinear_arith)
        requires
            q % 2 == 0 || q % 2 == 1,
    ;
}

/// What is stored of a hash is its lower half. The fingerprint is its top byte, made odd.
pub proof fn law_hash_parts(hash: u64)
    ensures
        stored_bits_of(hash) as int == hash as int % 0x1_0000_0000,
        fingerprint_of(hash) as int == {
            let top = hash as int / 0x100_0000_0000_0000;
            if top % 2 == 0 {
                top + 1
            } else {
                top
            }
        },
{
    law_bits(hash as int, 32);
    lemma_pow2_range(32);
    lemma_low_bits_bound(hash as int, 32);
    let top = hash >> 56;
    vstd::bits::lemma_u64_shr_is_div(hash, 56);
    vstd::arithmetic::power2::lemma2_to64_rest();
    assert(top < 256) by (bit_vector)
        requires
            top == hash >> 56,
    ;
    let byte = top as u8;
    assert(byte % 2 == 0 ==> byte | 1 == byte + 1) by (bit_vector);
    assert(byte % 2 == 1 ==> byte | 1 == byte) by (bit_vector);
}

/// The slots of a bucket are its entries, each with its fingerprint and its stored hash bits.
pub proof fn law_slots<K, V, const N: usize>(bucket: Bucket<K, V, N>)
    ensures
        bucket.slots().len() == bucket.entries@.len(),
        forall|i: int|
            0 <= i < bucket.entries@.len() ==> {
                let slot = #[trigger] bucket.slots()[i];
                &&& slot.fingerprint == bucket.fingerprints@[i]
                &&& slot.hash_low == bucket.hash_low@[i]
                &&& slot.key == bucket.entries@[i].0
                &&& slot.value == bucket.entries@[i].1
            },
{
}

/// A new slot has the data of its hash, its key and its value; another value changes nothing else.
pub proof fn law_new_slot<K, V>(hash: u64, key: K, value: V, other: V)
    ensures
        new_slot(hash, key, value).fingerprint as int % 2 == 1,
        new_slot(hash, key, value).hash_low as int == hash as int % 0x1_0000_0000,
        new_slot(hash, key, value).key == key,
        new_slot(hash, key, value).value == value,
        with_value(new_slot(hash, key, value), other) == new_slot(hash, key, other),
{
    law_hash_parts(hash);
}

/// A bucket takes an entry while it holds fewer than `N`, or none. If it is less than 32 levels deep
/// it takes none while it holds more, and otherwise always takes one.
pub proof fn law_room<K, V, const N: usize>(bucket: Bucket<K, V, N>)
    ensures
        bucket.local_depth < 32 ==> (bucket.has_room() <==> bucket.entries@.len() < N
            || bucket.entries@.len() == 0),
        bucket.local_depth >= 32 ==> bucket.has_room(),
{
}

/// A well-formed bucket holds at most `N` entries unless it is 32 levels deep, or holds just one.
/// Exactly the slots that hold an entry have a fingerprint other than zero.
pub proof fn law_bucket<K, V, const N: usize>(bucket: Bucket<K, V, N>, index: int)
    requires
        bucket.wf(),
    ensures
        bucket.local_depth <= 32,
        bucket.local_depth < 32 ==> bucket.entries@.len() <= N || bucket.entries@.len() == 1,
        bucket.fingerprints@.len() >= N,
        bucket.fingerprints@.len() >= bucket.entries@.len(),
        bucket.hash_low@.len() == bucket.fingerprints@.len(),
        0 <= index < bucket.fingerprints@.len() ==> (bucket.fingerprints@[index] == 0 <==> index
            >= bucket.entries@.len()),
{
}

/// A well-formed table counts its entries, knows the length of its directory, and lists each free
/// place once.
pub proof fn law_table<K, V, const N: usize>(
    table: HashMapInner<K, V, N>,
    first: int,
    second: int,
)
    requires
        table.wf(),
    ensures
        table.len == total_len(table.buckets@),
        table.directory@.len() == pow2(table.global_depth as nat),
        table.mask + 1 == table.directory@.len(),
        table.global_depth <= 32,
        0 <= first < second < table.freelist@.len() ==> table.freelist@[first]
            != table.freelist@[second],
        0 <= first < table.freelist@.len() ==> table.freelist@[first] < table.buckets@.len()
            && table.buckets@[table.freelist@[first] as int].entries@.len() == 0,
{
    crate::contents::lemma_total_len(table.buckets@);
    if 0 <= first < table.freelist@.len() {
        law_slots(table.buckets@[table.freelist@[first] as int]);
    }
    assert(table.contents().len() == pool_slots(table.buckets@).len());
}

/// Iteration goes through the buckets of the pool in order, and through each from its first entry.
pub proof fn law_order_of_iteration<K, V, const N: usize>(
    buckets: Seq<Bucket<K, V, N>>,
    bucket: Bucket<K, V, N>,
)
    ensures
        pool_pairs(Seq::<Bucket<K, V, N>>::empty()) == Seq::<(K, V)>::empty(),
        pool_pairs(buckets.push(bucket)) == pool_pairs(buckets) + bucket.entries@,
        total_len(buckets.push(bucket)) == total_len(buckets) + bucket.entries@.len(),
{
    lemma_pool_pairs_push(buckets, bucket);
    law_slots(bucket);
    assert(buckets.push(bucket).drop_last() =~= buckets);
    assert(pool_pairs(Seq::<Bucket<K, V, N>>::empty()) =~= Seq::<(K, V)>::empty());
}

/// Two pools differ in the values of their entries at most exactly when all else is the same.
pub proof fn law_revalued<K, V, const N: usize>(
    before: Seq<Bucket<K, V, N>>,
    after: Seq<Bucket<K, V, N>>,
)
    ensures
        is_revalued(before, after) <==> {
            &&& after.len() == before.len()
            &&& forall|b: int|
                0 <= b < before.len() ==> {
                    &&& (#[trigger] after[b]).fingerprints == before[b].fingerprints
                    &&& after[b].hash_low == before[b].hash_low
                    &&& after[b].local_depth == before[b].local_depth
                    &&& after[b].entries@.len() == before[b].entries@.len()
                    &&& forall|i: int|
                        0 <= i < before[b].entries@.len() ==> (#[trigger] after[b].entries@[i]).0
                            == before[b].entries@[i].0
                }
        },
{
    if is_revalued(before, after) {
        assert forall|b: int| 0 <= b < before.len() implies is_revalued_bucket(
            before[b],
            #[trigger] after[b],
        ) by {}
    }
}

/// Doubling a directory repeats it.
pub proof fn law_doubled(directory: Seq<u32>, slot: int)
    requires
        0 <= slot < 2 * directory.len(),
    ensures
        doubled(directory).len() == 2 * directory.len(),
        doubled(directory)[slot] == directory[slot % (directory.len() as int)],
{
    let n = directory.len() as int;
    if slot >= n {
        vstd::arithmetic::div_mod::lemma_mod_add_multiples_vanish(slot - n, n);
        vstd::arithmetic::div_mod::lemma_small_mod((slot - n) as nat, n as nat);
    } else {
        vstd::arithmetic::div_mod::lemma_small_mod(slot as nat, n as nat);
    }
}

/// A hash leads to the bucket in the directory slot that is its remainder modulo the length of the
/// directory.
pub proof fn law_routing<K, V, const N: usize>(table: HashMapInner<K, V, N>, hash: u64)
    requires
        table.wf(),
    ensures
        table.directory@.len() > 0,
        table.bucket_of(hash) == table.directory@[hash as int % (table.directory@.len() as int)],
        0 <= table.bucket_of(hash) < table.buckets@.len(),
{
    law_bits(hash as int, table.global_depth as nat);
    lemma_low_bits_bound(hash as int, table.global_depth as nat);
}

/// A table holds exactly what its buckets hold.
pub proof fn law_contents<K, V, const N: usize>(table: HashMapInner<K, V, N>, slot: Slot<K, V>)
    ensures
        table.contents().contains(slot) <==> exists|b: int, i: int|
            0 <= b < table.buckets@.len() && 0 <= i < table.buckets@[b].entries@.len()
                && #[trigger] table.buckets@[b].slots()[i] == slot,
        table.contents().len() == total_len(table.buckets@),
{
    lemma_pool_contains(table.buckets@, slot);
    crate::contents::lemma_total_len(table.buckets@);
    if table.contents().contains(slot) {
        let b = choose|b: int|
            0 <= b < table.buckets@.len() && #[trigger] table.buckets@[b].slots().contains(slot);
        let i = table.buckets@[b].slots().index_of(slot);
        assert(table.buckets@[b].slots()[i] == slot);
    }
    if exists|b: int, i: int|
        0 <= b < table.buckets@.len() && 0 <= i < table.buckets@[b].entries@.len()
            && #[trigger] table.buckets@[b].slots()[i] == slot {
        let (b, i) = choose|b: int, i: int|
            0 <= b < table.buckets@.len() && 0 <= i < table.buckets@[b].entries@.len()
                && #[trigger] table.buckets@[b].slots()[i] == slot;
        assert(table.buckets@[b].slots().contains(slot));
    }
}

/// The map that a lawful table stands for has exactly the keys that are in its buckets, each with
/// the value that is beside it.
pub proof fn law_view<K: Eq + Hash, V, S: BuildHasher, const N: usize>(map: HashMap<K, V, S, N>)
    requires
        map.wf(),
        map.lawful::<K>(),
    ensures
        forall|b: int, i: int|
            0 <= b < map.inner.buckets@.len() && 0 <= i < map.inner.buckets@[b].entries@.len() ==> {
                let entry = #[trigger] map.inner.buckets@[b].entries@[i];
                map@.contains_key(entry.0) && map@[entry.0] == entry.1
            },
        forall|key: K| #[trigger]
            map@.contains_key(key) ==> exists|b: int, i: int|
                0 <= b < map.inner.buckets@.len() && 0 <= i < map.inner.buckets@[b].entries@.len()
                    && #[trigger] map.inner.buckets@[b].entries@[i] == (key, map@[key]),
{
    let contents = map.inner.contents();
    assert forall|b: int, i: int|
        0 <= b < map.inner.buckets@.len() && 0 <= i
            < map.inner.buckets@[b].entries@.len() implies {
        let entry = #[trigger] map.inner.buckets@[b].entries@[i];
        map@.contains_key(entry.0) && map@[entry.0] == entry.1
    } by {
        let slot = map.inner.buckets@[b].slots()[i];
        law_contents(map.inner, slot);
        lemma_map_of_slot(contents, slot);
    }
    assert forall|key: K| #[trigger] map@.contains_key(key) implies exists|b: int, i: int|
        0 <= b < map.inner.buckets@.len() && 0 <= i < map.inner.buckets@[b].entries@.len()
            && #[trigger] map.inner.buckets@[b].entries@[i] == (key, map@[key]) by {
        let slot = lemma_slot_of_key(contents, key);
        law_contents(map.inner, slot);
        let (b, i) = choose|b: int, i: int|
            0 <= b < map.inner.buckets@.len() && 0 <= i < map.inner.buckets@[b].entries@.len()
                && #[trigger] map.inner.buckets@[b].slots()[i] == slot;
        assert(map.inner.buckets@[b].entries@[i] == (key, map@[key]));
    }
}

/// The capacity is the number of buckets times `N`, as far as a `usize` goes.
pub proof fn law_capacity<K, V, const N: usize>(table: HashMapInner<K, V, N>)
    ensures
        table.capacity() <= table.buckets@.len() * N,
        table.capacity() <= usize::MAX,
        table.capacity() == table.buckets@.len() * N || table.capacity() == usize::MAX,
{
}

/// A new table has as many buckets as its directory has slots, each slot leading to the bucket of
/// its number, and all of them empty. There is room for the capacity, and half as many buckets
/// would not do, unless there is one.
pub proof fn law_new_table<K, V, const N: usize>(
    table: HashMapInner<K, V, N>,
    capacity: nat,
    place: int,
)
    requires
        is_fresh(table, capacity),
        0 <= place < table.buckets@.len(),
    ensures
        table.len == 0,
        table.freelist@.len() == 0,
        table.buckets@.len() == table.directory@.len(),
        table.directory@.len() == pow2(table.global_depth as nat),
        table.directory@[place] == place,
        table.buckets@[place].entries@.len() == 0,
        table.buckets@[place].local_depth == table.global_depth,
        capacity <= table.buckets@.len() * N,
        table.buckets@.len() == 1 || (table.buckets@.len() / 2) * N < capacity,
{
    let bucket = table.buckets@[place];
    if bucket.entries@.len() > 0 {
        law_contents(table, bucket.slots()[0]);
    }
    lemma_pow2_range(0);
    if table.global_depth > 0 {
        let less = (table.global_depth - 1) as nat;
        vstd::arithmetic::power2::lemma_pow2_unfold(table.global_depth as nat);
        assert(table.buckets@.len() / 2 == pow2(less));
        assert(pow2(less) * N == N * pow2(less)) by (nonlinear_arith);
    }
}

/// Splitting a bucket makes it and the bucket at the new place one level deeper. The directory
/// doubles exactly if it was not deeper than the bucket. The two buckets share the entries between
/// them, and every other bucket is as it was.
pub proof fn law_split<K, V, const N: usize>(
    before: HashMapInner<K, V, N>,
    after: HashMapInner<K, V, N>,
    bucket: int,
    other: int,
)
    requires
        before.wf(),
        is_split(before, after, bucket),
        0 <= bucket < before.buckets@.len(),
        before.directory@.contains(bucket as u32),
        0 <= other < before.buckets@.len(),
        other != bucket,
        before.directory@.contains(other as u32),
    ensures
        ({
            let depth = before.buckets@[bucket].local_depth;
            let place = if before.freelist@.len() > 0 {
                before.freelist@[before.freelist@.len() - 1] as int
            } else {
                before.buckets@.len() as int
            };
            &&& after.len == before.len
            &&& after.contents() == before.contents()
            &&& after.global_depth == if depth == before.global_depth {
                before.global_depth + 1
            } else {
                before.global_depth as int
            }
            &&& after.directory@.len() == if depth == before.global_depth {
                2 * before.directory@.len()
            } else {
                before.directory@.len()
            }
            &&& after.buckets@.len() - after.freelist@.len() == before.buckets@.len()
                - before.freelist@.len() + 1
            &&& before.freelist@.len() > 0 ==> after.buckets@.len() == before.buckets@.len()
            &&& after.buckets@[bucket].local_depth == depth + 1
            &&& after.buckets@[place].local_depth == depth + 1
            &&& after.buckets@[bucket].entries@.len() + after.buckets@[place].entries@.len()
                == before.buckets@[bucket].entries@.len()
            &&& after.buckets@[bucket].slots() == before.buckets@[bucket].slots().filter(
                |x: Slot<K, V>| (x.hash_low as int / (pow2(depth as nat) as int)) % 2 == 0,
            )
            &&& after.buckets@[place].slots() == before.buckets@[bucket].slots().filter(
                |x: Slot<K, V>| (x.hash_low as int / (pow2(depth as nat) as int)) % 2 == 1,
            )
            &&& after.buckets@[other] == before.buckets@[other]
        }),
{
    let s = before.directory@.index_of(bucket as u32);
    assert(before.directory@[s] == bucket as u32);
    let depth = before.buckets@[bucket].local_depth as nat;
    let clear = |x: Slot<K, V>| !bit_is_set(x.hash_low as int, depth);
    let set = |x: Slot<K, V>| bit_is_set(x.hash_low as int, depth);
    let slots = before.buckets@[bucket].slots();
    crate::contents::lemma_filter_parts(slots, clear, set);
    let low = slots.filter(clear);
    let high = slots.filter(set);
    assert(low.to_multiset().len() == low.len() && high.to_multiset().len() == high.len());
    assert(slots.to_multiset().len() == slots.len());
    law_slots(before.buckets@[bucket]);
    law_slots(after.buckets@[bucket]);
    law_slots(after.buckets@[before.next_place()]);
    let even = |x: Slot<K, V>| (x.hash_low as int / (pow2(depth) as int)) % 2 == 0;
    let odd = |x: Slot<K, V>| (x.hash_low as int / (pow2(depth) as int)) % 2 == 1;
    assert forall|x: Slot<K, V>| #[trigger] clear(x) == even(x) by {
        law_bits(x.hash_low as int, depth);
    }
    assert forall|x: Slot<K, V>| #[trigger] set(x) == odd(x) by {
        law_bits(x.hash_low as int, depth);
    }
    assert(clear =~= even);
    assert(set =~= odd);
}

/// An insertion into a bucket with fewer than `N` entries puts the entry behind the others of that
/// bucket. The directory, the free places and all other buckets are as they were.
pub proof fn law_insertion_into_room<K, V, const N: usize>(
    before: HashMapInner<K, V, N>,
    after: HashMapInner<K, V, N>,
    hash: u64,
    key: K,
    value: V,
    other: int,
)
    requires
        before.wf(),
        inserted(before, after, hash, new_slot(hash, key, value)),
        before.buckets@[before.bucket_of(hash)].entries@.len() < N,
        0 <= other < before.buckets@.len(),
        other != before.bucket_of(hash),
    ensures
        ({
            let bucket = before.directory@[hash as int % (before.directory@.len() as int)] as int;
            &&& after.directory@ == before.directory@
            &&& after.freelist@ == before.freelist@
            &&& after.global_depth == before.global_depth
            &&& after.len == before.len + 1
            &&& after.buckets@.len() == before.buckets@.len()
            &&& after.buckets@[bucket].entries@ == before.buckets@[bucket].entries@.push(
                (key, value),
            )
            &&& after.buckets@[bucket].local_depth == before.buckets@[bucket].local_depth
            &&& after.buckets@[other] == before.buckets@[other]
        }),
{
    law_routing(before, hash);
    let bucket = before.bucket_of(hash);
    law_slots(before.buckets@[bucket]);
    law_slots(after.buckets@[bucket]);
    law_insertion_with_room(before, after, hash, new_slot(hash, key, value));
    let old_slots = before.buckets@[bucket].slots();
    let new_slots = after.buckets@[bucket].slots();
    assert(after.buckets@[bucket].entries@ =~= before.buckets@[bucket].entries@.push(
        (key, value),
    )) by {
        assert forall|i: int| 0 <= i < old_slots.len() implies #[trigger] new_slots[i]
            == old_slots[i] by {}
        assert forall|i: int| 0 <= i < new_slots.len() implies #[trigger] after.buckets@[bucket].entries@[i]
            == before.buckets@[bucket].entries@.push((key, value))[i] by {
            assert(new_slots[i].key == after.buckets@[bucket].entries@[i].0);
            if i < old_slots.len() {
                assert(new_slots[i] == old_slots[i]);
            }
        }
    }
}

/// An insertion into a bucket that holds `N` entries, and can be split, splits it: afterwards the
/// hash leads to a deeper bucket, and more buckets are in use.
pub proof fn law_insertion_into_full<K, V, const N: usize>(
    before: HashMapInner<K, V, N>,
    after: HashMapInner<K, V, N>,
    hash: u64,
    slot: Slot<K, V>,
)
    requires
        before.wf(),
        inserted(before, after, hash, slot),
        N > 0,
        before.buckets@[before.bucket_of(hash)].entries@.len() >= N,
        before.buckets@[before.bucket_of(hash)].local_depth < 32,
    ensures
        after.buckets@[after.bucket_of(hash)].local_depth > before.buckets@[before.bucket_of(
            hash,
        )].local_depth,
        after.buckets@.len() - after.freelist@.len() > before.buckets@.len()
            - before.freelist@.len(),
        after.len == before.len + 1,
        after.buckets@[after.bucket_of(hash)].local_depth < 32 ==> after.buckets@[after.bucket_of(
            hash,
        )].entries@.len() <= N,
{
    let (ready, count) = choose|ready: HashMapInner<K, V, N>, count: nat|
        {
            &&& #[trigger] is_split_down(before, ready, hash, count)
            &&& is_pushed(ready, after, ready.bucket_of(hash), slot)
        };
    law_split_count(before, ready, hash, count);
    lemma_splits_make_buckets(before, ready, hash, count);
    law_routing(before, hash);
    law_routing(after, hash);
    if count == 0 {
        law_room(before.buckets@[before.bucket_of(hash)]);
    }
}

/// Each split brings one more bucket into use.
proof fn lemma_splits_make_buckets<K, V, const N: usize>(
    before: HashMapInner<K, V, N>,
    after: HashMapInner<K, V, N>,
    hash: u64,
    count: nat,
)
    requires
        is_split_down(before, after, hash, count),
    ensures
        after.buckets@.len() - after.freelist@.len() == before.buckets@.len()
            - before.freelist@.len() + count,
    decreases count,
{
    if count > 0 {
        let last = choose|last: HashMapInner<K, V, N>|
            {
                &&& is_split_down(before, last, hash, (count - 1) as nat)
                &&& last.wf()
                &&& !last.buckets@[last.bucket_of(hash)].has_room()
                &&& #[trigger] is_split(last, after, last.bucket_of(hash))
            };
        lemma_splits_make_buckets(before, last, hash, (count - 1) as nat);
    }
}

/// The directory slot that differs from a hash in the last of a number of low-order bits.
pub open spec fn opposite_slot(hash: u64, depth: nat) -> int {
    let low = hash as int % (pow2(depth) as int);
    let half = pow2((depth - 1) as nat) as int;
    if low < half {
        low + half
    } else {
        low - half
    }
}

/// A merge happens whenever it can: if the bucket that the hash leads to and the bucket in the slot
/// that differs in the last bit they share are equally deep, and hold no more than `N / 2` entries
/// together, for whatever `N`, then one bucket fewer is in use. All slots that led to the other
/// bucket lead to this one, which is one level less deep and holds the entries of both. Otherwise
/// nothing changes.
pub proof fn law_merge<K, V, const N: usize>(
    before: HashMapInner<K, V, N>,
    after: HashMapInner<K, V, N>,
    hash: u64,
)
    requires
        before.wf(),
        is_merge(before, after, hash),
    ensures
        ({
            let bucket = before.directory@[hash as int % (before.directory@.len() as int)] as int;
            let depth = before.buckets@[bucket].local_depth as nat;
            let other = before.directory@[opposite_slot(hash, depth)] as int;
            let both = before.buckets@[bucket].entries@.len() + before.buckets@[other].entries@.len();
            &&& after.buckets@.len() == before.buckets@.len()
            &&& after.len == before.len
            &&& after.contents() == before.contents()
            &&& if depth > 0 && before.buckets@[other].local_depth == depth && 2 * both <= N {
                &&& after.buckets@.len() - after.freelist@.len() == before.buckets@.len()
                    - before.freelist@.len() - 1
                &&& after.freelist@ == before.freelist@.push(other as u32)
                &&& after.buckets@[bucket].entries@ == before.buckets@[bucket].entries@
                    + before.buckets@[other].entries@
                &&& after.buckets@[other].entries@.len() == 0
                &&& after.buckets@[bucket].local_depth == depth - 1
                &&& after.directory@.len() == before.directory@.len()
                &&& forall|s: int|
                    0 <= s < before.directory@.len() ==> #[trigger] after.directory@[s]
                        == if before.directory@[s] == other {
                        bucket as u32
                    } else {
                        before.directory@[s]
                    }
            } else {
                after == before
            }
        }),
{
    law_routing(before, hash);
    let bucket = before.bucket_of(hash);
    let depth = before.buckets@[bucket].local_depth as nat;
    if depth > 0 {
        law_bits(hash as int, depth);
        assert(before.sibling_slot(hash) == opposite_slot(hash, depth));
        let other = before.sibling_of(hash);
        law_slots(before.buckets@[bucket]);
        law_slots(before.buckets@[other]);
        if before.mergeable(hash) {
            lemma_sibling(before, hash);
            law_slots(after.buckets@[bucket]);
            law_slots(after.buckets@[other]);
            lemma_entries_concat(
                before.buckets@[bucket],
                before.buckets@[other],
                after.buckets@[bucket],
            );
        }
    }
}

/// A bucket with the slots of two others has the entries of both.
proof fn lemma_entries_concat<K, V, const N: usize>(
    first: Bucket<K, V, N>,
    second: Bucket<K, V, N>,
    both: Bucket<K, V, N>,
)
    requires
        both.slots() == first.slots() + second.slots(),
    ensures
        both.entries@ == first.entries@ + second.entries@,
{
    law_slots(first);
    law_slots(second);
    law_slots(both);
    let n = first.entries@.len() as int;
    assert(both.slots().len() == first.slots().len() + second.slots().len());
    assert forall|i: int| 0 <= i < both.entries@.len() implies #[trigger] both.entries@[i] == (
    first.entries@ + second.entries@)[i] by {
        assert(both.slots()[i].key == both.entries@[i].0);
        if i < n {
            assert(both.slots()[i] == first.slots()[i]);
        } else {
            assert(both.slots()[i] == second.slots()[i - n]);
        }
    }
    assert(both.entries@ =~= first.entries@ + second.entries@);
}

/// A removal takes one entry out of the bucket that the hash leads to. If that leaves this bucket
/// and the one in the slot that differs in the last bit they share equally deep, with no more than
/// `N / 2` entries together, for whatever `N`, then one bucket fewer is in use and its place is
/// free; otherwise as many are in use as before.
pub proof fn law_removal<K, V, const N: usize>(
    before: HashMapInner<K, V, N>,
    after: HashMapInner<K, V, N>,
    hash: u64,
    entry: int,
)
    requires
        before.wf(),
        is_removal(before, after, hash, entry),
    ensures
        ({
            let bucket = before.directory@[hash as int % (before.directory@.len() as int)] as int;
            let depth = before.buckets@[bucket].local_depth as nat;
            let other = before.directory@[opposite_slot(hash, depth)] as int;
            let left = before.buckets@[bucket].entries@.len() - 1
                + before.buckets@[other].entries@.len();
            let merges = depth > 0 && before.buckets@[other].local_depth == depth && 2 * left <= N;
            &&& after.len == before.len - 1
            &&& after.buckets@.len() == before.buckets@.len()
            &&& after.freelist@.len() == before.freelist@.len() + if merges {
                1int
            } else {
                0
            }
            &&& merges ==> {
                &&& after.freelist@[before.freelist@.len() as int] == other
                &&& after.buckets@[bucket].local_depth == depth - 1
                &&& after.buckets@[bucket].entries@.len() == left
                &&& after.buckets@[other].entries@.len() == 0
            }
            &&& !merges ==> {
                &&& after.directory@ == before.directory@
                &&& after.buckets@[bucket].local_depth == depth
                &&& after.buckets@[bucket].entries@.len() == before.buckets@[bucket].entries@.len()
                    - 1
            }
        }),
{
    law_routing(before, hash);
    let bucket = before.bucket_of(hash);
    let rest = choose|rest: HashMapInner<K, V, N>|
        {
            &&& is_taken_out(before, rest, before.bucket_of(hash), entry)
            &&& #[trigger] is_merge(rest, after, hash)
        };
    law_merge(rest, after, hash);
    law_slots(before.buckets@[bucket]);
    law_slots(rest.buckets@[bucket]);
    let depth = before.buckets@[bucket].local_depth as nat;
    if depth > 0 {
        let slot = opposite_slot(hash, depth);
        lemma_opposite_slot(before, hash, depth);
        let other = before.directory@[slot] as int;
        assert(other != bucket);
        assert(rest.buckets@[other] == before.buckets@[other]);
    }
}

/// The slot that differs in the last bit that a bucket shares leads to another bucket of the pool.
proof fn lemma_opposite_slot<K, V, const N: usize>(
    table: HashMapInner<K, V, N>,
    hash: u64,
    depth: nat,
)
    requires
        table.wf(),
        depth == table.buckets@[table.bucket_of(hash)].local_depth,
        depth > 0,
    ensures
        0 <= opposite_slot(hash, depth) < table.directory@.len(),
        table.directory@[opposite_slot(hash, depth)] < table.buckets@.len(),
        table.directory@[opposite_slot(hash, depth)] != table.bucket_of(hash),
{
    let wide = table.global_depth as nat;
    let home = table.slot_of(hash);
    let less = (depth - 1) as nat;
    let slot = opposite_slot(hash, depth);
    law_bits(hash as int, depth);
    lemma_low_bits_bound(hash as int, wide);
    lemma_low_bits_bound(hash as int, depth);
    lemma_low_bits_next(hash as int, less);
    lemma_low_bits_bound(hash as int, less);
    assert(table.directory@[home] == table.bucket_of(hash));
    if depth < wide {
        vstd::arithmetic::power2::lemma_pow2_strictly_increases(depth, wide);
    }
    lemma_low_bits_bound(slot, depth);
    crate::bits::lemma_low_bits_nested(hash as int, depth, wide);
    assert(low_bits(home, depth) != low_bits(slot, depth));
}

/// Taking an entry out moves the last entry of the bucket into its place. No other bucket changes.
pub proof fn law_taken_out<K, V, const N: usize>(
    before: HashMapInner<K, V, N>,
    after: HashMapInner<K, V, N>,
    bucket: int,
    entry: int,
    other: int,
)
    requires
        is_taken_out(before, after, bucket, entry),
        0 <= other < before.buckets@.len(),
        other != bucket,
    ensures
        after.len == before.len - 1,
        after.directory@ == before.directory@,
        after.freelist@ == before.freelist@,
        after.buckets@.len() == before.buckets@.len(),
        after.buckets@[other] == before.buckets@[other],
        after.buckets@[bucket].local_depth == before.buckets@[bucket].local_depth,
        ({
            let entries = before.buckets@[bucket].entries@;
            after.buckets@[bucket].entries@ == entries.update(entry, entries.last()).drop_last()
        }),
{
    law_slots(before.buckets@[bucket]);
    law_slots(after.buckets@[bucket]);
    let old_slots = before.buckets@[bucket].slots();
    let new_slots = after.buckets@[bucket].slots();
    let entries = before.buckets@[bucket].entries@;
    let expected = entries.update(entry, entries.last()).drop_last();
    assert(new_slots.len() == old_slots.len() - 1);
    assert forall|i: int| 0 <= i < expected.len() implies #[trigger] after.buckets@[bucket].entries@[i]
        == expected[i] by {
        assert(new_slots[i].key == after.buckets@[bucket].entries@[i].0);
        let j = if i == entry {
            old_slots.len() - 1
        } else {
            i
        };
        assert(new_slots[i] == old_slots[j]);
    }
    assert(after.buckets@[bucket].entries@ =~= expected);
}

/// Changing the value of an entry changes nothing else.
pub proof fn law_changed_at<K, V, const N: usize>(
    before: HashMapInner<K, V, N>,
    after: HashMapInner<K, V, N>,
    bucket: int,
    entry: int,
    value: V,
    other: int,
)
    requires
        is_changed_at(before, after, bucket, entry, value),
        0 <= bucket < before.buckets@.len(),
        0 <= entry < before.buckets@[bucket].entries@.len(),
        0 <= other < before.buckets@.len(),
        other != bucket,
    ensures
        after.len == before.len,
        after.directory@ == before.directory@,
        after.freelist@ == before.freelist@,
        after.global_depth == before.global_depth,
        after.buckets@.len() == before.buckets@.len(),
        after.buckets@[other] == before.buckets@[other],
        after.buckets@[bucket].local_depth == before.buckets@[bucket].local_depth,
        after.buckets@[bucket].entries@ == before.buckets@[bucket].entries@.update(
            entry,
            (before.buckets@[bucket].entries@[entry].0, value),
        ),
{
    lemma_changed_entry(before, after, bucket, entry, value);
}

/// When the value of an entry has changed, the table holds one entry with that key and the new
/// value instead of the old one, and is laid out as before.
pub proof fn law_changed<K, V, const N: usize>(
    before: HashMapInner<K, V, N>,
    after: HashMapInner<K, V, N>,
    slot: Slot<K, V>,
    value: V,
    place: int,
)
    requires
        changed(before, after, slot, value),
        0 <= place < before.buckets@.len(),
    ensures
        before.contents().contains(slot),
        after.contents() == before.contents().remove(slot).insert(
            (Slot {
                fingerprint: slot.fingerprint,
                hash_low: slot.hash_low,
                key: slot.key,
                value,
            }),
        ),
        after.len == before.len,
        after.directory@ == before.directory@,
        after.freelist@ == before.freelist@,
        after.global_depth == before.global_depth,
        after.buckets@.len() == before.buckets@.len(),
        after.buckets@[place].local_depth == before.buckets@[place].local_depth,
        after.buckets@[place].entries@.len() == before.buckets@[place].entries@.len(),
{
    law_slots(before.buckets@[place]);
    law_slots(after.buckets@[place]);
}

/// Overwriting values keeps every key, with its hash data, in its place.
pub proof fn law_rewritten_keys<K, V, const N: usize>(
    before: HashMapInner<K, V, N>,
    after: HashMapInner<K, V, N>,
    bucket: int,
    entry: int,
)
    requires
        is_rewritten(before, after),
        0 <= bucket < before.buckets@.len(),
        0 <= entry < before.buckets@[bucket].entries@.len(),
    ensures
        after.directory@ == before.directory@,
        after.freelist@ == before.freelist@,
        after.len == before.len,
        after.buckets@.len() == before.buckets@.len(),
        after.buckets@[bucket].entries@.len() == before.buckets@[bucket].entries@.len(),
        after.buckets@[bucket].entries@[entry].0 == before.buckets@[bucket].entries@[entry].0,
        after.buckets@[bucket].fingerprints@ == before.buckets@[bucket].fingerprints@,
        after.buckets@[bucket].hash_low@ == before.buckets@[bucket].hash_low@,
        after.buckets@[bucket].local_depth == before.buckets@[bucket].local_depth,
{
    assert(crate::contents::is_revalued_bucket(before.buckets@[bucket], after.buckets@[bucket]));
}

/// Emptying a table keeps its directory, its buckets with their depths, and its free places.
pub proof fn law_emptied<K, V, const N: usize>(
    before: HashMapInner<K, V, N>,
    after: HashMapInner<K, V, N>,
    place: int,
)
    requires
        is_emptied(before, after),
        0 <= place < before.buckets@.len(),
    ensures
        after.len == 0,
        after.directory@ == before.directory@,
        after.freelist@ == before.freelist@,
        after.global_depth == before.global_depth,
        after.buckets@.len() == before.buckets@.len(),
        after.buckets@[place].local_depth == before.buckets@[place].local_depth,
        after.buckets@[place].entries@.len() == 0,
{
    law_slots(after.buckets@[place]);
}

/// A table with the same layout has the same directory, depths and free places.
pub proof fn law_same_layout<K, V, const N: usize>(
    before: HashMapInner<K, V, N>,
    after: HashMapInner<K, V, N>,
    place: int,
)
    requires
        same_layout(before, after),
        0 <= place < before.buckets@.len(),
    ensures
        after.directory@ == before.directory@,
        after.freelist@ == before.freelist@,
        after.global_depth == before.global_depth,
        after.buckets@.len() == before.buckets@.len(),
        after.buckets@[place].local_depth == before.buckets@[place].local_depth,
{
}

/// An insertion, however many splits it makes, leaves every bucket alone that is in use and to which
/// the hash does not lead.
pub proof fn law_insertion_elsewhere<K, V, const N: usize>(
    before: HashMapInner<K, V, N>,
    after: HashMapInner<K, V, N>,
    hash: u64,
    slot: Slot<K, V>,
    other: int,
)
    requires
        before.wf(),
        inserted(before, after, hash, slot),
        0 <= other < before.buckets@.len(),
        before.directory@.contains(other as u32),
        other != before.directory@[hash as int % (before.directory@.len() as int)],
    ensures
        after.buckets@[other] == before.buckets@[other],
        after.directory@.contains(other as u32),
        after.len == before.len + 1,
        after.contents() == before.contents().insert(slot),
{
    law_routing(before, hash);
    assert(is_bystander(before, hash, other));
    assert(is_bystander(after, hash, other));
    assert(after.len == after.contents().len());
}

/// When a value has changed in place, one entry of one bucket has the new value, and nothing else is
/// different.
pub proof fn law_changed_in_place<K, V, const N: usize>(
    before: HashMapInner<K, V, N>,
    after: HashMapInner<K, V, N>,
    value: V,
)
    requires
        is_changed_in_place(before, after, value),
    ensures
        exists|bucket: int, entry: int|
            #![trigger before.buckets@[bucket].entries@[entry]]
            {
                &&& 0 <= bucket < before.buckets@.len()
                &&& 0 <= entry < before.buckets@[bucket].entries@.len()
                &&& after.directory@ == before.directory@
                &&& after.freelist@ == before.freelist@
                &&& after.buckets@.len() == before.buckets@.len()
                &&& after.buckets@[bucket].local_depth == before.buckets@[bucket].local_depth
                &&& after.buckets@[bucket].entries@ == before.buckets@[bucket].entries@.update(
                    entry,
                    (before.buckets@[bucket].entries@[entry].0, value),
                )
                &&& forall|b: int|
                    0 <= b < before.buckets@.len() && b != bucket ==> #[trigger] after.buckets@[b]
                        == before.buckets@[b]
            },
{
    let (bucket, entry) = choose|bucket: int, entry: int|
        {
            &&& 0 <= bucket < before.buckets@.len()
            &&& 0 <= entry < before.buckets@[bucket].slots().len()
            &&& #[trigger] is_changed_at(before, after, bucket, entry, value)
        };
    law_slots(before.buckets@[bucket]);
    lemma_changed_entry(before, after, bucket, entry, value);
    let old_entry = before.buckets@[bucket].entries@[entry];
}

/// The entries of a bucket in which a value has changed.
proof fn lemma_changed_entry<K, V, const N: usize>(
    before: HashMapInner<K, V, N>,
    after: HashMapInner<K, V, N>,
    bucket: int,
    entry: int,
    value: V,
)
    requires
        is_changed_at(before, after, bucket, entry, value),
        0 <= bucket < before.buckets@.len(),
        0 <= entry < before.buckets@[bucket].entries@.len(),
    ensures
        after.buckets@[bucket].entries@ == before.buckets@[bucket].entries@.update(
            entry,
            (before.buckets@[bucket].entries@[entry].0, value),
        ),
{
    law_slots(before.buckets@[bucket]);
    law_slots(after.buckets@[bucket]);
    let old_slots = before.buckets@[bucket].slots();
    let new_slots = after.buckets@[bucket].slots();
    let entries = before.buckets@[bucket].entries@;
    let expected = entries.update(entry, (entries[entry].0, value));
    assert forall|i: int| 0 <= i < expected.len() implies #[trigger] after.buckets@[bucket].entries@[i]
        == expected[i] by {
        assert(new_slots[i].key == after.buckets@[bucket].entries@[i].0);
        if i != entry {
            assert(new_slots[i] == old_slots[i]);
        }
    }
    assert(after.buckets@[bucket].entries@ =~= expected);
}

} // verus!
