//! How many buckets a set of keys needs. Splits part the keys along their hash bits, as in a binary
//! tree whose leaves are the buckets; the keys alone decide which nodes are ever split.

use vstd::arithmetic::power2::pow2;
use vstd::multiset::Multiset;
use vstd::prelude::*;

use crate::bits::{
    bit_is_set, lemma_low_bits_bound, lemma_low_bits_coarser, lemma_low_bits_nested,
    lemma_low_bits_next, lemma_pow2_range, low_bits,
};
use crate::bucket::{stored_bits_of, Bucket, Slot, MAX_LOCAL_DEPTH};
use crate::contents::{lemma_pool_contains, lemma_pool_update, pool_contents, pool_slots};
use crate::directory::{target, target_depth};
use crate::inner::HashMapInner;
use crate::steps::{
    inserted, is_merge, is_pushed, is_removal, is_split, is_split_down, is_taken_out,
};
use crate::table_laws::{law_live_buckets, law_split_count, lemma_sibling, live_buckets};

verus! {

broadcast use {vstd::multiset::group_multiset_axioms, vstd::seq_lib::group_to_multiset_ensures};

/// The number of entries that a bucket takes before it is split.
pub open spec fn bucket_limit(capacity: usize) -> nat {
    if capacity == 0 {
        1
    } else {
        capacity as nat
    }
}

/// The number of entries whose stored hash ends in the given bits.
pub open spec fn population<K, V>(
    contents: Multiset<Slot<K, V>>,
    depth: nat,
    pattern: int,
) -> nat {
    contents.filter(|s: Slot<K, V>| low_bits(s.hash_low as int, depth) == pattern).len()
}

/// Whether there are at most as many entries under each pattern of hash bits as `crowd` says.
pub open spec fn fits<K, V>(
    contents: Multiset<Slot<K, V>>,
    crowd: spec_fn(nat, int) -> nat,
) -> bool {
    forall|depth: nat, pattern: int| #[trigger]
        population(contents, depth, pattern) <= crowd(depth, pattern)
}

/// Whether every split of the table is called for by the crowd: a bucket is deeper than some depth
/// only if the crowd there is too large for one bucket.
pub open spec fn is_forced<K, V, const N: usize>(
    table: HashMapInner<K, V, N>,
    crowd: spec_fn(nat, int) -> nat,
) -> bool {
    forall|s: int, depth: nat|
        #![trigger table.directory@[s], low_bits(s, depth)]
        0 <= s < table.directory@.len() && depth < target_depth(
            table.directory@,
            table.buckets@,
            s,
        ) ==> crowd(depth, low_bits(s, depth)) > bucket_limit(N)
}

/// The number of buckets that a crowd needs below a node of the tree.
pub open spec fn leaves(
    crowd: spec_fn(nat, int) -> nat,
    limit: nat,
    depth: nat,
    pattern: int,
) -> nat
    decreases MAX_LOCAL_DEPTH - depth,
{
    if depth >= MAX_LOCAL_DEPTH || crowd(depth, pattern) <= limit {
        1
    } else {
        leaves(crowd, limit, depth + 1, pattern) + leaves(
            crowd,
            limit,
            depth + 1,
            pattern + pow2(depth),
        )
    }
}

/// A crowd needs at least one bucket.
pub proof fn lemma_leaves_positive(
    crowd: spec_fn(nat, int) -> nat,
    limit: nat,
    depth: nat,
    pattern: int,
)
    ensures
        leaves(crowd, limit, depth, pattern) >= 1,
    decreases MAX_LOCAL_DEPTH - depth,
{
    if !(depth >= MAX_LOCAL_DEPTH || crowd(depth, pattern) <= limit) {
        lemma_leaves_positive(crowd, limit, depth + 1, pattern);
    }
}

/// A part of a multiset is not larger than the multiset.
proof fn lemma_part_len<A>(part: Multiset<A>, whole: Multiset<A>)
    requires
        part.subset_of(whole),
    ensures
        part.len() <= whole.len(),
{
    assert(whole =~= part.add(whole.sub(part)));
}

/// Splitting a full bucket for one more entry is called for by any crowd that holds the entries and
/// the new one.
proof fn lemma_split_is_forced<K, V, const N: usize>(
    before: HashMapInner<K, V, N>,
    after: HashMapInner<K, V, N>,
    hash: u64,
    slot: Slot<K, V>,
    crowd: spec_fn(nat, int) -> nat,
)
    requires
        before.wf(),
        is_forced(before, crowd),
        slot.hash_low == stored_bits_of(hash),
        fits(before.contents().insert(slot), crowd),
        !before.buckets@[before.bucket_of(hash)].has_room(),
        is_split(before, after, before.bucket_of(hash)),
    ensures
        is_forced(after, crowd),
{
    let home = before.slot_of(hash);
    let narrow = before.global_depth as nat;
    lemma_low_bits_bound(hash as int, narrow);
    let bucket = before.bucket_of(hash);
    let full = before.buckets@[bucket];
    let depth = full.local_depth as nat;
    let grown = before.grown_directory(depth + 1);
    assert(target_depth(before.directory@, before.buckets@, home) == depth);
    // The crowd where the bucket is split.
    let pattern = low_bits(home, depth);
    lemma_pow2_range(32);
    lemma_low_bits_bound(hash as int, 32);
    lemma_low_bits_nested(hash as int, depth, narrow);
    lemma_low_bits_nested(hash as int, depth, 32);
    assert(crowd(depth, pattern) > bucket_limit(N)) by {
        let shares = |s: Slot<K, V>| low_bits(s.hash_low as int, depth) == pattern;
        let part = full.slots().to_multiset().insert(slot);
        let whole = before.contents().insert(slot).filter(shares);
        lemma_pool_update(before.buckets@, bucket, full);
        assert forall|s: Slot<K, V>| part.count(s) <= whole.count(s) by {
            if part.count(s) > 0 {
                if s != slot {
                    assert(full.slots().contains(s));
                    let i = full.slots().index_of(s);
                    assert(target(before.directory@, before.buckets@, home).slots()[i] == s);
                }
                assert(shares(s));
                assert(full.slots().to_multiset().count(s) <= before.contents().count(s));
            }
        }
        lemma_part_len(part, whole);
        assert(population(before.contents().insert(slot), depth, pattern) <= crowd(depth, pattern));
    }
    assert forall|s: int, d: nat|
        #![trigger after.directory@[s], low_bits(s, d)]
        0 <= s < after.directory@.len() && d < target_depth(
            after.directory@,
            after.buckets@,
            s,
        ) implies crowd(d, low_bits(s, d)) > bucket_limit(N) by {
        let s0 = low_bits(s, narrow);
        lemma_low_bits_bound(s, narrow);
        if depth + 1 > narrow {
            vstd::arithmetic::power2::lemma_pow2_unfold(narrow + 1);
        }
        assert(grown[s] == before.directory@[s0]);
        let d0 = target_depth(before.directory@, before.buckets@, s0);
        assert(d0 <= narrow);
        assert(before.directory@.contains(before.directory@[s0]));
        if before.directory@[s0] == bucket {
            assert(target_depth(after.directory@, after.buckets@, s) == depth + 1);
            if d == depth {
                lemma_low_bits_nested(s, depth, narrow);
                assert(before.directory@[s0] == before.directory@[home]);
            } else {
                lemma_low_bits_nested(s, d, narrow);
                assert(crowd(d, low_bits(s0, d)) > bucket_limit(N));
            }
        } else {
            assert(after.directory@[s] == before.directory@[s0]);
            assert(target_depth(after.directory@, after.buckets@, s) == d0);
            lemma_low_bits_nested(s, d, narrow);
            assert(crowd(d, low_bits(s0, d)) > bucket_limit(N));
        }
    }
}

/// All splits that an insertion makes are called for by any crowd that holds the entries and the
/// new one. If they make the pool grow, no place is left free.
proof fn lemma_splits_are_forced<K, V, const N: usize>(
    before: HashMapInner<K, V, N>,
    after: HashMapInner<K, V, N>,
    hash: u64,
    count: nat,
    slot: Slot<K, V>,
    crowd: spec_fn(nat, int) -> nat,
)
    requires
        before.wf(),
        is_forced(before, crowd),
        slot.hash_low == stored_bits_of(hash),
        fits(before.contents().insert(slot), crowd),
        is_split_down(before, after, hash, count),
    ensures
        is_forced(after, crowd),
        after.buckets@.len() == before.buckets@.len() || after.freelist@.len() == 0,
    decreases count,
{
    if count > 0 {
        let last = choose|last: HashMapInner<K, V, N>|
            {
                &&& is_split_down(before, last, hash, (count - 1) as nat)
                &&& last.wf()
                &&& !last.buckets@[last.bucket_of(hash)].has_room()
                &&& #[trigger] is_split(last, after, last.bucket_of(hash))
            };
        lemma_splits_are_forced(before, last, hash, (count - 1) as nat, slot, crowd);
        law_split_count(before, last, hash, (count - 1) as nat);
        lemma_split_is_forced(last, after, hash, slot, crowd);
    }
}

/// A table of the same directory and depths is as much called for.
pub proof fn lemma_same_depths_are_forced<K, V, const N: usize>(
    before: HashMapInner<K, V, N>,
    after: HashMapInner<K, V, N>,
    crowd: spec_fn(nat, int) -> nat,
)
    requires
        after.wf(),
        is_forced(before, crowd),
        after.directory@ == before.directory@,
        after.buckets@.len() == before.buckets@.len(),
        forall|b: int|
            0 <= b < before.buckets@.len() ==> (#[trigger] after.buckets@[b]).local_depth
                == before.buckets@[b].local_depth,
    ensures
        is_forced(after, crowd),
{
    assert forall|s: int, d: nat|
        #![trigger after.directory@[s], low_bits(s, d)]
        0 <= s < after.directory@.len() && d < target_depth(
            after.directory@,
            after.buckets@,
            s,
        ) implies crowd(d, low_bits(s, d)) > bucket_limit(N) by {
        assert(after.directory@[s] < after.buckets@.len());
    }
}

/// An insertion makes only splits that are called for, and the pool grows only if it has to.
pub proof fn lemma_insertion_is_forced<K, V, const N: usize>(
    before: HashMapInner<K, V, N>,
    after: HashMapInner<K, V, N>,
    hash: u64,
    slot: Slot<K, V>,
    crowd: spec_fn(nat, int) -> nat,
)
    requires
        before.wf(),
        is_forced(before, crowd),
        slot.hash_low == stored_bits_of(hash),
        inserted(before, after, hash, slot),
        fits(after.contents(), crowd),
    ensures
        is_forced(after, crowd),
        after.buckets@.len() == before.buckets@.len() || after.freelist@.len() == 0,
{
    let (ready, count) = choose|ready: HashMapInner<K, V, N>, count: nat|
        {
            &&& #[trigger] is_split_down(before, ready, hash, count)
            &&& is_pushed(ready, after, ready.bucket_of(hash), slot)
        };
    lemma_splits_are_forced(before, ready, hash, count, slot, crowd);
    lemma_same_depths_are_forced(ready, after, crowd);
}

/// A removal leaves no split that was not called for before.
pub proof fn lemma_removal_is_forced<K, V, const N: usize>(
    before: HashMapInner<K, V, N>,
    after: HashMapInner<K, V, N>,
    hash: u64,
    entry: int,
    crowd: spec_fn(nat, int) -> nat,
)
    requires
        before.wf(),
        is_forced(before, crowd),
        is_removal(before, after, hash, entry),
    ensures
        is_forced(after, crowd),
        after.buckets@.len() == before.buckets@.len(),
{
    let rest = choose|rest: HashMapInner<K, V, N>|
        {
            &&& is_taken_out(before, rest, before.bucket_of(hash), entry)
            &&& #[trigger] is_merge(rest, after, hash)
        };
    lemma_low_bits_bound(hash as int, before.global_depth as nat);
    lemma_same_depths_are_forced(before, rest, crowd);
    if rest.mergeable(hash) {
        let kept = rest.bucket_of(hash);
        let gone = rest.sibling_of(hash);
        lemma_sibling(rest, hash);
        assert forall|s: int, d: nat|
            #![trigger after.directory@[s], low_bits(s, d)]
            0 <= s < after.directory@.len() && d < target_depth(
                after.directory@,
                after.buckets@,
                s,
            ) implies crowd(d, low_bits(s, d)) > bucket_limit(N) by {
            assert(rest.directory@[s] < rest.buckets@.len());
            assert(crowd(d, low_bits(s, d)) > bucket_limit(N) || d >= target_depth(
                rest.directory@,
                rest.buckets@,
                s,
            ));
        }
    }
}

/// The buckets that slots ending in the given bits lead to.
pub open spec fn reach<K, V, const N: usize>(
    table: HashMapInner<K, V, N>,
    depth: nat,
    pattern: int,
) -> Set<u32> {
    table.directory@.to_set().filter(|b: u32| is_reached(table, depth, pattern, b))
}

/// Whether some slot ending in the given bits leads to a bucket.
pub open spec fn is_reached<K, V, const N: usize>(
    table: HashMapInner<K, V, N>,
    depth: nat,
    pattern: int,
    bucket: u32,
) -> bool {
    exists|s: int|
        0 <= s < table.directory@.len() && #[trigger] table.directory@[s] == bucket && low_bits(
            s,
            depth,
        ) == pattern
}

/// No more buckets are in use below a node than the crowd needs.
proof fn lemma_reach_bound<K, V, const N: usize>(
    table: HashMapInner<K, V, N>,
    crowd: spec_fn(nat, int) -> nat,
    depth: nat,
    pattern: int,
)
    requires
        table.wf(),
        is_forced(table, crowd),
        depth <= MAX_LOCAL_DEPTH,
    ensures
        reach(table, depth, pattern).len() <= leaves(crowd, bucket_limit(N), depth, pattern),
    decreases MAX_LOCAL_DEPTH - depth,
{
    let here = reach(table, depth, pattern);
    table.directory@.lemma_cardinality_of_set();
    table.directory@.to_set().lemma_len_filter(|b: u32| is_reached(table, depth, pattern, b));
    if depth >= MAX_LOCAL_DEPTH || crowd(depth, pattern) <= bucket_limit(N) {
        assert forall|a: u32, b: u32| here.contains(a) && here.contains(b) implies a == b by {
            let s = choose|s: int|
                0 <= s < table.directory@.len() && #[trigger] table.directory@[s] == a && low_bits(
                    s,
                    depth,
                ) == pattern;
            let t = choose|t: int|
                0 <= t < table.directory@.len() && #[trigger] table.directory@[t] == b && low_bits(
                    t,
                    depth,
                ) == pattern;
            let own = target_depth(table.directory@, table.buckets@, s);
            assert(own <= depth) by {
                if own > depth {
                    assert(crowd(depth, low_bits(s, depth)) > bucket_limit(N));
                }
            }
            lemma_low_bits_coarser(s, t, own, depth);
        }
        if here.len() > 0 {
            let b = here.choose();
            assert(here =~= set![b]);
        }
    } else {
        let other = pattern + pow2(depth);
        let low = reach(table, depth + 1, pattern);
        let high = reach(table, depth + 1, other);
        lemma_reach_bound(table, crowd, depth + 1, pattern);
        lemma_reach_bound(table, crowd, depth + 1, other);
        table.directory@.to_set().lemma_len_filter(
            |b: u32| is_reached(table, depth + 1, pattern, b),
        );
        table.directory@.to_set().lemma_len_filter(|b: u32| is_reached(table, depth + 1, other, b));
        assert forall|b: u32| here.contains(b) implies low.union(high).contains(b) by {
            let s = choose|s: int|
                0 <= s < table.directory@.len() && #[trigger] table.directory@[s] == b && low_bits(
                    s,
                    depth,
                ) == pattern;
            lemma_low_bits_next(s, depth);
            if bit_is_set(s, depth) {
                assert(is_reached(table, depth + 1, other, b));
            } else {
                assert(is_reached(table, depth + 1, pattern, b));
            }
        }
        vstd::set_lib::lemma_len_union(low, high);
        vstd::set_lib::lemma_len_subset(here, low.union(high));
    }
}

/// If a pool holds a slot more often than one of its buckets does, another bucket holds it too.
proof fn lemma_held_elsewhere<K, V, const N: usize>(
    buckets: Seq<Bucket<K, V, N>>,
    bucket: int,
    slot: Slot<K, V>,
) -> (other: int)
    requires
        0 <= bucket < buckets.len(),
        pool_contents(buckets).count(slot) > buckets[bucket].slots().to_multiset().count(slot),
    ensures
        0 <= other < buckets.len(),
        other != bucket,
        buckets[other].slots().contains(slot),
    decreases buckets.len(),
{
    let front = buckets.drop_last();
    let last = buckets.len() - 1;
    vstd::seq_lib::lemma_multiset_commutative(pool_slots(front), buckets.last().slots());
    if bucket == last {
        lemma_pool_contains(front, slot);
        choose|b: int| 0 <= b < front.len() && #[trigger] front[b].slots().contains(slot)
    } else if buckets[last].slots().contains(slot) {
        last
    } else {
        lemma_held_elsewhere(front, bucket, slot)
    }
}

/// A bucket that is not deeper than some depth holds all entries that share that many hash bits
/// with its slots.
proof fn lemma_population_in_bucket<K, V, const N: usize>(
    table: HashMapInner<K, V, N>,
    slot: int,
    depth: nat,
)
    requires
        table.wf(),
        0 <= slot < table.directory@.len(),
        target_depth(table.directory@, table.buckets@, slot) <= depth,
    ensures
        population(table.contents(), depth, low_bits(slot, depth)) <= target(
            table.directory@,
            table.buckets@,
            slot,
        ).slots().len(),
{
    let pattern = low_bits(slot, depth);
    let shares = |x: Slot<K, V>| low_bits(x.hash_low as int, depth) == pattern;
    let bucket = table.directory@[slot] as int;
    let own = target_depth(table.directory@, table.buckets@, slot);
    let wide = table.global_depth as nat;
    let part = table.contents().filter(shares);
    let whole = table.buckets@[bucket].slots().to_multiset();
    assert forall|x: Slot<K, V>| part.count(x) <= whole.count(x) by {
        if part.count(x) > whole.count(x) {
            assert(shares(x));
            let b = lemma_held_elsewhere(table.buckets@, bucket, x);
            if !table.directory@.contains(b as u32) {
                assert(table.freelist@.contains(b as u32));
                let f = table.freelist@.index_of(b as u32);
                assert(table.freelist@[f] == b as u32);
            }
            let t = table.directory@.index_of(b as u32);
            assert(table.directory@[t] == b);
            let i = table.buckets@[b].slots().index_of(x);
            assert(target(table.directory@, table.buckets@, t).slots()[i] == x);
            let other = target_depth(table.directory@, table.buckets@, t);
            let home = low_bits(x.hash_low as int, wide);
            lemma_low_bits_bound(x.hash_low as int, wide);
            lemma_low_bits_nested(x.hash_low as int, own, wide);
            lemma_low_bits_nested(x.hash_low as int, other, wide);
            lemma_low_bits_coarser(x.hash_low as int, slot, own, depth);
            assert(table.directory@[t] == table.directory@[home]);
            assert(table.directory@[slot] == table.directory@[home]);
        }
    }
    lemma_part_len(part, whole);
}

/// A table that holds the whole crowd has as many buckets in use below a node as the crowd needs.
proof fn lemma_reach_full<K, V, const N: usize>(
    table: HashMapInner<K, V, N>,
    crowd: spec_fn(nat, int) -> nat,
    depth: nat,
    pattern: int,
)
    requires
        table.wf(),
        forall|d: nat, p: int| #[trigger] population(table.contents(), d, p) == crowd(d, p),
        depth <= table.global_depth,
        0 <= pattern < pow2(depth),
    ensures
        reach(table, depth, pattern).len() >= leaves(crowd, bucket_limit(N), depth, pattern),
    decreases MAX_LOCAL_DEPTH - depth,
{
    let here = reach(table, depth, pattern);
    let wide = table.global_depth as nat;
    table.directory@.lemma_cardinality_of_set();
    table.directory@.to_set().lemma_len_filter(|b: u32| is_reached(table, depth, pattern, b));
    if depth < wide {
        vstd::arithmetic::power2::lemma_pow2_strictly_increases(depth, wide);
    }
    lemma_low_bits_bound(pattern, depth);
    assert(here.contains(table.directory@[pattern])) by {
        assert(is_reached(table, depth, pattern, table.directory@[pattern]));
        assert(table.directory@.contains(table.directory@[pattern]));
    }
    if depth >= MAX_LOCAL_DEPTH || crowd(depth, pattern) <= bucket_limit(N) {
        if here.len() == 0 {
            assert(here =~= Set::empty());
        }
    } else {
        // No bucket holds the crowd at this node, so all buckets below it are deeper.
        assert forall|s: int|
            0 <= s < table.directory@.len() && #[trigger] low_bits(s, depth) == pattern implies
            target_depth(table.directory@, table.buckets@, s) > depth by {
            if target_depth(table.directory@, table.buckets@, s) <= depth {
                lemma_population_in_bucket(table, s, depth);
                assert(table.directory@[s] < table.buckets@.len());
                assert(table.buckets@[table.directory@[s] as int].wf());
            }
        }
        assert(target_depth(table.directory@, table.buckets@, pattern) > depth);
        assert(table.directory@[pattern] < table.buckets@.len());
        let other = pattern + pow2(depth);
        lemma_low_bits_next(pattern, depth);
        let low = reach(table, depth + 1, pattern);
        let high = reach(table, depth + 1, other);
        lemma_reach_full(table, crowd, depth + 1, pattern);
        lemma_reach_full(table, crowd, depth + 1, other);
        table.directory@.to_set().lemma_len_filter(
            |b: u32| is_reached(table, depth + 1, pattern, b),
        );
        table.directory@.to_set().lemma_len_filter(|b: u32| is_reached(table, depth + 1, other, b));
        assert forall|b: u32| low.union(high).contains(b) implies here.contains(b) by {
            let end = if low.contains(b) {
                pattern
            } else {
                other
            };
            assert(is_reached(table, depth + 1, end, b));
            let s = choose|s: int|
                0 <= s < table.directory@.len() && #[trigger] table.directory@[s] == b && low_bits(
                    s,
                    depth + 1,
                ) == end;
            lemma_low_bits_nested(s, depth, depth + 1);
            lemma_low_bits_bound(pattern, depth);
            lemma_low_bits_bound(other, depth);
            assert(low_bits(s, depth) == pattern);
            assert(is_reached(table, depth, pattern, b));
        }
        assert(low.disjoint(high)) by {
            assert forall|b: u32| !(low.contains(b) && high.contains(b)) by {
                if low.contains(b) && high.contains(b) {
                    let s = choose|s: int|
                        0 <= s < table.directory@.len() && #[trigger] table.directory@[s] == b
                            && low_bits(s, depth + 1) == pattern;
                    let t = choose|t: int|
                        0 <= t < table.directory@.len() && #[trigger] table.directory@[t] == b
                            && low_bits(t, depth + 1) == other;
                    lemma_low_bits_nested(s, depth, depth + 1);
                    lemma_low_bits_bound(pattern, depth);
                    assert(low_bits(s, depth) == pattern);
                    let own = target_depth(table.directory@, table.buckets@, s);
                    assert(table.directory@[s] == table.directory@[t]);
                    lemma_low_bits_coarser(s, t, depth + 1, own);
                }
            }
        }
        vstd::set_lib::lemma_set_disjoint_lens(low, high);
        vstd::set_lib::lemma_len_subset(low.union(high), here);
    }
}

/// The buckets in use are those that some slot leads to.
proof fn lemma_reach_all<K, V, const N: usize>(table: HashMapInner<K, V, N>)
    requires
        table.wf(),
    ensures
        reach(table, 0, 0).len() == live_buckets(table),
{
    law_live_buckets(table);
    lemma_pow2_range(0);
    assert(reach(table, 0, 0) =~= table.directory@.to_set()) by {
        assert forall|b: u32| table.directory@.to_set().contains(b) implies is_reached(
            table,
            0,
            0,
            b,
        ) by {
            let s = table.directory@.index_of(b);
            assert(table.directory@[s] == b);
            lemma_low_bits_bound(s, 0);
        }
    }
}

/// A table whose splits are called for has no more buckets in use than the crowd needs, and exactly
/// as many if it holds the whole crowd.
pub proof fn lemma_live_buckets_of_crowd<K, V, const N: usize>(
    table: HashMapInner<K, V, N>,
    crowd: spec_fn(nat, int) -> nat,
)
    requires
        table.wf(),
        is_forced(table, crowd),
    ensures
        live_buckets(table) <= leaves(crowd, bucket_limit(N), 0, 0),
        (forall|d: nat, p: int| #[trigger] population(table.contents(), d, p) == crowd(d, p))
            ==> live_buckets(table) == leaves(crowd, bucket_limit(N), 0, 0),
{
    lemma_reach_all(table);
    lemma_reach_bound(table, crowd, 0, 0);
    if forall|d: nat, p: int| #[trigger] population(table.contents(), d, p) == crowd(d, p) {
        lemma_pow2_range(0);
        lemma_reach_full(table, crowd, 0, 0);
    }
}

/// As long as no more than `N` entries share all stored hash bits, no bucket holds more than `N`.
pub proof fn lemma_buckets_within_capacity<K, V, const N: usize>(table: HashMapInner<K, V, N>)
    requires
        table.wf(),
        forall|pattern: int| #[trigger]
            population(table.contents(), MAX_LOCAL_DEPTH as nat, pattern) <= N,
    ensures
        forall|b: int|
            0 <= b < table.buckets@.len() && (#[trigger] table.buckets@[b]).local_depth
                == MAX_LOCAL_DEPTH ==> table.buckets@[b].slots().len() <= N,
{
    let depth = MAX_LOCAL_DEPTH as nat;
    assert forall|b: int|
        0 <= b < table.buckets@.len() && (#[trigger] table.buckets@[b]).local_depth
            == MAX_LOCAL_DEPTH implies table.buckets@[b].slots().len() <= N by {
        let bucket = table.buckets@[b];
        if bucket.slots().len() > 0 {
            if !table.directory@.contains(b as u32) {
                assert(table.freelist@.contains(b as u32));
                let f = table.freelist@.index_of(b as u32);
                assert(table.freelist@[f] == b as u32);
            }
            let s = table.directory@.index_of(b as u32);
            assert(table.directory@[s] == b);
            let pattern = low_bits(s, depth);
            let shares = |x: Slot<K, V>| low_bits(x.hash_low as int, depth) == pattern;
            let part = bucket.slots().to_multiset();
            let whole = table.contents().filter(shares);
            lemma_pool_update(table.buckets@, b, bucket);
            assert forall|x: Slot<K, V>| part.count(x) <= whole.count(x) by {
                if part.count(x) > 0 {
                    assert(bucket.slots().contains(x));
                    let i = bucket.slots().index_of(x);
                    assert(target(table.directory@, table.buckets@, s).slots()[i] == x);
                    assert(shares(x));
                }
            }
            lemma_part_len(part, whole);
            assert(population(table.contents(), depth, pattern) <= N);
        }
    }
}

} // verus!
