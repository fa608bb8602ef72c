//! Laws of the table: what splitting, merging and the directory amount to together.

use vstd::arithmetic::power2::pow2;
use vstd::prelude::*;

use crate::bits::{
    bit_is_set, lemma_low_bits_bound, lemma_low_bits_nested, lemma_low_bits_next, low_bits,
};
use crate::bucket::{Bucket, Slot, MAX_LOCAL_DEPTH};
use crate::contents::{lemma_pool_contains, pool_slots};
use crate::directory::{doubled, target};
use crate::inner::HashMapInner;
use crate::map::is_fresh;
use crate::steps::{
    changed, inserted, is_bystander, is_emptied, is_merge, is_pushed, is_removal, is_rewritten,
    is_split, is_split_down, is_taken_out, same_layout,
};

verus! {

broadcast use {vstd::multiset::group_multiset_axioms, vstd::seq_lib::group_to_multiset_ensures};

/// The directory has `2^global_depth` slots. Each leads to a bucket in use that is no deeper than
/// the directory, and every entry of that bucket shares with the slot as many low-order hash bits
/// as the bucket is deep. Two slots lead to the same bucket exactly when they share these bits.
pub proof fn law_directory<K, V, const N: usize>(
    table: HashMapInner<K, V, N>,
    slot: int,
    other: int,
)
    requires
        table.wf(),
        0 <= slot < table.directory@.len(),
        0 <= other < table.directory@.len(),
    ensures
        table.directory@.len() == pow2(table.global_depth as nat),
        table.mask == table.directory@.len() - 1,
        table.directory@[slot] < table.buckets@.len(),
        !table.freelist@.contains(table.directory@[slot]),
        ({
            let bucket = table.buckets@[table.directory@[slot] as int];
            let depth = bucket.local_depth as nat;
            &&& depth <= table.global_depth
            &&& forall|i: int|
                0 <= i < bucket.slots().len() ==> low_bits(
                    (#[trigger] bucket.slots()[i]).hash_low as int,
                    depth,
                ) == low_bits(slot, depth)
            &&& table.directory@[slot] == table.directory@[other] <==> low_bits(slot, depth)
                == low_bits(other, depth)
        }),
{
    let bucket = target(table.directory@, table.buckets@, slot);
    if table.freelist@.contains(table.directory@[slot]) {
        let f = table.freelist@.index_of(table.directory@[slot]);
        assert(table.freelist@[f] == table.directory@[slot]);
        assert(table.directory@.contains(table.directory@[slot]));
    }
    assert forall|i: int| 0 <= i < bucket.slots().len() implies low_bits(
        (#[trigger] bucket.slots()[i]).hash_low as int,
        bucket.local_depth as nat,
    ) == low_bits(slot, bucket.local_depth as nat) by {
        assert(target(table.directory@, table.buckets@, slot).slots()[i] == bucket.slots()[i]);
    }
}

/// Every place of the pool is either in use or free, never both.
pub proof fn law_places<K, V, const N: usize>(table: HashMapInner<K, V, N>, place: u32)
    requires
        table.wf(),
        place < table.buckets@.len(),
    ensures
        table.directory@.contains(place) <==> !table.freelist@.contains(place),
        table.freelist@.contains(place) ==> table.buckets@[place as int].slots().len() == 0,
{
    if table.freelist@.contains(place) {
        let f = table.freelist@.index_of(place);
        assert(table.freelist@[f] == place);
    }
    assert(place as int as u32 == place);
}

/// The number of buckets in use.
pub open spec fn live_buckets<K, V, const N: usize>(table: HashMapInner<K, V, N>) -> int {
    table.buckets@.len() - table.freelist@.len()
}

/// There is at least one bucket in use, there are no more than the directory has slots, and they
/// are those that some slot leads to.
pub proof fn law_live_buckets<K, V, const N: usize>(table: HashMapInner<K, V, N>)
    requires
        table.wf(),
    ensures
        1 <= live_buckets(table) <= table.directory@.len(),
        table.directory@.to_set().len() == live_buckets(table),
{
    let all = Seq::new(table.buckets@.len(), |i: int| i as u32);
    let used = table.directory@.to_set();
    let free = table.freelist@.to_set();
    assert(all.no_duplicates());
    all.unique_seq_to_set();
    table.freelist@.unique_seq_to_set();
    table.directory@.lemma_cardinality_of_set();
    assert(all.to_set() =~= used.union(free)) by {
        assert forall|b: u32| all.to_set().contains(b) implies used.union(free).contains(b) by {
            let i = all.index_of(b);
            assert(all[i] == b);
            law_places(table, b);
        }
        assert forall|b: u32| used.union(free).contains(b) implies all.to_set().contains(b) by {
            if table.directory@.contains(b) {
                let s = table.directory@.index_of(b);
                assert(table.directory@[s] == b);
            } else {
                let f = table.freelist@.index_of(b);
                assert(table.freelist@[f] == b);
            }
            assert(all[b as int] == b);
        }
    }
    assert(used.disjoint(free)) by {
        assert forall|b: u32| used.contains(b) implies !free.contains(b) by {
            let s = table.directory@.index_of(b);
            assert(table.directory@[s] == b);
            law_places(table, b);
        }
    }
    vstd::set_lib::lemma_set_disjoint_lens(used, free);
    crate::bits::lemma_pow2_range(table.global_depth as nat);
    assert(used.contains(table.directory@[0]));
    assert(used.len() > 0) by {
        if used.len() == 0 {
            assert(used =~= Set::empty());
        }
    }
}

/// Doubling the directory leads every hash to the bucket it led to before.
pub proof fn law_doubling<K, V, const N: usize>(table: HashMapInner<K, V, N>, hash: u64)
    requires
        table.wf(),
    ensures
        doubled(table.directory@)[low_bits(hash as int, (table.global_depth + 1) as nat)]
            == table.bucket_of(hash),
{
    let depth = table.global_depth as nat;
    let slot = low_bits(hash as int, depth + 1);
    vstd::arithmetic::power2::lemma_pow2_unfold(depth + 1);
    lemma_low_bits_bound(hash as int, depth);
    lemma_low_bits_bound(hash as int, depth + 1);
    lemma_low_bits_next(hash as int, depth);
}

/// Splitting a bucket reroutes the hashes that led to it and have the next bit set. They lead to
/// the new bucket. No other hash is rerouted.
pub proof fn law_split_reroutes<K, V, const N: usize>(
    before: HashMapInner<K, V, N>,
    after: HashMapInner<K, V, N>,
    bucket: int,
    hash: u64,
)
    requires
        before.wf(),
        is_split(before, after, bucket),
        0 <= bucket < before.buckets@.len(),
        before.directory@.contains(bucket as u32),
        before.buckets@[bucket].local_depth < MAX_LOCAL_DEPTH,
    ensures
        after.bucket_of(hash) == if before.bucket_of(hash) == bucket && bit_is_set(
            hash as int,
            before.buckets@[bucket].local_depth as nat,
        ) {
            before.next_place()
        } else {
            before.bucket_of(hash)
        },
{
    let depth = before.buckets@[bucket].local_depth as nat;
    let wide = after.global_depth as nat;
    let slot = after.slot_of(hash);
    let grown = before.grown_directory(depth + 1);
    let home = before.directory@.index_of(bucket as u32);
    assert(before.directory@[home] == bucket as u32);
    lemma_low_bits_bound(hash as int, before.global_depth as nat);
    lemma_low_bits_bound(hash as int, wide);
    if depth + 1 > before.global_depth {
        law_doubling(before, hash);
        vstd::arithmetic::power2::lemma_pow2_unfold(depth + 1);
    }
    assert(grown[slot] == before.bucket_of(hash));
    lemma_low_bits_nested(hash as int, depth, wide);
    lemma_low_bits_nested(hash as int, depth + 1, wide);
    lemma_low_bits_next(hash as int, depth);
    lemma_low_bits_next(slot, depth);
    assert(bit_is_set(slot, depth) == bit_is_set(hash as int, depth)) by {
        vstd::arithmetic::power2::lemma_pow2_pos(depth);
    }
}

/// The number of splits that an insertion makes is the number of levels by which the bucket that
/// the hash leads to gets deeper. There are at most as many as hash bits are stored.
pub proof fn law_split_count<K, V, const N: usize>(
    before: HashMapInner<K, V, N>,
    after: HashMapInner<K, V, N>,
    hash: u64,
    count: nat,
)
    requires
        before.wf(),
        is_split_down(before, after, hash, count),
    ensures
        after.buckets@[after.bucket_of(hash)].local_depth == before.buckets@[before.bucket_of(
            hash,
        )].local_depth + count,
        before.buckets@[before.bucket_of(hash)].local_depth + count <= MAX_LOCAL_DEPTH,
        after.contents() == before.contents(),
    decreases count,
{
    lemma_low_bits_bound(hash as int, before.global_depth as nat);
    assert(before.directory@.contains(before.directory@[before.slot_of(hash)]));
    if count > 0 {
        let last = choose|last: HashMapInner<K, V, N>|
            {
                &&& is_split_down(before, last, hash, (count - 1) as nat)
                &&& last.wf()
                &&& !last.buckets@[last.bucket_of(hash)].has_room()
                &&& #[trigger] is_split(last, after, last.bucket_of(hash))
            };
        law_split_count(before, last, hash, (count - 1) as nat);
        lemma_low_bits_bound(hash as int, last.global_depth as nat);
        assert(last.directory@.contains(last.directory@[last.slot_of(hash)]));
        law_split_reroutes(last, after, last.bucket_of(hash), hash);
    }
}

/// Only a bucket without room is ever split.
proof fn lemma_no_split_with_room<K, V, const N: usize>(
    before: HashMapInner<K, V, N>,
    after: HashMapInner<K, V, N>,
    hash: u64,
    count: nat,
)
    requires
        is_split_down(before, after, hash, count),
        before.buckets@[before.bucket_of(hash)].has_room(),
    ensures
        count == 0,
    decreases count,
{
    if count > 0 {
        let last = choose|last: HashMapInner<K, V, N>|
            {
                &&& is_split_down(before, last, hash, (count - 1) as nat)
                &&& last.wf()
                &&& !last.buckets@[last.bucket_of(hash)].has_room()
                &&& #[trigger] is_split(last, after, last.bucket_of(hash))
            };
        lemma_no_split_with_room(before, last, hash, (count - 1) as nat);
    }
}

/// An insertion splits nothing as long as the bucket that the hash leads to holds fewer than `N`
/// entries: the directory and all other buckets stay as they are.
pub proof fn law_insertion_with_room<K, V, const N: usize>(
    before: HashMapInner<K, V, N>,
    after: HashMapInner<K, V, N>,
    hash: u64,
    slot: Slot<K, V>,
)
    requires
        inserted(before, after, hash, slot),
        before.buckets@[before.bucket_of(hash)].slots().len() < N,
    ensures
        is_pushed(before, after, before.bucket_of(hash), slot),
{
    let (ready, count) = choose|ready: HashMapInner<K, V, N>, count: nat|
        {
            &&& #[trigger] is_split_down(before, ready, hash, count)
            &&& is_pushed(ready, after, ready.bucket_of(hash), slot)
        };
    lemma_no_split_with_room(before, ready, hash, count);
}

/// A split takes a free place if there is one, and makes one more bucket live. The pool grows only
/// when no place is free.
pub proof fn law_split_reuses_places<K, V, const N: usize>(
    before: HashMapInner<K, V, N>,
    after: HashMapInner<K, V, N>,
    bucket: int,
)
    requires
        is_split(before, after, bucket),
    ensures
        live_buckets(after) == live_buckets(before) + 1,
        before.freelist@.len() > 0 ==> {
            &&& before.next_place() == before.freelist@.last()
            &&& after.buckets@.len() == before.buckets@.len()
        },
{
}

/// A merge frees the place of one bucket, and the next split takes that place. The merged bucket is
/// at most half full, so that it is not split again at once.
pub proof fn law_merge_frees_a_place<K, V, const N: usize>(
    before: HashMapInner<K, V, N>,
    after: HashMapInner<K, V, N>,
    hash: u64,
)
    requires
        before.wf(),
        before.mergeable(hash),
        is_merge(before, after, hash),
    ensures
        live_buckets(after) == live_buckets(before) - 1,
        after.next_place() == before.sibling_of(hash),
        after.buckets@[before.bucket_of(hash)].slots().len() <= N / 2,
        after.buckets@[before.bucket_of(hash)].has_room(),
{
    lemma_sibling(before, hash);
    let bucket = after.buckets@[before.bucket_of(hash)];
    assert(bucket.entries@.len() == bucket.slots().len());
    assert(bucket.entries@.len() <= N / 2);
}

/// The sibling of a bucket is a bucket of the pool.
pub proof fn lemma_sibling<K, V, const N: usize>(table: HashMapInner<K, V, N>, hash: u64)
    requires
        table.wf(),
        table.mergeable(hash),
    ensures
        0 <= table.sibling_of(hash) < table.buckets@.len(),
        0 <= table.bucket_of(hash) < table.buckets@.len(),
{
    let wide = table.global_depth as nat;
    let depth = table.buckets@[table.bucket_of(hash)].local_depth as nat;
    lemma_low_bits_bound(hash as int, wide);
    lemma_low_bits_bound(hash as int, depth);
    lemma_low_bits_bound(hash as int, (depth - 1) as nat);
    lemma_low_bits_next(hash as int, (depth - 1) as nat);
    vstd::arithmetic::power2::lemma_pow2_unfold(depth);
    if depth < wide {
        vstd::arithmetic::power2::lemma_pow2_strictly_increases(depth, wide);
    }
}

/// A merge reroutes the hashes that led to the sibling, and no others.
pub proof fn law_merge_reroutes<K, V, const N: usize>(
    before: HashMapInner<K, V, N>,
    after: HashMapInner<K, V, N>,
    hash: u64,
    other: u64,
)
    requires
        before.wf(),
        is_merge(before, after, hash),
    ensures
        after.bucket_of(other) == if before.mergeable(hash) && before.bucket_of(other)
            == before.sibling_of(hash) {
            before.bucket_of(hash)
        } else {
            before.bucket_of(other)
        },
{
    lemma_low_bits_bound(other as int, before.global_depth as nat);
    lemma_low_bits_bound(hash as int, before.global_depth as nat);
    if before.mergeable(hash) {
        lemma_sibling(before, hash);
    }
}

/// Merging the two halves of a bucket undoes the split: every slot leads where it led before, and
/// the bucket holds the same entries.
pub proof fn law_merge_undoes_split<K, V, const N: usize>(
    before: HashMapInner<K, V, N>,
    between: HashMapInner<K, V, N>,
    after: HashMapInner<K, V, N>,
    hash: u64,
)
    requires
        before.wf(),
        is_split(before, between, before.bucket_of(hash)),
        before.buckets@[before.bucket_of(hash)].local_depth < MAX_LOCAL_DEPTH,
        !bit_is_set(hash as int, before.buckets@[before.bucket_of(hash)].local_depth as nat),
        between.mergeable(hash),
        is_merge(between, after, hash),
    ensures
        after.directory@ == before.grown_directory(
            (before.buckets@[before.bucket_of(hash)].local_depth + 1) as nat,
        ),
        after.contents() == before.contents(),
        after.buckets@[before.bucket_of(hash)].local_depth == before.buckets@[before.bucket_of(
            hash,
        )].local_depth,
        live_buckets(after) == live_buckets(before),
{
    let narrow = before.global_depth as nat;
    let wide = between.global_depth as nat;
    let bucket = before.bucket_of(hash);
    let depth = before.buckets@[bucket].local_depth as nat;
    let grown = before.grown_directory(depth + 1);
    let place = before.next_place();
    lemma_low_bits_bound(hash as int, narrow);
    assert(before.directory@.contains(before.directory@[before.slot_of(hash)]));
    law_split_reroutes(before, between, bucket, hash);
    // The slot of the sibling has the next bit set.
    let low = low_bits(hash as int, depth);
    let sibling_slot = low + pow2(depth);
    lemma_low_bits_bound(hash as int, depth);
    lemma_low_bits_next(hash as int, depth);
    lemma_low_bits_bound(low, depth);
    crate::bits::lemma_low_bits_step(low, depth);
    vstd::arithmetic::power2::lemma_pow2_unfold(depth + 1);
    crate::bits::lemma_pow2_range(depth + 1);
    if depth + 1 < wide {
        vstd::arithmetic::power2::lemma_pow2_strictly_increases(depth + 1, wide);
    }
    let sibling_hash = sibling_slot as u64;
    lemma_low_bits_bound(sibling_slot, wide);
    lemma_low_bits_bound(sibling_slot, narrow);
    lemma_low_bits_bound(sibling_slot, depth + 1);
    lemma_low_bits_next(sibling_slot, depth);
    lemma_low_bits_nested(sibling_slot, depth, narrow);
    lemma_low_bits_nested(hash as int, depth, narrow);
    assert(low_bits(sibling_slot, depth) == low);
    assert(before.directory@[before.slot_of(sibling_hash)] == before.directory@[before.slot_of(
        hash,
    )]);
    law_split_reroutes(before, between, bucket, sibling_hash);
    assert(between.sibling_slot(hash) == sibling_slot);
    assert(between.sibling_of(hash) == place);
    assert forall|s: int| 0 <= s < grown.len() implies #[trigger] grown[s] != place as u32 by {
        let s0 = if s < before.directory@.len() {
            s
        } else {
            s - before.directory@.len()
        };
        assert(grown[s] == before.directory@[s0]);
        assert(before.directory@.contains(before.directory@[s0]));
    }
    assert(after.directory@ =~= grown);
}

/// As long as no bucket at the maximum depth holds more than `N` entries, the map holds no more
/// entries than its capacity says. Buckets that are less deep never do.
pub proof fn law_len_within_capacity<K, V, const N: usize>(table: HashMapInner<K, V, N>)
    requires
        table.wf(),
        N > 0,
        forall|b: int|
            0 <= b < table.buckets@.len() && (#[trigger] table.buckets@[b]).local_depth
                == MAX_LOCAL_DEPTH ==> table.buckets@[b].slots().len() <= N,
    ensures
        table.len <= table.buckets@.len() * N,
        table.len <= table.capacity(),
{
    lemma_slots_bound(table.buckets@);
}

/// Buckets of at most `N` entries hold at most `N` entries each.
proof fn lemma_slots_bound<K, V, const N: usize>(buckets: Seq<Bucket<K, V, N>>)
    requires
        forall|b: int| 0 <= b < buckets.len() ==> (#[trigger] buckets[b]).slots().len() <= N,
    ensures
        pool_slots(buckets).len() <= buckets.len() * N,
    decreases buckets.len(),
{
    if buckets.len() > 0 {
        lemma_slots_bound(buckets.drop_last());
        assert(buckets[buckets.len() - 1].slots().len() <= N);
        assert((buckets.len() - 1) * N + N == buckets.len() * N) by (nonlinear_arith);
    }
}

/// How many of the first insertions of a history go to the given bucket.
pub open spec fn arrivals<K, V, const N: usize>(
    history: Seq<HashMapInner<K, V, N>>,
    hashes: Seq<u64>,
    bucket: int,
    steps: int,
) -> nat
    decreases steps,
{
    if steps <= 0 {
        0
    } else if history[steps - 1].bucket_of(hashes[steps - 1]) == bucket {
        arrivals(history, hashes, bucket, steps - 1) + 1
    } else {
        arrivals(history, hashes, bucket, steps - 1)
    }
}

/// Whether each table comes from the one before by inserting a slot under a hash.
pub open spec fn is_insertion_history<K, V, const N: usize>(
    history: Seq<HashMapInner<K, V, N>>,
    hashes: Seq<u64>,
    slots: Seq<Slot<K, V>>,
) -> bool {
    &&& history.len() == hashes.len() + 1
    &&& slots.len() == hashes.len()
    &&& forall|i: int|
        #![trigger slots[i]]
        0 <= i < slots.len() ==> inserted(history[i], history[i + 1], hashes[i], slots[i])
}

/// However many entries are inserted into a table, a bucket in use is not split as long as the
/// entries that it holds and those that go to it are no more than `N`: it only grows by one entry
/// for each that goes to it.
pub proof fn law_no_split_before_full<K, V, const N: usize>(
    history: Seq<HashMapInner<K, V, N>>,
    hashes: Seq<u64>,
    slots: Seq<Slot<K, V>>,
    bucket: int,
    steps: int,
)
    requires
        history[0].wf(),
        is_insertion_history(history, hashes, slots),
        0 <= bucket < history[0].buckets@.len(),
        history[0].directory@.contains(bucket as u32),
        0 <= steps <= hashes.len(),
        history[0].buckets@[bucket].slots().len() + arrivals(history, hashes, bucket, steps) <= N,
    ensures
        history[steps].wf(),
        bucket < history[steps].buckets@.len(),
        history[steps].directory@.contains(bucket as u32),
        history[steps].buckets@[bucket].local_depth == history[0].buckets@[bucket].local_depth,
        history[steps].buckets@[bucket].slots().len() == history[0].buckets@[bucket].slots().len()
            + arrivals(history, hashes, bucket, steps),
    decreases steps,
{
    if steps > 0 {
        let last = steps - 1;
        law_no_split_before_full(history, hashes, slots, bucket, last);
        assert(inserted(history[last], history[last + 1], hashes[last], slots[last]));
        if history[last].bucket_of(hashes[last]) == bucket {
            law_insertion_with_room(history[last], history[steps], hashes[last], slots[last]);
        } else {
            assert(is_bystander(history[last], hashes[last], bucket));
            assert(is_bystander(history[steps], hashes[last], bucket));
        }
    }
}

/// Merging delays the next split. After a merge the bucket that is kept holds at most `N / 2`
/// entries, and it is not split before `N - N / 2 + 1` more entries go to it.
pub proof fn law_merge_delays_split<K, V, const N: usize>(
    before: HashMapInner<K, V, N>,
    hash: u64,
    history: Seq<HashMapInner<K, V, N>>,
    hashes: Seq<u64>,
    slots: Seq<Slot<K, V>>,
    steps: int,
)
    requires
        before.wf(),
        before.mergeable(hash),
        is_merge(before, history[0], hash),
        history[0].wf(),
        is_insertion_history(history, hashes, slots),
        0 <= steps <= hashes.len(),
        arrivals(history, hashes, before.bucket_of(hash), steps) <= N - N / 2,
    ensures
        ({
            let kept = before.bucket_of(hash);
            let first = history[0].buckets@[kept];
            let bucket = history[steps].buckets@[kept];
            &&& first.slots().len() <= N / 2
            &&& history[steps].directory@.contains(kept as u32)
            &&& bucket.local_depth == first.local_depth
            &&& bucket.slots().len() == first.slots().len() + arrivals(
                history,
                hashes,
                kept,
                steps,
            )
        }),
{
    let kept = before.bucket_of(hash);
    lemma_sibling(before, hash);
    lemma_low_bits_bound(hash as int, before.global_depth as nat);
    assert(history[0].directory@[before.slot_of(hash)] == kept as u32);
    law_no_split_before_full(history, hashes, slots, kept, steps);
}

/// More steps bring no fewer entries to a bucket.
proof fn lemma_arrivals_grow<K, V, const N: usize>(
    history: Seq<HashMapInner<K, V, N>>,
    hashes: Seq<u64>,
    bucket: int,
    fewer: int,
    steps: int,
)
    requires
        fewer <= steps,
    ensures
        arrivals(history, hashes, bucket, fewer) <= arrivals(history, hashes, bucket, steps),
    decreases steps - fewer,
{
    if fewer < steps {
        lemma_arrivals_grow(history, hashes, bucket, fewer, steps - 1);
    }
}

/// A table that was made for some capacity is not split at all as long as no more than `N` entries
/// go to any of its buckets: the directory and the number of buckets stay.
pub proof fn law_no_split_within_reserve<K, V, const N: usize>(
    history: Seq<HashMapInner<K, V, N>>,
    hashes: Seq<u64>,
    slots: Seq<Slot<K, V>>,
    capacity: nat,
    steps: int,
)
    requires
        is_fresh(history[0], capacity),
        is_insertion_history(history, hashes, slots),
        0 <= steps <= hashes.len(),
        forall|b: int|
            0 <= b < history[0].buckets@.len() ==> #[trigger] arrivals(history, hashes, b, steps)
                <= N,
    ensures
        history[steps].wf(),
        history[steps].directory@ == history[0].directory@,
        history[steps].global_depth == history[0].global_depth,
        history[steps].buckets@.len() == history[0].buckets@.len(),
        history[steps].freelist@.len() == 0,
    decreases steps,
{
    if steps > 0 {
        let last = steps - 1;
        assert forall|b: int| 0 <= b < history[0].buckets@.len() implies #[trigger] arrivals(
            history,
            hashes,
            b,
            last,
        ) <= N by {
            lemma_arrivals_grow(history, hashes, b, last, steps);
            assert(arrivals(history, hashes, b, steps) <= N);
        }
        law_no_split_within_reserve(history, hashes, slots, capacity, last);
        lemma_low_bits_bound(hashes[last] as int, history[last].global_depth as nat);
        let bucket = history[last].bucket_of(hashes[last]);
        assert(history[0].directory@[bucket] == bucket as u32);
        assert(history[0].buckets@[bucket].slots().len() == 0) by {
            if history[0].buckets@[bucket].slots().len() > 0 {
                let slot = history[0].buckets@[bucket].slots()[0];
                lemma_pool_contains(history[0].buckets@, slot);
                assert(history[0].buckets@[bucket].slots().contains(slot));
            }
        }
        assert(arrivals(history, hashes, bucket, steps) <= N);
        law_no_split_before_full(history, hashes, slots, bucket, last);
        assert(inserted(history[last], history[last + 1], hashes[last], slots[last]));
        law_insertion_with_room(history[last], history[steps], hashes[last], slots[last]);
    }
}

/// Whether `after` is what one operation can make of `before`: inserting or removing an entry,
/// taking one out through an entry, changing values, keeping the entries that a predicate accepts,
/// or removing all.
pub open spec fn is_operation<K, V, const N: usize>(
    before: HashMapInner<K, V, N>,
    after: HashMapInner<K, V, N>,
) -> bool {
    ||| exists|hash: u64, slot: Slot<K, V>| #[trigger] inserted(before, after, hash, slot)
    ||| exists|hash: u64, entry: int| #[trigger] is_removal(before, after, hash, entry)
    ||| exists|bucket: int, entry: int| #[trigger] is_taken_out(before, after, bucket, entry)
    ||| exists|slot: Slot<K, V>, value: V| #[trigger] changed(before, after, slot, value)
    ||| is_rewritten(before, after)
    ||| is_emptied(before, after)
    ||| same_layout(before, after)
}

/// No operation makes the pool or the directory smaller.
pub proof fn law_operations_never_shrink<K, V, const N: usize>(
    before: HashMapInner<K, V, N>,
    after: HashMapInner<K, V, N>,
)
    requires
        is_operation(before, after),
    ensures
        before.buckets@.len() <= after.buckets@.len(),
        before.global_depth <= after.global_depth,
        before.capacity() <= after.capacity(),
{
    if exists|hash: u64, slot: Slot<K, V>| #[trigger] inserted(before, after, hash, slot) {
        let (hash, slot) = choose|hash: u64, slot: Slot<K, V>| #[trigger]
            inserted(before, after, hash, slot);
        let (ready, count) = choose|ready: HashMapInner<K, V, N>, count: nat|
            {
                &&& #[trigger] is_split_down(before, ready, hash, count)
                &&& is_pushed(ready, after, ready.bucket_of(hash), slot)
            };
        lemma_splits_never_shrink(before, ready, hash, count);
    } else if exists|hash: u64, entry: int| #[trigger] is_removal(before, after, hash, entry) {
        let (hash, entry) = choose|hash: u64, entry: int| #[trigger]
            is_removal(before, after, hash, entry);
        let rest = choose|rest: HashMapInner<K, V, N>|
            {
                &&& is_taken_out(before, rest, before.bucket_of(hash), entry)
                &&& #[trigger] is_merge(rest, after, hash)
            };
    }
    assert(before.buckets@.len() * N <= after.buckets@.len() * N) by (nonlinear_arith)
        requires
            before.buckets@.len() <= after.buckets@.len(),
    ;
}

/// Splits never make the pool or the directory smaller.
proof fn lemma_splits_never_shrink<K, V, const N: usize>(
    before: HashMapInner<K, V, N>,
    after: HashMapInner<K, V, N>,
    hash: u64,
    count: nat,
)
    requires
        is_split_down(before, after, hash, count),
    ensures
        before.buckets@.len() <= after.buckets@.len(),
        before.global_depth <= after.global_depth,
    decreases count,
{
    if count > 0 {
        let last = choose|last: HashMapInner<K, V, N>|
            {
                &&& is_split_down(before, last, hash, (count - 1) as nat)
                &&& last.wf()
                &&& !last.buckets@[last.bucket_of(hash)].has_room()
                &&& #[trigger] is_split(last, after, last.bucket_of(hash))
            };
        lemma_splits_never_shrink(before, last, hash, (count - 1) as nat);
    }
}

/// Whether each table comes from the one before by one operation.
pub open spec fn is_operation_history<K, V, const N: usize>(
    history: Seq<HashMapInner<K, V, N>>,
) -> bool {
    forall|i: int, j: int|
        #![trigger history[i], history[j]]
        0 <= i < history.len() && j == i + 1 && j < history.len() ==> is_operation(
            history[i],
            history[j],
        )
}

/// Over any sequence of operations the capacity never decreases, and the directory never shrinks.
/// The capacity is at least that of one bucket.
pub proof fn law_capacity_never_decreases<K, V, const N: usize>(
    history: Seq<HashMapInner<K, V, N>>,
    earlier: int,
    later: int,
)
    requires
        is_operation_history(history),
        0 <= earlier <= later < history.len(),
        history[earlier].wf(),
    ensures
        N <= history[earlier].capacity() <= history[later].capacity(),
        history[earlier].buckets@.len() <= history[later].buckets@.len(),
        history[earlier].global_depth <= history[later].global_depth,
    decreases later - earlier,
{
    if earlier < later {
        law_capacity_never_decreases(history, earlier, later - 1);
        law_operations_never_shrink(history[later - 1], history[later]);
    } else {
        let count = history[earlier].buckets@.len();
        law_live_buckets(history[earlier]);
        assert(N <= count * N) by (nonlinear_arith)
            requires
                1 <= count,
        ;
    }
}

} // verus!
