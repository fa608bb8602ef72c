//! The table itself: a directory, a pool of buckets and a list of free pool places. It knows
//! nothing of how keys are hashed.

use std::borrow::Borrow;

use vstd::arithmetic::power2::pow2;
use vstd::multiset::Multiset;
use vstd::prelude::*;

use crate::bits::{
    bit_is_set, exp2, lemma_low_bits_bound, lemma_low_bits_nested, lemma_low_bits_next,
    lemma_mask_is_low_bits, lemma_pow2_range, low_bits, mask_low_bits,
};
use crate::bucket::{
    fingerprint, fingerprint_of, new_slot, stored_bits, stored_bits_of, with_value, Bucket, Slot,
    MAX_LOCAL_DEPTH,
};
use crate::contents::{
    is_revalued, is_revalued_bucket, lemma_filter_parts, lemma_pool_contains, lemma_pool_push,
    lemma_pool_revalued, lemma_pool_update, lemma_swap_remove, pool_contents,
};
use crate::directory::{
    double, doubled, lemma_doubled, lemma_merge, lemma_split, merged_directory, placed, redirect,
    routes, split_directory, target, target_depth,
};
use crate::hashing::{comparable, key_matches, matches_key};
use crate::steps::{
    changed, inserted, is_bystander, is_changed_at, is_merge, is_pushed, is_rewritten, is_split,
    is_split_down, is_taken_out, leaves_others_alone,
};

verus! {

broadcast use {vstd::multiset::group_multiset_axioms, vstd::seq_lib::group_to_multiset_ensures};

/// A table of buckets behind a directory.
pub struct HashMapInner<K, V, const N: usize> {
    /// Indices into `buckets`. The length is always `2^global_depth`.
    pub directory: Vec<u32>,
    /// Pool of buckets. The places listed in `freelist` are not referenced by the directory.
    pub buckets: Vec<Bucket<K, V, N>>,
    /// Places in `buckets` that a merge has freed. A split takes one of these before it grows the
    /// pool.
    pub freelist: Vec<u32>,
    pub global_depth: u8,
    /// Always `2^global_depth - 1`.
    pub mask: usize,
    /// Number of entries in all buckets.
    pub len: usize,
}

/// The invariant of the bucket pool: all buckets are well-formed; every place is either referenced
/// by the directory or free, and free places hold empty buckets and are listed once.
pub open spec fn pooled<K, V, const N: usize>(
    directory: Seq<u32>,
    buckets: Seq<Bucket<K, V, N>>,
    freelist: Seq<u32>,
) -> bool {
    &&& buckets.len() <= 0x1_0000_0000
    &&& forall|b: int| 0 <= b < buckets.len() ==> (#[trigger] buckets[b]).wf()
    &&& forall|b: int|
        0 <= b < buckets.len() && !directory.contains(b as u32) ==> #[trigger] freelist.contains(
            b as u32,
        )
    &&& freelist.no_duplicates()
    &&& forall|f: int|
        0 <= f < freelist.len() ==> {
            &&& #[trigger] freelist[f] < buckets.len()
            &&& !directory.contains(freelist[f])
            &&& buckets[freelist[f] as int].slots().len() == 0
        }
}

/// When no place is free, every bucket has a directory slot of its own; and one more bucket would
/// fit if some two slots share one.
pub proof fn lemma_pool_bound<K, V, const N: usize>(
    directory: Seq<u32>,
    buckets: Seq<Bucket<K, V, N>>,
)
    requires
        pooled(directory, buckets, Seq::<u32>::empty()),
    ensures
        buckets.len() <= directory.len(),
        !directory.no_duplicates() ==> buckets.len() < directory.len(),
{
    let all = Seq::new(buckets.len(), |i: int| i as u32);
    assert(all.no_duplicates());
    all.unique_seq_to_set();
    assert forall|b: u32| all.to_set().contains(b) implies directory.to_set().contains(b) by {
        let i = all.index_of(b);
        assert(all[i] == b);
        if !directory.contains(i as u32) {
            assert(Seq::<u32>::empty().contains(i as u32));
        }
    }
    directory.lemma_cardinality_of_set();
    vstd::set_lib::lemma_len_subset(all.to_set(), directory.to_set());
    if directory.to_set().len() == directory.len() {
        directory.lemma_no_dup_set_cardinality();
    }
}

/// Exchanging one bucket for another of the same depth keeps the invariants, as long as the entries
/// of the new one belong there.
pub proof fn lemma_exchange<K, V, const N: usize>(
    directory: Seq<u32>,
    buckets: Seq<Bucket<K, V, N>>,
    freelist: Seq<u32>,
    global_depth: nat,
    index: int,
    bucket: Bucket<K, V, N>,
)
    requires
        routes(directory, buckets, global_depth),
        placed(directory, buckets),
        pooled(directory, buckets, freelist),
        0 <= index < buckets.len(),
        bucket.wf(),
        bucket.local_depth == buckets[index].local_depth,
        directory.contains(index as u32) || bucket.slots().len() == 0,
        forall|s: int, i: int|
            #![trigger directory[s], bucket.slots()[i]]
            0 <= s < directory.len() && directory[s] == index && 0 <= i < bucket.slots().len()
                ==> low_bits(bucket.slots()[i].hash_low as int, bucket.local_depth as nat)
                == low_bits(s, bucket.local_depth as nat),
    ensures
        routes(directory, buckets.update(index, bucket), global_depth),
        placed(directory, buckets.update(index, bucket)),
        pooled(directory, buckets.update(index, bucket), freelist),
{
    let after = buckets.update(index, bucket);
    assert forall|s: int| 0 <= s < directory.len() implies target_depth(directory, after, s)
        == target_depth(directory, buckets, s) by {
        assert(directory[s] < buckets.len());
    }
    assert forall|s: int, i: int|
        #![trigger target(directory, after, s).slots()[i]]
        0 <= s < directory.len() && 0 <= i < target(directory, after, s).slots().len() implies
        low_bits(
        target(directory, after, s).slots()[i].hash_low as int,
        target_depth(directory, after, s),
    ) == low_bits(s, target_depth(directory, after, s)) by {
        assert(directory[s] < buckets.len());
        if directory[s] != index {
            assert(target(directory, buckets, s).slots()[i] == target(directory, after, s).slots()[i]);
        }
    }
    assert forall|f: int| 0 <= f < freelist.len() implies {
        &&& #[trigger] freelist[f] < after.len()
        &&& !directory.contains(freelist[f])
        &&& after[freelist[f] as int].slots().len() == 0
    } by {}
}

impl<K, V, const N: usize> HashMapInner<K, V, N> {
    /// Everything the table holds, with the hash data, in no order.
    pub open spec fn contents(self) -> Multiset<Slot<K, V>> {
        pool_contents(self.buckets@)
    }

    /// The number of entries that all buckets of the pool, free ones too, hold together when full;
    /// the largest `usize` if it is larger.
    pub open spec fn capacity(self) -> int {
        if self.buckets@.len() * N <= usize::MAX {
            self.buckets@.len() * N
        } else {
            usize::MAX as int
        }
    }

    /// The directory slot that a hash leads to.
    pub open spec fn slot_of(self, hash: u64) -> int {
        low_bits(hash as int, self.global_depth as nat)
    }

    /// The place of the bucket that a hash leads to.
    pub open spec fn bucket_of(self, hash: u64) -> int {
        self.directory@[self.slot_of(hash)] as int
    }

    /// The key and value at an index of the bucket that a hash leads to.
    pub open spec fn pair_at(self, hash: u64, entry: int) -> (K, V) {
        let slot = self.buckets@[self.bucket_of(hash)].slots()[entry];
        (slot.key, slot.value)
    }

    /// The invariant of the table.
    pub open spec fn wf(self) -> bool {
        &&& self.global_depth <= MAX_LOCAL_DEPTH
        &&& self.mask == pow2(self.global_depth as nat) - 1
        &&& routes(self.directory@, self.buckets@, self.global_depth as nat)
        &&& placed(self.directory@, self.buckets@)
        &&& pooled(self.directory@, self.buckets@, self.freelist@)
        &&& self.len == self.contents().len()
    }

    /// Maps a hash to its directory slot.
    pub fn dir_index(&self, hash: u64) -> (slot: usize)
        ensures
            self.wf() ==> slot == self.slot_of(hash) && slot < self.directory@.len(),
    {
        let mask: u64 = self.mask as u64;
        assert(hash & mask <= mask) by (bit_vector);
        proof {
            if self.wf() {
                lemma_mask_is_low_bits(hash, self.global_depth as nat);
                lemma_low_bits_bound(hash as int, self.global_depth as nat);
            }
        }
        (hash & mask) as usize
    }

    /// The place that the next split takes for the new bucket.
    pub open spec fn next_place(self) -> int {
        if self.freelist@.len() > 0 {
            self.freelist@.last() as int
        } else {
            self.buckets@.len() as int
        }
    }

    /// The directory, doubled if it is to distinguish `depth` bits and does not yet.
    pub open spec fn grown_directory(self, depth: nat) -> Seq<u32> {
        if depth > self.global_depth {
            doubled(self.directory@)
        } else {
            self.directory@
        }
    }

    /// Splits a bucket: doubles the directory if needed, takes a place for a sibling bucket and
    /// moves the entries that have the next hash bit set there. No other bucket is touched.
    pub fn split_bucket(&mut self, bucket_idx: usize)
        requires
            old(self).wf(),
            bucket_idx < old(self).buckets@.len(),
            old(self).directory@.contains(bucket_idx as u32),
            old(self).buckets@[bucket_idx as int].slots().len() > 0,
            old(self).buckets@[bucket_idx as int].local_depth < MAX_LOCAL_DEPTH,
        ensures
            final(self).wf(),
            is_split(*old(self), *final(self), bucket_idx as int),
    {
        broadcast use vstd::seq_lib::group_filter_ensures;
        let ghost before = self.buckets@[bucket_idx as int];
        let ghost depth = before.local_depth as nat;
        let ghost place = self.next_place();
        let ghost home = self.directory@.index_of(bucket_idx as u32);
        let ghost grown = self.grown_directory(depth + 1);
        let ghost buckets = self.buckets@;
        let ghost freelist = self.freelist@;
        let old_depth: u8 = self.buckets[bucket_idx].local_depth;
        let new_depth: u8 = old_depth + 1;

        // All entries of the bucket share their `old_depth` low-order hash bits with the slots
        // that point at it, so any entry tells which slots those are.
        let base_pattern: u64 = mask_low_bits(self.buckets[bucket_idx].hash_low[0] as u64, old_depth);
        proof {
            assert(self.directory@[home] == bucket_idx);
            assert(target(self.directory@, buckets, home).slots()[0].hash_low
                == before.hash_low@[0]);
            assert(base_pattern == low_bits(home, depth));
        }

        if new_depth > self.global_depth {
            proof {
                lemma_doubled(self.directory@, buckets, self.global_depth as nat);
                assert(grown[home] == bucket_idx);
                lemma_pow2_range(new_depth as nat);
            }
            double(&mut self.directory);
            self.global_depth = self.global_depth + 1;
            self.mask = self.directory.len() - 1;
        }
        let ghost wide = self.global_depth as nat;
        assert(self.directory@ == grown);
        assert(routes(grown, buckets, wide) && placed(grown, buckets));
        assert(grown[home] == bucket_idx);
        assert forall|b: u32| #[trigger] grown.contains(b) implies old(self).directory@.contains(b) by {
            let s = grown.index_of(b);
            assert(grown[s] == b);
            if new_depth > old(self).global_depth {
                lemma_low_bits_bound(s, old(self).global_depth as nat);
            }
        }
        assert forall|b: u32| #[trigger] old(self).directory@.contains(b) implies grown.contains(b) by {
            let s = old(self).directory@.index_of(b);
            assert(grown[s] == b);
        }
        assert(pooled(grown, buckets, freelist));

        proof {
            // The bucket has two slots or more, so not every bucket has one slot only.
            lemma_pow2_range(wide);
            lemma_low_bits_bound(home, depth);
            lemma_low_bits_bound(home, depth + 1);
            lemma_low_bits_next(home, depth);
            assert(pow2(depth + 1) <= pow2(wide)) by {
                if depth + 1 < wide {
                    vstd::arithmetic::power2::lemma_pow2_strictly_increases(depth + 1, wide);
                }
            }
            let low = low_bits(home, depth);
            let high = low + pow2(depth);
            lemma_low_bits_nested(home, depth, depth);
            lemma_low_bits_bound(low, depth);
            crate::bits::lemma_low_bits_step(low, depth);
            assert(grown[low] == bucket_idx && grown[high] == bucket_idx);
            assert(!grown.no_duplicates());
            if freelist.len() == 0 {
                assert(freelist =~= Seq::empty());
                lemma_pool_bound(grown, buckets);
            }
            assert(!grown.contains(place as u32)) by {
                if freelist.len() > 0 {
                    assert(freelist[freelist.len() - 1] == place);
                } else if grown.contains(place as u32) {
                    let s = grown.index_of(place as u32);
                    assert(grown[s] == place);
                }
            }
            assert(place != bucket_idx);
        }

        // Part the entries on the next hash bit.
        let mut emptied: Bucket<K, V, N> = Bucket::new(old_depth);
        std::mem::swap(&mut self.buckets[bucket_idx], &mut emptied);
        let (low, high) = emptied.split();
        let ghost clear = |s: Slot<K, V>| !bit_is_set(s.hash_low as int, depth);
        let ghost set = |s: Slot<K, V>| bit_is_set(s.hash_low as int, depth);
        assert(low.slots() == before.slots().filter(clear));
        assert(high.slots() == before.slots().filter(set));
        let ghost high_bucket = high;
        self.buckets[bucket_idx] = low;
        let ghost parted = self.buckets@;
        assert(parted =~= buckets.update(bucket_idx as int, low));

        // Reuse a freed place if there is one.
        let new_idx: u32 = match self.freelist.pop() {
            Some(idx) => {
                self.buckets[idx as usize] = high;
                idx
            },
            None => {
                let idx: u32 = self.buckets.len() as u32;
                self.buckets.push(high);
                idx
            },
        };
        assert(new_idx == place);
        proof {
            lemma_filter_parts(before.slots(), clear, set);
            lemma_pool_update(buckets, bucket_idx as int, low);
            if freelist.len() > 0 {
                lemma_pool_update(parted, place, high_bucket);
                assert(parted[place].slots() =~= Seq::empty());
            } else {
                lemma_pool_push(parted, high_bucket);
            }
            assert(pool_contents(self.buckets@) =~= old(self).contents());
            assert forall|i: int| 0 <= i < low.slots().len() implies before.slots().contains(
                #[trigger] low.slots()[i],
            ) && !bit_is_set(low.slots()[i].hash_low as int, depth) by {
                assert(clear(low.slots()[i]));
                before.slots().lemma_filter_contains_rev(clear, low.slots()[i]);
            }
            assert forall|i: int| 0 <= i < high_bucket.slots().len() implies before.slots().contains(
                #[trigger] high_bucket.slots()[i],
            ) && bit_is_set(high_bucket.slots()[i].hash_low as int, depth) by {
                assert(set(high_bucket.slots()[i]));
                before.slots().lemma_filter_contains_rev(set, high_bucket.slots()[i]);
            }
            lemma_split(grown, buckets, self.buckets@, wide, bucket_idx as u32, new_idx);
        }

        // Only slots that pointed at the old bucket and have the new bit set move to the sibling.
        let bit: u64 = exp2(old_depth);
        proof {
            lemma_low_bits_bound(home, depth);
        }
        redirect(&mut self.directory, base_pattern + bit, new_depth, new_idx);
        proof {
            let split = split_directory(grown, bucket_idx as u32, new_idx, depth);
            assert forall|s: int| 0 <= s < grown.len() implies #[trigger] self.directory@[s]
                == split[s] by {
                lemma_low_bits_next(s, depth);
                lemma_low_bits_bound(s, depth);
                assert(grown[s] == grown[home] <==> low_bits(home, depth) == low_bits(s, depth));
            }
            assert(self.directory@ =~= split);
            let directory = self.directory@;
            assert forall|b: u32| #[trigger] grown.contains(b) implies directory.contains(b) by {
                let s = grown.index_of(b);
                if b == bucket_idx {
                    let low = low_bits(home, depth);
                    lemma_low_bits_next(low, depth);
                    lemma_low_bits_bound(low, depth);
                    lemma_low_bits_bound(low, depth + 1);
                    assert(directory[low] == bucket_idx);
                } else {
                    assert(directory[s] == b);
                }
            }
            assert(directory.contains(new_idx)) by {
                let high = low_bits(home, depth) + pow2(depth);
                lemma_low_bits_bound(high, depth);
                lemma_low_bits_bound(high, depth + 1);
                lemma_low_bits_next(high, depth);
                assert(directory[high] == new_idx);
            }
            assert forall|b: u32| #[trigger] directory.contains(b) implies grown.contains(b) || b
                == new_idx by {
                let s = directory.index_of(b);
                assert(directory[s] == b);
                assert(grown.contains(grown[s]));
            }
            assert forall|b: int|
                0 <= b < self.buckets@.len() && !directory.contains(b as u32) implies
                #[trigger] self.freelist@.contains(b as u32) by {
                assert(b != place);
                assert(b < buckets.len());
                assert(!grown.contains(b as u32));
                assert(freelist.contains(b as u32));
                let f = freelist.index_of(b as u32);
                assert(freelist[f] == b as u32);
                assert(self.freelist@[f] == b as u32);
            }
            assert(pooled(directory, self.buckets@, self.freelist@));
        }
    }

    /// Adds an entry to the bucket that the hash leads to, splitting that bucket as often as it
    /// takes to make room. The caller has made sure that the key is absent. Returns the place of
    /// the bucket and of the entry in it.
    pub fn insert_entry(&mut self, hash: u64, key: K, value: V) -> (place: (usize, usize))
        requires
            old(self).wf(),
            old(self).len < usize::MAX,
        ensures
            inserted(*old(self), *final(self), hash, new_slot(hash, key, value)),
            place.0 < final(self).buckets@.len(),
            place.0 == final(self).bucket_of(hash),
            place.1 == final(self).buckets@[place.0 as int].slots().len() - 1,
            final(self).buckets@[place.0 as int].slots()[place.1 as int] == new_slot(
                hash,
                key,
                value,
            ),
    {
        let fp: u8 = fingerprint(hash);
        let low: u32 = stored_bits(hash);
        let ghost slot = new_slot(hash, key, value);
        let ghost mut splits: nat = 0;
        proof {
            lemma_low_bits_bound(hash as int, self.global_depth as nat);
        }
        loop
            invariant
                fp == fingerprint_of(hash),
                fp != 0,
                low == stored_bits_of(hash),
                low == low_bits(hash as int, 32),
                slot == new_slot(hash, key, value),
                old(self).wf(),
                self.wf(),
                self.contents() == old(self).contents(),
                self.len == old(self).len,
                self.len < usize::MAX,
                is_split_down(*old(self), *self, hash, splits),
                leaves_others_alone(*old(self), *self, hash),
                old(self).buckets@.len() <= self.buckets@.len(),
            decreases
                    MAX_LOCAL_DEPTH - target_depth(
                        self.directory@,
                        self.buckets@,
                        self.slot_of(hash),
                    ),
        {
            let dir_idx: usize = self.dir_index(hash);
            let bucket_idx: usize = self.directory[dir_idx] as usize;
            let ghost before = self.buckets@[bucket_idx as int];
            let ghost depth = before.local_depth as nat;
            assert(self.directory@.contains(bucket_idx as u32));
            let bucket = &self.buckets[bucket_idx];
            let count: usize = bucket.len();
            if count < N || count == 0 || bucket.local_depth >= MAX_LOCAL_DEPTH {
                let ghost buckets = self.buckets@;
                let ghost ready = *self;
                self.buckets[bucket_idx].push(fp, low, key, value);
                self.len = self.len + 1;
                proof {
                    let after = self.buckets@[bucket_idx as int];
                    assert(self.buckets@ =~= buckets.update(bucket_idx as int, after));
                    assert forall|s: int, i: int|
                        #![trigger self.directory@[s], after.slots()[i]]
                        0 <= s < self.directory@.len() && self.directory@[s] == bucket_idx && 0 <= i
                            < after.slots().len() implies low_bits(
                        after.slots()[i].hash_low as int,
                        depth,
                    ) == low_bits(s, depth) by {
                        if i < before.slots().len() {
                            assert(target(self.directory@, buckets, s).slots()[i]
                                == after.slots()[i]);
                        } else {
                            let home = self.slot_of(hash);
                            lemma_low_bits_nested(hash as int, depth, 32);
                            lemma_low_bits_nested(hash as int, depth, self.global_depth as nat);
                            assert(self.directory@[home] == self.directory@[s]);
                        }
                    }
                    lemma_exchange(
                        self.directory@,
                        buckets,
                        self.freelist@,
                        self.global_depth as nat,
                        bucket_idx as int,
                        after,
                    );
                    lemma_pool_update(buckets, bucket_idx as int, after);
                    assert(after.slots().to_multiset() =~= before.slots().to_multiset().insert(
                        slot,
                    ));
                    assert(self.contents() =~= old(self).contents().insert(slot));
                    assert(is_pushed(ready, *self, ready.bucket_of(hash), slot));
                    assert forall|b: int| #[trigger] is_bystander(*old(self), hash, b) implies {
                        &&& self.buckets@[b] == old(self).buckets@[b]
                        &&& is_bystander(*self, hash, b)
                    } by {
                        assert(is_bystander(ready, hash, b));
                    }
                }
                return (bucket_idx, count);
            }
            let ghost global_depth = self.global_depth as nat;
            let ghost full = *self;
            self.split_bucket(bucket_idx);
            proof {
                splits = splits + 1;
                assert(full.bucket_of(hash) == bucket_idx);
                assert(is_split(full, *self, full.bucket_of(hash)));
                // The hash now leads to one of the two halves.
                let s = self.slot_of(hash);
                lemma_low_bits_bound(hash as int, self.global_depth as nat);
                lemma_low_bits_nested(hash as int, global_depth, self.global_depth as nat);
                if depth + 1 > global_depth {
                    lemma_low_bits_bound(s, global_depth);
                }
                assert(self.bucket_of(hash) == bucket_idx || self.bucket_of(hash)
                    == full.next_place());
                assert forall|b: int| #[trigger] is_bystander(*old(self), hash, b) implies {
                    &&& self.buckets@[b] == old(self).buckets@[b]
                    &&& is_bystander(*self, hash, b)
                } by {
                    assert(is_bystander(full, hash, b));
                    let s = full.directory@.index_of(b as u32);
                    lemma_low_bits_bound(s, global_depth);
                    assert(self.directory@[s] == b as u32);
                }
            }
        }
    }

    /// Whether the entry at a place has the fingerprint of a hash and a key that the query finds.
    pub open spec fn hit<Q: PartialEq + ?Sized>(self, hash: u64, query: &Q, bucket: int, entry: int) -> bool {
        let slot = self.buckets@[bucket].slots()[entry];
        slot.fingerprint == fingerprint_of(hash) && key_matches::<K, Q>(slot.key, query)
    }

    /// Finds the first entry with the right fingerprint and a matching key in the bucket that the
    /// hash leads to.
    pub fn find<Q>(&self, hash: u64, key: &Q) -> (place: Option<(usize, usize)>) where
        K: Borrow<Q>,
        Q: Eq + ?Sized,

        ensures
            place matches Some(p) ==> p.0 < self.buckets@.len() && p.1
                < self.buckets@[p.0 as int].slots().len(),
            self.wf() ==> match place {
                Some(p) => p.0 == self.bucket_of(hash),
                None => true,
            },
            self.wf() && comparable::<K, Q>() ==> match place {
                Some(p) => {
                    &&& self.hit(hash, key, p.0 as int, p.1 as int)
                    &&& forall|e: int| 0 <= e < p.1 ==> !self.hit(hash, key, p.0 as int, e)
                },
                None => forall|e: int|
                    0 <= e < self.buckets@[self.bucket_of(hash)].slots().len() ==> !self.hit(
                        hash,
                        key,
                        self.bucket_of(hash),
                        e,
                    ),
            },
    {
        let dir_idx: usize = self.dir_index(hash);
        if dir_idx >= self.directory.len() {
            return None;
        }
        let bucket_idx: usize = self.directory[dir_idx] as usize;
        if bucket_idx >= self.buckets.len() {
            return None;
        }
        let bucket = &self.buckets[bucket_idx];
        let fp: u8 = fingerprint(hash);
        // The zeros behind the fingerprints of the entries never match, so the scan does not look
        // at the number of entries.
        let mut i: usize = 0;
        while i < bucket.fingerprints.len()
            invariant
                i <= bucket.fingerprints@.len(),
                bucket_idx < self.buckets@.len(),
                *bucket == self.buckets@[bucket_idx as int],
                fp == fingerprint_of(hash),
                fp != 0,
                self.wf() ==> bucket_idx == self.bucket_of(hash) && bucket.wf(),
                self.wf() && comparable::<K, Q>() ==> forall|e: int|
                    0 <= e < i && e < bucket.slots().len() ==> !self.hit(
                        hash,
                        key,
                        bucket_idx as int,
                        e,
                    ),
            decreases bucket.fingerprints@.len() - i,
        {
            if bucket.fingerprints[i] == fp && i < bucket.entries.len() && matches_key::<K, Q>(
                &bucket.entries[i].0,
                key,
            ) {
                return Some((bucket_idx, i));
            }
            i += 1;
        }
        None
    }

    /// Removes the entry at a place.
    pub fn remove_at(&mut self, bucket_idx: usize, entry_idx: usize) -> (entry: (K, V))
        requires
            old(self).wf(),
            bucket_idx < old(self).buckets@.len(),
            entry_idx < old(self).buckets@[bucket_idx as int].slots().len(),
        ensures
            is_taken_out(*old(self), *final(self), bucket_idx as int, entry_idx as int),
            ({
                let slot = old(self).buckets@[bucket_idx as int].slots()[entry_idx as int];
                entry == (slot.key, slot.value)
            }),
    {
        let ghost buckets = self.buckets@;
        let ghost before = self.buckets@[bucket_idx as int];
        let ghost slot = before.slots()[entry_idx as int];
        proof {
            lemma_pool_contains(buckets, slot);
            assert(buckets[bucket_idx as int].slots().contains(slot));
        }
        let entry = self.buckets[bucket_idx].swap_remove(entry_idx);
        proof {
            let after = self.buckets@[bucket_idx as int];
            assert(self.buckets@ =~= buckets.update(bucket_idx as int, after));
            if !self.directory@.contains(bucket_idx as u32) {
                let f = self.freelist@.index_of(bucket_idx as u32);
                assert(self.freelist@.contains(bucket_idx as u32));
                assert(self.freelist@[f] == bucket_idx as u32);
            }
            assert forall|s: int, i: int|
                #![trigger self.directory@[s], after.slots()[i]]
                0 <= s < self.directory@.len() && self.directory@[s] == bucket_idx && 0 <= i
                    < after.slots().len() implies low_bits(
                after.slots()[i].hash_low as int,
                after.local_depth as nat,
            ) == low_bits(s, after.local_depth as nat) by {
                let j = if i == entry_idx {
                    before.slots().len() - 1
                } else {
                    i
                };
                assert(target(self.directory@, buckets, s).slots()[j] == after.slots()[i]);
            }
            lemma_exchange(
                self.directory@,
                buckets,
                self.freelist@,
                self.global_depth as nat,
                bucket_idx as int,
                after,
            );
            lemma_pool_update(buckets, bucket_idx as int, after);
            lemma_swap_remove(before.slots(), entry_idx as int);
            assert(self.contents() =~= old(self).contents().remove(slot));
        }
        self.len = self.len - 1;
        entry
    }

    /// Gives access to the value of the entry at a place.
    pub fn value_mut(&mut self, bucket_idx: usize, entry_idx: usize) -> (value: &mut V)
        requires
            bucket_idx < old(self).buckets@.len(),
            entry_idx < old(self).buckets@[bucket_idx as int].slots().len(),
        ensures
            *value == old(self).buckets@[bucket_idx as int].slots()[entry_idx as int].value,
            is_changed_at(
                *old(self),
                *final(self),
                bucket_idx as int,
                entry_idx as int,
                *final(value),
            ),
    {
        let value = &mut self.buckets[bucket_idx].entries[entry_idx].1;
        proof {
            let before = old(self).buckets@[bucket_idx as int];
            let after = after_borrow(self.buckets)@[bucket_idx as int];
            assert(after.slots() =~= before.slots().update(
                entry_idx as int,
                with_value(before.slots()[entry_idx as int], *final(value)),
            ));
        }
        value
    }
}

/// A table in which the value of one entry has been changed is as well-formed as before, and holds
/// the same entries but for that value.
pub proof fn lemma_value_changed<K, V, const N: usize>(
    before: HashMapInner<K, V, N>,
    after: HashMapInner<K, V, N>,
    bucket_idx: int,
    entry_idx: int,
    value: V,
)
    requires
        before.wf(),
        0 <= bucket_idx < before.buckets@.len(),
        0 <= entry_idx < before.buckets@[bucket_idx].slots().len(),
        is_changed_at(before, after, bucket_idx, entry_idx, value),
    ensures
        changed(before, after, before.buckets@[bucket_idx].slots()[entry_idx], value),
{
    let slots = before.buckets@[bucket_idx].slots();
    let slot = slots[entry_idx];
    let bucket = after.buckets@[bucket_idx];
    assert(after.buckets@ =~= before.buckets@.update(bucket_idx, bucket));
    if !before.directory@.contains(bucket_idx as u32) {
        let f = before.freelist@.index_of(bucket_idx as u32);
        assert(before.freelist@.contains(bucket_idx as u32));
        assert(before.freelist@[f] == bucket_idx as u32);
    }
    assert forall|s: int, i: int|
        #![trigger before.directory@[s], bucket.slots()[i]]
        0 <= s < before.directory@.len() && before.directory@[s] == bucket_idx && 0 <= i
            < bucket.slots().len() implies low_bits(
        bucket.slots()[i].hash_low as int,
        bucket.local_depth as nat,
    ) == low_bits(s, bucket.local_depth as nat) by {
        assert(target(before.directory@, before.buckets@, s).slots()[i].hash_low
            == bucket.slots()[i].hash_low);
    }
    lemma_exchange(
        before.directory@,
        before.buckets@,
        before.freelist@,
        before.global_depth as nat,
        bucket_idx,
        bucket,
    );
    lemma_pool_update(before.buckets@, bucket_idx, bucket);
    lemma_pool_contains(before.buckets@, slot);
    assert(before.buckets@[bucket_idx].slots().contains(slot));
    assert(slots.to_multiset().count(slot) > 0);
    assert(bucket.slots().to_multiset() == slots.to_multiset().insert(
        with_value(slot, value),
    ).remove(slot));
    assert(after.contents() =~= before.contents().remove(slot).insert(with_value(slot, value)));
}

impl<K, V, const N: usize> HashMapInner<K, V, N> {
    /// The directory slot of the sibling of the bucket that the hash leads to: the one that differs
    /// in the last bit that the bucket shares, if there is such a bit.
    pub open spec fn sibling_slot(self, hash: u64) -> int {
        let depth = self.buckets@[self.bucket_of(hash)].local_depth as nat;
        let low = low_bits(hash as int, depth);
        if low < pow2((depth - 1) as nat) {
            low + pow2((depth - 1) as nat)
        } else {
            low - pow2((depth - 1) as nat)
        }
    }

    /// The place of the sibling of the bucket that the hash leads to.
    pub open spec fn sibling_of(self, hash: u64) -> int {
        self.directory@[self.sibling_slot(hash)] as int
    }

    /// Whether the bucket that the hash leads to can be merged with its sibling: they are equally
    /// deep, and together they fill half of a bucket at most.
    pub open spec fn mergeable(self, hash: u64) -> bool {
        let bucket = self.buckets@[self.bucket_of(hash)];
        let sibling = self.buckets@[self.sibling_of(hash)];
        &&& bucket.local_depth > 0
        &&& sibling.local_depth == bucket.local_depth
        &&& bucket.slots().len() + sibling.slots().len() <= N / 2
    }

    /// Merges the bucket that the hash leads to with its sibling, if that leaves the bucket half
    /// empty. The place of the sibling becomes free. The directory does not shrink.
    pub fn try_merge_bucket(&mut self, bucket_idx: usize, hash: u64)
        requires
            old(self).wf(),
            bucket_idx == old(self).bucket_of(hash),
        ensures
            final(self).wf(),
            is_merge(*old(self), *final(self), hash),
    {
        let ghost directory = self.directory@;
        let ghost buckets = self.buckets@;
        let ghost freelist = self.freelist@;
        let ghost wide = self.global_depth as nat;
        let ghost home = self.slot_of(hash);
        let ghost kept = bucket_idx as int;
        proof {
            lemma_low_bits_bound(hash as int, wide);
            assert(directory[home] == bucket_idx);
        }
        let depth: u8 = self.buckets[bucket_idx].local_depth;
        if depth == 0 {
            return;
        }
        // The sibling's slot differs in the last of the bits that the bucket shares.
        let pattern: u64 = mask_low_bits(hash, depth);
        let half: u64 = exp2(depth - 1);
        proof {
            lemma_low_bits_next(hash as int, (depth - 1) as nat);
        }
        let sibling_pattern: u64 = if pattern < half {
            pattern + half
        } else {
            pattern - half
        };
        let ghost d = depth as nat;
        let ghost less = (depth - 1) as nat;
        let ghost gone_slot = sibling_pattern as int;
        proof {
            lemma_pow2_range(wide);
            assert(pow2(d) <= pow2(wide)) by {
                if d < wide {
                    vstd::arithmetic::power2::lemma_pow2_strictly_increases(d, wide);
                }
            }
            lemma_low_bits_bound(gone_slot, d);
            lemma_low_bits_bound(gone_slot, less);
            lemma_low_bits_bound(hash as int, less);
            lemma_low_bits_bound(hash as int, d);
            lemma_low_bits_nested(hash as int, less, d);
            lemma_low_bits_bound(pattern as int, less);
            lemma_low_bits_nested(hash as int, d, wide);
            lemma_low_bits_nested(hash as int, less, wide);
            assert(directory[home] != directory[gone_slot]);
            assert(low_bits(home, less) == low_bits(gone_slot, less));
        }
        let sibling_idx: u32 = self.directory[sibling_pattern as usize];
        let ghost gone = sibling_idx as int;
        if self.buckets[sibling_idx as usize].local_depth != depth {
            return;
        }
        let bucket_len: usize = self.buckets[bucket_idx].len();
        let sibling_len: usize = self.buckets[sibling_idx as usize].len();
        // Merging only below half a load keeps a table that hovers around a bucket's capacity from
        // splitting and merging over and over.
        if bucket_len > N / 2 || sibling_len > N / 2 - bucket_len {
            return;
        }
        let ghost before = buckets[kept];
        let ghost sibling = buckets[gone];

        let mut emptied: Bucket<K, V, N> = Bucket::new(depth);
        let ghost fresh = emptied;
        std::mem::swap(&mut self.buckets[sibling_idx as usize], &mut emptied);
        assert(emptied == sibling);
        self.buckets[bucket_idx].append(emptied);
        self.buckets[bucket_idx].local_depth = depth - 1;
        let ghost joined = self.buckets@[kept];
        proof {
            assert(self.buckets@ =~= buckets.update(gone, fresh).update(kept, joined));
            assert(joined.slots() =~= before.slots() + sibling.slots());
            lemma_pool_update(buckets, gone, fresh);
            lemma_pool_update(buckets.update(gone, fresh), kept, joined);
            vstd::seq_lib::lemma_multiset_commutative(before.slots(), sibling.slots());
            assert(self.contents() =~= old(self).contents());
            lemma_merge(directory, buckets, self.buckets@, wide, home, gone_slot);
        }

        // Every slot that leads to the sibling now leads to the bucket that is kept.
        redirect(&mut self.directory, sibling_pattern, depth, bucket_idx as u32);
        proof {
            let merged = merged_directory(directory, bucket_idx as u32, sibling_idx);
            assert forall|s: int| 0 <= s < directory.len() implies #[trigger] self.directory@[s]
                == merged[s] by {
                assert(directory[s] == directory[gone_slot] <==> low_bits(gone_slot, d)
                    == low_bits(s, d));
            }
            assert(self.directory@ =~= merged);
        }
        self.freelist.push(sibling_idx);
        proof {
            assert forall|b: u32| #[trigger] self.directory@.contains(b) implies directory.contains(
                b,
            ) by {
                let s = self.directory@.index_of(b);
                assert(self.directory@[s] == b);
                assert(directory.contains(directory[s]));
                assert(directory.contains(directory[home]));
            }
            assert forall|b: u32|
                directory.contains(b) && b != sibling_idx implies #[trigger] self.directory@.contains(
                b,
            ) by {
                let s = directory.index_of(b);
                assert(self.directory@[s] == b);
            }
            assert(!freelist.contains(sibling_idx)) by {
                if freelist.contains(sibling_idx) {
                    let f = freelist.index_of(sibling_idx);
                    assert(freelist[f] == sibling_idx);
                    assert(directory.contains(directory[gone_slot]));
                }
            }
            assert(self.freelist@.no_duplicates());
            assert forall|b: int|
                0 <= b < self.buckets@.len() && !self.directory@.contains(b as u32) implies
                #[trigger] self.freelist@.contains(b as u32) by {
                if b == gone {
                    assert(self.freelist@[freelist.len() as int] == b as u32);
                } else {
                    assert(!directory.contains(b as u32));
                    assert(freelist.contains(b as u32));
                    let f = freelist.index_of(b as u32);
                    assert(self.freelist@[f] == b as u32);
                }
            }
            assert forall|f: int| 0 <= f < self.freelist@.len() implies {
                &&& #[trigger] self.freelist@[f] < self.buckets@.len()
                &&& !self.directory@.contains(self.freelist@[f])
                &&& self.buckets@[self.freelist@[f] as int].slots().len() == 0
            } by {
                if f < freelist.len() {
                    assert(self.freelist@[f] == freelist[f]);
                    assert(directory.contains(directory[home]));
                }
            }
            assert(pooled(self.directory@, self.buckets@, self.freelist@));
        }
    }
}

/// A table in which only values have been overwritten is as well-formed as before.
pub proof fn lemma_rewritten<K, V, const N: usize>(
    before: HashMapInner<K, V, N>,
    after: HashMapInner<K, V, N>,
)
    requires
        after.directory == before.directory,
        after.freelist == before.freelist,
        after.global_depth == before.global_depth,
        after.mask == before.mask,
        after.len == before.len,
    ensures
        before.wf() && is_revalued(before.buckets@, after.buckets@) ==> is_rewritten(before, after),
{
    assert forall|b: int|
        is_revalued(before.buckets@, after.buckets@) && 0 <= b < before.buckets@.len() implies {
        &&& (#[trigger] after.buckets@[b]).wf() == before.buckets@[b].wf()
        &&& after.buckets@[b].local_depth == before.buckets@[b].local_depth
        &&& after.buckets@[b].slots().len() == before.buckets@[b].slots().len()
        &&& forall|i: int|
            0 <= i < before.buckets@[b].slots().len() ==> (
            #[trigger] after.buckets@[b].slots()[i]).hash_low
                == before.buckets@[b].slots()[i].hash_low
    } by {
        assert(is_revalued_bucket(before.buckets@[b], after.buckets@[b]));
    }
    if before.wf() && is_revalued(before.buckets@, after.buckets@) {
        lemma_pool_revalued(before.buckets@, after.buckets@);
    }
}

/// An entry is in the bucket that its hash leads to.
pub proof fn lemma_entry_is_where_its_hash_leads<K, V, const N: usize>(
    table: HashMapInner<K, V, N>,
    slot: Slot<K, V>,
    hash: u64,
)
    requires
        table.wf(),
        table.contents().contains(slot),
        slot.hash_low == stored_bits_of(hash),
    ensures
        table.buckets@[table.bucket_of(hash)].slots().contains(slot),
{
    lemma_pool_contains(table.buckets@, slot);
    let b = choose|b: int|
        0 <= b < table.buckets@.len() && #[trigger] table.buckets@[b].slots().contains(slot);
    if !table.directory@.contains(b as u32) {
        assert(table.freelist@.contains(b as u32));
        let f = table.freelist@.index_of(b as u32);
        assert(table.freelist@[f] == b as u32);
    }
    let s = table.directory@.index_of(b as u32);
    assert(table.directory@[s] == b);
    let i = table.buckets@[b].slots().index_of(slot);
    assert(target(table.directory@, table.buckets@, s).slots()[i] == slot);
    let depth = table.buckets@[b].local_depth as nat;
    let wide = table.global_depth as nat;
    let home = table.slot_of(hash);
    lemma_pow2_range(32);
    lemma_low_bits_bound(hash as int, 32);
    lemma_low_bits_bound(hash as int, wide);
    lemma_low_bits_nested(hash as int, depth, 32);
    lemma_low_bits_nested(hash as int, depth, wide);
    assert(table.directory@[s] == table.directory@[home]);
}

} // verus!
