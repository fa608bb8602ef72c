//! Buckets: small groups of entries, each stored with a fingerprint and the low half of its hash.

use vstd::prelude::*;

use crate::bits::{bit_is_set, low_bits, test_bit};

verus! {

broadcast use vstd::seq_lib::group_to_multiset_ensures;

/// The largest depth a bucket can have: the number of hash bits that are stored per entry.
pub const MAX_LOCAL_DEPTH: u8 = 32;

/// The fingerprint of a hash: its upper eight bits, with bit 0 forced on.
pub open spec fn fingerprint_of(hash: u64) -> u8 {
    ((hash >> 56) as u8) | 1
}

/// The part of a hash that is stored with an entry: its lower 32 bits.
pub open spec fn stored_bits_of(hash: u64) -> u32 {
    low_bits(hash as int, 32) as u32
}

/// Extracts a fingerprint from the upper bits of a hash. It is never zero: zero marks a slot that
/// holds no entry.
pub fn fingerprint(hash: u64) -> (fp: u8)
    ensures
        fp == fingerprint_of(hash),
        fp != 0,
{
    let top: u8 = #[verifier::truncate] ((hash >> 56) as u8);
    assert(top | 1 != 0) by (bit_vector);
    top | 1
}

/// Extracts the hash bits that are stored with an entry.
pub fn stored_bits(hash: u64) -> (bits: u32)
    ensures
        bits == stored_bits_of(hash),
        bits == low_bits(hash as int, 32),
{
    proof {
        reveal(low_bits);
        crate::bits::lemma_pow2_range(32);
        assert(hash as u32 == hash % 0x1_0000_0000) by (bit_vector);
    }
    #[verifier::truncate] (hash as u32)
}

/// What a bucket holds for one entry.
pub struct Slot<K, V> {
    pub fingerprint: u8,
    pub hash_low: u32,
    pub key: K,
    pub value: V,
}

/// The slot that an entry gets under a hash of its key.
pub open spec fn new_slot<K, V>(hash: u64, key: K, value: V) -> Slot<K, V> {
    Slot { fingerprint: fingerprint_of(hash), hash_low: stored_bits_of(hash), key, value }
}

/// The slot with another value in it.
pub open spec fn with_value<K, V>(slot: Slot<K, V>, value: V) -> Slot<K, V> {
    Slot { fingerprint: slot.fingerprint, hash_low: slot.hash_low, key: slot.key, value }
}

/// A single bucket of the table.
///
/// The fingerprint vector is scanned on its own during a lookup. It is padded with zeros up to the
/// bucket capacity `N`; since no fingerprint is zero, the padding never matches.
///
/// A bucket holds at most `N` entries. The one exception is a bucket at [`MAX_LOCAL_DEPTH`]: no
/// further hash bit is stored that could split it, so it takes whatever has to go into it.
pub struct Bucket<K, V, const N: usize> {
    /// Fingerprints of the entries, then zeros.
    pub fingerprints: Vec<u8>,
    /// How many low-order hash bits all entries of this bucket share.
    pub local_depth: u8,
    /// Lower 32 bits of the hash of each entry.
    pub hash_low: Vec<u32>,
    /// Key-value pairs.
    pub entries: Vec<(K, V)>,
}

impl<K, V, const N: usize> Bucket<K, V, N> {
    /// The entries in order, with their hash data.
    pub open spec fn slots(self) -> Seq<Slot<K, V>> {
        Seq::new(
            self.entries@.len(),
            |i: int|
                Slot {
                    fingerprint: self.fingerprints@[i],
                    hash_low: self.hash_low@[i],
                    key: self.entries@[i].0,
                    value: self.entries@[i].1,
                },
        )
    }

    /// Whether an entry can be added without splitting the bucket.
    pub open spec fn has_room(self) -> bool {
        self.entries@.len() < N || self.entries@.len() == 0 || self.local_depth >= MAX_LOCAL_DEPTH
    }

    /// The invariant: the three vectors agree, exactly the slots beyond the entries have a zero
    /// fingerprint, and the capacity is respected below the maximum depth.
    pub open spec fn wf(self) -> bool {
        &&& self.local_depth <= MAX_LOCAL_DEPTH
        &&& self.fingerprints@.len() == self.hash_low@.len()
        &&& N <= self.fingerprints@.len()
        &&& self.entries@.len() <= self.fingerprints@.len()
        &&& forall|i: int|
            0 <= i < self.fingerprints@.len() ==> (#[trigger] self.fingerprints@[i] != 0 <==> i
                < self.entries@.len())
        &&& self.local_depth == MAX_LOCAL_DEPTH || self.entries@.len() <= N || self.entries@.len()
            <= 1
    }

    /// Creates an empty bucket.
    pub fn new(local_depth: u8) -> (bucket: Self)
        requires
            local_depth <= MAX_LOCAL_DEPTH,
        ensures
            bucket.wf(),
            bucket.local_depth == local_depth,
            bucket.slots() == Seq::<Slot<K, V>>::empty(),
            bucket.fingerprints@.len() == N,
    {
        let bucket = Bucket {
            fingerprints: vec![0u8; N],
            local_depth,
            hash_low: vec![0u32; N],
            entries: Vec::new(),
        };
        assert(bucket.slots() =~= Seq::empty());
        bucket
    }

    /// Returns the number of entries.
    pub fn len(&self) -> (count: usize)
        ensures
            count == self.slots().len(),
    {
        self.entries.len()
    }

    /// Pushes a new entry. The caller splits a full bucket first.
    pub fn push(&mut self, fp: u8, hash_low: u32, key: K, value: V)
        requires
            old(self).wf(),
            old(self).has_room(),
            fp != 0,
        ensures
            final(self).wf(),
            final(self).local_depth == old(self).local_depth,
            final(self).slots() == old(self).slots().push(
                (Slot { fingerprint: fp, hash_low, key, value }),
            ),
    {
        let idx: usize = self.entries.len();
        if idx < self.fingerprints.len() {
            self.fingerprints[idx] = fp;
            self.hash_low[idx] = hash_low;
        } else {
            self.fingerprints.push(fp);
            self.hash_low.push(hash_low);
        }
        self.entries.push((key, value));
        assert(self.slots() =~= old(self).slots().push(
            (Slot { fingerprint: fp, hash_low, key, value }),
        ));
    }

    /// Removes the entry at `idx` by moving the last entry into its place. Returns the removed
    /// key and value.
    pub fn swap_remove(&mut self, idx: usize) -> (entry: (K, V))
        requires
            old(self).wf(),
            idx < old(self).slots().len(),
        ensures
            final(self).wf(),
            final(self).local_depth == old(self).local_depth,
            final(self).slots() == old(self).slots().update(
                idx as int,
                old(self).slots().last(),
            ).drop_last(),
            entry.0 == old(self).slots()[idx as int].key,
            entry.1 == old(self).slots()[idx as int].value,
    {
        let last: usize = self.entries.len() - 1;
        self.fingerprints[idx] = self.fingerprints[last];
        self.hash_low[idx] = self.hash_low[last];
        self.fingerprints[last] = 0;
        let entry = self.entries.swap_remove(idx);
        assert(self.slots() =~= old(self).slots().update(
            idx as int,
            old(self).slots().last(),
        ).drop_last());
        entry
    }

    /// Returns a slice over the key-value pairs.
    pub fn entries_slice(&self) -> (pairs: &[(K, V)])
        ensures
            pairs@ == self.entries@,
    {
        self.entries.as_slice()
    }

    /// Returns a mutable slice over the key-value pairs.
    pub fn entries_slice_mut(&mut self) -> (pairs: &mut [(K, V)])
        ensures
            pairs@ == old(self).entries@,
            final(self).entries@ == final(pairs)@,
            final(self).fingerprints == old(self).fingerprints,
            final(self).local_depth == old(self).local_depth,
            final(self).hash_low == old(self).hash_low,
    {
        self.entries.as_mut_slice()
    }

    /// Removes all entries and returns their key-value pairs. The depth stays.
    pub fn take_entries(&mut self) -> (pairs: Vec<(K, V)>)
        requires
            old(self).wf(),
        ensures
            pairs@ == old(self).entries@,
            final(self).wf(),
            final(self).local_depth == old(self).local_depth,
            final(self).slots() == Seq::<Slot<K, V>>::empty(),
    {
        let mut pairs: Vec<(K, V)> = Vec::new();
        std::mem::swap(&mut self.entries, &mut pairs);
        self.zero_fingerprints();
        pairs
    }

    /// Removes all entries. The depth stays.
    pub fn clear(&mut self)
        requires
            old(self).wf(),
        ensures
            final(self).wf(),
            final(self).local_depth == old(self).local_depth,
            final(self).slots() == Seq::<Slot<K, V>>::empty(),
    {
        self.entries.clear();
        self.zero_fingerprints();
    }

    /// Marks all slots as empty, once the entries are gone.
    fn zero_fingerprints(&mut self)
        requires
            old(self).entries@.len() == 0,
            old(self).local_depth <= MAX_LOCAL_DEPTH,
            old(self).fingerprints@.len() == old(self).hash_low@.len(),
            N <= old(self).fingerprints@.len(),
        ensures
            final(self).wf(),
            final(self).local_depth == old(self).local_depth,
            final(self).slots() == Seq::<Slot<K, V>>::empty(),
    {
        let mut i: usize = 0;
        while i < self.fingerprints.len()
            invariant
                i <= self.fingerprints@.len(),
                self.entries@.len() == 0,
                self.local_depth == old(self).local_depth,
                self.hash_low == old(self).hash_low,
                self.fingerprints@.len() == old(self).fingerprints@.len(),
                forall|j: int| 0 <= j < i ==> self.fingerprints@[j] == 0,
            decreases self.fingerprints@.len() - i,
        {
            self.fingerprints[i] = 0;
            i += 1;
        }
        assert(self.slots() =~= Seq::empty());
    }

    /// Parts the entries of a bucket on one hash bit: those that have the bit clear go to the first
    /// bucket, the others to the second. Both are one level deeper than the given bucket.
    pub fn split(self) -> (halves: (Self, Self))
        requires
            self.wf(),
            self.local_depth < MAX_LOCAL_DEPTH,
        ensures
            halves.0.wf(),
            halves.1.wf(),
            halves.0.local_depth == self.local_depth + 1,
            halves.1.local_depth == self.local_depth + 1,
            halves.0.slots() == self.slots().filter(
                |s: Slot<K, V>| !bit_is_set(s.hash_low as int, self.local_depth as nat),
            ),
            halves.1.slots() == self.slots().filter(
                |s: Slot<K, V>| bit_is_set(s.hash_low as int, self.local_depth as nat),
            ),
    {
        broadcast use vstd::seq_lib::group_filter_ensures;
        let ghost all = self.slots();
        let ghost depth = self.local_depth as nat;
        let ghost clear = |s: Slot<K, V>| !bit_is_set(s.hash_low as int, depth);
        let ghost set = |s: Slot<K, V>| bit_is_set(s.hash_low as int, depth);
        let Bucket { fingerprints, local_depth, hash_low, entries } = self;
        let mut low: Bucket<K, V, N> = Bucket::new(local_depth + 1);
        let mut high: Bucket<K, V, N> = Bucket::new(local_depth + 1);
        let ghost pairs = entries@;
        let mut i: usize = 0;
        assert(all.take(0).filter(clear) =~= Seq::empty());
        assert(all.take(0).filter(set) =~= Seq::empty());
        for (key, value) in rest: entries.into_iter()
            invariant
                rest.seq() == pairs,
                rest.index() == i,
                i <= all.len() == pairs.len(),
                all.len() <= fingerprints@.len() == hash_low@.len(),
                all == self.slots(),
                pairs == self.entries@,
                self.wf(),
                fingerprints == self.fingerprints,
                hash_low == self.hash_low,
                local_depth == self.local_depth,
                local_depth < MAX_LOCAL_DEPTH,
                depth == local_depth,
                clear == (|s: Slot<K, V>| !bit_is_set(s.hash_low as int, depth)),
                set == (|s: Slot<K, V>| bit_is_set(s.hash_low as int, depth)),
                low.wf(),
                high.wf(),
                low.local_depth == local_depth + 1,
                high.local_depth == local_depth + 1,
                low.slots() == all.take(i as int).filter(clear),
                high.slots() == all.take(i as int).filter(set),
                low.slots().len() + high.slots().len() == i,
        {
            let ghost slot = all[i as int];
            proof {
                all.lemma_take_succ_push(i as int);
                all.take(i as int).lemma_filter_push(slot, clear);
                all.take(i as int).lemma_filter_push(slot, set);
            }
            if test_bit(hash_low[i], local_depth) {
                high.push(fingerprints[i], hash_low[i], key, value);
            } else {
                low.push(fingerprints[i], hash_low[i], key, value);
            }
            i += 1;
        }
        assert(all.take(i as int) =~= all);
        (low, high)
    }

    /// Moves all entries of `other` behind those of this bucket.
    pub fn append(&mut self, other: Self)
        requires
            old(self).wf(),
            other.wf(),
            old(self).slots().len() + other.slots().len() <= N,
        ensures
            final(self).wf(),
            final(self).local_depth == old(self).local_depth,
            final(self).slots() == old(self).slots() + other.slots(),
    {
        let ghost all = other.slots();
        let Bucket { fingerprints, local_depth: _, hash_low, entries } = other;
        let ghost pairs = entries@;
        let mut i: usize = 0;
        assert(old(self).slots() + all.take(0) =~= old(self).slots());
        for (key, value) in rest: entries.into_iter()
            invariant
                rest.seq() == pairs,
                rest.index() == i,
                i <= all.len() == pairs.len(),
                all.len() <= fingerprints@.len() == hash_low@.len(),
                all == other.slots(),
                pairs == other.entries@,
                other.wf(),
                fingerprints == other.fingerprints,
                hash_low == other.hash_low,
                old(self).slots().len() + all.len() <= N,
                self.wf(),
                self.local_depth == old(self).local_depth,
                self.slots() == old(self).slots() + all.take(i as int),
        {
            proof {
                all.lemma_take_succ_push(i as int);
            }
            assert(self.slots().len() < N);
            self.push(fingerprints[i], hash_low[i], key, value);
            assert(self.slots() =~= old(self).slots() + all.take(i + 1));
            i += 1;
        }
        assert(all.take(i as int) =~= all);
    }
}

} // verus!
