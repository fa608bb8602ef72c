//! What one operation does to a table: relations between the table before and after it.

use vstd::multiset::Multiset;
use vstd::prelude::*;

use crate::bits::bit_is_set;
use crate::bucket::{with_value, Slot};
use crate::contents::is_revalued;
use crate::directory::{merged_directory, split_directory};
use crate::inner::HashMapInner;

verus! {

broadcast use {vstd::multiset::group_multiset_axioms, vstd::seq_lib::group_to_multiset_ensures};

/// Whether `after` is `before` with the bucket at the place `bucket` split in two: the entries that
/// have the next hash bit set have moved to a sibling at the next place. The directory has doubled
/// if it had no slot for the sibling. No other bucket has changed.
pub open spec fn is_split<K, V, const N: usize>(
    before: HashMapInner<K, V, N>,
    after: HashMapInner<K, V, N>,
    bucket: int,
) -> bool {
    let full = before.buckets@[bucket];
    let depth = full.local_depth as nat;
    let place = before.next_place();
    &&& after.contents() == before.contents()
    &&& after.len == before.len
    &&& after.global_depth == if depth + 1 > before.global_depth {
        depth + 1
    } else {
        before.global_depth as nat
    }
    &&& after.directory@ == split_directory(
        before.grown_directory(depth + 1),
        bucket as u32,
        place as u32,
        depth,
    )
    &&& after.freelist@ == if before.freelist@.len() > 0 {
        before.freelist@.drop_last()
    } else {
        before.freelist@
    }
    &&& after.buckets@.len() == if before.freelist@.len() > 0 {
        before.buckets@.len()
    } else {
        before.buckets@.len() + 1
    }
    &&& place != bucket
    &&& place <= u32::MAX
    &&& !before.directory@.contains(place as u32)
    &&& forall|b: int|
        0 <= b < before.buckets@.len() && b != bucket && b != place ==> #[trigger] after.buckets@[b]
            == before.buckets@[b]
    &&& after.buckets@[bucket].local_depth == depth + 1
    &&& after.buckets@[place].local_depth == depth + 1
    &&& after.buckets@[bucket].slots() == full.slots().filter(
        |s: Slot<K, V>| !bit_is_set(s.hash_low as int, depth),
    )
    &&& after.buckets@[place].slots() == full.slots().filter(
        |s: Slot<K, V>| bit_is_set(s.hash_low as int, depth),
    )
}

/// Whether `after` is `before` after `count` splits, each of the bucket that the hash leads to, and
/// none of a bucket that has room.
pub open spec fn is_split_down<K, V, const N: usize>(
    before: HashMapInner<K, V, N>,
    after: HashMapInner<K, V, N>,
    hash: u64,
    count: nat,
) -> bool
    decreases count,
{
    if count == 0 {
        after == before
    } else {
        exists|last: HashMapInner<K, V, N>|
            {
                &&& is_split_down(before, last, hash, (count - 1) as nat)
                &&& last.wf()
                &&& !last.buckets@[last.bucket_of(hash)].has_room()
                &&& #[trigger] is_split(last, after, last.bucket_of(hash))
            }
    }
}

/// Whether `after` is `before` with an entry added at the end of one bucket, which has room.
pub open spec fn is_pushed<K, V, const N: usize>(
    before: HashMapInner<K, V, N>,
    after: HashMapInner<K, V, N>,
    bucket: int,
    slot: Slot<K, V>,
) -> bool {
    &&& before.buckets@[bucket].has_room()
    &&& after.directory@ == before.directory@
    &&& after.freelist@ == before.freelist@
    &&& after.global_depth == before.global_depth
    &&& after.len == before.len + 1
    &&& after.buckets@.len() == before.buckets@.len()
    &&& forall|b: int|
        0 <= b < before.buckets@.len() && b != bucket ==> #[trigger] after.buckets@[b]
            == before.buckets@[b]
    &&& after.buckets@[bucket].local_depth == before.buckets@[bucket].local_depth
    &&& after.buckets@[bucket].slots() == before.buckets@[bucket].slots().push(slot)
}

/// Whether `after` holds what `before` does and one more entry.
pub open spec fn added<K, V, const N: usize>(
    before: HashMapInner<K, V, N>,
    after: HashMapInner<K, V, N>,
    slot: Slot<K, V>,
) -> bool {
    after.wf() && after.contents() == before.contents().insert(slot)
}

/// Whether a bucket is in use, and is not the one that the hash leads to.
pub open spec fn is_bystander<K, V, const N: usize>(
    table: HashMapInner<K, V, N>,
    hash: u64,
    bucket: int,
) -> bool {
    &&& 0 <= bucket < table.buckets@.len()
    &&& table.directory@.contains(bucket as u32)
    &&& bucket != table.bucket_of(hash)
}

/// Whether every bucket in use that the hash does not lead to is as it was.
pub open spec fn leaves_others_alone<K, V, const N: usize>(
    before: HashMapInner<K, V, N>,
    after: HashMapInner<K, V, N>,
    hash: u64,
) -> bool {
    forall|b: int| #[trigger]
        is_bystander(before, hash, b) ==> {
            &&& after.buckets@[b] == before.buckets@[b]
            &&& is_bystander(after, hash, b)
        }
}

/// Whether `after` is `before` with an entry inserted: the bucket that the hash leads to has been
/// split until it had room, and the entry has been added to it.
pub open spec fn inserted<K, V, const N: usize>(
    before: HashMapInner<K, V, N>,
    after: HashMapInner<K, V, N>,
    hash: u64,
    slot: Slot<K, V>,
) -> bool {
    &&& added(before, after, slot)
    &&& exists|ready: HashMapInner<K, V, N>, count: nat|
        {
            &&& #[trigger] is_split_down(before, ready, hash, count)
            &&& is_pushed(ready, after, ready.bucket_of(hash), slot)
        }
    &&& before.buckets@.len() <= after.buckets@.len()
    &&& leaves_others_alone(before, after, hash)
}

/// Whether `after` holds what `before` does but for one entry.
pub open spec fn removed<K, V, const N: usize>(
    before: HashMapInner<K, V, N>,
    after: HashMapInner<K, V, N>,
    slot: Slot<K, V>,
) -> bool {
    &&& after.wf()
    &&& before.contents().contains(slot)
    &&& after.contents() == before.contents().remove(slot)
}

/// Whether `after` is `before` without the entry at a place, which the last entry of the bucket has
/// taken.
pub open spec fn is_taken_out<K, V, const N: usize>(
    before: HashMapInner<K, V, N>,
    after: HashMapInner<K, V, N>,
    bucket: int,
    entry: int,
) -> bool {
    let slots = before.buckets@[bucket].slots();
    &&& 0 <= bucket < before.buckets@.len()
    &&& 0 <= entry < slots.len()
    &&& removed(before, after, slots[entry])
    &&& after.directory == before.directory
    &&& after.freelist == before.freelist
    &&& after.global_depth == before.global_depth
    &&& after.len == before.len - 1
    &&& after.buckets@ == before.buckets@.update(bucket, after.buckets@[bucket])
    &&& after.buckets@[bucket].local_depth == before.buckets@[bucket].local_depth
    &&& after.buckets@[bucket].slots() == slots.update(entry, slots.last()).drop_last()
}

/// Whether `after` is `before` after the attempt to merge the bucket that the hash leads to with
/// its sibling. If they could be merged, the entries of the sibling are in the bucket, all slots of
/// the sibling lead there, and the place of the sibling is free. No other bucket has changed.
pub open spec fn is_merge<K, V, const N: usize>(
    before: HashMapInner<K, V, N>,
    after: HashMapInner<K, V, N>,
    hash: u64,
) -> bool {
    if before.mergeable(hash) {
        let kept = before.bucket_of(hash);
        let gone = before.sibling_of(hash);
        &&& kept != gone
        &&& after.contents() == before.contents()
        &&& after.len == before.len
        &&& after.global_depth == before.global_depth
        &&& after.directory@ == merged_directory(before.directory@, kept as u32, gone as u32)
        &&& after.freelist@ == before.freelist@.push(gone as u32)
        &&& after.buckets@.len() == before.buckets@.len()
        &&& after.buckets@[kept].local_depth == before.buckets@[kept].local_depth - 1
        &&& after.buckets@[kept].slots() == before.buckets@[kept].slots()
            + before.buckets@[gone].slots()
        &&& after.buckets@[gone].slots().len() == 0
        &&& forall|b: int|
            0 <= b < before.buckets@.len() && b != kept && b != gone ==> #[trigger] after.buckets@[b]
                == before.buckets@[b]
    } else {
        after == before
    }
}

/// Whether `after` is `before` with an entry removed: the entry at an index of the bucket that the
/// hash leads to has been taken out, and then that bucket has been merged with its sibling if the
/// two had become sparse enough.
pub open spec fn is_removal<K, V, const N: usize>(
    before: HashMapInner<K, V, N>,
    after: HashMapInner<K, V, N>,
    hash: u64,
    entry: int,
) -> bool {
    let slots = before.buckets@[before.bucket_of(hash)].slots();
    &&& 0 <= entry < slots.len()
    &&& removed(before, after, slots[entry])
    &&& exists|rest: HashMapInner<K, V, N>|
        {
            &&& is_taken_out(before, rest, before.bucket_of(hash), entry)
            &&& #[trigger] is_merge(rest, after, hash)
        }
}

/// Whether `after` is `before` with all entries removed. The directory, the buckets and their
/// depths stay.
pub open spec fn is_emptied<K, V, const N: usize>(
    before: HashMapInner<K, V, N>,
    after: HashMapInner<K, V, N>,
) -> bool {
    &&& after.contents() == Multiset::<Slot<K, V>>::empty()
    &&& after.len == 0
    &&& after.directory == before.directory
    &&& after.freelist == before.freelist
    &&& after.global_depth == before.global_depth
    &&& after.mask == before.mask
    &&& after.buckets@.len() == before.buckets@.len()
    &&& forall|b: int|
        0 <= b < before.buckets@.len() ==> {
            &&& (#[trigger] after.buckets@[b]).local_depth == before.buckets@[b].local_depth
            &&& after.buckets@[b].slots().len() == 0
        }
}

/// Whether two tables have the same directory, the same free places and equally deep buckets. What
/// the buckets hold may differ.
pub open spec fn same_layout<K, V, const N: usize>(
    before: HashMapInner<K, V, N>,
    after: HashMapInner<K, V, N>,
) -> bool {
    &&& after.directory == before.directory
    &&& after.freelist == before.freelist
    &&& after.global_depth == before.global_depth
    &&& after.buckets@.len() == before.buckets@.len()
    &&& forall|b: int|
        0 <= b < before.buckets@.len() ==> (#[trigger] after.buckets@[b]).local_depth
            == before.buckets@[b].local_depth
}

/// Whether two tables have the same directory, the same free places, and equally deep and equally
/// filled buckets.
pub open spec fn same_shape<K, V, const N: usize>(
    before: HashMapInner<K, V, N>,
    after: HashMapInner<K, V, N>,
) -> bool {
    &&& after.directory == before.directory
    &&& after.freelist == before.freelist
    &&& after.global_depth == before.global_depth
    &&& after.mask == before.mask
    &&& after.len == before.len
    &&& after.buckets@.len() == before.buckets@.len()
    &&& forall|b: int|
        0 <= b < before.buckets@.len() ==> {
            &&& (#[trigger] after.buckets@[b]).local_depth == before.buckets@[b].local_depth
            &&& after.buckets@[b].slots().len() == before.buckets@[b].slots().len()
        }
}

/// Whether `after` is `before` with other values in any of its entries.
pub open spec fn is_rewritten<K, V, const N: usize>(
    before: HashMapInner<K, V, N>,
    after: HashMapInner<K, V, N>,
) -> bool {
    &&& after.wf()
    &&& same_shape(before, after)
    &&& is_revalued(before.buckets@, after.buckets@)
}

/// Whether `after` is `before` with another value in the entry at a place.
pub open spec fn is_changed_at<K, V, const N: usize>(
    before: HashMapInner<K, V, N>,
    after: HashMapInner<K, V, N>,
    bucket: int,
    entry: int,
    value: V,
) -> bool {
    &&& same_shape(before, after)
    &&& forall|b: int|
        0 <= b < before.buckets@.len() && b != bucket ==> #[trigger] after.buckets@[b]
            == before.buckets@[b]
    &&& after.buckets@[bucket].wf() == before.buckets@[bucket].wf()
    &&& after.buckets@[bucket].slots() == before.buckets@[bucket].slots().update(
        entry,
        with_value(before.buckets@[bucket].slots()[entry], value),
    )
}

/// Whether `after` holds what `before` does, with another value in one entry.
pub open spec fn changed<K, V, const N: usize>(
    before: HashMapInner<K, V, N>,
    after: HashMapInner<K, V, N>,
    slot: Slot<K, V>,
    value: V,
) -> bool {
    &&& after.wf()
    &&& before.contents().contains(slot)
    &&& after.contents() == before.contents().remove(slot).insert(with_value(slot, value))
    &&& same_shape(before, after)
}

/// Whether `after` is `before` with another value in some entry, which stays in its place.
pub open spec fn is_changed_in_place<K, V, const N: usize>(
    before: HashMapInner<K, V, N>,
    after: HashMapInner<K, V, N>,
    value: V,
) -> bool {
    exists|bucket: int, entry: int|
        {
            &&& 0 <= bucket < before.buckets@.len()
            &&& 0 <= entry < before.buckets@[bucket].slots().len()
            &&& #[trigger] is_changed_at(before, after, bucket, entry, value)
        }
}

/// Changing a value twice changes it to the second value.
pub broadcast proof fn lemma_changed_twice<K, V, const N: usize>(
    first: HashMapInner<K, V, N>,
    second: HashMapInner<K, V, N>,
    third: HashMapInner<K, V, N>,
    slot: Slot<K, V>,
    interim: V,
    value: V,
)
    requires
        #[trigger] changed(first, second, slot, interim),
        #[trigger] changed(second, third, with_value(slot, interim), value),
    ensures
        changed(first, third, slot, value),
{
    assert(third.contents() =~= first.contents().remove(slot).insert(with_value(slot, value)));
    assert forall|b: int| 0 <= b < first.buckets@.len() implies {
        &&& (#[trigger] third.buckets@[b]).local_depth == first.buckets@[b].local_depth
        &&& third.buckets@[b].slots().len() == first.buckets@[b].slots().len()
    } by {
        assert(second.buckets@[b].local_depth == first.buckets@[b].local_depth);
    }
}

/// Inserting an entry and then changing its value inserts the entry with that value.
pub proof fn lemma_inserted_changed<K, V, const N: usize>(
    first: HashMapInner<K, V, N>,
    second: HashMapInner<K, V, N>,
    third: HashMapInner<K, V, N>,
    hash: u64,
    slot: Slot<K, V>,
    bucket: int,
    value: V,
)
    requires
        first.wf(),
        second.wf(),
        third.wf(),
        inserted(first, second, hash, slot),
        bucket == second.bucket_of(hash),
        0 <= bucket < second.buckets@.len(),
        second.buckets@[bucket].slots().len() > 0,
        is_changed_at(second, third, bucket, second.buckets@[bucket].slots().len() - 1, value),
        changed(second, third, slot, value),
    ensures
        inserted(first, third, hash, with_value(slot, value)),
{
    let (ready, count) = choose|ready: HashMapInner<K, V, N>, count: nat|
        {
            &&& #[trigger] is_split_down(first, ready, hash, count)
            &&& is_pushed(ready, second, ready.bucket_of(hash), slot)
        };
    assert(ready.bucket_of(hash) == bucket);
    let slots = ready.buckets@[bucket].slots();
    assert(third.buckets@[bucket].slots() =~= slots.push(with_value(slot, value)));
    assert(is_pushed(ready, third, bucket, with_value(slot, value)));
    assert(third.contents() =~= first.contents().insert(with_value(slot, value)));
    assert forall|b: int| #[trigger] is_bystander(first, hash, b) implies {
        &&& third.buckets@[b] == first.buckets@[b]
        &&& is_bystander(third, hash, b)
    } by {
        assert(is_bystander(second, hash, b));
    }
}

} // verus!
