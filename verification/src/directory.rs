//! How a directory routes hashes to buckets, and how splitting and merging buckets keeps it right.

use vstd::arithmetic::power2::pow2;
use vstd::prelude::*;

use crate::bits::{
    bit_is_set, exp2, lemma_low_bits_bound, lemma_low_bits_close, lemma_low_bits_coarser,
    lemma_low_bits_nested, lemma_low_bits_next, lemma_low_bits_step, low_bits,
};
use crate::bucket::Bucket;

verus! {

/// The bucket that a directory slot points at.
pub open spec fn target<K, V, const N: usize>(
    directory: Seq<u32>,
    buckets: Seq<Bucket<K, V, N>>,
    slot: int,
) -> Bucket<K, V, N> {
    buckets[directory[slot] as int]
}

/// The depth of the bucket that a directory slot points at.
pub open spec fn target_depth<K, V, const N: usize>(
    directory: Seq<u32>,
    buckets: Seq<Bucket<K, V, N>>,
    slot: int,
) -> nat {
    target(directory, buckets, slot).local_depth as nat
}

/// The routing invariant of extendible hashing.
///
/// A directory of depth `global_depth` has `2^global_depth` slots. Each points at a bucket of the
/// pool that is no deeper than the directory. Two slots point at the same bucket exactly when they
/// agree on as many low-order bits as that bucket is deep.
pub open spec fn routes<K, V, const N: usize>(
    directory: Seq<u32>,
    buckets: Seq<Bucket<K, V, N>>,
    global_depth: nat,
) -> bool {
    &&& directory.len() == pow2(global_depth)
    &&& forall|s: int|
        #![trigger directory[s]]
        0 <= s < directory.len() ==> directory[s] < buckets.len() && target_depth(
            directory,
            buckets,
            s,
        ) <= global_depth
    &&& forall|s: int, t: int|
        #![trigger directory[s], directory[t]]
        0 <= s < directory.len() && 0 <= t < directory.len() ==> (directory[s] == directory[t]
            <==> low_bits(s, target_depth(directory, buckets, s)) == low_bits(
            t,
            target_depth(directory, buckets, s),
        ))
}

/// The placement invariant: an entry is only ever in a bucket whose slots agree with the entry's
/// hash on the bits that the bucket shares.
pub open spec fn placed<K, V, const N: usize>(
    directory: Seq<u32>,
    buckets: Seq<Bucket<K, V, N>>,
) -> bool {
    forall|s: int, i: int|
        #![trigger target(directory, buckets, s).slots()[i]]
        0 <= s < directory.len() && 0 <= i < target(directory, buckets, s).slots().len()
            ==> low_bits(
            target(directory, buckets, s).slots()[i].hash_low as int,
            target_depth(directory, buckets, s),
        ) == low_bits(s, target_depth(directory, buckets, s))
}

/// The directory after doubling: every slot is repeated with one more bit in front.
pub open spec fn doubled(directory: Seq<u32>) -> Seq<u32> {
    directory + directory
}

/// Doubling the directory keeps the invariants: nothing is routed anew.
pub proof fn lemma_doubled<K, V, const N: usize>(
    directory: Seq<u32>,
    buckets: Seq<Bucket<K, V, N>>,
    global_depth: nat,
)
    requires
        routes(directory, buckets, global_depth),
        placed(directory, buckets),
    ensures
        routes(doubled(directory), buckets, global_depth + 1),
        placed(doubled(directory), buckets),
        forall|s: int|
            0 <= s < doubled(directory).len() ==> #[trigger] doubled(directory)[s]
                == directory[low_bits(s, global_depth)],
{
    let wide = doubled(directory);
    vstd::arithmetic::power2::lemma_pow2_unfold(global_depth + 1);
    assert forall|s: int| 0 <= s < wide.len() implies #[trigger] wide[s] == directory[low_bits(
        s,
        global_depth,
    )] && 0 <= low_bits(s, global_depth) < directory.len() by {
        lemma_low_bits_bound(s, global_depth);
    }
    assert forall|s: int, t: int|
        #![trigger wide[s], wide[t]]
        0 <= s < wide.len() && 0 <= t < wide.len() implies (wide[s] == wide[t] <==> low_bits(
        s,
        target_depth(wide, buckets, s),
    ) == low_bits(t, target_depth(wide, buckets, s))) by {
        let s0 = low_bits(s, global_depth);
        let t0 = low_bits(t, global_depth);
        assert(wide[s] == directory[s0]);
        assert(wide[t] == directory[t0]);
        let depth = target_depth(directory, buckets, s0);
        lemma_low_bits_nested(s, depth, global_depth);
        lemma_low_bits_nested(t, depth, global_depth);
    }
    assert forall|s: int, i: int|
        #![trigger target(wide, buckets, s).slots()[i]]
        0 <= s < wide.len() && 0 <= i < target(wide, buckets, s).slots().len() implies low_bits(
        target(wide, buckets, s).slots()[i].hash_low as int,
        target_depth(wide, buckets, s),
    ) == low_bits(s, target_depth(wide, buckets, s)) by {
        let s0 = low_bits(s, global_depth);
        assert(wide[s] == directory[s0]);
        assert(target(directory, buckets, s0).slots()[i] == target(wide, buckets, s).slots()[i]);
        lemma_low_bits_nested(s, target_depth(directory, buckets, s0), global_depth);
    }
}

/// The directory after bucket `old` has been split on bit `depth`: the slots that pointed at it
/// and have the bit set point at `new`.
pub open spec fn split_directory(directory: Seq<u32>, old: u32, new: u32, depth: nat) -> Seq<u32> {
    Seq::new(
        directory.len(),
        |s: int|
            if directory[s] == old && bit_is_set(s, depth) {
                new
            } else {
                directory[s]
            },
    )
}

/// Splitting a bucket keeps the invariants.
pub proof fn lemma_split<K, V, const N: usize>(
    directory: Seq<u32>,
    buckets: Seq<Bucket<K, V, N>>,
    after: Seq<Bucket<K, V, N>>,
    global_depth: nat,
    old: u32,
    new: u32,
)
    requires
        routes(directory, buckets, global_depth),
        placed(directory, buckets),
        buckets.len() <= after.len(),
        old < buckets.len(),
        new < after.len(),
        old != new,
        !directory.contains(new),
        forall|b: int|
            0 <= b < buckets.len() && b != old && b != new ==> #[trigger] after[b] == buckets[b],
        buckets[old as int].local_depth < global_depth,
        after[old as int].local_depth == buckets[old as int].local_depth + 1,
        after[new as int].local_depth == buckets[old as int].local_depth + 1,
        forall|i: int|
            0 <= i < after[old as int].slots().len() ==> buckets[old as int].slots().contains(
                #[trigger] after[old as int].slots()[i],
            ) && !bit_is_set(
                after[old as int].slots()[i].hash_low as int,
                buckets[old as int].local_depth as nat,
            ),
        forall|i: int|
            0 <= i < after[new as int].slots().len() ==> buckets[old as int].slots().contains(
                #[trigger] after[new as int].slots()[i],
            ) && bit_is_set(
                after[new as int].slots()[i].hash_low as int,
                buckets[old as int].local_depth as nat,
            ),
    ensures
        routes(
            split_directory(directory, old, new, buckets[old as int].local_depth as nat),
            after,
            global_depth,
        ),
        placed(
            split_directory(directory, old, new, buckets[old as int].local_depth as nat),
            after,
        ),
{
    let depth = buckets[old as int].local_depth as nat;
    let parted = split_directory(directory, old, new, depth);
    assert forall|s: int| 0 <= s < directory.len() implies #[trigger] directory[s] != new by {
        assert(directory.contains(directory[s]));
    }
    assert forall|s: int, t: int|
        #![trigger parted[s], parted[t]]
        0 <= s < parted.len() && 0 <= t < parted.len() implies (parted[s] == parted[t]
        <==> low_bits(s, target_depth(parted, after, s)) == low_bits(
        t,
        target_depth(parted, after, s),
    )) by {
        assert(directory[s] != new && directory[t] != new);
        if directory[s] == old {
            lemma_low_bits_next(s, depth);
            lemma_low_bits_next(t, depth);
            if low_bits(s, depth + 1) == low_bits(t, depth + 1) {
                lemma_low_bits_coarser(s, t, depth, depth + 1);
            }
        }
    }
    assert forall|s: int, i: int|
        #![trigger target(parted, after, s).slots()[i]]
        0 <= s < parted.len() && 0 <= i < target(parted, after, s).slots().len() implies low_bits(
        target(parted, after, s).slots()[i].hash_low as int,
        target_depth(parted, after, s),
    ) == low_bits(s, target_depth(parted, after, s)) by {
        let slot = target(parted, after, s).slots()[i];
        assert(directory[s] != new);
        if directory[s] == old {
            let j = buckets[old as int].slots().index_of(slot);
            assert(buckets[old as int].slots().contains(slot));
            assert(target(directory, buckets, s).slots()[j] == slot);
            lemma_low_bits_next(s, depth);
            lemma_low_bits_next(slot.hash_low as int, depth);
        } else {
            assert(target(directory, buckets, s).slots()[i] == slot);
        }
    }
}

/// The directory after bucket `gone` has been merged into `kept`.
pub open spec fn merged_directory(directory: Seq<u32>, kept: u32, gone: u32) -> Seq<u32> {
    Seq::new(
        directory.len(),
        |s: int|
            if directory[s] == gone {
                kept
            } else {
                directory[s]
            },
    )
}

/// Merging a bucket with its sibling keeps the invariants. The siblings are the targets of two
/// slots that agree on all but the last of the bits that each of the two buckets shares.
pub proof fn lemma_merge<K, V, const N: usize>(
    directory: Seq<u32>,
    buckets: Seq<Bucket<K, V, N>>,
    after: Seq<Bucket<K, V, N>>,
    global_depth: nat,
    kept_slot: int,
    gone_slot: int,
)
    requires
        routes(directory, buckets, global_depth),
        placed(directory, buckets),
        buckets.len() == after.len(),
        0 <= kept_slot < directory.len(),
        0 <= gone_slot < directory.len(),
        directory[kept_slot] != directory[gone_slot],
        0 < target_depth(directory, buckets, kept_slot),
        target_depth(directory, buckets, kept_slot) == target_depth(
            directory,
            buckets,
            gone_slot,
        ),
        low_bits(kept_slot, (target_depth(directory, buckets, kept_slot) - 1) as nat) == low_bits(
            gone_slot,
            (target_depth(directory, buckets, kept_slot) - 1) as nat,
        ),
        forall|b: int|
            0 <= b < buckets.len() && b != directory[kept_slot] && b != directory[gone_slot]
                ==> #[trigger] after[b] == buckets[b],
        target_depth(directory, after, kept_slot) == target_depth(directory, buckets, kept_slot)
            - 1,
        target(directory, after, kept_slot).slots() == target(
            directory,
            buckets,
            kept_slot,
        ).slots() + target(directory, buckets, gone_slot).slots(),
    ensures
        routes(
            merged_directory(directory, directory[kept_slot], directory[gone_slot]),
            after,
            global_depth,
        ),
        placed(merged_directory(directory, directory[kept_slot], directory[gone_slot]), after),
        !merged_directory(directory, directory[kept_slot], directory[gone_slot]).contains(
            directory[gone_slot],
        ),
{
    let kept = directory[kept_slot];
    let gone = directory[gone_slot];
    let depth = target_depth(directory, buckets, kept_slot);
    let less = (depth - 1) as nat;
    let merged = merged_directory(directory, kept, gone);
    assert(less + 1 == depth);
    lemma_low_bits_next(kept_slot, less);
    lemma_low_bits_next(gone_slot, less);
    assert(low_bits(kept_slot, depth) != low_bits(gone_slot, depth));
    // A slot leads to one of the two buckets exactly when it agrees with them on the shared bits.
    assert forall|s: int| 0 <= s < directory.len() implies (#[trigger] merged[s] == kept
        <==> low_bits(s, less) == low_bits(kept_slot, less)) by {
        lemma_low_bits_next(s, less);
        assert(directory[s] == kept <==> low_bits(s, depth) == low_bits(kept_slot, depth)) by {
            assert(directory[kept_slot] == kept);
        }
        assert(directory[s] == gone <==> low_bits(s, depth) == low_bits(gone_slot, depth)) by {
            assert(directory[gone_slot] == gone);
        }
        if low_bits(s, depth) == low_bits(kept_slot, depth) {
            lemma_low_bits_coarser(s, kept_slot, less, depth);
        }
        if low_bits(s, depth) == low_bits(gone_slot, depth) {
            lemma_low_bits_coarser(s, gone_slot, less, depth);
        }
    }
    assert forall|s: int, t: int|
        #![trigger merged[s], merged[t]]
        0 <= s < merged.len() && 0 <= t < merged.len() implies (merged[s] == merged[t]
        <==> low_bits(s, target_depth(merged, after, s)) == low_bits(
        t,
        target_depth(merged, after, s),
    )) by {
        if merged[s] == kept {
        } else {
            assert(directory[s] == merged[s]);
            assert(after[directory[s] as int] == buckets[directory[s] as int]);
            assert(directory[s] == directory[t] <==> low_bits(
                s,
                target_depth(directory, buckets, s),
            ) == low_bits(t, target_depth(directory, buckets, s)));
        }
    }
    assert forall|s: int, i: int|
        #![trigger target(merged, after, s).slots()[i]]
        0 <= s < merged.len() && 0 <= i < target(merged, after, s).slots().len() implies low_bits(
        target(merged, after, s).slots()[i].hash_low as int,
        target_depth(merged, after, s),
    ) == low_bits(s, target_depth(merged, after, s)) by {
        let slot = target(merged, after, s).slots()[i];
        if merged[s] == kept {
            let first = target(directory, buckets, kept_slot).slots();
            if i < first.len() {
                assert(target(directory, buckets, kept_slot).slots()[i] == slot);
                lemma_low_bits_coarser(slot.hash_low as int, kept_slot, less, depth);
            } else {
                assert(target(directory, buckets, gone_slot).slots()[i - first.len()] == slot);
                lemma_low_bits_coarser(slot.hash_low as int, gone_slot, less, depth);
            }
        } else {
            assert(directory[s] == merged[s]);
            assert(target(directory, buckets, s).slots()[i] == slot);
        }
    }
    assert forall|s: int| 0 <= s < merged.len() implies #[trigger] merged[s] != gone by {}
}

/// Doubles a directory in place.
pub fn double(directory: &mut Vec<u32>)
    ensures
        final(directory)@ == doubled(old(directory)@),
{
    let size: usize = directory.len();
    let mut i: usize = 0;
    while i < size
        invariant
            i <= size == old(directory)@.len(),
            directory@ == old(directory)@ + old(directory)@.take(i as int),
        decreases size - i,
    {
        let bucket: u32 = directory[i];
        directory.push(bucket);
        i += 1;
        assert(directory@ =~= old(directory)@ + old(directory)@.take(i as int));
    }
    assert(old(directory)@.take(i as int) =~= old(directory)@);
}

/// Points all slots whose `depth` low-order bits are `pattern` at `bucket`. Only those slots are
/// visited.
pub fn redirect(directory: &mut Vec<u32>, pattern: u64, depth: u8, bucket: u32)
    requires
        depth <= 32,
        pattern < pow2(depth as nat),
        old(directory)@.len() <= 0x1_0000_0000,
    ensures
        final(directory)@ == Seq::new(
            old(directory)@.len(),
            |s: int|
                if low_bits(s, depth as nat) == pattern {
                    bucket
                } else {
                    old(directory)@[s]
                },
        ),
{
    let step: u64 = exp2(depth);
    let size: u64 = directory.len() as u64;
    let mut slot: u64 = pattern;
    proof {
        lemma_low_bits_bound(pattern as int, depth as nat);
        assert forall|s: int| 0 <= s < pattern implies low_bits(s, depth as nat) != pattern by {
            lemma_low_bits_bound(s, depth as nat);
        }
    }
    while slot < size
        invariant
            depth <= 32,
            step == pow2(depth as nat),
            0 < step <= 0x1_0000_0000,
            size == directory@.len() == old(directory)@.len(),
            size <= 0x1_0000_0000,
            low_bits(slot as int, depth as nat) == pattern,
            forall|s: int|
                0 <= s < size ==> #[trigger] directory@[s] == if s < slot && low_bits(
                    s,
                    depth as nat,
                ) == pattern {
                    bucket
                } else {
                    old(directory)@[s]
                },
            slot < size + step,
        decreases size + step - slot,
    {
        let ghost before = slot as int;
        directory[slot as usize] = bucket;
        slot = slot + step;
        proof {
            lemma_low_bits_step(before, depth as nat);
            assert forall|s: int| before < s < slot implies low_bits(s, depth as nat) != pattern by {
                if low_bits(s, depth as nat) == pattern {
                    lemma_low_bits_close(before, s, depth as nat);
                }
            }
        }
    }
    assert(directory@ =~= Seq::new(
        old(directory)@.len(),
        |s: int|
            if low_bits(s, depth as nat) == pattern {
                bucket
            } else {
                old(directory)@[s]
            },
    ));
}

} // verus!
