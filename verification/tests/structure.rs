//! The structure of the table: splits, merges and the directory.

use std::collections::hash_map::DefaultHasher;
use std::hash::BuildHasherDefault;

use astenn::{HashMap, DEFAULT_BUCKET_CAPACITY};

struct IdentityHasher(u64);

impl std::hash::Hasher for IdentityHasher {
    fn finish(&self) -> u64 {
        self.0
    }
    fn write(&mut self, bytes: &[u8]) {
        self.0 = 0;
        for (i, &b) in bytes.iter().enumerate().take(8) {
            self.0 |= (b as u64) << (i * 8);
        }
    }
}

#[derive(Clone, Default)]
struct IdentityBuildHasher;

impl std::hash::BuildHasher for IdentityBuildHasher {
    type Hasher = IdentityHasher;
    fn build_hasher(&self) -> IdentityHasher {
        IdentityHasher(0)
    }
}

fn identity_map() -> HashMap<u64, u64, IdentityBuildHasher, DEFAULT_BUCKET_CAPACITY> {
    HashMap::with_hasher(IdentityBuildHasher)
}

/// A map with the standard hasher under fixed keys: how many buckets a set of keys needs then does
/// not vary from run to run.
fn fixed_map() -> HashMap<u64, u64, BuildHasherDefault<DefaultHasher>, DEFAULT_BUCKET_CAPACITY> {
    HashMap::with_hasher(BuildHasherDefault::default())
}

#[test]
fn split_distributes_by_next_bit() {
    let mut map = identity_map();
    for i in 0u64..8 {
        map.insert(i * 2, i);
    }
    assert_eq!(map.inner.global_depth, 0);
    map.insert(1, 100);
    assert!(map.inner.global_depth >= 1);
    assert_eq!(map.len(), 9);
    assert_eq!(map[&1], 100);
    for i in 0u64..8 {
        assert_eq!(map[&(i * 2)], i);
    }
}

#[test]
fn split_directory_pointers_correct() {
    let mut map = identity_map();
    for i in 0u64..64 {
        map.insert(i, i * 7);
    }
    assert_eq!(map.len(), 64);
    for i in 0u64..64 {
        assert_eq!(map.get(&i), Some(&(i * 7)), "missing key {i}");
    }
    assert_eq!(map.inner.directory.len(), 1 << map.inner.global_depth);
    for &bi in &map.inner.directory {
        let bi = bi as usize;
        assert!(bi < map.inner.buckets.len());
        assert!(map.inner.buckets[bi].local_depth <= map.inner.global_depth);
    }
}

#[test]
fn split_all_same_low_bits_forces_repeated_splits() {
    let mut map = identity_map();
    let keys: Vec<u64> = (0..9).map(|i| 5 + i * 8).collect();
    for &k in &keys {
        map.insert(k, k);
    }
    assert_eq!(map.len(), 9);
    for &k in &keys {
        assert_eq!(map[&k], k);
    }
}

#[test]
fn targeted_directory_update_with_deep_split() {
    let mut map = identity_map();
    for i in 0u64..64 {
        map.insert(i, i);
    }
    let gd_after_phase1 = map.inner.global_depth;
    for i in 64u64..264 {
        map.insert(i, i);
    }
    assert_eq!(map.len(), 264);
    for i in 0u64..264 {
        assert_eq!(
            map.get(&i),
            Some(&i),
            "missing key {i} (gd was {gd_after_phase1}, now {})",
            map.inner.global_depth
        );
    }
    let dir_size = map.inner.directory.len();
    assert_eq!(dir_size, 1 << map.inner.global_depth);
    for slot in 0..dir_size {
        let bi = map.inner.directory[slot] as usize;
        assert!(
            bi < map.inner.buckets.len(),
            "slot {slot} -> invalid bucket {bi}"
        );
        let bucket = &map.inner.buckets[bi];
        assert!(
            bucket.local_depth <= map.inner.global_depth,
            "bucket {bi} local_depth {} > global_depth {}",
            bucket.local_depth,
            map.inner.global_depth
        );
        let local_mask = (1usize << bucket.local_depth) - 1;
        for i in 0..bucket.len() {
            let hash_low = bucket.hash_low[i];
            assert_eq!(
                hash_low as usize & local_mask,
                slot & local_mask,
                "entry with hash_low {hash_low:#x} in bucket {bi} (slot {slot}) violates local_depth {} prefix",
                bucket.local_depth
            );
        }
    }
}

#[test]
fn all_entries_counted_once_via_bucket_pool() {
    let mut map = identity_map();
    for i in 0u64..500 {
        map.insert(i, i);
    }
    let iter_count = map.iter().count();
    assert_eq!(iter_count, 500);
    assert_eq!(iter_count, map.len());
    let pool_count: usize = map.inner.buckets.iter().map(|b| b.len()).sum();
    assert_eq!(pool_count, 500);
}

/// Inserting enough to force splits, then removing all entries, should
/// drain entries (`len` goes to 0) AND recycle the now-empty buckets
/// onto the freelist so the pool's live bucket count returns toward
/// the initial allocation. Without merge, the pool monotonically
/// grows even when the map is empty.
#[test]
fn merge_after_full_drain_recycles_buckets() {
    let mut map = fixed_map();
    // Insert enough to cause many splits.
    for i in 0u64..1000 {
        map.insert(i, i);
    }
    let live_buckets_before_remove = map.inner.buckets.len() - map.inner.freelist.len();
    assert!(
        live_buckets_before_remove > 1,
        "expected splits to have grown the pool, got {} live buckets",
        live_buckets_before_remove,
    );

    for i in 0u64..1000 {
        map.remove(&i);
    }
    assert_eq!(map.len(), 0);

    // After draining, the freelist should hold most of what splits
    // allocated, only a small constant (1-2) of live buckets should
    // remain in the directory.
    let live_buckets_after_remove = map.inner.buckets.len() - map.inner.freelist.len();
    assert!(
        live_buckets_after_remove <= 2,
        "expected merge to recycle buckets, but {} are still live",
        live_buckets_after_remove,
    );
}

/// Under a high-churn workload (each key inserted then removed once,
/// with unique keys), the bucket pool should stay bounded, the
/// classic motivating case for merge. Without it, the pool grows in
/// proportion to total inserts, not live count.
#[test]
fn merge_bounds_pool_under_high_churn() {
    let mut map = HashMap::new();
    // 100 cycles of "insert a batch, then delete that batch" with
    // unique keys per cycle. Total inserts = 10,000; live count
    // stays at most ~100 at any moment.
    for cycle in 0u64..100 {
        let base = cycle * 100;
        for i in 0..100 {
            map.insert(base + i, base + i);
        }
        for i in 0..100 {
            map.remove(&(base + i));
        }
    }
    assert_eq!(map.len(), 0);

    // Without merge, the pool would grow to ~1250+ buckets
    // (extendible-hashing-under-churn pathology). With merge, the
    // live bucket count stays bounded by what's needed for the peak
    // live size (~100 entries -> ~13 buckets at N=8 with full
    // occupancy, plus some slack).
    let live_buckets = map.inner.buckets.len() - map.inner.freelist.len();
    assert!(
        live_buckets < 64,
        "expected merge to bound the pool, got {} live buckets",
        live_buckets,
    );
}

/// After a merge, lookups for surviving entries must still work and
/// every directory slot must point to a bucket whose local_depth is
/// consistent with the slot's hash prefix.
#[test]
fn merge_preserves_directory_invariants() {
    let mut map = HashMap::new();
    for i in 0u64..500 {
        map.insert(i, i);
    }
    // Remove half, many of the resulting empty buckets should merge.
    for i in 0u64..250 {
        map.remove(&i);
    }
    assert_eq!(map.len(), 250);

    // Surviving entries are still findable.
    for i in 250u64..500 {
        assert_eq!(map.get(&i), Some(&i), "surviving key {i} lost after merge",);
    }

    // Directory invariants: every slot points to a valid bucket; bucket's
    // local_depth matches the slot's hash prefix (slot & local_mask must
    // equal the bucket's hash_low prefix for every entry in it).
    let dir_size = map.inner.directory.len();
    let freelist: std::collections::HashSet<u32> = map.inner.freelist.iter().copied().collect();
    for slot in 0..dir_size {
        let bi = map.inner.directory[slot] as usize;
        assert!(bi < map.inner.buckets.len(), "slot {slot} -> bad bi {bi}");
        assert!(
            !freelist.contains(&(bi as u32)),
            "slot {slot} points to freed bucket {bi}",
        );
        let bucket = &map.inner.buckets[bi];
        let local_mask = (1usize << bucket.local_depth) - 1;
        for i in 0..bucket.len() {
            let hash_low = bucket.hash_low[i] as usize;
            assert_eq!(
                hash_low & local_mask,
                slot & local_mask,
                "slot {slot} -> bucket {bi} entry {i} hash mismatch",
            );
        }
    }
}

/// Re-inserting keys after a merge cycle must reuse freelist slots
/// before extending the pool, otherwise merge would be cosmetic.
#[test]
fn merge_freelist_reused_by_subsequent_splits() {
    let mut map = fixed_map();
    for i in 0u64..1000 {
        map.insert(i, i);
    }
    let pool_after_insert = map.inner.buckets.len();
    for i in 0u64..1000 {
        map.remove(&i);
    }
    let freelist_after_remove = map.inner.freelist.len();
    assert!(
        freelist_after_remove > 0,
        "expected merges to have populated the freelist",
    );

    // Re-insert: future splits should pop from the freelist first.
    for i in 1000u64..2000 {
        map.insert(i, i);
    }
    let pool_after_reinsert = map.inner.buckets.len();
    assert!(
        pool_after_reinsert <= pool_after_insert + 1,
        "pool grew during reinsert ({} -> {}) instead of reusing freelist",
        pool_after_insert,
        pool_after_reinsert,
    );
    // All reinserts present.
    for i in 1000u64..2000 {
        assert_eq!(map[&i], i);
    }
}
