//! What a pool of buckets holds, seen as a sequence, a multiset and a map.

use vstd::multiset::Multiset;
use vstd::prelude::*;
use vstd::std_specs::cmp::PartialEqSpec;

use crate::bucket::{with_value, Bucket, Slot};

verus! {

broadcast use {vstd::multiset::group_multiset_axioms, vstd::seq_lib::group_to_multiset_ensures};

/// All slots of a pool of buckets, bucket after bucket.
pub open spec fn pool_slots<K, V, const N: usize>(buckets: Seq<Bucket<K, V, N>>) -> Seq<Slot<K, V>>
    decreases buckets.len(),
{
    if buckets.len() == 0 {
        Seq::empty()
    } else {
        pool_slots(buckets.drop_last()) + buckets.last().slots()
    }
}

/// All slots of a pool of buckets, in no order.
pub open spec fn pool_contents<K, V, const N: usize>(buckets: Seq<Bucket<K, V, N>>) -> Multiset<
    Slot<K, V>,
> {
    pool_slots(buckets).to_multiset()
}

/// The key-value pairs of a sequence of slots.
pub open spec fn pairs<K, V>(slots: Seq<Slot<K, V>>) -> Seq<(K, V)> {
    Seq::new(slots.len(), |i: int| (slots[i].key, slots[i].value))
}

/// All key-value pairs of a pool of buckets, bucket after bucket: the order of iteration.
pub open spec fn pool_pairs<K, V, const N: usize>(buckets: Seq<Bucket<K, V, N>>) -> Seq<(K, V)> {
    pairs(pool_slots(buckets))
}

/// The number of entries in all buckets of a pool.
pub open spec fn total_len<K, V, const N: usize>(buckets: Seq<Bucket<K, V, N>>) -> nat
    decreases buckets.len(),
{
    if buckets.len() == 0 {
        0
    } else {
        total_len(buckets.drop_last()) + buckets.last().slots().len()
    }
}

/// Whether no key occurs in two slots.
pub open spec fn distinct_keys<K, V>(contents: Multiset<Slot<K, V>>) -> bool {
    &&& forall|a: Slot<K, V>| #[trigger] contents.count(a) <= 1
    &&& forall|a: Slot<K, V>, b: Slot<K, V>|
        #[trigger] contents.contains(a) && #[trigger] contents.contains(b) && a.key == b.key ==> a
            == b
}

/// Whether no two slots have keys that are `==`.
pub open spec fn unequal_keys<K: PartialEq, V>(contents: Multiset<Slot<K, V>>) -> bool {
    forall|a: Slot<K, V>, b: Slot<K, V>|
        #[trigger] contents.contains(a) && #[trigger] contents.contains(b) && a.key.eq_spec(&b.key)
            ==> a == b
}

/// The map from keys to values that the slots describe.
pub open spec fn map_of<K, V>(contents: Multiset<Slot<K, V>>) -> Map<K, V> {
    Map::new(
        |key: K| exists|s: Slot<K, V>| #[trigger] contents.contains(s) && s.key == key,
        |key: K| (choose|s: Slot<K, V>| #[trigger] contents.contains(s) && s.key == key).value,
    )
}

/// Whether two sequences of pairs have the same keys, in the same order.
pub open spec fn same_keys<K, V>(before: Seq<(K, V)>, after: Seq<(K, V)>) -> bool {
    &&& after.len() == before.len()
    &&& forall|i: int| 0 <= i < before.len() ==> (#[trigger] after[i]).0 == before[i].0
}

/// Whether two buckets differ in the values of their entries at most.
pub open spec fn is_revalued_bucket<K, V, const N: usize>(
    before: Bucket<K, V, N>,
    after: Bucket<K, V, N>,
) -> bool {
    &&& after.fingerprints == before.fingerprints
    &&& after.local_depth == before.local_depth
    &&& after.hash_low == before.hash_low
    &&& same_keys(before.entries@, after.entries@)
}

/// Whether two pools differ in the values of their entries at most.
pub open spec fn is_revalued<K, V, const N: usize>(
    before: Seq<Bucket<K, V, N>>,
    after: Seq<Bucket<K, V, N>>,
) -> bool {
    &&& after.len() == before.len()
    &&& forall|b: int|
        0 <= b < before.len() ==> is_revalued_bucket(before[b], #[trigger] after[b])
}

/// The slots of two pools side by side are the slots of the one, then those of the other.
pub proof fn lemma_pool_concat<K, V, const N: usize>(
    a: Seq<Bucket<K, V, N>>,
    b: Seq<Bucket<K, V, N>>,
)
    ensures
        pool_slots(a + b) == pool_slots(a) + pool_slots(b),
    decreases b.len(),
{
    if b.len() == 0 {
        assert(a + b =~= a);
        assert(pool_slots(a) + pool_slots(b) =~= pool_slots(a));
    } else {
        lemma_pool_concat(a, b.drop_last());
        assert((a + b).drop_last() =~= a + b.drop_last());
        assert(pool_slots(a + b) =~= pool_slots(a) + pool_slots(b));
    }
}

/// A pool has as many slots as its buckets have entries.
pub proof fn lemma_total_len<K, V, const N: usize>(buckets: Seq<Bucket<K, V, N>>)
    ensures
        pool_slots(buckets).len() == total_len(buckets),
    decreases buckets.len(),
{
    if buckets.len() > 0 {
        lemma_total_len(buckets.drop_last());
    }
}

/// One more bucket adds its slots at the end.
pub proof fn lemma_pool_push<K, V, const N: usize>(
    buckets: Seq<Bucket<K, V, N>>,
    bucket: Bucket<K, V, N>,
)
    ensures
        pool_slots(buckets.push(bucket)) == pool_slots(buckets) + bucket.slots(),
        pool_contents(buckets.push(bucket)) == pool_contents(buckets).add(
            bucket.slots().to_multiset(),
        ),
{
    assert(buckets.push(bucket).drop_last() =~= buckets);
    vstd::seq_lib::lemma_multiset_commutative(pool_slots(buckets), bucket.slots());
}

/// The slots of a pool are those of the first bucket, then those of the others.
pub proof fn lemma_pool_first<K, V, const N: usize>(buckets: Seq<Bucket<K, V, N>>)
    requires
        buckets.len() > 0,
    ensures
        pool_slots(buckets) == buckets.first().slots() + pool_slots(buckets.drop_first()),
{
    let head = seq![buckets.first()];
    assert(head + buckets.drop_first() =~= buckets);
    lemma_pool_concat(head, buckets.drop_first());
    reveal_with_fuel(pool_slots, 2);
    assert(head.drop_last() =~= Seq::empty());
    assert(pool_slots(head) =~= buckets.first().slots());
}

/// The key-value pairs of a pool are those of the first bucket, then those of the others.
pub proof fn lemma_pool_pairs_first<K, V, const N: usize>(buckets: Seq<Bucket<K, V, N>>)
    requires
        buckets.len() > 0,
    ensures
        pool_pairs(buckets) == buckets.first().entries@ + pool_pairs(buckets.drop_first()),
{
    lemma_pool_first(buckets);
    assert(pool_pairs(buckets) =~= buckets.first().entries@ + pool_pairs(buckets.drop_first()));
}

/// The key-value pairs of a pool with one more bucket have those of that bucket last.
pub proof fn lemma_pool_pairs_push<K, V, const N: usize>(
    buckets: Seq<Bucket<K, V, N>>,
    bucket: Bucket<K, V, N>,
)
    ensures
        pool_pairs(buckets.push(bucket)) == pool_pairs(buckets) + bucket.entries@,
{
    lemma_pool_push(buckets, bucket);
    assert(pool_pairs(buckets.push(bucket)) =~= pool_pairs(buckets) + bucket.entries@);
}

/// A pool in which only values have changed has the same slots but for those values.
pub proof fn lemma_pool_revalued<K, V, const N: usize>(
    before: Seq<Bucket<K, V, N>>,
    after: Seq<Bucket<K, V, N>>,
)
    requires
        is_revalued(before, after),
    ensures
        pool_slots(after).len() == pool_slots(before).len(),
        forall|i: int|
            0 <= i < pool_slots(before).len() ==> #[trigger] pool_slots(after)[i] == with_value(
                pool_slots(before)[i],
                pool_slots(after)[i].value,
            ),
    decreases before.len(),
{
    if before.len() > 0 {
        lemma_pool_revalued(before.drop_last(), after.drop_last());
        let b = before.len() - 1;
        assert(is_revalued_bucket(before[b], after[b]));
        assert forall|i: int| 0 <= i < before[b].slots().len() implies #[trigger] after[b].slots()[i]
            == with_value(before[b].slots()[i], after[b].slots()[i].value) by {
            assert(after[b].entries@[i].0 == before[b].entries@[i].0);
        }
    }
}

/// Replacing one bucket exchanges its slots for the new ones.
pub proof fn lemma_pool_update<K, V, const N: usize>(
    buckets: Seq<Bucket<K, V, N>>,
    index: int,
    bucket: Bucket<K, V, N>,
)
    requires
        0 <= index < buckets.len(),
    ensures
        buckets[index].slots().to_multiset().subset_of(pool_contents(buckets)),
        pool_contents(buckets.update(index, bucket)) == pool_contents(buckets).sub(
            buckets[index].slots().to_multiset(),
        ).add(bucket.slots().to_multiset()),
    decreases buckets.len(),
{
    let updated = buckets.update(index, bucket);
    vstd::seq_lib::lemma_multiset_commutative(
        pool_slots(buckets.drop_last()),
        buckets.last().slots(),
    );
    vstd::seq_lib::lemma_multiset_commutative(
        pool_slots(updated.drop_last()),
        updated.last().slots(),
    );
    if index == buckets.len() - 1 {
        assert(updated.drop_last() =~= buckets.drop_last());
    } else {
        assert(updated.drop_last() =~= buckets.drop_last().update(index, bucket));
        lemma_pool_update(buckets.drop_last(), index, bucket);
    }
    assert(pool_contents(updated) =~= pool_contents(buckets).sub(
        buckets[index].slots().to_multiset(),
    ).add(bucket.slots().to_multiset()));
}

/// A slot is in the pool when it is in one of the buckets.
pub proof fn lemma_pool_contains<K, V, const N: usize>(
    buckets: Seq<Bucket<K, V, N>>,
    slot: Slot<K, V>,
)
    ensures
        pool_contents(buckets).contains(slot) <==> exists|b: int|
            0 <= b < buckets.len() && #[trigger] buckets[b].slots().contains(slot),
    decreases buckets.len(),
{
    if buckets.len() > 0 {
        let front = buckets.drop_last();
        lemma_pool_contains(front, slot);
        vstd::seq_lib::lemma_multiset_commutative(pool_slots(front), buckets.last().slots());
        if pool_contents(buckets).contains(slot) {
            if pool_contents(front).contains(slot) {
                let b = choose|b: int|
                    0 <= b < front.len() && #[trigger] front[b].slots().contains(slot);
                assert(buckets[b].slots().contains(slot));
            } else {
                assert(buckets[buckets.len() - 1].slots().contains(slot));
            }
        }
        if exists|b: int| 0 <= b < buckets.len() && #[trigger] buckets[b].slots().contains(slot) {
            let b = choose|b: int|
                0 <= b < buckets.len() && #[trigger] buckets[b].slots().contains(slot);
            if b < front.len() {
                assert(front[b].slots().contains(slot));
            }
        }
    }
}

/// A pool whose buckets are all empty holds nothing.
pub proof fn lemma_pool_empty<K, V, const N: usize>(buckets: Seq<Bucket<K, V, N>>)
    requires
        forall|b: int| 0 <= b < buckets.len() ==> (#[trigger] buckets[b]).slots().len() == 0,
    ensures
        pool_slots(buckets) == Seq::<Slot<K, V>>::empty(),
        pool_contents(buckets) == Multiset::<Slot<K, V>>::empty(),
    decreases buckets.len(),
{
    if buckets.len() > 0 {
        lemma_pool_empty(buckets.drop_last());
        assert(buckets[buckets.len() - 1].slots().len() == 0);
    }
    assert(pool_slots(buckets) =~= Seq::empty());
}

/// Under distinct keys, a slot is what the map says of its key.
pub proof fn lemma_map_of_slot<K, V>(contents: Multiset<Slot<K, V>>, slot: Slot<K, V>)
    requires
        distinct_keys(contents),
        contents.contains(slot),
    ensures
        map_of(contents).contains_key(slot.key),
        map_of(contents)[slot.key] == slot.value,
{
    let found = choose|s: Slot<K, V>| #[trigger] contents.contains(s) && s.key == slot.key;
    assert(contents.contains(found) && found.key == slot.key);
}

/// The slot that gives a key its value.
pub proof fn lemma_slot_of_key<K, V>(contents: Multiset<Slot<K, V>>, key: K) -> (slot: Slot<K, V>)
    requires
        map_of(contents).contains_key(key),
    ensures
        contents.contains(slot),
        slot.key == key,
        slot.value == map_of(contents)[key],
{
    choose|s: Slot<K, V>| #[trigger] contents.contains(s) && s.key == key
}

pub proof fn lemma_map_of_empty<K, V>()
    ensures
        distinct_keys(Multiset::<Slot<K, V>>::empty()),
        map_of(Multiset::<Slot<K, V>>::empty()) == Map::<K, V>::empty(),
{
    assert(map_of(Multiset::<Slot<K, V>>::empty()) =~= Map::empty());
}

/// Adding a slot with a new key inserts into the map.
pub proof fn lemma_map_of_insert<K, V>(contents: Multiset<Slot<K, V>>, slot: Slot<K, V>)
    requires
        distinct_keys(contents),
        !map_of(contents).contains_key(slot.key),
    ensures
        distinct_keys(contents.insert(slot)),
        map_of(contents.insert(slot)) == map_of(contents).insert(slot.key, slot.value),
{
    let after = contents.insert(slot);
    assert forall|a: Slot<K, V>| #[trigger] after.contains(a) implies contents.contains(a) || a
        == slot by {}
    assert(forall|a: Slot<K, V>| #[trigger] contents.contains(a) ==> a.key != slot.key);
    assert(forall|a: Slot<K, V>| #[trigger] contents.contains(a) ==> after.contains(a));
    assert(after.contains(slot));
    assert(!contents.contains(slot));
    assert forall|a: Slot<K, V>| #[trigger] after.count(a) <= 1 by {
        assert(contents.count(a) <= 1);
    }
    assert(distinct_keys(after));
    let left = map_of(after);
    let right = map_of(contents).insert(slot.key, slot.value);
    assert forall|key: K| left.contains_key(key) == right.contains_key(key) by {
        if left.contains_key(key) {
            let s = lemma_slot_of_key(after, key);
        }
        if map_of(contents).contains_key(key) {
            let s = lemma_slot_of_key(contents, key);
            assert(after.contains(s));
        }
    }
    assert forall|key: K| left.contains_key(key) implies left[key] == right[key] by {
        let s = lemma_slot_of_key(after, key);
        lemma_map_of_slot(after, s);
        if s != slot {
            assert(contents.contains(s));
            lemma_map_of_slot(contents, s);
        }
    }
    assert(left =~= right);
}

/// Removing a slot removes its key from the map.
pub proof fn lemma_map_of_remove<K, V>(contents: Multiset<Slot<K, V>>, slot: Slot<K, V>)
    requires
        distinct_keys(contents),
        contents.contains(slot),
    ensures
        distinct_keys(contents.remove(slot)),
        map_of(contents.remove(slot)) == map_of(contents).remove(slot.key),
        !map_of(contents.remove(slot)).contains_key(slot.key),
        contents.remove(slot).insert(slot) == contents,
{
    let after = contents.remove(slot);
    assert(contents.count(slot) == 1);
    assert forall|a: Slot<K, V>| #[trigger] after.contains(a) <==> contents.contains(a) && a
        != slot by {
        assert(contents.count(a) <= 1);
    }
    assert forall|a: Slot<K, V>| #[trigger] after.count(a) <= 1 by {
        assert(contents.count(a) <= 1);
    }
    assert(distinct_keys(after));
    let left = map_of(after);
    let right = map_of(contents).remove(slot.key);
    assert forall|key: K| left.contains_key(key) == right.contains_key(key) by {
        if left.contains_key(key) {
            let s = lemma_slot_of_key(after, key);
            assert(contents.contains(s));
        }
        if right.contains_key(key) {
            let s = lemma_slot_of_key(contents, key);
            assert(after.contains(s));
        }
    }
    assert forall|key: K| left.contains_key(key) implies left[key] == right[key] by {
        let s = lemma_slot_of_key(after, key);
        lemma_map_of_slot(after, s);
        lemma_map_of_slot(contents, s);
    }
    assert(left =~= right);
    assert(contents.remove(slot).insert(slot) =~= contents);
}

/// Changing the value in a slot changes what the map gives for its key.
pub proof fn lemma_map_of_replace<K, V>(
    contents: Multiset<Slot<K, V>>,
    slot: Slot<K, V>,
    value: V,
)
    requires
        distinct_keys(contents),
        contents.contains(slot),
    ensures
        distinct_keys(contents.remove(slot).insert(with_value(slot, value))),
        map_of(contents.remove(slot).insert(with_value(slot, value))) == map_of(contents).insert(
            slot.key,
            value,
        ),
{
    lemma_map_of_remove(contents, slot);
    lemma_map_of_insert(contents.remove(slot), with_value(slot, value));
    assert(map_of(contents).remove(slot.key).insert(slot.key, value) =~= map_of(contents).insert(
        slot.key,
        value,
    ));
}

/// Changing a value keeps the keys unequal.
pub proof fn lemma_unequal_replace<K: PartialEq, V>(
    contents: Multiset<Slot<K, V>>,
    slot: Slot<K, V>,
    value: V,
)
    requires
        distinct_keys(contents),
        unequal_keys(contents),
        contents.contains(slot),
    ensures
        unequal_keys(contents.remove(slot).insert(with_value(slot, value))),
{
    let changed = with_value(slot, value);
    let after = contents.remove(slot).insert(changed);
    assert forall|a: Slot<K, V>, b: Slot<K, V>| #[trigger]
        after.contains(a) && #[trigger] after.contains(b) && a.key.eq_spec(&b.key) implies a
        == b by {
        assert(contents.count(slot) <= 1);
        let a_before = if a == changed {
            slot
        } else {
            a
        };
        let b_before = if b == changed {
            slot
        } else {
            b
        };
        assert(contents.contains(a_before) && contents.contains(b_before));
    }
}

/// Under distinct keys there are as many keys as slots.
pub proof fn lemma_map_of_len<K, V>(contents: Multiset<Slot<K, V>>)
    requires
        distinct_keys(contents),
    ensures
        map_of(contents).dom().finite(),
        map_of(contents).len() == contents.len(),
    decreases contents.len(),
{
    if contents.len() == 0 {
        assert(contents =~= Multiset::empty()) by {
            assert forall|a: Slot<K, V>| contents.count(a) == 0 by {
                assert(contents.count(a) <= contents.len());
            }
        }
        lemma_map_of_empty::<K, V>();
        assert(map_of(contents).dom() =~= Set::empty());
    } else {
        let slot = contents.choose();
        assert(contents.contains(slot));
        lemma_map_of_remove(contents, slot);
        assert(contents.remove(slot).len() == contents.len() - 1);
        lemma_map_of_len(contents.remove(slot));
        lemma_map_of_slot(contents, slot);
        assert(map_of(contents).dom() =~= map_of(contents.remove(slot)).dom().insert(slot.key));
    }
}

/// Parting a sequence by a predicate loses and adds nothing.
pub proof fn lemma_filter_parts<A>(s: Seq<A>, keep: spec_fn(A) -> bool, drop: spec_fn(A) -> bool)
    requires
        forall|a: A| #[trigger] drop(a) == !keep(a),
    ensures
        s.filter(keep).to_multiset().add(s.filter(drop).to_multiset()) == s.to_multiset(),
    decreases s.len(),
{
    reveal(Seq::filter);
    if s.len() > 0 {
        let front = s.drop_last();
        lemma_filter_parts(front, keep, drop);
        assert(front.push(s.last()) =~= s);
        assert(drop(s.last()) == !keep(s.last()));
    }
    assert(s.filter(keep).to_multiset().add(s.filter(drop).to_multiset()) =~= s.to_multiset());
}

/// No key occurs twice in a sequence of slots when no two of them have the same key.
pub proof fn lemma_distinct_keys_seq<K, V>(slots: Seq<Slot<K, V>>)
    ensures
        distinct_keys(slots.to_multiset()) <==> forall|i: int, j: int|
            0 <= i < slots.len() && 0 <= j < slots.len() && i != j ==> (#[trigger] slots[i]).key != (
            #[trigger] slots[j]).key,
{
    let contents = slots.to_multiset();
    if distinct_keys(contents) {
        slots.lemma_multiset_has_no_duplicates_conv();
        assert forall|i: int, j: int|
            0 <= i < slots.len() && 0 <= j < slots.len() && i != j implies (#[trigger] slots[i]).key
            != (#[trigger] slots[j]).key by {
            assert(contents.contains(slots[i]) && contents.contains(slots[j]));
        }
    }
    if forall|i: int, j: int|
        0 <= i < slots.len() && 0 <= j < slots.len() && i != j ==> (#[trigger] slots[i]).key != (
        #[trigger] slots[j]).key {
        assert(slots.no_duplicates());
        slots.lemma_multiset_has_no_duplicates();
        assert forall|a: Slot<K, V>| #[trigger] contents.count(a) <= 1 by {
            if contents.count(a) > 0 {
                assert(contents.contains(a));
            }
        }
        assert forall|a: Slot<K, V>, b: Slot<K, V>|
            #[trigger] contents.contains(a) && #[trigger] contents.contains(b) && a.key
                == b.key implies a == b by {
            assert(slots[slots.index_of(a)] == a);
            assert(slots[slots.index_of(b)] == b);
        }
    }
}

/// The key-value pairs of a pool are the pairs of the map that it describes, each of them once.
pub proof fn lemma_pairs<K, V, const N: usize>(buckets: Seq<Bucket<K, V, N>>)
    requires
        distinct_keys(pool_contents(buckets)),
    ensures
        pool_pairs(buckets).len() == map_of(pool_contents(buckets)).len(),
        forall|i: int|
            0 <= i < pool_pairs(buckets).len() ==> {
                &&& map_of(pool_contents(buckets)).contains_key((#[trigger] pool_pairs(buckets)[i]).0)
                &&& map_of(pool_contents(buckets))[pool_pairs(buckets)[i].0]
                    == pool_pairs(buckets)[i].1
            },
        forall|key: K| #[trigger]
            map_of(pool_contents(buckets)).contains_key(key) ==> pool_pairs(buckets).contains(
                (key, map_of(pool_contents(buckets))[key]),
            ),
        forall|i: int, j: int|
            0 <= i < pool_pairs(buckets).len() && 0 <= j < pool_pairs(buckets).len() && i != j ==> (
            #[trigger] pool_pairs(buckets)[i]).0 != (#[trigger] pool_pairs(buckets)[j]).0,
{
    let slots = pool_slots(buckets);
    let contents = pool_contents(buckets);
    lemma_distinct_keys_seq(slots);
    lemma_map_of_len(contents);
    assert forall|i: int| 0 <= i < pool_pairs(buckets).len() implies {
        &&& map_of(contents).contains_key((#[trigger] pool_pairs(buckets)[i]).0)
        &&& map_of(contents)[pool_pairs(buckets)[i].0] == pool_pairs(buckets)[i].1
    } by {
        assert(contents.contains(slots[i]));
        lemma_map_of_slot(contents, slots[i]);
    }
    assert forall|key: K| #[trigger] map_of(contents).contains_key(key) implies pool_pairs(
        buckets,
    ).contains((key, map_of(contents)[key])) by {
        let slot = lemma_slot_of_key(contents, key);
        let i = slots.index_of(slot);
        assert(pool_pairs(buckets)[i] == (key, map_of(contents)[key]));
    }
    assert forall|i: int, j: int|
        0 <= i < pool_pairs(buckets).len() && 0 <= j < pool_pairs(buckets).len() && i != j implies (
    #[trigger] pool_pairs(buckets)[i]).0 != (#[trigger] pool_pairs(buckets)[j]).0 by {
        assert(slots[i].key != slots[j].key);
    }
}

/// Moving the last element into a place and dropping it from the end removes what was in the place.
pub proof fn lemma_swap_remove<A>(s: Seq<A>, index: int)
    requires
        0 <= index < s.len(),
    ensures
        s.update(index, s.last()).drop_last().to_multiset() == s.to_multiset().remove(s[index]),
{
    let moved = s.update(index, s.last());
    assert(moved.drop_last().push(s.last()) =~= moved);
    assert(s.to_multiset().count(s[index]) > 0);
    assert(moved.to_multiset() == moved.drop_last().to_multiset().insert(s.last()));
    assert(moved.to_multiset() == s.to_multiset().insert(s.last()).remove(s[index]));
    assert forall|a: A| moved.drop_last().to_multiset().count(a) == s.to_multiset().remove(
        s[index],
    ).count(a) by {
        assert(moved.to_multiset().count(a) == moved.drop_last().to_multiset().insert(
            s.last(),
        ).count(a));
    }
    assert(moved.drop_last().to_multiset() =~= s.to_multiset().remove(s[index]));
}

} // verus!
