//! Removing the entries that a predicate rejects.

use std::hash::{BuildHasher, Hash};

use vstd::prelude::*;
use vstd::std_specs::cmp::PartialEqSpec;

use crate::bits::low_bits;
use crate::bucket::{with_value, Bucket, Slot};
use crate::contents::{
    lemma_distinct_keys_seq, lemma_map_of_slot, lemma_pool_contains, lemma_pool_push,
    lemma_pool_update, lemma_slot_of_key, lemma_swap_remove, pool_contents, pool_slots,
};
use crate::directory::target;
use crate::hashing::consistent;
use crate::inner::{lemma_exchange, HashMapInner};
use crate::map::{lemma_slot_hashed, slot_hashed, HashMap};
use crate::steps::same_layout;

verus! {

broadcast use {vstd::multiset::group_multiset_axioms, vstd::seq_lib::group_to_multiset_ensures};

/// What a predicate made of an entry: whether it is kept, and the value that the predicate left in
/// it.
pub struct Fate<K, V> {
    pub slot: Slot<K, V>,
    pub keep: bool,
    pub value: V,
}

/// Whether the predicate can be called on an entry.
pub open spec fn accepts<K, V, F: FnMut(&K, &mut V) -> bool>(f: F, slot: Slot<K, V>) -> bool {
    forall|k: &K, v: &mut V|
        *k == slot.key && *v == slot.value ==> #[trigger] call_requires(f, (k, v))
}

/// The entries that the predicate has seen, in the order in which it saw them.
pub open spec fn seen<K, V>(fates: Seq<Fate<K, V>>) -> Seq<Slot<K, V>> {
    Seq::new(fates.len(), |i: int| fates[i].slot)
}

/// The entries that the predicate has kept, with their new values.
pub open spec fn kept<K, V>(fates: Seq<Fate<K, V>>) -> Seq<Slot<K, V>>
    decreases fates.len(),
{
    if fates.len() == 0 {
        Seq::empty()
    } else if fates.last().keep {
        kept(fates.drop_last()).push(with_value(fates.last().slot, fates.last().value))
    } else {
        kept(fates.drop_last())
    }
}

/// One more fate adds its entry to those seen and, if it is kept, to those kept.
pub proof fn law_fates<K, V>(fates: Seq<Fate<K, V>>, fate: Fate<K, V>)
    ensures
        seen(fates.push(fate)) == seen(fates).push(fate.slot),
        kept(fates.push(fate)) == if fate.keep {
            kept(fates).push(with_value(fate.slot, fate.value))
        } else {
            kept(fates)
        },
{
    assert(fates.push(fate).drop_last() =~= fates);
    assert(seen(fates.push(fate)) =~= seen(fates).push(fate.slot));
}

/// Dropping the first element of a sequence removes it.
proof fn lemma_take_first<A>(s: Seq<A>)
    requires
        s.len() > 0,
    ensures
        s.drop_first().to_multiset() == s.to_multiset().remove(s[0]),
        s.to_multiset().count(s[0]) > 0,
{
    assert(s.remove(0) =~= s.drop_first());
    assert(s.contains(s[0]));
}

impl<K, V, const N: usize> Bucket<K, V, N> {
    /// Removes the entries that the predicate rejects. Returns the predicate, and what it made of
    /// each entry.
    fn retain<F>(&mut self, predicate: F) -> (outcome: (F, Ghost<Seq<Fate<K, V>>>)) where
        F: FnMut(&K, &mut V) -> bool,

        requires
            old(self).wf(),
            forall|j: int|
                0 <= j < old(self).slots().len() ==> accepts(
                    predicate,
                    #[trigger] old(self).slots()[j],
                ),
        ensures
            outcome.0 == predicate,
            final(self).wf(),
            final(self).local_depth == old(self).local_depth,
            seen(outcome.1@).to_multiset() == old(self).slots().to_multiset(),
            final(self).slots() == kept(outcome.1@),
            forall|i: int|
                #![trigger outcome.1@[i]]
                0 <= i < outcome.1@.len() ==> exists|k: &K, v: &mut V, keep: bool|
                    {
                        &&& *k == outcome.1@[i].slot.key
                        &&& *v == outcome.1@[i].slot.value
                        &&& *final(v) == outcome.1@[i].value
                        &&& keep == outcome.1@[i].keep
                        &&& #[trigger] call_ensures(predicate, (k, v), keep)
                    },
    {
        let mut f = predicate;
        let mut i: usize = 0;
        let ghost mut fates: Seq<Fate<K, V>> = Seq::empty();
        assert(self.slots().skip(0) =~= self.slots());
        assert(self.slots().take(0) =~= kept(fates));
        assert(seen(fates).to_multiset().add(self.slots().skip(0).to_multiset())
            =~= self.slots().to_multiset());
        while i < self.entries.len()
            invariant
                f == predicate,
                forall|j: int|
                    i <= j < self.slots().len() ==> accepts(
                        predicate,
                        #[trigger] self.slots()[j],
                    ),
                i <= self.entries@.len(),
                self.wf(),
                self.local_depth == old(self).local_depth,
                self.slots().take(i as int) == kept(fates),
                seen(fates).to_multiset().add(self.slots().skip(i as int).to_multiset()) == old(
                    self,
                ).slots().to_multiset(),
                forall|j: int|
                    #![trigger fates[j]]
                    0 <= j < fates.len() ==> exists|k: &K, v: &mut V, keep: bool|
                        {
                            &&& *k == fates[j].slot.key
                            &&& *v == fates[j].slot.value
                            &&& *final(v) == fates[j].value
                            &&& keep == fates[j].keep
                            &&& #[trigger] call_ensures(predicate, (k, v), keep)
                        },
            decreases self.entries@.len() - i,
        {
            let ghost before = self.slots();
            let ghost slot = before[i as int];
            let entry = &mut self.entries[i];
            let keep = f(&entry.0, &mut entry.1);
            let ghost value = self.entries@[i as int].1;
            let ghost fate = Fate { slot, keep, value };
            assert(exists|k: &K, v: &mut V, keep: bool|
                {
                    &&& *k == fate.slot.key
                    &&& *v == fate.slot.value
                    &&& *final(v) == fate.value
                    &&& keep == fate.keep
                    &&& #[trigger] call_ensures(predicate, (k, v), keep)
                });
            let ghost changed = self.slots();
            let ghost left = before.skip(i as int);
            assert(changed =~= before.update(i as int, with_value(slot, value)));
            proof {
                law_fates(fates, fate);
                lemma_take_first(left);
                lemma_swap_remove(left, 0);
                fates = fates.push(fate);
            }
            if keep {
                i += 1;
                assert(self.slots().take(i as int) =~= kept(fates));
                assert(self.slots().skip(i as int) =~= left.drop_first());
            } else {
                self.swap_remove(i);
                assert(self.slots().take(i as int) =~= kept(fates));
                assert(self.slots().skip(i as int) =~= left.update(0, left.last()).drop_last());
            }
            assert(seen(fates).to_multiset().add(self.slots().skip(i as int).to_multiset())
                =~= old(self).slots().to_multiset());
        }
        assert(self.slots().skip(i as int) =~= Seq::empty());
        assert(self.slots().take(i as int) =~= self.slots());
        assert(seen(fates).to_multiset() =~= old(self).slots().to_multiset());
        (f, Ghost(fates))
    }
}

/// What is seen and kept in two rounds is what is seen and kept in the one, then in the other.
proof fn lemma_fates_concat<K, V>(first: Seq<Fate<K, V>>, second: Seq<Fate<K, V>>)
    ensures
        seen(first + second) == seen(first) + seen(second),
        kept(first + second) == kept(first) + kept(second),
    decreases second.len(),
{
    assert(seen(first + second) =~= seen(first) + seen(second));
    if second.len() == 0 {
        assert(first + second =~= first);
        assert(kept(first) + kept(second) =~= kept(first));
    } else {
        lemma_fates_concat(first, second.drop_last());
        assert((first + second).drop_last() =~= first + second.drop_last());
        assert(kept(first + second) =~= kept(first) + kept(second));
    }
}

/// Whether a slot is what has become of an entry that was seen.
spec fn comes_from<K, V>(fates: Seq<Fate<K, V>>, p: int, slot: Slot<K, V>) -> bool {
    0 <= p < fates.len() && fates[p].keep && slot == with_value(fates[p].slot, fates[p].value)
}

/// Whether a slot is what has become of some entry that was seen.
spec fn comes_from_some<K, V>(fates: Seq<Fate<K, V>>, slot: Slot<K, V>) -> bool {
    exists|p: int| comes_from(fates, p, slot)
}

/// Whatever is kept was seen, with the same hash data and the same key.
proof fn lemma_kept<K, V>(fates: Seq<Fate<K, V>>)
    ensures
        kept(fates).len() <= fates.len(),
        forall|i: int|
            0 <= i < kept(fates).len() ==> comes_from_some(fates, #[trigger] kept(fates)[i]),
        forall|p: int|
            0 <= p < fates.len() && (#[trigger] fates[p]).keep ==> kept(fates).contains(
                with_value(fates[p].slot, fates[p].value),
            ),
    decreases fates.len(),
{
    if fates.len() > 0 {
        let front = fates.drop_last();
        lemma_kept(front);
        assert forall|i: int| 0 <= i < kept(fates).len() implies comes_from_some(
            fates,
            #[trigger] kept(fates)[i],
        ) by {
            if i < kept(front).len() {
                assert(comes_from_some(front, kept(front)[i]));
                let p = choose|p: int| comes_from(front, p, kept(front)[i]);
                assert(comes_from(fates, p, kept(fates)[i]));
            } else {
                assert(comes_from(fates, fates.len() - 1, kept(fates)[i]));
            }
        }
        assert forall|p: int| 0 <= p < fates.len() && (#[trigger] fates[p]).keep implies kept(
            fates,
        ).contains(with_value(fates[p].slot, fates[p].value)) by {
            let slot = with_value(fates[p].slot, fates[p].value);
            if p < front.len() {
                assert(front[p] == fates[p]);
                let i = kept(front).index_of(slot);
                assert(kept(fates)[i] == slot);
            } else {
                assert(kept(fates)[kept(fates).len() - 1] == slot);
            }
        }
    }
}

impl<K, V, const N: usize> HashMapInner<K, V, N> {
    /// Removes the entries that the predicate rejects. Buckets are not merged. Returns what the
    /// predicate made of each entry.
    fn retain<F>(&mut self, predicate: F) -> (outcome: Ghost<Seq<Fate<K, V>>>) where
        F: FnMut(&K, &mut V) -> bool,

        requires
            old(self).wf(),
            forall|slot: Slot<K, V>| #[trigger]
                old(self).contents().contains(slot) ==> accepts(predicate, slot),
        ensures
            final(self).wf(),
            same_layout(*old(self), *final(self)),
            seen(outcome@).to_multiset() == old(self).contents(),
            pool_slots(final(self).buckets@) == kept(outcome@),
            forall|i: int|
                #![trigger outcome@[i]]
                0 <= i < outcome@.len() ==> exists|k: &K, v: &mut V, keep: bool|
                    {
                        &&& *k == outcome@[i].slot.key
                        &&& *v == outcome@[i].slot.value
                        &&& *final(v) == outcome@[i].value
                        &&& keep == outcome@[i].keep
                        &&& #[trigger] call_ensures(predicate, (k, v), keep)
                    },
    {
        let mut f = predicate;
        let mut b: usize = 0;
        let ghost mut fates: Seq<Fate<K, V>> = Seq::empty();
        assert(kept(fates) =~= pool_slots(self.buckets@.take(0)));
        assert(seen(fates) =~= pool_slots(self.buckets@.take(0)));
        while b < self.buckets.len()
            invariant
                f == predicate,
                forall|slot: Slot<K, V>| #[trigger]
                    old(self).contents().contains(slot) ==> accepts(predicate, slot),
                b <= self.buckets@.len(),
                self.wf(),
                self.directory == old(self).directory,
                self.freelist == old(self).freelist,
                self.global_depth == old(self).global_depth,
                self.buckets@.len() == old(self).buckets@.len(),
                forall|c: int|
                    b <= c < self.buckets@.len() ==> #[trigger] self.buckets@[c] == old(
                        self,
                    ).buckets@[c],
                forall|c: int|
                    0 <= c < self.buckets@.len() ==> (#[trigger] self.buckets@[c]).local_depth
                        == old(self).buckets@[c].local_depth,
                seen(fates).to_multiset() == pool_contents(old(self).buckets@.take(b as int)),
                pool_slots(self.buckets@.take(b as int)) == kept(fates),
                forall|j: int|
                    #![trigger fates[j]]
                    0 <= j < fates.len() ==> exists|k: &K, v: &mut V, keep: bool|
                        {
                            &&& *k == fates[j].slot.key
                            &&& *v == fates[j].slot.value
                            &&& *final(v) == fates[j].value
                            &&& keep == fates[j].keep
                            &&& #[trigger] call_ensures(predicate, (k, v), keep)
                        },
            decreases self.buckets@.len() - b,
        {
            let ghost buckets = self.buckets@;
            let ghost before = buckets[b as int];
            let ghost contents = self.contents();
            proof {
                assert forall|j: int| 0 <= j < before.slots().len() implies accepts(
                    predicate,
                    #[trigger] before.slots()[j],
                ) by {
                    let slot = before.slots()[j];
                    lemma_pool_contains(old(self).buckets@, slot);
                    assert(before == old(self).buckets@[b as int]);
                    assert(old(self).buckets@[b as int].slots().contains(slot));
                    assert(old(self).contents().contains(slot));
                }
            }
            let count: usize = self.buckets[b].len();
            let (same, Ghost(more)) = self.buckets[b].retain(f);
            f = same;
            let left: usize = self.buckets[b].len();
            let ghost after = self.buckets@[b as int];
            proof {
                lemma_pool_update(buckets, b as int, after);
                lemma_kept(more);
                assert(more.len() == seen(more).to_multiset().len());
                assert(before.slots().len() == before.slots().to_multiset().len());
                let others = contents.sub(before.slots().to_multiset());
                assert(contents =~= others.add(before.slots().to_multiset()));
            }
            self.len = self.len - (count - left);
            proof {
                assert(self.buckets@ =~= buckets.update(b as int, after));
                if !self.directory@.contains(b as u32) {
                    let g = self.freelist@.index_of(b as u32);
                    assert(self.freelist@.contains(b as u32));
                    assert(self.freelist@[g] == b as u32);
                }
                assert forall|s: int, i: int|
                    #![trigger self.directory@[s], after.slots()[i]]
                    0 <= s < self.directory@.len() && self.directory@[s] == b && 0 <= i
                        < after.slots().len() implies low_bits(
                    after.slots()[i].hash_low as int,
                    after.local_depth as nat,
                ) == low_bits(s, after.local_depth as nat) by {
                    assert(comes_from_some(more, kept(more)[i]));
                    let p = choose|p: int| comes_from(more, p, kept(more)[i]);
                    assert(seen(more)[p] == more[p].slot);
                    assert(seen(more).to_multiset().contains(more[p].slot));
                    let j = before.slots().index_of(more[p].slot);
                    assert(target(self.directory@, buckets, s).slots()[j] == more[p].slot);
                }
                lemma_exchange(
                    self.directory@,
                    buckets,
                    self.freelist@,
                    self.global_depth as nat,
                    b as int,
                    after,
                );
                buckets.lemma_take_succ_push(b as int);
                old(self).buckets@.lemma_take_succ_push(b as int);
                assert(self.buckets@.take(b + 1) =~= buckets.take(b as int).push(after));
                lemma_pool_push(buckets.take(b as int), after);
                lemma_pool_push(old(self).buckets@.take(b as int), before);
                lemma_fates_concat(fates, more);
                vstd::seq_lib::lemma_multiset_commutative(seen(fates), seen(more));
                fates = fates + more;
            }
            b += 1;
        }
        assert(self.buckets@.take(b as int) =~= self.buckets@);
        assert(old(self).buckets@.take(b as int) =~= old(self).buckets@);
        Ghost(fates)
    }
}

/// If the entries seen have different keys, so have those that are kept.
proof fn lemma_kept_distinct<K, V>(fates: Seq<Fate<K, V>>)
    requires
        forall|i: int, j: int|
            0 <= i < fates.len() && 0 <= j < fates.len() && i != j ==> (
            #[trigger] fates[i]).slot.key != (#[trigger] fates[j]).slot.key,
    ensures
        forall|i: int, j: int|
            0 <= i < kept(fates).len() && 0 <= j < kept(fates).len() && i != j ==> (
            #[trigger] kept(fates)[i]).key != (#[trigger] kept(fates)[j]).key,
    decreases fates.len(),
{
    if fates.len() > 0 {
        let front = fates.drop_last();
        lemma_kept_distinct(front);
        lemma_kept(front);
        assert forall|i: int| 0 <= i < kept(front).len() implies (#[trigger] kept(front)[i]).key
            != fates.last().slot.key by {
            assert(comes_from_some(front, kept(front)[i]));
            let p = choose|p: int| comes_from(front, p, kept(front)[i]);
            assert(fates[p] == front[p]);
            assert(fates[fates.len() - 1].slot.key != fates[p].slot.key);
        }
    }
}

impl<K: Eq + Hash, V, S: BuildHasher, const N: usize> HashMap<K, V, S, N> {
    /// Retains only the elements specified by the predicate, with the values that it leaves in
    /// them. Buckets are not merged.
    pub fn retain<F>(&mut self, f: F) where F: FnMut(&K, &mut V) -> bool
        requires
            old(self).wf(),
            forall|slot: Slot<K, V>| #[trigger]
                old(self).inner.contents().contains(slot) ==> accepts(f, slot),
        ensures
            final(self).wf(),
            final(self).hash_builder == old(self).hash_builder,
            same_layout(old(self).inner, final(self).inner),
            exists|fates: Seq<Fate<K, V>>|
                {
                    &&& #[trigger] seen(fates).to_multiset() == old(self).inner.contents()
                    &&& pool_slots(final(self).inner.buckets@) == kept(fates)
                    &&& forall|i: int|
                        #![trigger fates[i]]
                        0 <= i < fates.len() ==> exists|k: &K, v: &mut V, keep: bool|
                            {
                                &&& *k == fates[i].slot.key
                                &&& *v == fates[i].slot.value
                                &&& *final(v) == fates[i].value
                                &&& keep == fates[i].keep
                                &&& #[trigger] call_ensures(f, (k, v), keep)
                            }
                },
            old(self).lawful::<K>() ==> {
                &&& forall|key: K| #[trigger]
                    final(self)@.contains_key(key) ==> {
                        &&& old(self)@.contains_key(key)
                        &&& exists|k: &K, v: &mut V, keep: bool|
                            {
                                &&& *k == key
                                &&& *v == old(self)@[key]
                                &&& *final(v) == final(self)@[key]
                                &&& keep
                                &&& #[trigger] call_ensures(f, (k, v), keep)
                            }
                    }
                &&& forall|key: K|
                    #![trigger old(self)@.contains_key(key)]
                    old(self)@.contains_key(key) && !final(self)@.contains_key(key) ==> exists|
                        k: &K,
                        v: &mut V,
                        keep: bool,
                    |
                        {
                            &&& *k == key
                            &&& *v == old(self)@[key]
                            &&& !keep
                            &&& #[trigger] call_ensures(f, (k, v), keep)
                        }
            },
    {
        let Ghost(fates) = self.inner.retain(f);
        proof {
            let before = old(self).inner.contents();
            let after = self.inner.contents();
            lemma_kept(fates);
            assert forall|slot: Slot<K, V>| #[trigger] after.contains(slot) implies slot_hashed(
                &self.hash_builder,
                slot,
            ) by {
                let i = kept(fates).index_of(slot);
                assert(comes_from_some(fates, kept(fates)[i]));
                let p = choose|p: int| comes_from(fates, p, kept(fates)[i]);
                assert(seen(fates)[p] == fates[p].slot);
                assert(before.contains(fates[p].slot));
                lemma_slot_hashed(&self.hash_builder, fates[p].slot, fates[p].value);
            }
            if consistent::<K, K, S>(&self.hash_builder) {
                lemma_distinct_keys_seq(seen(fates));
                assert forall|i: int, j: int|
                    0 <= i < fates.len() && 0 <= j < fates.len() && i != j implies (
                #[trigger] fates[i]).slot.key != (#[trigger] fates[j]).slot.key by {
                    assert(seen(fates)[i].key != seen(fates)[j].key);
                }
                lemma_kept_distinct(fates);
                lemma_distinct_keys_seq(kept(fates));
                assert forall|a: Slot<K, V>, b: Slot<K, V>| #[trigger]
                    after.contains(a) && #[trigger] after.contains(b) && a.key.eq_spec(
                        &b.key,
                    ) implies a == b by {
                    let i = kept(fates).index_of(a);
                    let j = kept(fates).index_of(b);
                    assert(comes_from_some(fates, kept(fates)[i]));
                    assert(comes_from_some(fates, kept(fates)[j]));
                    let p = choose|p: int| comes_from(fates, p, kept(fates)[i]);
                    let q = choose|q: int| comes_from(fates, q, kept(fates)[j]);
                    assert(seen(fates)[p] == fates[p].slot);
                    assert(seen(fates)[q] == fates[q].slot);
                    assert(before.contains(fates[p].slot) && before.contains(fates[q].slot));
                }
                assert forall|key: K| #[trigger] self@.contains_key(key) implies {
                    &&& old(self)@.contains_key(key)
                    &&& exists|k: &K, v: &mut V, keep: bool|
                        {
                            &&& *k == key
                            &&& *v == old(self)@[key]
                            &&& *final(v) == self@[key]
                            &&& keep
                            &&& #[trigger] call_ensures(f, (k, v), keep)
                        }
                } by {
                    let slot = lemma_slot_of_key(after, key);
                    let i = kept(fates).index_of(slot);
                    assert(comes_from_some(fates, kept(fates)[i]));
                    let p = choose|p: int| comes_from(fates, p, kept(fates)[i]);
                    assert(seen(fates)[p] == fates[p].slot);
                    lemma_map_of_slot(before, fates[p].slot);
                }
                assert forall|key: K|
                    #![trigger old(self)@.contains_key(key)]
                    old(self)@.contains_key(key) && !self@.contains_key(key) implies exists|
                    k: &K,
                    v: &mut V,
                    keep: bool,
                |
                    {
                        &&& *k == key
                        &&& *v == old(self)@[key]
                        &&& !keep
                        &&& #[trigger] call_ensures(f, (k, v), keep)
                    } by {
                    let slot = lemma_slot_of_key(before, key);
                    let p = seen(fates).index_of(slot);
                    assert(seen(fates)[p] == fates[p].slot);
                    if fates[p].keep {
                        lemma_map_of_slot(after, with_value(slot, fates[p].value));
                    }
                }
            }
        }
    }
}

} // verus!
