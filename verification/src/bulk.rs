//! Operations on all entries of a map at once.

use std::hash::{BuildHasher, Hash};

use vstd::multiset::Multiset;
use vstd::prelude::*;
use vstd::std_specs::cmp::PartialEqSpec;
use vstd::std_specs::iter::IteratorSpec;

use crate::bucket::{new_slot, with_value, Slot};
use crate::contents::{lemma_map_of_empty, lemma_pool_empty, lemma_pool_pairs_push, pool_pairs};
use crate::hashing::{find_key, hashes_to, put};
use crate::inner::HashMapInner;
use crate::iter::Drain;
use crate::laws::{law_insert_all_finds, law_keys_differ};
use crate::map::{is_fresh, is_insert, HashMap};
use crate::steps::{added, changed, inserted, is_emptied};

verus! {

broadcast use {vstd::multiset::group_multiset_axioms, vstd::seq_lib::group_to_multiset_ensures};

/// A map after inserting pairs one after the other: of pairs whose keys are `==`, the first gives
/// the key and the last the value.
pub open spec fn insert_all<K: PartialEq, V>(map: Map<K, V>, pairs: Seq<(K, V)>) -> Map<K, V>
    decreases pairs.len(),
{
    if pairs.len() == 0 {
        map
    } else {
        insert_all(put(map, pairs[0].0, pairs[0].1), pairs.drop_first())
    }
}

/// Whether the maps come one from the other by inserting the pairs, one after the other.
pub open spec fn is_insert_history<K: Eq + Hash, V, S: BuildHasher, const N: usize>(
    history: Seq<HashMap<K, V, S, N>>,
    pairs: Seq<(K, V)>,
) -> bool {
    &&& history.len() == pairs.len() + 1
    &&& forall|i: int|
        #![trigger pairs[i]]
        0 <= i < pairs.len() ==> is_insert(history[i], history[i + 1], pairs[i].0, pairs[i].1)
}

/// One more insertion makes a history one step longer.
proof fn lemma_insert_history<K: Eq + Hash, V, S: BuildHasher, const N: usize>(
    history: Seq<HashMap<K, V, S, N>>,
    pairs: Seq<(K, V)>,
    after: HashMap<K, V, S, N>,
    pair: (K, V),
)
    requires
        is_insert_history(history, pairs),
        is_insert(history.last(), after, pair.0, pair.1),
    ensures
        is_insert_history(history.push(after), pairs.push(pair)),
{
    let longer = history.push(after);
    assert forall|i: int|
        #![trigger pairs.push(pair)[i]]
        0 <= i < pairs.push(pair).len() implies is_insert(
        longer[i],
        longer[i + 1],
        pairs.push(pair)[i].0,
        pairs.push(pair)[i].1,
    ) by {
        if i < pairs.len() {
            assert(pairs.push(pair)[i] == pairs[i]);
            assert(longer[i] == history[i] && longer[i + 1] == history[i + 1]);
        } else {
            assert(longer[i] == history.last());
        }
    }
}

/// The pairs behind pairs of references.
pub open spec fn dereferenced<K, V>(pairs: Seq<(&K, &V)>) -> Seq<(K, V)> {
    Seq::new(pairs.len(), |i: int| (*pairs[i].0, *pairs[i].1))
}

/// Whether the entry of a slot is there, with whatever value.
pub open spec fn is_stored<K, V>(contents: Multiset<Slot<K, V>>, slot: Slot<K, V>) -> bool {
    exists|value: V| #[trigger] contents.contains(with_value(slot, value))
}

/// Whether some pair has the given key.
pub open spec fn has_key<K, V>(pairs: Seq<(K, V)>, key: K) -> bool {
    exists|i: int| 0 <= i < pairs.len() && (#[trigger] pairs[i]).0 == key
}

/// Whether some pair has the given value.
pub open spec fn has_value<K, V>(pairs: Seq<(K, V)>, value: V) -> bool {
    exists|i: int| 0 <= i < pairs.len() && (#[trigger] pairs[i]).1 == value
}

/// Whether `after` is what inserting the pairs can make of `before`, however the keys hash and
/// compare: every entry is still there, new entries have keys of pairs, and new values are values
/// of pairs.
pub open spec fn is_extended<K, V>(
    before: Multiset<Slot<K, V>>,
    after: Multiset<Slot<K, V>>,
    pairs: Seq<(K, V)>,
) -> bool {
    &&& forall|slot: Slot<K, V>| #[trigger] before.contains(slot) ==> is_stored(after, slot)
    &&& forall|slot: Slot<K, V>| #[trigger]
        after.contains(slot) ==> is_stored(before, slot) || has_key(pairs, slot.key)
    &&& forall|slot: Slot<K, V>| #[trigger]
        after.contains(slot) ==> before.contains(slot) || has_value(pairs, slot.value)
}

/// One more insertion extends a table further.
proof fn lemma_extended<K, V, const N: usize>(
    first: Multiset<Slot<K, V>>,
    second: HashMapInner<K, V, N>,
    third: HashMapInner<K, V, N>,
    pairs: Seq<(K, V)>,
    key: K,
    value: V,
)
    requires
        is_extended(first, second.contents(), pairs),
        (exists|slot: Slot<K, V>| #[trigger] changed(second, third, slot, value)) || (exists|
            slot: Slot<K, V>,
        | #[trigger] added(second, third, slot) && slot.key == key && slot.value == value),
    ensures
        is_extended(first, third.contents(), pairs.push((key, value))),
{
    let more = pairs.push((key, value));
    assert(more[pairs.len() as int] == (key, value));
    assert forall|k: K| has_key(pairs, k) implies has_key(more, k) by {
        let i = choose|i: int| 0 <= i < pairs.len() && (#[trigger] pairs[i]).0 == k;
        assert(more[i].0 == k);
    }
    assert forall|v: V| has_value(pairs, v) implies has_value(more, v) by {
        let i = choose|i: int| 0 <= i < pairs.len() && (#[trigger] pairs[i]).1 == v;
        assert(more[i].1 == v);
    }
    if exists|slot: Slot<K, V>| #[trigger] changed(second, third, slot, value) {
        let slot = choose|slot: Slot<K, V>| #[trigger] changed(second, third, slot, value);
        assert forall|s: Slot<K, V>| #[trigger] second.contents().contains(s) implies is_stored(
            third.contents(),
            s,
        ) by {
            if s == slot {
                assert(third.contents().contains(with_value(s, value)));
            } else {
                assert(third.contents().contains(with_value(s, s.value)));
            }
        }
        assert forall|s: Slot<K, V>| #[trigger] first.contains(s) implies is_stored(
            third.contents(),
            s,
        ) by {
            let v = choose|v: V| #[trigger] second.contents().contains(with_value(s, v));
            let w = choose|w: V| #[trigger]
                third.contents().contains(with_value(with_value(s, v), w));
            assert(third.contents().contains(with_value(s, w)));
        }
        assert forall|s: Slot<K, V>| #[trigger] third.contents().contains(s) implies is_stored(
            first,
            s,
        ) || has_key(more, s.key) by {
            if s == with_value(slot, value) {
                assert(second.contents().contains(slot));
                if is_stored(first, slot) {
                    let v = choose|v: V| #[trigger] first.contains(with_value(slot, v));
                    assert(first.contains(with_value(s, v)));
                }
            } else {
                assert(second.contents().contains(s));
            }
        }
        assert forall|s: Slot<K, V>| #[trigger] third.contents().contains(s) implies first.contains(
            s,
        ) || has_value(more, s.value) by {
            if s != with_value(slot, value) {
                assert(second.contents().contains(s));
            }
        }
    } else {
        let slot = choose|slot: Slot<K, V>| #[trigger]
            added(second, third, slot) && slot.key == key && slot.value == value;
        assert forall|s: Slot<K, V>| #[trigger] first.contains(s) implies is_stored(
            third.contents(),
            s,
        ) by {
            let v = choose|v: V| #[trigger] second.contents().contains(with_value(s, v));
            assert(third.contents().contains(with_value(s, v)));
        }
        assert forall|s: Slot<K, V>| #[trigger] third.contents().contains(s) implies s == slot
            || second.contents().contains(s) by {}
    }
}

/// What a history of insertions amounts to.
proof fn lemma_inserted_all<K: Eq + Hash, V, S: BuildHasher, const N: usize>(
    history: Seq<HashMap<K, V, S, N>>,
    pairs: Seq<(K, V)>,
)
    requires
        is_insert_history(history, pairs),
        history.first().wf(),
    ensures
        history.last().wf(),
        history.last().hash_builder == history.first().hash_builder,
        history.last().inner.len <= history.first().inner.len + pairs.len(),
        is_extended(history.first().inner.contents(), history.last().inner.contents(), pairs),
    decreases pairs.len(),
{
    if pairs.len() == 0 {
        let contents = history.first().inner.contents();
        assert forall|slot: Slot<K, V>| #[trigger] contents.contains(slot) implies is_stored(
            contents,
            slot,
        ) by {
            assert(contents.contains(with_value(slot, slot.value)));
        }
    } else {
        let n = pairs.len() - 1;
        let earlier = history.drop_last();
        assert forall|i: int|
            #![trigger pairs.drop_last()[i]]
            0 <= i < pairs.drop_last().len() implies is_insert(
            earlier[i],
            earlier[i + 1],
            pairs.drop_last()[i].0,
            pairs.drop_last()[i].1,
        ) by {
            assert(pairs.drop_last()[i] == pairs[i]);
        }
        lemma_inserted_all(earlier, pairs.drop_last());
        let before = history[n];
        let after = history[n + 1];
        assert(is_insert(before, after, pairs[n].0, pairs[n].1));
        assert((exists|slot: Slot<K, V>| #[trigger]
            changed(before.inner, after.inner, slot, pairs[n].1)) || (exists|slot: Slot<K, V>|
         #[trigger]
            added(before.inner, after.inner, slot) && slot.key == pairs[n].0 && slot.value
                == pairs[n].1)) by {
            if !(exists|slot: Slot<K, V>| #[trigger]
                changed(before.inner, after.inner, slot, pairs[n].1)) {
                let hash = choose|hash: u64| #[trigger]
                    hashes_to(&before.hash_builder, &pairs[n].0, hash) && inserted(
                        before.inner,
                        after.inner,
                        hash,
                        new_slot(hash, pairs[n].0, pairs[n].1),
                    );
                assert(added(before.inner, after.inner, new_slot(hash, pairs[n].0, pairs[n].1)));
            }
        }
        lemma_extended(
            history.first().inner.contents(),
            before.inner,
            after.inner,
            pairs.drop_last(),
            pairs[n].0,
            pairs[n].1,
        );
        assert(pairs.drop_last().push((pairs[n].0, pairs[n].1)) =~= pairs);
    }
}

/// A history of insertions has one step for each pair, and makes of a lawful map what inserting the
/// pairs makes of it.
pub proof fn law_insert_history<K: Eq + Hash, V, S: BuildHasher, const N: usize>(
    history: Seq<HashMap<K, V, S, N>>,
    pairs: Seq<(K, V)>,
)
    requires
        is_insert_history(history, pairs),
        history.first().lawful::<K>(),
    ensures
        history.len() == pairs.len() + 1,
        history.last()@ == insert_all(history.first()@, pairs),
    decreases pairs.len(),
{
    if pairs.len() > 0 {
        let later = history.drop_first();
        assert(is_insert(history[0], history[1], pairs[0].0, pairs[0].1));
        assert forall|i: int|
            #![trigger pairs.drop_first()[i]]
            0 <= i < pairs.drop_first().len() implies is_insert(
            later[i],
            later[i + 1],
            pairs.drop_first()[i].0,
            pairs.drop_first()[i].1,
        ) by {
            assert(is_insert(history[i + 1], history[i + 2], pairs[i + 1].0, pairs[i + 1].1));
        }
        law_insert_history(later, pairs.drop_first());
    }
}

/// Whether `lower` is a lower bound that the iterator can give for the number of its items.
pub closed spec fn promises<I: Iterator>(iter: &I, lower: usize) -> bool {
    call_ensures(lower_bound::<I>, (iter,), lower)
}

/// Calls [`Iterator::size_hint`] for the lower bound. Nothing is promised of it here: it is what
/// the iterator's own implementation says.
#[verifier::external_body]
fn lower_bound<I: Iterator>(iter: &I) -> (lower: usize) {
    iter.size_hint().0
}

/// A number is what an iterator promises only if its size hint gives it.
proof fn law_promises<I: Iterator>(iter: &I, lower: usize)
    ensures
        promises(iter, lower) <==> call_ensures(lower_bound::<I>, (iter,), lower),
{
}

/// The number of items that the iterator promises.
fn promised<I: Iterator>(iter: &I) -> (lower: usize)
    ensures
        promises(iter, lower),
{
    let bound = lower_bound::<I>;
    bound(iter)
}

/// A table whose buckets have all been emptied is well-formed and holds nothing.
proof fn lemma_emptied<K, V, const N: usize>(
    before: HashMapInner<K, V, N>,
    after: HashMapInner<K, V, N>,
)
    requires
        before.wf(),
        after.directory == before.directory,
        after.freelist == before.freelist,
        after.global_depth == before.global_depth,
        after.mask == before.mask,
        after.len == 0,
        after.buckets@.len() == before.buckets@.len(),
        forall|b: int|
            0 <= b < before.buckets@.len() ==> {
                &&& (#[trigger] after.buckets@[b]).wf()
                &&& after.buckets@[b].local_depth == before.buckets@[b].local_depth
                &&& after.buckets@[b].slots().len() == 0
            },
    ensures
        after.wf(),
        is_emptied(before, after),
{
    lemma_pool_empty(after.buckets@);
}

impl<K, V, const N: usize> HashMapInner<K, V, N> {
    /// Removes all entries. The directory and the buckets stay.
    pub fn clear(&mut self)
        requires
            old(self).wf(),
        ensures
            final(self).wf(),
            is_emptied(*old(self), *final(self)),
    {
        let mut i: usize = 0;
        while i < self.buckets.len()
            invariant
                i <= self.buckets@.len(),
                old(self).wf(),
                self.directory == old(self).directory,
                self.freelist == old(self).freelist,
                self.global_depth == old(self).global_depth,
                self.mask == old(self).mask,
                self.buckets@.len() == old(self).buckets@.len(),
                forall|b: int|
                    0 <= b < self.buckets@.len() ==> {
                        &&& (#[trigger] self.buckets@[b]).wf()
                        &&& self.buckets@[b].local_depth == old(self).buckets@[b].local_depth
                        &&& b < i ==> self.buckets@[b].slots().len() == 0
                    },
            decreases self.buckets@.len() - i,
        {
            self.buckets[i].clear();
            i += 1;
        }
        self.len = 0;
        proof {
            lemma_emptied(*old(self), *self);
        }
    }

    /// Removes all entries and returns them in the order of iteration. The directory and the
    /// buckets stay.
    pub fn take_all(&mut self) -> (entries: Vec<(K, V)>)
        requires
            old(self).wf(),
        ensures
            final(self).wf(),
            is_emptied(*old(self), *final(self)),
            entries@ == pool_pairs(old(self).buckets@),
    {
        let mut entries: Vec<(K, V)> = Vec::with_capacity(self.len);
        let mut i: usize = 0;
        assert(entries@ =~= pool_pairs(self.buckets@.take(0)));
        while i < self.buckets.len()
            invariant
                i <= self.buckets@.len(),
                old(self).wf(),
                self.directory == old(self).directory,
                self.freelist == old(self).freelist,
                self.global_depth == old(self).global_depth,
                self.mask == old(self).mask,
                self.buckets@.len() == old(self).buckets@.len(),
                forall|b: int|
                    0 <= b < self.buckets@.len() ==> {
                        &&& (#[trigger] self.buckets@[b]).wf()
                        &&& self.buckets@[b].local_depth == old(self).buckets@[b].local_depth
                        &&& b < i ==> self.buckets@[b].slots().len() == 0
                        &&& b >= i ==> self.buckets@[b] == old(self).buckets@[b]
                    },
                entries@ == pool_pairs(old(self).buckets@.take(i as int)),
            decreases self.buckets@.len() - i,
        {
            proof {
                let pool = old(self).buckets@;
                pool.lemma_take_succ_push(i as int);
                lemma_pool_pairs_push(pool.take(i as int), pool[i as int]);
            }
            let mut taken = self.buckets[i].take_entries();
            entries.append(&mut taken);
            i += 1;
        }
        self.len = 0;
        proof {
            lemma_emptied(*old(self), *self);
            assert(old(self).buckets@.take(i as int) =~= old(self).buckets@);
        }
        entries
    }
}

impl<K, V, S, const N: usize> HashMap<K, V, S, N> {
    /// Clears the map, removing all key-value pairs. Retains the buckets and the directory.
    pub fn clear(&mut self)
        requires
            old(self).inner.wf(),
        ensures
            final(self).inner.wf(),
            is_emptied(old(self).inner, final(self).inner),
            final(self).hash_builder == old(self).hash_builder,
            final(self)@ == Map::<K, V>::empty(),
    {
        self.inner.clear();
        proof {
            lemma_map_of_empty::<K, V>();
        }
    }
}

impl<K: Eq + Hash, V, S: BuildHasher, const N: usize> HashMap<K, V, S, N> {
    /// Creates a draining iterator that removes all entries from the map and yields them. The map
    /// is empty after this call returns.
    pub fn drain(&mut self) -> (entries: Drain<'_, K, V>)
        requires
            old(self).wf(),
        ensures
            final(self).wf(),
            is_emptied(old(self).inner, final(self).inner),
            final(self).hash_builder == old(self).hash_builder,
            final(self)@ == Map::<K, V>::empty(),
            entries.items() == pool_pairs(old(self).inner.buckets@),
    {
        let entries = self.inner.take_all();
        proof {
            lemma_map_of_empty::<K, V>();
        }
        Drain::new(entries)
    }

    /// Inserts all pairs that the iterator yields, in order.
    pub fn extend<I: Iterator<Item = (K, V)>>(&mut self, iter: I)
        requires
            old(self).wf(),
            iter.obeys_prophetic_iter_laws(),
            iter.decrease() is Some,
            old(self).inner.len + iter.remaining().len() <= usize::MAX,
        ensures
            final(self).wf(),
            final(self).hash_builder == old(self).hash_builder,
            final(self).inner.len <= old(self).inner.len + iter.remaining().len(),
            exists|history: Seq<Self>|
                {
                    &&& #[trigger] is_insert_history(history, iter.remaining())
                    &&& history.first() == *old(self)
                    &&& history.last() == *final(self)
                },
            is_extended(
                old(self).inner.contents(),
                final(self).inner.contents(),
                iter.remaining(),
            ),
            old(self).lawful::<K>() ==> final(self)@ == insert_all(old(self)@, iter.remaining()),
            // Every key is found, with the value of the last pair for it.
            old(self).lawful::<K>() ==> forall|i: int|
                0 <= i < iter.remaining().len() && (forall|j: int|
                    i < j < iter.remaining().len() ==> !(#[trigger] iter.remaining()[j]).0.eq_spec(
                        &iter.remaining()[i].0,
                    )) ==> {
                    &&& find_key(final(self)@, &iter.remaining()[i].0) is Some
                    &&& final(self)@[find_key(final(self)@, &iter.remaining()[i].0)->0] == (#[trigger] iter.remaining()[i]).1
                },
    {
        let mut rest = iter;
        let ghost mut done: int = 0;
        let ghost mut history: Seq<Self> = seq![*self];
        loop
            invariant
                self.wf(),
                rest.obeys_prophetic_iter_laws(),
                rest.decrease() is Some,
                self.inner.len + rest.remaining().len() <= old(self).inner.len
                    + iter.remaining().len() <= usize::MAX,
                0 <= done,
                rest.remaining().len() + done == iter.remaining().len(),
                forall|i: int|
                    0 <= i < rest.remaining().len() ==> #[trigger] rest.remaining()[i]
                        == iter.remaining()[done + i],
                is_insert_history(history, iter.remaining().take(done)),
                history.first() == *old(self),
                history.last() == *self,
            ensures
                rest.remaining().len() == 0,
            decreases rest.decrease()->0,
        {
            match rest.next() {
                Some((key, value)) => {
                    self.insert(key, value);
                    proof {
                        let all = iter.remaining();
                        assert(all[done] == (key, value));
                        lemma_insert_history(history, all.take(done), *self, (key, value));
                        assert(all.take(done).push((key, value)) =~= all.take(done + 1));
                        history = history.push(*self);
                        done = done + 1;
                    }
                },
                None => {
                    break;
                },
            }
        }
        proof {
            let all = iter.remaining();
            assert(all.take(done) =~= all);
            lemma_inserted_all(history, all);
            if old(self).lawful::<K>() {
                law_insert_history(history, all);
                law_keys_differ(*old(self));
            }
            assert forall|i: int|
                old(self).lawful::<K>() && 0 <= i < iter.remaining().len() && (forall|j: int|
                    i < j < iter.remaining().len() ==> !(#[trigger] iter.remaining()[j]).0.eq_spec(
                        &iter.remaining()[i].0,
                    )) implies {
                &&& find_key(self@, &iter.remaining()[i].0) is Some
                &&& self@[find_key(self@, &iter.remaining()[i].0)->0] == (#[trigger] iter.remaining()[i]).1
            } by {
                assert(all[i] == (iter.remaining()[i]));
                assert forall|j: int| i < j < all.len() implies !(#[trigger] all[j]).0.eq_spec(
                    &all[i].0,
                ) by {
                    assert(!iter.remaining()[j].0.eq_spec(&iter.remaining()[i].0));
                }
                assert((&all[i].0).eq_spec(&all[i].0));
                law_insert_all_finds(&old(self).hash_builder, old(self)@, all, i, all[i].0);
            }
        }
    }

    /// Inserts copies of all pairs that the iterator yields references to, in order.
    pub fn extend_ref<'a, I: Iterator<Item = (&'a K, &'a V)>>(&mut self, iter: I) where
        K: Copy + 'a,
        V: Copy + 'a,

        requires
            old(self).wf(),
            iter.obeys_prophetic_iter_laws(),
            iter.decrease() is Some,
            old(self).inner.len + iter.remaining().len() <= usize::MAX,
        ensures
            final(self).wf(),
            final(self).hash_builder == old(self).hash_builder,
            final(self).inner.len <= old(self).inner.len + iter.remaining().len(),
            exists|history: Seq<Self>|
                {
                    &&& #[trigger] is_insert_history(history, dereferenced(iter.remaining()))
                    &&& history.first() == *old(self)
                    &&& history.last() == *final(self)
                },
            is_extended(
                old(self).inner.contents(),
                final(self).inner.contents(),
                dereferenced(iter.remaining()),
            ),
            old(self).lawful::<K>() ==> final(self)@ == insert_all(
                old(self)@,
                dereferenced(iter.remaining()),
            ),
            // Every key is found, with the value of the last pair for it.
            old(self).lawful::<K>() ==> forall|i: int|
                0 <= i < iter.remaining().len() && (forall|j: int|
                    i < j < iter.remaining().len() ==> !(#[trigger] iter.remaining()[j]).0.eq_spec(
                        iter.remaining()[i].0,
                    )) ==> {
                    &&& find_key(final(self)@, iter.remaining()[i].0) is Some
                    &&& final(self)@[find_key(final(self)@, iter.remaining()[i].0)->0] == *(#[trigger] iter.remaining()[i]).1
                },
    {
        let mut rest = iter;
        let ghost mut done: int = 0;
        let ghost mut history: Seq<Self> = seq![*self];
        loop
            invariant
                self.wf(),
                rest.obeys_prophetic_iter_laws(),
                rest.decrease() is Some,
                self.inner.len + rest.remaining().len() <= old(self).inner.len
                    + iter.remaining().len() <= usize::MAX,
                0 <= done,
                rest.remaining().len() + done == iter.remaining().len(),
                forall|i: int|
                    0 <= i < rest.remaining().len() ==> #[trigger] rest.remaining()[i]
                        == iter.remaining()[done + i],
                is_insert_history(history, dereferenced(iter.remaining()).take(done)),
                history.first() == *old(self),
                history.last() == *self,
            ensures
                rest.remaining().len() == 0,
            decreases rest.decrease()->0,
        {
            match rest.next() {
                Some((key, value)) => {
                    self.insert(*key, *value);
                    proof {
                        let all = dereferenced(iter.remaining());
                        assert(all[done] == (*key, *value));
                        lemma_insert_history(history, all.take(done), *self, (*key, *value));
                        assert(all.take(done).push((*key, *value)) =~= all.take(done + 1));
                        history = history.push(*self);
                        done = done + 1;
                    }
                },
                None => {
                    break;
                },
            }
        }
        proof {
            let all = dereferenced(iter.remaining());
            assert(all.take(done) =~= all);
            lemma_inserted_all(history, all);
            if old(self).lawful::<K>() {
                law_insert_history(history, all);
                law_keys_differ(*old(self));
            }
            assert forall|i: int|
                old(self).lawful::<K>() && 0 <= i < iter.remaining().len() && (forall|j: int|
                    i < j < iter.remaining().len() ==> !(#[trigger] iter.remaining()[j]).0.eq_spec(
                        iter.remaining()[i].0,
                    )) implies {
                &&& find_key(self@, iter.remaining()[i].0) is Some
                &&& self@[find_key(self@, iter.remaining()[i].0)->0] == *(#[trigger] iter.remaining()[i]).1
            } by {
                assert(all[i] == ((*iter.remaining()[i].0, *iter.remaining()[i].1)));
                assert forall|j: int| i < j < all.len() implies !(#[trigger] all[j]).0.eq_spec(
                    &all[i].0,
                ) by {
                    assert(!iter.remaining()[j].0.eq_spec(iter.remaining()[i].0));
                }
                assert((&all[i].0).eq_spec(&all[i].0));
                law_insert_all_finds(&old(self).hash_builder, old(self)@, all, i, all[i].0);
            }
        }
    }
}

impl<K: Eq + Hash, V, S: BuildHasher + Default, const N: usize> HashMap<K, V, S, N> {
    /// Creates a map of the pairs that the iterator yields. Room is reserved for as many entries as
    /// the iterator promises, unless a directory cannot be that large.
    pub fn from_iter<I: Iterator<Item = (K, V)>>(iter: I) -> (map: Self)
        requires
            iter.obeys_prophetic_iter_laws(),
            iter.decrease() is Some,
            iter.remaining().len() <= usize::MAX,
        ensures
            call_ensures(S::default, (), map.hash_builder),
            map.wf(),
            map.inner.len <= iter.remaining().len(),
            exists|lower: usize, history: Seq<Self>|
                {
                    &&& #[trigger] promises(&iter, lower)
                    &&& #[trigger] is_insert_history(history, iter.remaining())
                    &&& is_fresh(
                        history.first().inner,
                        if lower <= N * 0x1_0000_0000 {
                            lower as nat
                        } else {
                            0
                        },
                    )
                    &&& history.last() == map
                },
            is_extended(
                Multiset::<Slot<K, V>>::empty(),
                map.inner.contents(),
                iter.remaining(),
            ),
            map.lawful::<K>() ==> map@ == insert_all(Map::<K, V>::empty(), iter.remaining()),
            // Every key is found, with the value of the last pair for it.
            map.lawful::<K>() ==> forall|i: int|
                0 <= i < iter.remaining().len() && (forall|j: int|
                    i < j < iter.remaining().len() ==> !(#[trigger] iter.remaining()[j]).0.eq_spec(
                        &iter.remaining()[i].0,
                    )) ==> {
                    &&& find_key(map@, &iter.remaining()[i].0) is Some
                    &&& map@[find_key(map@, &iter.remaining()[i].0)->0] == (#[trigger] iter.remaining()[i]).1
                },
    {
        let lower: usize = promised(&iter);
        let limit: u128 = N as u128 * 0x1_0000_0000u128;
        let capacity: usize = if lower as u128 <= limit {
            lower
        } else {
            0
        };
        let mut map: Self = HashMap::with_capacity_and_hasher(capacity, S::default());
        map.extend(iter);
        map
    }
}

} // verus!
