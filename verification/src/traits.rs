//! The standard traits of the map.

use std::borrow::Borrow;
use std::hash::{BuildHasher, Hash};
use std::ops::Index;

use vstd::multiset::Multiset;
use vstd::prelude::*;
use vstd::std_specs::cmp::PartialEqSpec;

use crate::bucket::{Bucket, Slot};
use crate::contents::{is_revalued, lemma_map_of_len, lemma_pairs, pool_pairs, pool_slots};
use crate::hashing::{find_key, holds, key_matches};
use crate::inner::HashMapInner;
use crate::iter::{IntoIter, Iter, IterMut};
use crate::map::{is_fresh, HashMap};
use crate::steps::is_rewritten;

verus! {

broadcast use {
    vstd::multiset::group_multiset_axioms,
    vstd::seq_lib::group_to_multiset_ensures,
};

impl<K, V, S: Default, const N: usize> Default for HashMap<K, V, S, N> {
    /// Creates an empty map that uses the default hash builder.
    fn default() -> (map: Self)
        ensures
            call_ensures(S::default, (), map.hash_builder),
            map.inner.wf(),
            map.inner.contents() == Multiset::<Slot<K, V>>::empty(),
            map@ == Map::<K, V>::empty(),
            is_fresh(map.inner, 0),
            map.inner.global_depth == 0,
            map.inner.buckets@.len() == 1,
            map.inner.directory@ == seq![0u32],
    {
        Self::with_hasher(S::default())
    }
}

/// Whether a bucket is a clone of another: the keys and values are clones, and all else is equal.
pub open spec fn is_bucket_clone<K: Clone, V: Clone, const N: usize>(
    original: Bucket<K, V, N>,
    copy: Bucket<K, V, N>,
) -> bool {
    &&& copy.fingerprints@ == original.fingerprints@
    &&& copy.local_depth == original.local_depth
    &&& copy.hash_low@ == original.hash_low@
    &&& copy.entries@.len() == original.entries@.len()
    &&& forall|i: int|
        0 <= i < original.entries@.len() ==> {
            &&& cloned(original.entries@[i].0, (#[trigger] copy.entries@[i]).0)
            &&& cloned(original.entries@[i].1, copy.entries@[i].1)
        }
}

/// Whether a table is a clone of another: the keys and values are clones, and all else is equal.
pub open spec fn is_table_clone<K: Clone, V: Clone, const N: usize>(
    original: HashMapInner<K, V, N>,
    copy: HashMapInner<K, V, N>,
) -> bool {
    &&& copy.directory@ == original.directory@
    &&& copy.freelist@ == original.freelist@
    &&& copy.global_depth == original.global_depth
    &&& copy.mask == original.mask
    &&& copy.len == original.len
    &&& copy.buckets@.len() == original.buckets@.len()
    &&& forall|b: int|
        0 <= b < original.buckets@.len() ==> is_bucket_clone(
            original.buckets@[b],
            #[trigger] copy.buckets@[b],
        )
}

/// Whether clones of a type are equal to what they are clones of.
pub open spec fn clones_are_equal<T: Clone>() -> bool {
    forall|original: T, copy: T| #[trigger] cloned(original, copy) ==> copy == original
}

impl<K: Clone, V: Clone, const N: usize> Clone for Bucket<K, V, N> {
    fn clone(&self) -> (copy: Self)
        ensures
            is_bucket_clone(*self, copy),
    {
        let mut entries: Vec<(K, V)> = Vec::with_capacity(self.entries.len());
        let mut i: usize = 0;
        while i < self.entries.len()
            invariant
                i <= self.entries@.len(),
                entries@.len() == i,
                forall|j: int|
                    0 <= j < i ==> {
                        &&& cloned(self.entries@[j].0, (#[trigger] entries@[j]).0)
                        &&& cloned(self.entries@[j].1, entries@[j].1)
                    },
            decreases self.entries@.len() - i,
        {
            let entry = &self.entries[i];
            entries.push((entry.0.clone(), entry.1.clone()));
            i += 1;
        }
        let fingerprints = self.fingerprints.clone();
        let hash_low = self.hash_low.clone();
        assert(fingerprints@ =~= self.fingerprints@);
        assert(hash_low@ =~= self.hash_low@);
        Bucket { fingerprints, local_depth: self.local_depth, hash_low, entries }
    }
}

impl<K: Clone, V: Clone, const N: usize> Clone for HashMapInner<K, V, N> {
    fn clone(&self) -> (copy: Self)
        ensures
            is_table_clone(*self, copy),
    {
        let mut buckets: Vec<Bucket<K, V, N>> = Vec::with_capacity(self.buckets.len());
        let mut b: usize = 0;
        while b < self.buckets.len()
            invariant
                b <= self.buckets@.len(),
                buckets@.len() == b,
                forall|c: int|
                    0 <= c < b ==> is_bucket_clone(self.buckets@[c], #[trigger] buckets@[c]),
            decreases self.buckets@.len() - b,
        {
            buckets.push(self.buckets[b].clone());
            b += 1;
        }
        let directory = self.directory.clone();
        let freelist = self.freelist.clone();
        assert(directory@ =~= self.directory@);
        assert(freelist@ =~= self.freelist@);
        HashMapInner {
            directory,
            buckets,
            freelist,
            global_depth: self.global_depth,
            mask: self.mask,
            len: self.len,
        }
    }
}

/// The slots of a clone are those of the original, with the keys and values cloned.
pub proof fn lemma_pool_clone<K: Clone, V: Clone, const N: usize>(
    original: Seq<Bucket<K, V, N>>,
    copy: Seq<Bucket<K, V, N>>,
)
    requires
        copy.len() == original.len(),
        forall|b: int|
            0 <= b < original.len() ==> is_bucket_clone(original[b], #[trigger] copy[b]),
    ensures
        pool_slots(copy).len() == pool_slots(original).len(),
        clones_are_equal::<K>() && clones_are_equal::<V>() ==> pool_slots(copy) == pool_slots(
            original,
        ),
    decreases original.len(),
{
    if original.len() > 0 {
        let last = original.len() - 1;
        lemma_pool_clone(original.drop_last(), copy.drop_last());
        assert(is_bucket_clone(original[last], copy[last]));
        if clones_are_equal::<K>() && clones_are_equal::<V>() {
            assert forall|i: int| 0 <= i < original[last].slots().len() implies
                #[trigger] copy[last].slots()[i] == original[last].slots()[i] by {
                assert(cloned(original[last].entries@[i].0, copy[last].entries@[i].0));
                assert(cloned(original[last].entries@[i].1, copy[last].entries@[i].1));
            }
            assert(copy[last].slots() =~= original[last].slots());
        }
    }
}

/// A clone of a table is as well-formed as the table.
pub proof fn lemma_table_clone<K: Clone, V: Clone, const N: usize>(
    original: HashMapInner<K, V, N>,
    copy: HashMapInner<K, V, N>,
)
    requires
        original.wf(),
        is_table_clone(original, copy),
    ensures
        copy.wf(),
{
    lemma_pool_clone(original.buckets@, copy.buckets@);
    assert forall|b: int| 0 <= b < original.buckets@.len() implies {
        &&& (#[trigger] copy.buckets@[b]).wf() == original.buckets@[b].wf()
        &&& copy.buckets@[b].local_depth == original.buckets@[b].local_depth
        &&& copy.buckets@[b].slots().len() == original.buckets@[b].slots().len()
        &&& forall|i: int|
            0 <= i < original.buckets@[b].slots().len() ==> (
            #[trigger] copy.buckets@[b].slots()[i]).hash_low
                == original.buckets@[b].slots()[i].hash_low
    } by {
        assert(is_bucket_clone(original.buckets@[b], copy.buckets@[b]));
    }
}

impl<K: Clone, V: Clone, S: Clone, const N: usize> Clone for HashMap<K, V, S, N> {
    fn clone(&self) -> (copy: Self)
        ensures
            is_table_clone(self.inner, copy.inner),
            cloned(self.hash_builder, copy.hash_builder),
            self.inner.wf() ==> copy.inner.wf(),
            clones_are_equal::<K>() && clones_are_equal::<V>() ==> {
                &&& copy.inner.contents() == self.inner.contents()
                &&& copy@ == self@
            },
    {
        let inner = self.inner.clone();
        proof {
            lemma_pool_clone(self.inner.buckets@, inner.buckets@);
            if self.inner.wf() {
                lemma_table_clone(self.inner, inner);
            }
        }
        HashMap { inner, hash_builder: self.hash_builder.clone() }
    }
}

/// Whether the right map has a key that is `==` to the given one, with an equal value.
pub open spec fn has_counterpart<K: PartialEq, V: PartialEq>(
    left: Map<K, V>,
    right: Map<K, V>,
    key: K,
) -> bool {
    match find_key(right, &key) {
        Some(found) => right[found].eq_spec(&left[key]),
        None => false,
    }
}

/// Whether two maps have equally many keys, and the right one has for each key of the left one a
/// key that is `==` to it, with an equal value.
pub open spec fn maps_equal<K: PartialEq, V: PartialEq>(
    left: Map<K, V>,
    right: Map<K, V>,
) -> bool {
    &&& left.len() == right.len()
    &&& forall|key: K| #[trigger] left.contains_key(key) ==> has_counterpart(left, right, key)
}

impl<K: Eq + Hash, V: PartialEq, S: BuildHasher, const N: usize> PartialEq for HashMap<
    K,
    V,
    S,
    N,
> {
    /// Compares two maps by their keys and values. Neither the layout of the tables nor the hash
    /// builders matter.
    fn eq(&self, other: &Self) -> (equal: bool)
        ensures
            ({
                &&& self.wf()
                &&& other.wf()
                &&& self.lawful::<K>()
                &&& other.lawful::<K>()
                &&& V::obeys_eq_spec()
            }) ==> equal == maps_equal(self@, other@),
    {
        let ghost lawful = {
            &&& self.wf()
            &&& other.wf()
            &&& self.lawful::<K>()
            &&& other.lawful::<K>()
            &&& V::obeys_eq_spec()
        };
        let ghost pairs = pool_pairs(self.inner.buckets@);
        proof {
            if lawful {
                lemma_pairs(self.inner.buckets@);
                lemma_pairs(other.inner.buckets@);
                lemma_map_of_len(self.inner.contents());
                lemma_map_of_len(other.inner.contents());
            }
        }
        if self.len() != other.len() {
            return false;
        }
        let mut iter = self.iter();
        let ghost mut seen: int = 0;
        assert(pairs.skip(0) =~= pairs);
        loop
            invariant
                0 <= seen <= pairs.len(),
                iter.rest() == pairs.skip(seen),
                pairs == pool_pairs(self.inner.buckets@),
                lawful == {
                    &&& self.wf()
                    &&& other.wf()
                    &&& self.lawful::<K>()
                    &&& other.lawful::<K>()
                    &&& V::obeys_eq_spec()
                },
                lawful ==> {
                    &&& forall|i: int|
                        0 <= i < pairs.len() ==> {
                            &&& self@.contains_key((#[trigger] pairs[i]).0)
                            &&& self@[pairs[i].0] == pairs[i].1
                        }
                    &&& forall|i: int|
                        0 <= i < seen ==> has_counterpart(self@, other@, (#[trigger] pairs[i]).0)
                },
            ensures
                seen == pairs.len(),
            decreases pairs.len() - seen,
        {
            match iter.next() {
                Some((key, value)) => {
                    assert(pairs.skip(seen).drop_first() =~= pairs.skip(seen + 1));
                    assert(pairs.skip(seen)[0] == pairs[seen]);
                    match other.get(key) {
                        Some(found) => {
                            if !(*found == *value) {
                                return false;
                            }
                        },
                        None => {
                            return false;
                        },
                    }
                    proof {
                        seen = seen + 1;
                    }
                },
                None => {
                    break;
                },
            }
        }
        proof {
            if lawful {
                assert forall|key: K| #[trigger] self@.contains_key(key) implies has_counterpart(
                    self@,
                    other@,
                    key,
                ) by {
                    let i = pairs.index_of((key, self@[key]));
                    assert(pairs[i] == (key, self@[key]));
                }
            }
        }
        true
    }
}

impl<K: Eq + Hash, V: PartialEq, S: BuildHasher, const N: usize> vstd::std_specs::cmp::PartialEqSpecImpl for HashMap<
    K,
    V,
    S,
    N,
> {
    /// What `==` means depends on the traits of the keys and values; see the contract of `eq`.
    open spec fn obeys_eq_spec() -> bool {
        false
    }

    open spec fn eq_spec(&self, other: &Self) -> bool {
        maps_equal(self@, other@)
    }
}

impl<K: Eq + Hash, V: Eq, S: BuildHasher, const N: usize> Eq for HashMap<K, V, S, N> {

}

impl<K, Q, V, S, const N: usize> vstd::std_specs::core::IndexSpecImpl<&Q> for HashMap<
    K,
    V,
    S,
    N,
> where
    K: Eq + Hash + Borrow<Q>,
    Q: Eq + Hash + ?Sized,
    S: BuildHasher,
 {
    open spec fn index_req(&self, key: &&Q) -> bool {
        self.wf() && self.lawful::<Q>() && find_key(self@, *key) is Some
    }
}

impl<K, Q, V, S, const N: usize> Index<&Q> for HashMap<
    K,
    V,
    S,
    N,
> where
    K: Eq + Hash + Borrow<Q>,
    Q: Eq + Hash + ?Sized,
    S: BuildHasher,
 {
    type Output = V;

    /// Returns a reference to the value corresponding to the supplied key.
    ///
    /// # Panics
    ///
    /// Panics if the key is not present in the map.
    fn index(&self, key: &Q) -> (value: &V)
        ensures
            *value == self@[find_key(self@, key)->0],
    {
        self.get(key).expect("no entry found for key")
    }
}

/// A lawful map can be indexed by exactly the keys that it contains.
pub proof fn law_index<K, Q, V, S, const N: usize>(map: HashMap<K, V, S, N>, key: &Q) where
    K: Eq + Hash + Borrow<Q>,
    Q: Eq + Hash + ?Sized,
    S: BuildHasher,

    requires
        map.wf(),
        map.lawful::<Q>(),
    ensures
        vstd::std_specs::core::IndexSpec::index_req(&map, &key) <==> exists|stored: K| #[trigger]
            map@.contains_key(stored) && key_matches::<K, Q>(stored, key),
{
    if exists|stored: K| #[trigger] map@.contains_key(stored) && key_matches::<K, Q>(stored, key) {
        let stored = choose|stored: K| #[trigger]
            map@.contains_key(stored) && key_matches::<K, Q>(stored, key);
        assert(holds(map@, key, stored));
    }
    if let Some(stored) = find_key(map@, key) {
        assert(holds(map@, key, stored));
    }
}

impl<K, V, S, const N: usize> IntoIterator for HashMap<K, V, S, N> {
    type Item = (K, V);

    type IntoIter = IntoIter<K, V, N>;

    /// Turns the map into an iterator over its key-value pairs.
    fn into_iter(self) -> (iter: IntoIter<K, V, N>)
        ensures
            iter.items() == pool_pairs(self.inner.buckets@),
    {
        IntoIter::new(self.inner.buckets)
    }
}

impl<'a, K, V, S, const N: usize> IntoIterator for &'a HashMap<K, V, S, N> {
    type Item = (&'a K, &'a V);

    type IntoIter = Iter<'a, K, V, N>;

    /// Visits all key-value pairs.
    fn into_iter(self) -> (iter: Iter<'a, K, V, N>)
        ensures
            iter.rest() == pool_pairs(self.inner.buckets@),
            iter.current@.len() == 0,
    {
        self.iter()
    }
}

impl<'a, K, V, S, const N: usize> IntoIterator for &'a mut HashMap<K, V, S, N> {
    type Item = (&'a K, &'a mut V);

    type IntoIter = IterMut<'a, K, V, N>;

    /// Visits all key-value pairs, with mutable references to the values.
    fn into_iter(self) -> (iter: IterMut<'a, K, V, N>)
        ensures
            iter.rest() == pool_pairs(old(self).inner.buckets@),
            iter.current@.len() == 0,
            iter.buckets@ == old(self).inner.buckets@,
            final(self).inner.buckets@ == final(iter.buckets)@,
            final(self).hash_builder == old(self).hash_builder,
            old(self).inner.wf() && is_revalued(iter.buckets@, final(iter.buckets)@)
                ==> is_rewritten(old(self).inner, final(self).inner),
    {
        self.iter_mut()
    }
}

} // verus!
