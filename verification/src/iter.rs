//! Iterators over the entries of a map. They go through the pool bucket by bucket.

use std::collections::VecDeque;
use std::marker::PhantomData;

use vstd::prelude::*;
use vstd::std_specs::iter::IteratorSpecImpl;

use crate::bucket::Bucket;
use crate::contents::{
    is_revalued, lemma_pool_pairs_first, lemma_pool_pairs_push, pool_pairs, same_keys,
};

verus! {

/// An iterator over the entries of a map.
pub struct Iter<'a, K, V, const N: usize> {
    pub buckets: &'a [Bucket<K, V, N>],
    pub current: &'a [(K, V)],
}

impl<'a, K, V, const N: usize> Iter<'a, K, V, N> {
    /// The key-value pairs that are still to come.
    pub open spec fn rest(&self) -> Seq<(K, V)> {
        self.current@ + pool_pairs(self.buckets@)
    }

    /// The items that are still to come.
    pub open spec fn items(&self) -> Seq<(&'a K, &'a V)> {
        Seq::new(self.rest().len(), |i: int| (&self.rest()[i].0, &self.rest()[i].1))
    }

    /// Creates an iterator over the entries of a pool of buckets.
    pub fn new(buckets: &'a [Bucket<K, V, N>]) -> (iter: Self)
        ensures
            iter.rest() == pool_pairs(buckets@),
            iter.current@.len() == 0,
    {
        let iter = Iter { buckets, current: &[] };
        assert(iter.rest() =~= pool_pairs(buckets@));
        iter
    }
}

impl<'a, K, V, const N: usize> IteratorSpecImpl for Iter<'a, K, V, N> {
    open spec fn obeys_prophetic_iter_laws(&self) -> bool {
        true
    }

    open spec fn remaining(&self) -> Seq<(&'a K, &'a V)> {
        self.items()
    }

    open spec fn will_return_none(&self) -> bool {
        true
    }

    open spec fn decrease(&self) -> Option<nat> {
        Some(self.rest().len())
    }

    open spec fn initial_value_relation(&self, init: &Self) -> bool {
        init.rest() == self.rest()
    }

    open spec fn peek(&self, index: int) -> Option<(&'a K, &'a V)> {
        if 0 <= index < self.rest().len() {
            Some(self.items()[index])
        } else {
            None
        }
    }
}

impl<'a, K, V, const N: usize> Iterator for Iter<'a, K, V, N> {
    type Item = (&'a K, &'a V);

    fn next(&mut self) -> (item: Option<(&'a K, &'a V)>)
        ensures
            match item {
                Some((k, v)) => {
                    &&& old(self).rest().len() > 0
                    &&& (*k, *v) == old(self).rest()[0]
                    &&& final(self).rest() == old(self).rest().drop_first()
                },
                None => old(self).rest().len() == 0 && final(self).rest().len() == 0,
            },
    {
        loop
            invariant
                self.rest() == old(self).rest(),
            decreases self.buckets@.len(),
        {
            if self.current.len() > 0 {
                let (first, rest) = self.current.split_at(1);
                self.current = rest;
                let entry = &first[0];
                assert(self.rest() =~= old(self).rest().drop_first());
                assert(self.items() =~= old(self).items().drop_first());
                return Some((&entry.0, &entry.1));
            }
            if self.buckets.len() == 0 {
                assert(self.items() =~= old(self).items());
                return None;
            }
            let (first, rest) = self.buckets.split_at(1);
            let ghost before = self.buckets@;
            self.current = first[0].entries_slice();
            self.buckets = rest;
            proof {
                assert(before.drop_first() =~= rest@);
                lemma_pool_pairs_first(before);
                assert(self.rest() =~= old(self).rest());
            }
        }
    }

    /// Counts the entries of the current bucket only.
    fn size_hint(&self) -> (hint: (usize, Option<usize>))
        ensures
            hint.0 == self.current@.len(),
            hint.1 is None,
    {
        (self.current.len(), None)
    }
}

/// A mutable iterator over the entries of a map.
pub struct IterMut<'a, K, V, const N: usize> {
    pub buckets: &'a mut [Bucket<K, V, N>],
    pub current: &'a mut [(K, V)],
}

/// The key-value pairs of a part of a bucket and of the buckets that follow it.
pub open spec fn pairs_from<K, V, const N: usize>(
    current: Seq<(K, V)>,
    buckets: Seq<Bucket<K, V, N>>,
) -> Seq<(K, V)> {
    current + pool_pairs(buckets)
}

impl<'a, K, V, const N: usize> IterMut<'a, K, V, N> {
    /// The key-value pairs that are still to come.
    pub open spec fn rest(&self) -> Seq<(K, V)> {
        pairs_from(self.current@, self.buckets@)
    }

    /// Creates an iterator over the entries of a pool of buckets.
    pub fn new(buckets: &'a mut [Bucket<K, V, N>]) -> (iter: Self)
        ensures
            iter.rest() == pool_pairs(old(buckets)@),
            iter.current@.len() == 0,
            iter.buckets@ == old(buckets)@,
            final(buckets)@ == final(iter.buckets)@,
    {
        let iter = IterMut { buckets, current: &mut [] };
        assert(iter.rest() =~= pool_pairs(iter.buckets@));
        iter
    }
}

impl<'a, K, V, const N: usize> IteratorSpecImpl for IterMut<'a, K, V, N> {
    /// What the items are when the borrows end is not known in advance.
    open spec fn obeys_prophetic_iter_laws(&self) -> bool {
        false
    }

    open spec fn remaining(&self) -> Seq<(&'a K, &'a mut V)> {
        Seq::empty()
    }

    open spec fn will_return_none(&self) -> bool {
        true
    }

    open spec fn decrease(&self) -> Option<nat> {
        None
    }

    open spec fn initial_value_relation(&self, init: &Self) -> bool {
        true
    }

    open spec fn peek(&self, index: int) -> Option<(&'a K, &'a mut V)> {
        None
    }
}

impl<'a, K, V, const N: usize> Iterator for IterMut<'a, K, V, N> {
    type Item = (&'a K, &'a mut V);

    fn next(&mut self) -> (item: Option<(&'a K, &'a mut V)>)
        ensures
            match item {
                Some((k, v)) => {
                    &&& old(self).rest().len() > 0
                    &&& (*k, *v) == old(self).rest()[0]
                    &&& final(self).rest() == old(self).rest().drop_first()
                },
                None => old(self).rest().len() == 0 && final(self).rest().len() == 0,
            },
            // The values are what the borrows leave there; everything else stays.
            ({
                &&& same_keys(final(self).current@, final(final(self).current)@)
                &&& is_revalued(final(self).buckets@, final(final(self).buckets)@)
            }) ==> {
                &&& same_keys(old(self).current@, final(old(self).current)@)
                &&& is_revalued(old(self).buckets@, final(old(self).buckets)@)
                &&& pairs_from(final(old(self).current)@, final(old(self).buckets)@) == match item {
                    Some((k, v)) => seq![(*k, *final(v))] + pairs_from(
                        final(final(self).current)@,
                        final(final(self).buckets)@,
                    ),
                    None => pairs_from(
                        final(final(self).current)@,
                        final(final(self).buckets)@,
                    ),
                }
            },
    {
        loop
            invariant
                self.rest() == old(self).rest(),
                ({
                    &&& same_keys(self.current@, final(self.current)@)
                    &&& is_revalued(self.buckets@, final(self.buckets)@)
                }) ==> {
                    &&& same_keys(old(self).current@, final(old(self).current)@)
                    &&& is_revalued(old(self).buckets@, final(old(self).buckets)@)
                    &&& pairs_from(final(old(self).current)@, final(old(self).buckets)@)
                        == pairs_from(final(self.current)@, final(self.buckets)@)
                },
            decreases self.buckets@.len(),
        {
            if self.current.len() > 0 {
                let mut current: &'a mut [(K, V)] = &mut [];
                std::mem::swap(&mut self.current, &mut current);
                let (first, rest) = current.split_at_mut(1);
                self.current = rest;
                assert(self.rest() =~= old(self).rest().drop_first());
                let entry = &mut first[0];
                return Some((&entry.0, &mut entry.1));
            }
            if self.buckets.len() == 0 {
                return None;
            }
            let mut buckets: &'a mut [Bucket<K, V, N>] = &mut [];
            std::mem::swap(&mut self.buckets, &mut buckets);
            let ghost before = buckets@;
            let (first, rest) = buckets.split_at_mut(1);
            self.buckets = rest;
            self.current = first[0].entries_slice_mut();
            proof {
                assert(before.drop_first() =~= self.buckets@);
                lemma_pool_pairs_first(before);
                assert(self.rest() =~= old(self).rest());
                assert forall|head: Seq<Bucket<K, V, N>>, tail: Seq<Bucket<K, V, N>>|
                    head.len() == 1 implies #[trigger] pool_pairs(head + tail) == head[0].entries@
                    + pool_pairs(tail) by {
                    lemma_pool_pairs_first(head + tail);
                    assert((head + tail).drop_first() =~= tail);
                }
            }
        }
    }
}

/// An iterator over the keys of a map.
pub struct Keys<'a, K, V, const N: usize>(pub Iter<'a, K, V, N>);

impl<'a, K, V, const N: usize> Keys<'a, K, V, N> {
    /// The keys that are still to come.
    pub open spec fn items(&self) -> Seq<&'a K> {
        Seq::new(self.0.rest().len(), |i: int| &self.0.rest()[i].0)
    }
}

impl<'a, K, V, const N: usize> IteratorSpecImpl for Keys<'a, K, V, N> {
    open spec fn obeys_prophetic_iter_laws(&self) -> bool {
        true
    }

    open spec fn remaining(&self) -> Seq<&'a K> {
        self.items()
    }

    open spec fn will_return_none(&self) -> bool {
        true
    }

    open spec fn decrease(&self) -> Option<nat> {
        Some(self.items().len())
    }

    open spec fn initial_value_relation(&self, init: &Self) -> bool {
        init.items() == self.items()
    }

    open spec fn peek(&self, index: int) -> Option<&'a K> {
        if 0 <= index < self.items().len() {
            Some(self.items()[index])
        } else {
            None
        }
    }
}

impl<'a, K, V, const N: usize> Iterator for Keys<'a, K, V, N> {
    type Item = &'a K;

    fn next(&mut self) -> (item: Option<&'a K>)
        ensures
            match item {
                Some(k) => {
                    &&& old(self).0.rest().len() > 0
                    &&& *k == old(self).0.rest()[0].0
                    &&& final(self).0.rest() == old(self).0.rest().drop_first()
                },
                None => old(self).0.rest().len() == 0 && final(self).0.rest().len() == 0,
            },
    {
        let item = self.0.next();
        assert(item is Some ==> self.items() =~= old(self).items().drop_first());
        assert(item is None ==> self.items() =~= old(self).items());
        match item {
            Some((k, _)) => Some(k),
            None => None,
        }
    }
}

/// An iterator over the values of a map.
pub struct Values<'a, K, V, const N: usize>(pub Iter<'a, K, V, N>);

impl<'a, K, V, const N: usize> Values<'a, K, V, N> {
    /// The values that are still to come.
    pub open spec fn items(&self) -> Seq<&'a V> {
        Seq::new(self.0.rest().len(), |i: int| &self.0.rest()[i].1)
    }
}

impl<'a, K, V, const N: usize> IteratorSpecImpl for Values<'a, K, V, N> {
    open spec fn obeys_prophetic_iter_laws(&self) -> bool {
        true
    }

    open spec fn remaining(&self) -> Seq<&'a V> {
        self.items()
    }

    open spec fn will_return_none(&self) -> bool {
        true
    }

    open spec fn decrease(&self) -> Option<nat> {
        Some(self.items().len())
    }

    open spec fn initial_value_relation(&self, init: &Self) -> bool {
        init.items() == self.items()
    }

    open spec fn peek(&self, index: int) -> Option<&'a V> {
        if 0 <= index < self.items().len() {
            Some(self.items()[index])
        } else {
            None
        }
    }
}

impl<'a, K, V, const N: usize> Iterator for Values<'a, K, V, N> {
    type Item = &'a V;

    fn next(&mut self) -> (item: Option<&'a V>)
        ensures
            match item {
                Some(v) => {
                    &&& old(self).0.rest().len() > 0
                    &&& *v == old(self).0.rest()[0].1
                    &&& final(self).0.rest() == old(self).0.rest().drop_first()
                },
                None => old(self).0.rest().len() == 0 && final(self).0.rest().len() == 0,
            },
    {
        let item = self.0.next();
        assert(item is Some ==> self.items() =~= old(self).items().drop_first());
        assert(item is None ==> self.items() =~= old(self).items());
        match item {
            Some((_, v)) => Some(v),
            None => None,
        }
    }
}

/// A mutable iterator over the values of a map.
pub struct ValuesMut<'a, K, V, const N: usize>(pub IterMut<'a, K, V, N>);

impl<'a, K, V, const N: usize> IteratorSpecImpl for ValuesMut<'a, K, V, N> {
    /// What the items are when the borrows end is not known in advance.
    open spec fn obeys_prophetic_iter_laws(&self) -> bool {
        false
    }

    open spec fn remaining(&self) -> Seq<&'a mut V> {
        Seq::empty()
    }

    open spec fn will_return_none(&self) -> bool {
        true
    }

    open spec fn decrease(&self) -> Option<nat> {
        None
    }

    open spec fn initial_value_relation(&self, init: &Self) -> bool {
        true
    }

    open spec fn peek(&self, index: int) -> Option<&'a mut V> {
        None
    }
}

impl<'a, K, V, const N: usize> Iterator for ValuesMut<'a, K, V, N> {
    type Item = &'a mut V;

    fn next(&mut self) -> (item: Option<&'a mut V>)
        ensures
            match item {
                Some(v) => {
                    &&& old(self).0.rest().len() > 0
                    &&& *v == old(self).0.rest()[0].1
                    &&& final(self).0.rest() == old(self).0.rest().drop_first()
                },
                None => old(self).0.rest().len() == 0 && final(self).0.rest().len() == 0,
            },
            // The values are what the borrows leave there; everything else stays.
            ({
                &&& same_keys(final(self).0.current@, final(final(self).0.current)@)
                &&& is_revalued(final(self).0.buckets@, final(final(self).0.buckets)@)
            }) ==> {
                &&& same_keys(old(self).0.current@, final(old(self).0.current)@)
                &&& is_revalued(old(self).0.buckets@, final(old(self).0.buckets)@)
                &&& pairs_from(final(old(self).0.current)@, final(old(self).0.buckets)@)
                    == match item {
                    Some(v) => seq![(old(self).0.rest()[0].0, *final(v))] + pairs_from(
                        final(final(self).0.current)@,
                        final(final(self).0.buckets)@,
                    ),
                    None => pairs_from(
                        final(final(self).0.current)@,
                        final(final(self).0.buckets)@,
                    ),
                }
            },
    {
        match self.0.next() {
            Some((_, v)) => Some(v),
            None => None,
        }
    }
}

/// Moves the elements of a vector to a queue, in order.
fn queue_of<T>(items: Vec<T>) -> (queue: VecDeque<T>)
    ensures
        queue@ == items@,
{
    let ghost all = items@;
    let mut queue: VecDeque<T> = VecDeque::with_capacity(items.len());
    assert(queue@ =~= all.take(0));
    for item in rest: items.into_iter()
        invariant
            rest.seq() == all,
            queue@ == all.take(rest.index() as int),
    {
        queue.push_back(item);
        assert(queue@ =~= all.take(rest.index() + 1));
    }
    assert(all.take(all.len() as int) =~= all);
    queue
}

/// An owning iterator over the entries of a map. The entries are collected when it is made.
pub struct IntoIter<K, V, const N: usize> {
    pub entries: VecDeque<(K, V)>,
}

impl<K, V, const N: usize> IntoIter<K, V, N> {
    /// The key-value pairs that are still to come.
    pub open spec fn items(&self) -> Seq<(K, V)> {
        self.entries@
    }

    /// Creates an iterator over the entries of a pool of buckets.
    pub fn new(buckets: Vec<Bucket<K, V, N>>) -> (iter: Self)
        ensures
            iter.items() == pool_pairs(buckets@),
    {
        let ghost pool = buckets@;
        let mut entries: Vec<(K, V)> = Vec::new();
        assert(entries@ =~= pool_pairs(pool.take(0)));
        for bucket in rest: buckets.into_iter()
            invariant
                rest.seq() == pool,
                entries@ == pool_pairs(pool.take(rest.index() as int)),
        {
            let ghost done = pool.take(rest.index() as int);
            let mut bucket = bucket;
            proof {
                pool.lemma_take_succ_push(rest.index() as int);
                lemma_pool_pairs_push(done, bucket);
            }
            entries.append(&mut bucket.entries);
        }
        assert(pool.take(pool.len() as int) =~= pool);
        IntoIter { entries: queue_of(entries) }
    }
}

impl<K, V, const N: usize> IteratorSpecImpl for IntoIter<K, V, N> {
    open spec fn obeys_prophetic_iter_laws(&self) -> bool {
        true
    }

    open spec fn remaining(&self) -> Seq<(K, V)> {
        self.items()
    }

    open spec fn will_return_none(&self) -> bool {
        true
    }

    open spec fn decrease(&self) -> Option<nat> {
        Some(self.items().len())
    }

    open spec fn initial_value_relation(&self, init: &Self) -> bool {
        init.items() == self.items()
    }

    open spec fn peek(&self, index: int) -> Option<(K, V)> {
        if 0 <= index < self.items().len() {
            Some(self.items()[index])
        } else {
            None
        }
    }
}

impl<K, V, const N: usize> Iterator for IntoIter<K, V, N> {
    type Item = (K, V);

    fn next(&mut self) -> (item: Option<(K, V)>)
        ensures
            match item {
                Some(pair) => {
                    &&& old(self).items().len() > 0
                    &&& pair == old(self).items()[0]
                    &&& final(self).items() == old(self).items().drop_first()
                },
                None => old(self).items().len() == 0 && final(self).items().len() == 0,
            },
    {
        let item = self.entries.pop_front();
        assert(item is Some ==> self.items() =~= old(self).items().drop_first());
        assert(item is None ==> self.items() =~= old(self).items());
        item
    }

    fn size_hint(&self) -> (hint: (usize, Option<usize>))
        ensures
            hint.0 == self.items().len(),
            hint.1 == Some(hint.0),
    {
        let count: usize = self.entries.len();
        (count, Some(count))
    }
}

/// A draining iterator over the entries of a map. The map is empty once the iterator exists; the
/// entries that it does not hand out are dropped with it.
pub struct Drain<'a, K, V> {
    pub entries: VecDeque<(K, V)>,
    /// Keeps the map from being used while it is drained.
    pub marker: PhantomData<&'a mut (K, V)>,
}

impl<'a, K, V> Drain<'a, K, V> {
    /// The key-value pairs that are still to come.
    pub open spec fn items(&self) -> Seq<(K, V)> {
        self.entries@
    }

    /// Creates an iterator over the entries that have been taken out of a map.
    pub fn new(entries: Vec<(K, V)>) -> (iter: Self)
        ensures
            iter.items() == entries@,
    {
        Drain { entries: queue_of(entries), marker: PhantomData }
    }
}

impl<'a, K, V> IteratorSpecImpl for Drain<'a, K, V> {
    open spec fn obeys_prophetic_iter_laws(&self) -> bool {
        true
    }

    open spec fn remaining(&self) -> Seq<(K, V)> {
        self.items()
    }

    open spec fn will_return_none(&self) -> bool {
        true
    }

    open spec fn decrease(&self) -> Option<nat> {
        Some(self.items().len())
    }

    open spec fn initial_value_relation(&self, init: &Self) -> bool {
        init.items() == self.items()
    }

    open spec fn peek(&self, index: int) -> Option<(K, V)> {
        if 0 <= index < self.items().len() {
            Some(self.items()[index])
        } else {
            None
        }
    }
}

impl<'a, K, V> Iterator for Drain<'a, K, V> {
    type Item = (K, V);

    fn next(&mut self) -> (item: Option<(K, V)>)
        ensures
            match item {
                Some(pair) => {
                    &&& old(self).items().len() > 0
                    &&& pair == old(self).items()[0]
                    &&& final(self).items() == old(self).items().drop_first()
                },
                None => old(self).items().len() == 0 && final(self).items().len() == 0,
            },
    {
        let item = self.entries.pop_front();
        assert(item is Some ==> self.items() =~= old(self).items().drop_first());
        assert(item is None ==> self.items() =~= old(self).items());
        item
    }

    fn size_hint(&self) -> (hint: (usize, Option<usize>))
        ensures
            hint.0 == self.items().len(),
            hint.1 == Some(hint.0),
    {
        let count: usize = self.entries.len();
        (count, Some(count))
    }
}

} // verus!
