//! Access to a single entry of a map, whether it is there or not.

use vstd::prelude::*;

use crate::bucket::{new_slot, with_value, Slot};
use crate::inner::{lemma_value_changed, HashMapInner};
use crate::steps::{changed, inserted, is_changed_at, is_taken_out, lemma_inserted_changed};

verus! {

/// A view into a single entry in a map, which may be either vacant or occupied. It is constructed
/// by [`crate::HashMap::entry`].
pub enum Entry<'a, K, V, const N: usize> {
    /// An occupied entry.
    Occupied(OccupiedEntry<'a, K, V, N>),
    /// A vacant entry.
    Vacant(VacantEntry<'a, K, V, N>),
}

/// A view into an occupied entry of a map. It is part of the [`Entry`] enum.
pub struct OccupiedEntry<'a, K, V, const N: usize> {
    pub inner: &'a mut HashMapInner<K, V, N>,
    pub bucket_idx: usize,
    pub entry_idx: usize,
}

/// A view into a vacant entry of a map. It is part of the [`Entry`] enum.
pub struct VacantEntry<'a, K, V, const N: usize> {
    pub inner: &'a mut HashMapInner<K, V, N>,
    pub key: K,
    pub hash: u64,
}

impl<'a, K: Eq, V, const N: usize> Entry<'a, K, V, N> {
    /// The invariant of the entry. A vacant entry can be filled as long as the number of entries
    /// stays representable.
    pub open spec fn wf(self) -> bool {
        match self {
            Entry::Occupied(e) => e.wf(),
            Entry::Vacant(e) => e.inner.wf() && e.inner.len < usize::MAX,
        }
    }

    /// Ensures a value is in the entry by inserting the default if empty, and returns a mutable
    /// reference to the value in the entry.
    pub fn or_insert(self, default: V) -> (value: &'a mut V)
        requires
            self.wf(),
        ensures
            match self {
                Entry::Occupied(e) => {
                    &&& *value == e.slot().value
                    &&& changed(*e.inner, *final(e.inner), e.slot(), *final(value))
                    &&& is_changed_at(
                        *e.inner,
                        *final(e.inner),
                        e.bucket_idx as int,
                        e.entry_idx as int,
                        *final(value),
                    )
                },
                Entry::Vacant(e) => {
                    &&& *value == default
                    &&& inserted(
                        *e.inner,
                        *final(e.inner),
                        e.hash,
                        new_slot(e.hash, e.key, *final(value)),
                    )
                },
            },
    {
        match self {
            Entry::Occupied(e) => e.into_mut(),
            Entry::Vacant(e) => e.insert(default),
        }
    }

    /// Ensures a value is in the entry by inserting the result of the default function if empty,
    /// and returns a mutable reference to the value.
    pub fn or_insert_with<F: FnOnce() -> V>(self, default: F) -> (value: &'a mut V)
        requires
            self.wf(),
            self is Vacant ==> call_requires(default, ()),
        ensures
            match self {
                Entry::Occupied(e) => {
                    &&& *value == e.slot().value
                    &&& changed(*e.inner, *final(e.inner), e.slot(), *final(value))
                    &&& is_changed_at(
                        *e.inner,
                        *final(e.inner),
                        e.bucket_idx as int,
                        e.entry_idx as int,
                        *final(value),
                    )
                },
                Entry::Vacant(e) => {
                    &&& call_ensures(default, (), *value)
                    &&& inserted(
                        *e.inner,
                        *final(e.inner),
                        e.hash,
                        new_slot(e.hash, e.key, *final(value)),
                    )
                },
            },
    {
        match self {
            Entry::Occupied(e) => e.into_mut(),
            Entry::Vacant(e) => e.insert(default()),
        }
    }

    /// Ensures a value is in the entry by inserting the result of the default function, which
    /// receives the entry's key, if empty, and returns a mutable reference to the value.
    pub fn or_insert_with_key<F: FnOnce(&K) -> V>(self, default: F) -> (value: &'a mut V)
        requires
            self.wf(),
            self matches Entry::Vacant(e) ==> call_requires(default, (&e.key,)),
        ensures
            match self {
                Entry::Occupied(e) => {
                    &&& *value == e.slot().value
                    &&& changed(*e.inner, *final(e.inner), e.slot(), *final(value))
                    &&& is_changed_at(
                        *e.inner,
                        *final(e.inner),
                        e.bucket_idx as int,
                        e.entry_idx as int,
                        *final(value),
                    )
                },
                Entry::Vacant(e) => {
                    &&& call_ensures(default, (&e.key,), *value)
                    &&& inserted(
                        *e.inner,
                        *final(e.inner),
                        e.hash,
                        new_slot(e.hash, e.key, *final(value)),
                    )
                },
            },
    {
        match self {
            Entry::Occupied(e) => e.into_mut(),
            Entry::Vacant(e) => {
                let value = default(&e.key);
                e.insert(value)
            },
        }
    }

    /// Returns a reference to this entry's key.
    pub fn key(&self) -> (key: &K)
        requires
            self.wf(),
        ensures
            *key == match *self {
                Entry::Occupied(e) => e.slot().key,
                Entry::Vacant(e) => e.key,
            },
    {
        match self {
            Entry::Occupied(e) => e.key(),
            Entry::Vacant(e) => e.key(),
        }
    }

    /// Provides in-place mutable access to an occupied entry before any potential inserts into the
    /// map. A vacant entry is returned as it is.
    pub fn and_modify<F: FnOnce(&mut V)>(self, f: F) -> (entry: Self)
        requires
            self.wf(),
            self matches Entry::Occupied(e) ==> forall|v: &mut V|
                *v == e.slot().value ==> call_requires(f, (v,)),
        ensures
            entry.wf(),
            match (self, entry) {
                (Entry::Occupied(e), Entry::Occupied(after)) => {
                    &&& after.bucket_idx == e.bucket_idx
                    &&& after.entry_idx == e.entry_idx
                    &&& *final(after.inner) == *final(e.inner)
                    &&& changed(*e.inner, *after.inner, e.slot(), after.slot().value)
                    &&& is_changed_at(
                        *e.inner,
                        *after.inner,
                        e.bucket_idx as int,
                        e.entry_idx as int,
                        after.slot().value,
                    )
                    &&& after.slot() == with_value(e.slot(), after.slot().value)
                    &&& exists|v: &mut V|
                        *v == e.slot().value && *final(v) == after.slot().value
                            && #[trigger] call_ensures(f, (v,), ())
                },
                (Entry::Vacant(_), Entry::Vacant(_)) => entry == self,
                _ => false,
            },
    {
        match self {
            Entry::Occupied(e) => {
                let mut e = e;
                f(e.get_mut());
                Entry::Occupied(e)
            },
            Entry::Vacant(e) => Entry::Vacant(e),
        }
    }
}

impl<'a, K: Eq, V: Default, const N: usize> Entry<'a, K, V, N> {
    /// Ensures a value is in the entry by inserting the default value if empty, and returns a
    /// mutable reference to the value.
    pub fn or_default(self) -> (value: &'a mut V)
        requires
            self.wf(),
        ensures
            match self {
                Entry::Occupied(e) => {
                    &&& *value == e.slot().value
                    &&& changed(*e.inner, *final(e.inner), e.slot(), *final(value))
                    &&& is_changed_at(
                        *e.inner,
                        *final(e.inner),
                        e.bucket_idx as int,
                        e.entry_idx as int,
                        *final(value),
                    )
                },
                Entry::Vacant(e) => {
                    &&& call_ensures(V::default, (), *value)
                    &&& inserted(
                        *e.inner,
                        *final(e.inner),
                        e.hash,
                        new_slot(e.hash, e.key, *final(value)),
                    )
                },
            },
    {
        self.or_insert_with(V::default)
    }
}

impl<'a, K, V, const N: usize> OccupiedEntry<'a, K, V, N> {
    /// The invariant: the entry is in the table.
    pub open spec fn wf(self) -> bool {
        &&& self.inner.wf()
        &&& self.bucket_idx < self.inner.buckets@.len()
        &&& self.entry_idx < self.inner.buckets@[self.bucket_idx as int].slots().len()
    }

    /// The entry with its hash data.
    pub open spec fn slot(self) -> Slot<K, V> {
        self.inner.buckets@[self.bucket_idx as int].slots()[self.entry_idx as int]
    }

    /// Creates a view into the entry at a place.
    pub fn new(
        inner: &'a mut HashMapInner<K, V, N>,
        bucket_idx: usize,
        entry_idx: usize,
    ) -> (entry: Self)
        ensures
            *entry.inner == *old(inner),
            *final(inner) == *final(entry.inner),
            entry.bucket_idx == bucket_idx,
            entry.entry_idx == entry_idx,
    {
        OccupiedEntry { inner, bucket_idx, entry_idx }
    }

    /// Gets a reference to the key in the entry.
    pub fn key(&self) -> (key: &K)
        requires
            self.wf(),
        ensures
            *key == self.slot().key,
    {
        &self.inner.buckets[self.bucket_idx].entries[self.entry_idx].0
    }

    /// Gets a reference to the value in the entry.
    pub fn get(&self) -> (value: &V)
        requires
            self.wf(),
        ensures
            *value == self.slot().value,
    {
        &self.inner.buckets[self.bucket_idx].entries[self.entry_idx].1
    }

    /// Gets a mutable reference to the value in the entry.
    pub fn get_mut(&mut self) -> (value: &mut V)
        requires
            old(self).wf(),
        ensures
            *value == old(self).slot().value,
            final(self).wf(),
            final(self).slot() == with_value(old(self).slot(), *final(value)),
            changed(*old(self).inner, *final(self).inner, old(self).slot(), *final(value)),
            is_changed_at(
                *old(self).inner,
                *final(self).inner,
                old(self).bucket_idx as int,
                old(self).entry_idx as int,
                *final(value),
            ),
            *final(final(self).inner) == *final(old(self).inner),
            final(self).bucket_idx == old(self).bucket_idx,
            final(self).entry_idx == old(self).entry_idx,
    {
        let value = self.inner.value_mut(self.bucket_idx, self.entry_idx);
        proof {
            lemma_value_changed(
                *old(self).inner,
                *after_borrow(self.inner),
                self.bucket_idx as int,
                self.entry_idx as int,
                *final(value),
            );
        }
        value
    }

    /// Converts the entry into a mutable reference to its value with a lifetime bound to the map
    /// itself.
    pub fn into_mut(self) -> (value: &'a mut V)
        requires
            self.wf(),
        ensures
            *value == self.slot().value,
            changed(*old(self.inner), *final(self.inner), self.slot(), *final(value)),
            is_changed_at(
                *old(self.inner),
                *final(self.inner),
                self.bucket_idx as int,
                self.entry_idx as int,
                *final(value),
            ),
    {
        let ghost before = *self.inner;
        let value = self.inner.value_mut(self.bucket_idx, self.entry_idx);
        proof {
            lemma_value_changed(
                before,
                *after_borrow(self.inner),
                self.bucket_idx as int,
                self.entry_idx as int,
                *final(value),
            );
        }
        value
    }

    /// Sets the value of the entry and returns the old value.
    pub fn insert(&mut self, value: V) -> (replaced: V)
        requires
            old(self).wf(),
        ensures
            replaced == old(self).slot().value,
            final(self).wf(),
            final(self).slot() == with_value(old(self).slot(), value),
            changed(*old(self).inner, *final(self).inner, old(self).slot(), value),
            is_changed_at(
                *old(self).inner,
                *final(self).inner,
                old(self).bucket_idx as int,
                old(self).entry_idx as int,
                value,
            ),
            *final(final(self).inner) == *final(old(self).inner),
            final(self).bucket_idx == old(self).bucket_idx,
            final(self).entry_idx == old(self).entry_idx,
    {
        let mut replaced = value;
        std::mem::swap(self.get_mut(), &mut replaced);
        replaced
    }

    /// Takes ownership of the key and value from the map. Buckets are not merged.
    pub fn remove_entry(self) -> (pair: (K, V))
        requires
            self.wf(),
        ensures
            pair == (self.slot().key, self.slot().value),
            is_taken_out(
                *old(self.inner),
                *final(self.inner),
                self.bucket_idx as int,
                self.entry_idx as int,
            ),
    {
        self.inner.remove_at(self.bucket_idx, self.entry_idx)
    }

    /// Takes the value out of the entry, and returns it. Buckets are not merged.
    pub fn remove(self) -> (value: V)
        requires
            self.wf(),
        ensures
            value == self.slot().value,
            is_taken_out(
                *old(self.inner),
                *final(self.inner),
                self.bucket_idx as int,
                self.entry_idx as int,
            ),
    {
        self.remove_entry().1
    }
}

impl<'a, K: Eq, V, const N: usize> VacantEntry<'a, K, V, N> {
    /// Creates a view into the missing entry for a key.
    pub fn new(inner: &'a mut HashMapInner<K, V, N>, key: K, hash: u64) -> (entry: Self)
        ensures
            *entry.inner == *old(inner),
            *final(inner) == *final(entry.inner),
            entry.key == key,
            entry.hash == hash,
    {
        VacantEntry { inner, key, hash }
    }

    /// Gets a reference to the key that would be used when inserting a value through the entry.
    pub fn key(&self) -> (key: &K)
        ensures
            *key == self.key,
    {
        &self.key
    }

    /// Takes ownership of the key. The map stays as it is.
    pub fn into_key(self) -> (key: K)
        ensures
            key == self.key,
            *final(self.inner) == *old(self.inner),
    {
        self.key
    }

    /// Sets the value of the entry with the entry's key, and returns a mutable reference to it.
    pub fn insert(self, value: V) -> (slot: &'a mut V)
        requires
            self.inner.wf(),
            self.inner.len < usize::MAX,
        ensures
            *slot == value,
            inserted(
                *old(self.inner),
                *final(self.inner),
                self.hash,
                new_slot(self.hash, self.key, *final(slot)),
            ),
    {
        let ghost before = *self.inner;
        let (bi, ei) = self.inner.insert_entry(self.hash, self.key, value);
        let ghost filled = *self.inner;
        let slot = self.inner.value_mut(bi, ei);
        proof {
            let after = *after_borrow(self.inner);
            lemma_value_changed(filled, after, bi as int, ei as int, *final(slot));
            lemma_inserted_changed(
                before,
                filled,
                after,
                self.hash,
                new_slot(self.hash, self.key, value),
                bi as int,
                *final(slot),
            );
        }
        slot
    }
}

} // verus!
