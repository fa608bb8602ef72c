//! The hashing and comparison of keys.
//!
//! A map is generic over how its keys hash, compare and borrow, and over the hash builder. This
//! module makes those calls and names what the rest of the crate may conclude from them.

use std::borrow::Borrow;
use std::collections::hash_map::RandomState;
use std::hash::{BuildHasher, Hash};

use vstd::prelude::*;
use vstd::std_specs::cmp::PartialEqSpec;
use vstd::std_specs::hash::{axiom_contains_deref_key, contains_borrowed_key, obeys_key_model};

verus! {

/// Whether `key` can be borrowed as `lent`: a standard map that holds `key` alone contains it.
pub open spec fn lends<K, Q: ?Sized>(key: K, lent: &Q) -> bool {
    contains_borrowed_key::<K, (), Q>(Map::<K, ()>::empty().insert(key, ()), lent)
}

/// Borrowed under its own type, a key is lent as itself.
pub broadcast proof fn lemma_lends_itself<K>(key: K, lent: &K)
    ensures
        #[trigger] lends::<K, K>(key, lent) <==> key == *lent,
{
    axiom_contains_deref_key(Map::<K, ()>::empty().insert(key, ()), lent);
}

/// Whether looking for `query` finds the key `key`: what the key is borrowed as is `==` to it.
pub open spec fn key_matches<K, Q: PartialEq + ?Sized>(key: K, query: &Q) -> bool {
    exists|lent: &Q| #[trigger] lends::<K, Q>(key, lent) && lent.eq_spec(query)
}

/// A key looked up under its own type matches the keys that are `==` to it.
pub broadcast proof fn lemma_key_matches_itself<K: PartialEq>(key: K, query: &K)
    ensures
        #[trigger] key_matches::<K, K>(key, query) <==> key.eq_spec(query),
{
    lemma_lends_itself(key, &key);
    assert forall|lent: &K| #[trigger] lends::<K, K>(key, lent) implies key == *lent by {
        lemma_lends_itself(key, lent);
    }
}

/// Whether `key` is a key of the map that `query` finds.
pub open spec fn holds<K, V, Q: PartialEq + ?Sized>(map: Map<K, V>, query: &Q, key: K) -> bool {
    map.contains_key(key) && key_matches::<K, Q>(key, query)
}

/// The key of the map that `query` finds, if there is one.
pub open spec fn find_key<K, V, Q: PartialEq + ?Sized>(map: Map<K, V>, query: &Q) -> Option<K> {
    if exists|key: K| holds(map, query, key) {
        Some(choose|key: K| holds(map, query, key))
    } else {
        None
    }
}

/// The map with a value for a key. A key of the map that is `==` to the given one stays and gets
/// the value; otherwise the given key is added.
pub open spec fn put<K: PartialEq, V>(map: Map<K, V>, key: K, value: V) -> Map<K, V> {
    match find_key(map, &key) {
        Some(stored) => map.insert(stored, value),
        None => map.insert(key, value),
    }
}

/// Whether the keys of a map are all different under `==`.
pub open spec fn keys_differ<K: PartialEq, V>(map: Map<K, V>) -> bool {
    forall|a: K, b: K|
        #![trigger map.contains_key(a), map.contains_key(b)]
        map.contains_key(a) && map.contains_key(b) && a.eq_spec(&b) ==> a == b
}

/// Whether `==` on a type tells any two different values apart.
pub open spec fn equality_is_identity<K: PartialEq>() -> bool {
    forall|a: K, b: K| #[trigger] a.eq_spec(&b) <==> a == b
}

/// For keys that are `==` only to themselves, a key looked up under its own type is found exactly
/// when the map contains it.
pub broadcast proof fn lemma_find_key_itself<K: PartialEq, V>(map: Map<K, V>, query: &K)
    requires
        equality_is_identity::<K>(),
    ensures
        #[trigger] find_key::<K, V, K>(map, query) == if map.contains_key(*query) {
            Some(*query)
        } else {
            None
        },
{
    assert forall|key: K| #[trigger] holds(map, query, key) <==> map.contains_key(key) && key
        == *query by {
        lemma_key_matches_itself(key, query);
        assert(key.eq_spec(query) <==> key == *query);
    }
    if map.contains_key(*query) {
        assert(holds(map, query, *query));
    }
}

/// Whether `hash` is a result that hashing `key` with `builder` can have.
pub closed spec fn hashes_to<S: BuildHasher, Q: Hash + ?Sized>(
    builder: &S,
    key: &Q,
    hash: u64,
) -> bool {
    call_ensures(hash_one::<S, Q>, (builder, key), hash)
}

/// Whether `==` on a type is an equivalence relation, as `Eq` demands.
pub open spec fn is_equivalence<Q: PartialEq + ?Sized>() -> bool {
    &&& forall|a: &Q| #[trigger] a.eq_spec(a)
    &&& forall|a: &Q, b: &Q| #[trigger] a.eq_spec(b) ==> b.eq_spec(a)
    &&& forall|a: &Q, b: &Q, c: &Q|
        #![trigger a.eq_spec(b), b.eq_spec(c)]
        a.eq_spec(b) && b.eq_spec(c) ==> a.eq_spec(c)
}

/// Whether queries of type `Q` are compared as `Q`'s own `==` says, which is an equivalence, and it
/// does not matter to `==` as what a key `K` is borrowed.
pub open spec fn comparable<K, Q: Eq + ?Sized>() -> bool {
    &&& Q::obeys_eq_spec()
    &&& is_equivalence::<Q>()
    &&& forall|key: K, a: &Q, b: &Q|
        #![trigger lends::<K, Q>(key, a), lends::<K, Q>(key, b)]
        lends::<K, Q>(key, a) && lends::<K, Q>(key, b) ==> a.eq_spec(b)
}

/// The contract that `Hash`, `Eq` and `Borrow` put on a key type, a query type and a hash builder:
/// `==` is an equivalence, a query matches a key and those that are `==` to it, and it hashes as
/// the keys it matches do, every time.
pub open spec fn consistent<K: Eq + Hash, Q: Hash + Eq + ?Sized, S: BuildHasher>(
    builder: &S,
) -> bool {
    &&& comparable::<K, Q>()
    &&& forall|a: K, b: K, query: &Q|
        #![trigger key_matches::<K, Q>(a, query), key_matches::<K, Q>(b, query)]
        #![trigger key_matches::<K, Q>(a, query), a.eq_spec(&b)]
        key_matches::<K, Q>(a, query) ==> (key_matches::<K, Q>(b, query) <==> a.eq_spec(&b))
    &&& forall|key: &K, query: &Q, key_hash: u64, query_hash: u64|
        #![trigger hashes_to(builder, key, key_hash), hashes_to(builder, query, query_hash)]
        key_matches::<K, Q>(*key, query) && hashes_to(builder, key, key_hash) && hashes_to(
            builder,
            query,
            query_hash,
        ) ==> key_hash == query_hash
}

/// Whether a hash builder hashes each key alike every time.
pub open spec fn hashes_steadily<K: Hash, S: BuildHasher>(builder: &S) -> bool {
    forall|key: &K, first: u64, second: u64|
        #![trigger hashes_to(builder, key, first), hashes_to(builder, key, second)]
        hashes_to(builder, key, first) && hashes_to(builder, key, second) ==> first == second
}

/// Whether the keys of a type are `==` only to themselves and have a deterministic hash.
pub open spec fn plain_keys<K: Eq>() -> bool {
    obeys_key_model::<K>() && K::obeys_eq_spec() && equality_is_identity::<K>()
}

/// For plain keys, a builder that hashes each key alike every time is all that is needed.
pub proof fn lemma_plain_keys_are_consistent<K: Eq + Hash, S: BuildHasher>(builder: &S)
    requires
        plain_keys::<K>(),
        hashes_steadily::<K, S>(builder),
    ensures
        consistent::<K, K, S>(builder),
{
    broadcast use {lemma_lends_itself, lemma_key_matches_itself};

    assert forall|a: &K, b: &K| #[trigger] a.eq_spec(b) <==> *a == *b by {
        assert((*a).eq_spec(&*b) <==> *a == *b);
    }
}

/// Calls [`BuildHasher::hash_one`]. Nothing is promised of the result here: it depends on the
/// caller's `Hash` and `BuildHasher` implementations.
#[verifier::external_body]
fn hash_one<S: BuildHasher, Q: Hash + ?Sized>(builder: &S, key: &Q) -> (hash: u64) {
    builder.hash_one(key)
}

/// A number is a hash of a key only if hashing the key gives it.
proof fn law_hashes<S: BuildHasher, Q: Hash + ?Sized>(builder: &S, key: &Q, hash: u64)
    ensures
        hashes_to(builder, key, hash) <==> call_ensures(hash_one::<S, Q>, (builder, key), hash),
{
}

/// The hash of `key` under `builder`.
pub fn hash_key<S: BuildHasher, Q: Hash + ?Sized>(builder: &S, key: &Q) -> (hash: u64)
    ensures
        hashes_to(builder, key, hash),
{
    let hasher = hash_one::<S, Q>;
    hasher(builder, key)
}

/// Calls [`Borrow::borrow`]. A standard map that holds `key` alone contains what is returned. For a
/// key borrowed under its own type that is the key itself.
#[verifier::external_body]
fn borrow_key<K: Borrow<Q>, Q: ?Sized>(key: &K) -> (borrowed: &Q)
    ensures
        (lends::<K, Q>(*key, borrowed)),
{
    key.borrow()
}

/// Whether `query` finds `key`.
pub fn matches_key<K: Borrow<Q>, Q: Eq + ?Sized>(key: &K, query: &Q) -> (matching: bool)
    ensures
        comparable::<K, Q>() ==> matching == key_matches::<K, Q>(*key, query),
{
    let borrowed: &Q = borrow_key::<K, Q>(key);
    borrowed == query
}

/// Calls [`RandomState::new`]. The keys of the state are drawn at random, so nothing is said of
/// any particular hash; but a given state hashes a given key the same way every time, as long as
/// the key's own `Hash` is deterministic.
#[verifier::external_body]
pub(crate) fn random_state<K: Hash>() -> (builder: RandomState)
    ensures
        (obeys_key_model::<K>() ==> hashes_steadily::<K, RandomState>(&builder)),
{
    RandomState::new()
}

} // verus!
