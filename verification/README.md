# astenn

An extendible-hashing hash map, written in Rust and verified with Verus.

A directory of `2^d` slots leads from the low `d` bits of a hash to a bucket of a few entries. When
a bucket overflows, only that bucket is split, and the directory doubles if it has to. When a removal
leaves two sibling buckets sparse, they are merged, and the freed place is used by the next split.

## Layout

- `map.rs`: `HashMap`, its invariant and its main operations
- `entry.rs`, `iter.rs`, `bulk.rs`, `retain.rs`, `traits.rs`, `text.rs`: the rest of its interface
- `inner.rs`: the table, which knows nothing of how keys are hashed
- `bucket.rs`, `directory.rs`, `bits.rs`: what the table is made of
- `contents.rs`, `steps.rs`: what a table holds, and what one operation does to it
- `hashing.rs`: how keys are hashed, compared and borrowed
- `growth.rs`: how many buckets a set of keys needs
- `laws.rs`, `table_laws.rs`, `capacity_laws.rs`: what holds of the operations together

## What a caller can rely on

Every operation keeps the invariant of the map (`wf`). If keys hash and compare as `Hash`, `Eq` and
`Borrow` demand (`lawful`), the map behaves as the mathematical map `map@`. Keys may be `==` without
being identical: of two such keys the one that was inserted first stays.

That a map is lawful is known

- of a map made by `new` or `with_capacity`, for keys that are `==` only to themselves and have a
  deterministic hash (`plain_keys`), looked up under their own type;
- of any map with such keys, once its hash builder is known to hash each key alike every time
  (`hashes_steadily`, `lemma_plain_keys_are_consistent`).

Otherwise, as for keys that are looked up in borrowed form, it is for the caller to assume. Where it
is not known, the table still keeps its structure, and no entry appears or disappears except by an
operation that says so.

A bucket holds `N` entries at most, with two exceptions: an empty bucket takes an entry even if `N`
is zero, and a bucket whose keys share all stored hash bits, so that no split can part them, takes
more than `N`.
