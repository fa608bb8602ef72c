//! An extendible-hashing hash map.
//!
//! A directory of `2^d` slots leads from the low `d` bits of a hash to a bucket, a small group of
//! entries. When a bucket overflows, only that bucket is split; when two sibling buckets have
//! become sparse, they are merged and the place of one of them is reused later. No entry is ever
//! hashed again.
//!
//! [`HashMap`] is the map. [`laws`], [`table_laws`] and [`capacity_laws`] state what holds of its
//! operations together, and [`meaning`] what the contracts mean in plain terms.
//! `broadcast use laws::group_map_laws` brings in what a caller needs most.

pub mod bits;
pub mod bucket;
pub mod bulk;
pub mod capacity_laws;
pub mod contents;
pub mod directory;
pub mod entry;
pub mod growth;
pub mod hashing;
pub mod inner;
pub mod iter;
pub mod laws;
pub mod map;
pub mod meaning;
pub mod retain;
pub mod steps;
pub mod table_laws;
pub mod text;
pub mod traits;

use vstd::prelude::*;

pub use crate::entry::{Entry, OccupiedEntry, VacantEntry};
pub use crate::iter::{Drain, IntoIter, Iter, IterMut, Keys, Values, ValuesMut};
pub use crate::map::HashMap;

verus! {

/// Default number of entries per bucket. Eight one-byte fingerprints fill one machine word.
pub const DEFAULT_BUCKET_CAPACITY: usize = 8;

} // verus!
