//! A second public name for the store, spelling its eviction policy out.

use vstd::prelude::*;

verus! {

/// A fixed-capacity key-value store with least-recently-used eviction: a
/// synonym for [`Cache`](crate::cache::Cache) that names the eviction
/// policy explicitly.  Both names denote the one implementation.
pub type LRUCache<K, V> = crate::cache::Cache<K, V>;

} // verus!
