//! A fixed-capacity, in-memory key-value store with least-recently-used
//! eviction.
//!
//! The store keeps its entries in a growable arena and threads a
//! doubly-linked recency list through them, from the most-recently-used
//! entry (the head) to the least-recently-used one (the tail).  When a new
//! key must be inserted into a full store, the tail entry is evicted.
//!
//! The store is [`cache::Cache`] (also reachable under its synonym
//! [`lru_cache::LRUCache`]); its contracts are stated over the
//! mathematical model in [`model`].

pub mod cache;
pub mod lru_cache;
pub mod model;
