//! A fixed-capacity key-value cache with least-recently-used eviction.
//!
//! The cache pairs an index (a hash map from key to value and node handle)
//! with a recency tracker (a doubly-linked list of keys held in an arena of
//! slots addressed by stable indices). Every read or write keeps the two
//! structures consistent: the set of keys in the index always equals the set
//! of keys on the tracker, and the tracker orders them from most recently
//! touched at the front to least recently touched at the back.

pub mod cache;
pub mod list;
mod seq_facts;

pub use cache::LruCache;
pub use list::List;
pub use list::ListNode;
