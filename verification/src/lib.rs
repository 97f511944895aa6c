//! Ordered iteration, snapshots and key encoding over a sorted key-value store.
//!
//! The store keeps raw keys in lexicographic order. A key type brings its
//! codec ([`serializable`]), an iterator walks the entries forward or
//! backward between optional bounds ([`iterator`]), and a snapshot
//! ([`snapshots`]) gives the same reads over the store as it was at one
//! point in time. What each operation does is stated over the model in
//! [`cursor`].

pub use crate::database::comparator;
pub use crate::database::cursor;
pub use crate::database::iterator;
pub use crate::database::keyspace;
pub use crate::database::options;
pub use crate::database::serializable;
pub use crate::database::snapshots;

pub mod database;
