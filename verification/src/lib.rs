//! A log-structured key-value store.
//!
//! Every write is appended as one record to the active segment of a log that
//! is split over numbered segment files. An index in memory maps each live
//! key to the place of its latest `Set` record. Opening a store replays the
//! segments in ascending order and rebuilds the index; a compaction removes
//! the segments that no entry of the index points into.
//!
//! The files themselves are held as plain values in a
//! [`directory::Directory`]: the caller reads the root directory into one,
//! hands it to [`KvStore::open`], and writes back what the store did to it.
//!
//! - [`codec`]: one record to and from its bytes;
//! - [`segment`]: segment numbers and file names;
//! - [`log`]: the records of one segment, and what replaying them does;
//! - [`assoc`], [`directory`]: the index and the files as values;
//! - [`model`]: the store as a mathematical value, and its operations;
//! - [`recovery`]: what a replay finds again of what the store holds;
//! - [`store`]: the store itself;
//! - [`laws`]: what holds of every store.
pub mod error;
pub mod codec;
pub mod segment;
pub mod assoc;
pub mod log;
pub mod directory;
pub mod model;
pub mod recovery;
pub mod store;
pub mod laws;

pub use crate::error::KvError;
pub use crate::store::KvStore;
