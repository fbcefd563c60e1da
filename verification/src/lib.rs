//! Streaming round-trip-time (RTT) percentile statistics.
//!
//! The crate ingests raw RTT samples, maintains a bounded-memory mergeable
//! quantile sketch over integer microsecond values, persists compacted
//! snapshots of that sketch as records of a key-value table, and answers
//! time-windowed percentile queries by merging the persisted snapshots.

pub mod clock;
pub mod codec;
pub mod digits;
pub mod event;
pub mod query;
pub mod record;
pub mod service;
pub mod sketch;
pub mod store;
pub mod summary;
