//! Parallel disk-usage accounting: size and identity abstractions over
//! filesystem metadata, the message protocol between traversal workers and
//! the single aggregator, and the hard-link deduplicating aggregation that
//! turns a stream of per-entry messages into per-root totals.

pub mod filesize;
pub mod laws;
pub mod unique_id;
pub mod walk;
