//! Cluster log: entries, their binary format, the ring buffer of recent entries and
//! the deduplicating, merging cluster log.

pub mod hash;
pub mod entry;
pub mod order;
pub mod ring_buffer;
pub mod cluster_log;
