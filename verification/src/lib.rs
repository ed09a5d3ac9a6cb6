//! A crash-safe, embeddable key-value storage core.
//!
//! Keys and values are opaque byte strings. Mutations are recorded in an
//! append-only, checksummed write-ahead log before they become visible in the
//! in-memory index; a background flusher mirrors the index into rotated data
//! files, and a compactor rewrites those files to drop dead entries.
//!
//! This crate holds the verified logic: the record codec, the recovery and
//! scan algorithms over raw bytes, the sorted in-memory index, the dirty-key
//! tracker, and the compaction planner. File handles, locks and threads live
//! with the embedding program, which feeds bytes in and writes bytes out.

pub mod compaction;
pub mod config;
pub mod datafile;
pub mod engine;
pub mod error;
pub mod format;
pub mod tables;
pub mod trickle;
pub mod wal;

pub use compaction::CompactionResult;
pub use config::Config;
pub use datafile::{DataEntry, DataChunkHeader};
pub use engine::KvIndex;
pub use error::{ClawError, ClawResult};
pub use format::{ChunkHeader, Operation, WalEntry};
pub use trickle::DirtyTracker;
pub use wal::WalReader;
