//! Error types for store operations.
//!
//! Every failure is one value of the closed `ClawError` enum, carrying enough
//! context (paths, offsets, sizes) to diagnose it. Paths are plain strings;
//! the kind of a failed OS call is carried as `std::io::ErrorKind`.

use vstd::prelude::*;

verus! {

#[verifier::external_type_specification]
#[verifier::external_body]
pub struct ExIoErrorKind(std::io::ErrorKind);

#[verifier::external_type_specification]
#[verifier::external_body]
pub struct ExIoError(std::io::Error);

/// Store error with detailed context.
#[derive(Debug)]
pub enum ClawError {
    /// An OS call failed.
    Io { path: Option<String>, kind: std::io::ErrorKind, message: String },
    /// A log or data file holds bytes that do not form a record.
    WalCorrupted { path: String, offset: u64, reason: String },
    /// Checksum verification failed.
    ChecksumMismatch { path: String, expected: u32, actual: u32, offset: u64 },
    /// A record's header is present but its payload is truncated.
    TornWrite { path: String, expected_size: u32, available_bytes: u64, offset: u64 },
    /// Snapshot memory usage would exceed the configured limit.
    SnapshotMemoryExceeded { requested_bytes: u64, limit_bytes: u64 },
    /// A key or value exceeds the configured maximum.
    OversizedEntry { entry_size: u64, max_size: u64, component: String },
    /// The four bytes at a record boundary are not the magic constant.
    NoMagicFound { path: String, offset: u64, found_bytes: [u8; 4] },
}

/// Relies on std's `format!` to render the text of an `Io` error without a path.
#[verifier::external_body]
fn fmt_io(message: &String, kind: &std::io::ErrorKind) -> String {
    format!("I/O error: {} ({})", message, kind)
}

/// Relies on std's `format!` to render the text of an `Io` error with a path.
#[verifier::external_body]
fn fmt_io_path(path: &String, message: &String, kind: &std::io::ErrorKind) -> String {
    format!("I/O error in {}: {} ({})", path, message, kind)
}

/// Relies on std's `format!` to render the text of a `WalCorrupted` error.
#[verifier::external_body]
fn fmt_wal_corrupted(path: &String, offset: u64, reason: &String) -> String {
    format!("WAL corrupted in {} at offset {}: {}", path, offset, reason)
}

/// Relies on std's `format!` to render the text of a `ChecksumMismatch` error.
#[verifier::external_body]
fn fmt_checksum_mismatch(path: &String, offset: u64, expected: u32, actual: u32) -> String {
    format!(
        "Checksum mismatch in {} at offset {}: expected 0x{:08x}, got 0x{:08x}",
        path, offset, expected, actual,
    )
}

/// Relies on std's `format!` to render the text of a `TornWrite` error.
#[verifier::external_body]
fn fmt_torn_write(path: &String, offset: u64, expected_size: u32, available_bytes: u64) -> String {
    format!(
        "Torn write in {} at offset {}: expected {} bytes, only {} available",
        path, offset, expected_size, available_bytes,
    )
}

/// Relies on std's `format!` to render the text of a `SnapshotMemoryExceeded` error.
#[verifier::external_body]
fn fmt_snapshot_exceeded(requested_bytes: u64, limit_bytes: u64) -> String {
    format!(
        "Snapshot memory limit exceeded: requested {} bytes, limit {} bytes",
        requested_bytes, limit_bytes,
    )
}

/// Relies on std's `format!` to render the text of an `OversizedEntry` error.
#[verifier::external_body]
fn fmt_oversized(component: &String, entry_size: u64, max_size: u64) -> String {
    format!(
        "Entry {} too large: {} bytes exceeds limit of {} bytes",
        component, entry_size, max_size,
    )
}

/// Relies on std's `format!` to render the text of a `NoMagicFound` error.
#[verifier::external_body]
fn fmt_no_magic(path: &String, offset: u64, found_bytes: &[u8; 4]) -> String {
    format!(
        "Magic bytes not found in {} at offset {}: found {:02x}{:02x}{:02x}{:02x}",
        path, offset, found_bytes[0], found_bytes[1], found_bytes[2], found_bytes[3],
    )
}

impl ClawError {
    /// Human-readable description of the error.
    pub fn message(&self) -> String {
        match self {
            ClawError::Io { path, kind, message } => {
                match path {
                    Some(p) => fmt_io_path(p, message, kind),
                    None => fmt_io(message, kind),
                }
            },
            ClawError::WalCorrupted { path, offset, reason } => {
                fmt_wal_corrupted(path, *offset, reason)
            },
            ClawError::ChecksumMismatch { path, expected, actual, offset } => {
                fmt_checksum_mismatch(path, *offset, *expected, *actual)
            },
            ClawError::TornWrite { path, expected_size, available_bytes, offset } => {
                fmt_torn_write(path, *offset, *expected_size, *available_bytes)
            },
            ClawError::SnapshotMemoryExceeded { requested_bytes, limit_bytes } => {
                fmt_snapshot_exceeded(*requested_bytes, *limit_bytes)
            },
            ClawError::OversizedEntry { entry_size, max_size, component } => {
                fmt_oversized(component, *entry_size, *max_size)
            },
            ClawError::NoMagicFound { path, offset, found_bytes } => {
                fmt_no_magic(path, *offset, found_bytes)
            },
        }
    }
}

impl From<std::io::Error> for ClawError {
    /// Relies on std::io::Error::kind and its text rendering: the error
    /// becomes an `Io` value with no path, carrying the kind and message.
    #[verifier::external_body]
    fn from(err: std::io::Error) -> (r: ClawError) {
        ClawError::Io { path: None, kind: err.kind(), message: err.to_string() }
    }
}

/// Result type alias for store operations.
pub type ClawResult<T> = Result<T, ClawError>;

} // verus!
