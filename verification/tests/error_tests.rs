use clawstore::ClawError;

#[test]
fn test_error_display() {
    let err = ClawError::ChecksumMismatch {
        path: String::from("/tmp/test.wal"),
        expected: 0x12345678,
        actual: 0x87654321,
        offset: 1024,
    };

    let display = err.message();
    assert!(display.contains("Checksum mismatch"));
    assert!(display.contains("0x12345678"));
    assert!(display.contains("0x87654321"));
}

#[test]
fn test_io_error_conversion() {
    let io_err = std::io::Error::new(std::io::ErrorKind::NotFound, "file not found");
    let claw_err: ClawError = io_err.into();

    match claw_err {
        ClawError::Io { kind, .. } => assert_eq!(kind, std::io::ErrorKind::NotFound),
        _ => panic!("Expected Io error"),
    }
}

#[test]
fn test_error_messages_name_each_variant() {
    let io = ClawError::Io {
        path: Some(String::from("/tmp/x")),
        kind: std::io::ErrorKind::Other,
        message: String::from("boom"),
    };
    assert!(io.message().contains("I/O error"));
    assert!(io.message().contains("/tmp/x"));

    let corrupt = ClawError::WalCorrupted {
        path: String::from("/tmp/w"),
        offset: 7,
        reason: String::from("bad bytes"),
    };
    assert!(corrupt.message().contains("WAL corrupted"));
    assert!(corrupt.message().contains("bad bytes"));

    let torn = ClawError::TornWrite {
        path: String::from("/tmp/t"),
        expected_size: 255,
        available_bytes: 4,
        offset: 32,
    };
    assert!(torn.message().contains("Torn write"));
    assert!(torn.message().contains("255"));

    let snap = ClawError::SnapshotMemoryExceeded { requested_bytes: 10, limit_bytes: 5 };
    assert!(snap.message().contains("Snapshot memory limit exceeded"));

    let oversized = ClawError::OversizedEntry {
        entry_size: 129,
        max_size: 128,
        component: String::from("key"),
    };
    assert!(oversized.message().contains("too large"));
    assert!(oversized.message().contains("129"));

    let magic = ClawError::NoMagicFound {
        path: String::from("/tmp/m"),
        offset: 0,
        found_bytes: [0xde, 0xad, 0xbe, 0xef],
    };
    assert!(magic.message().contains("Magic bytes not found"));
    assert!(magic.message().contains("deadbeef"));
}
