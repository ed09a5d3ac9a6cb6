use clawstore::format::{serialize_entry, Operation};
use clawstore::wal::{
    find_next_magic, max_sequence, parse_sequence_name, recover_from_bytes, wal_file_name,
    wal_should_rotate, WalReader,
};

fn record(key: &[u8], value: &[u8], op: Operation) -> Vec<u8> {
    serialize_entry(key, value, op).unwrap()
}

#[test]
fn test_wal_write_read_roundtrip() {
    let mut buffer = Vec::new();
    buffer.extend_from_slice(&record(b"key1", b"value1", Operation::Put));
    buffer.extend_from_slice(&record(b"key2", b"value2", Operation::Put));
    buffer.extend_from_slice(&record(b"key1", b"", Operation::Delete));

    let entries = recover_from_bytes(&buffer);

    assert_eq!(entries.len(), 3);
    assert_eq!(entries[0].key, b"key1");
    assert_eq!(entries[0].value, b"value1");
    assert_eq!(entries[0].operation, Operation::Put);
    assert_eq!(entries[1].key, b"key2");
    assert_eq!(entries[2].operation, Operation::Delete);
}

#[test]
fn test_corruption_recovery_skips_bad_entry() {
    let mut data = Vec::new();
    data.extend_from_slice(&record(b"good1", b"val1", Operation::Put));
    data.extend_from_slice(&record(b"good2", b"val2", Operation::Put));
    data.extend_from_slice(&record(b"good3", b"val3", Operation::Put));

    // Corrupt a byte inside the second entry's region.
    if data.len() > 60 {
        data[60] ^= 0xFF;
    }

    let entries = recover_from_bytes(&data);

    assert!(!entries.is_empty(), "Should recover at least one entry");
    assert_eq!(entries[0].key, b"good1");
}

#[test]
fn test_interior_corruption_keeps_later_entries() {
    let first = record(b"good1", b"val1", Operation::Put);
    let second = record(b"good2", b"val2", Operation::Put);
    let third = record(b"good3", b"val3", Operation::Put);

    let mut data = Vec::new();
    data.extend_from_slice(&first);
    data.extend_from_slice(&second);
    data.extend_from_slice(&third);

    // Flip one byte inside the second entry's payload region.
    data[first.len() + 40] ^= 0xFF;

    let entries = recover_from_bytes(&data);
    let keys: Vec<&[u8]> = entries.iter().map(|e| e.key.as_slice()).collect();
    assert!(keys.contains(&b"good1".as_slice()));
    assert!(!keys.contains(&b"good2".as_slice()));
    assert!(keys.contains(&b"good3".as_slice()));
}

#[test]
fn test_torn_write_stops_cleanly() {
    let mut data = Vec::new();
    data.extend_from_slice(&record(b"complete", b"entry", Operation::Put));
    // Simulate a torn write: magic bytes, then a header claiming a 255-byte
    // payload with nothing following.
    data.extend_from_slice(&[0x43, 0x4C, 0x41, 0x57]);
    data.extend_from_slice(&[0xFF, 0x00, 0x00, 0x00]);

    let entries = recover_from_bytes(&data);

    assert_eq!(entries.len(), 1);
    assert_eq!(entries[0].key, b"complete");
}

#[test]
fn test_empty_wal_directory() {
    let reader = WalReader::new(String::from("wal"));
    let entries = reader.recover_file_bytes(&[]);
    assert!(entries.is_empty());
}

#[test]
fn test_wal_file_naming() {
    let name_bytes = wal_file_name(1);
    let name = String::from_utf8(name_bytes).unwrap();
    assert!(name.starts_with("wal-"));
    assert!(name.ends_with(".claw"));
    assert_eq!(name, "wal-0000000000000001.claw");
}

#[test]
fn test_parse_sequence_name_roundtrip() {
    let name = wal_file_name(0x1234abcd);
    assert_eq!(parse_sequence_name(&name, b"wal-"), Some(0x1234abcd));

    assert_eq!(parse_sequence_name(b"wal-0000000000000010.claw", b"wal-"), Some(16));
    assert_eq!(parse_sequence_name(b"wal-10.claw", b"wal-"), Some(16));
    assert_eq!(parse_sequence_name(b"wal-.claw", b"wal-"), None);
    assert_eq!(parse_sequence_name(b"wal-xyz.claw", b"wal-"), None);
    assert_eq!(parse_sequence_name(b"data-10.claw", b"wal-"), None);
    assert_eq!(parse_sequence_name(b"wal-10.txt", b"wal-"), None);
    assert_eq!(parse_sequence_name(b"wal-ffffffffffffffff.claw", b"wal-"), Some(u64::MAX));
    assert_eq!(parse_sequence_name(b"wal-10000000000000000.claw", b"wal-"), None);
}

#[test]
fn test_max_sequence_over_names() {
    let names: Vec<Vec<u8>> = vec![
        b"wal-0000000000000001.claw".to_vec(),
        b"wal-0000000000000007.claw".to_vec(),
        b"not-a-wal-file".to_vec(),
        b"wal-0000000000000003.claw".to_vec(),
    ];
    assert_eq!(max_sequence(&names, b"wal-"), 7);
    let empty: Vec<Vec<u8>> = Vec::new();
    assert_eq!(max_sequence(&empty, b"wal-"), 0);
}

#[test]
fn test_rotation_boundary() {
    // Rotation happens exactly when the append would push past the threshold.
    assert!(!wal_should_rotate(90, 10, 100));
    assert!(wal_should_rotate(90, 11, 100));
    assert!(!wal_should_rotate(0, 100, 100));
    assert!(wal_should_rotate(100, 1, 100));
    assert!(!wal_should_rotate(u64::MAX, 0, u64::MAX));
}

#[test]
fn test_find_next_magic_scans_forward() {
    let mut data = vec![0u8; 10];
    data.extend_from_slice(&[0x43, 0x4C, 0x41, 0x57]);
    data.extend_from_slice(&[1, 2, 3]);
    assert_eq!(find_next_magic(&data, 0), Some(10));
    assert_eq!(find_next_magic(&data, 11), None);
    assert_eq!(find_next_magic(b"", 0), None);
}
