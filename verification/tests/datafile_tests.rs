use clawstore::datafile::{
    data_file_name, data_should_rotate, encode_data_record, read_entry_at, scan_records,
    DataChunkHeader, DATA_HEADER_SIZE,
};
use clawstore::error::ClawError;
use clawstore::format::{MAX_KEY_SIZE, MAX_VALUE_SIZE};

fn entry_record(key: &[u8], value: &[u8]) -> Vec<u8> {
    encode_data_record(key, value, false).unwrap()
}

fn tombstone_record(key: &[u8]) -> Vec<u8> {
    encode_data_record(key, &[], true).unwrap()
}

#[test]
fn test_write_read_roundtrip() {
    // Append one record to an empty file; the writer reports offset 0.
    let file = entry_record(b"mykey", b"myvalue");
    let entry = read_entry_at(&file, 0).unwrap().unwrap();

    assert_eq!(entry.key, b"mykey");
    assert_eq!(entry.value, b"myvalue");
    assert!(!entry.is_tombstone);
}

#[test]
fn test_read_at_reported_offset() {
    // Records appended after others read back from their own offsets.
    let mut file = entry_record(b"first", b"1");
    let offset = file.len() as u64;
    file.extend_from_slice(&entry_record(b"second", b"2"));
    file.extend_from_slice(&entry_record(b"third", b"3"));

    let entry = read_entry_at(&file, offset).unwrap().unwrap();
    assert_eq!(entry.key, b"second");
    assert_eq!(entry.value, b"2");
    assert_eq!(entry.offset, offset);
}

#[test]
fn test_tombstone() {
    let file = tombstone_record(b"gone");
    let entry = read_entry_at(&file, 0).unwrap();

    assert!(entry.is_none(), "Tombstone should return None");
}

#[test]
fn test_checksum_validation() {
    let mut file = entry_record(b"key", b"value");

    // Corrupt a payload byte.
    file[DATA_HEADER_SIZE + 3] = 0xFF;

    let result = read_entry_at(&file, 0);
    assert!(matches!(result, Err(ClawError::ChecksumMismatch { .. })));
}

#[test]
fn test_scan_all() {
    let mut file = Vec::new();
    file.extend_from_slice(&entry_record(b"k1", b"v1"));
    file.extend_from_slice(&entry_record(b"k2", b"v2"));
    file.extend_from_slice(&tombstone_record(b"k3"));
    file.extend_from_slice(&entry_record(b"k4", b"v4"));

    let entries = scan_records(&file);

    assert_eq!(entries.len(), 4);
    assert_eq!(entries[0].key, b"k1");
    assert!(!entries[0].is_tombstone);
    assert_eq!(entries[2].key, b"k3");
    assert!(entries[2].is_tombstone);
    assert_eq!(entries[3].key, b"k4");
}

#[test]
fn test_oversized_rejected() {
    let big_key = vec![0xAA; MAX_KEY_SIZE + 1];
    assert!(matches!(
        encode_data_record(&big_key, b"v", false),
        Err(ClawError::OversizedEntry { .. })
    ));

    let big_val = vec![0xBB; MAX_VALUE_SIZE + 1];
    assert!(matches!(
        encode_data_record(b"k", &big_val, false),
        Err(ClawError::OversizedEntry { .. })
    ));
}

#[test]
fn test_scan_skips_corrupt_record() {
    let first = entry_record(b"a", b"1");
    let second = entry_record(b"b", b"2");
    let third = entry_record(b"c", b"3");

    let mut file = Vec::new();
    file.extend_from_slice(&first);
    file.extend_from_slice(&second);
    file.extend_from_slice(&third);

    // Corrupt the second record's payload; the scan drops it silently.
    file[first.len() + DATA_HEADER_SIZE] ^= 0xFF;

    let entries = scan_records(&file);
    let keys: Vec<&[u8]> = entries.iter().map(|e| e.key.as_slice()).collect();
    assert_eq!(keys, vec![b"a".as_slice(), b"c".as_slice()]);
}

#[test]
fn test_scan_stops_at_truncated_tail() {
    let mut file = entry_record(b"whole", b"rec");
    let mut torn = entry_record(b"torn", b"big-value");
    torn.truncate(torn.len() - 3);
    file.extend_from_slice(&torn);

    let entries = scan_records(&file);
    assert_eq!(entries.len(), 1);
    assert_eq!(entries[0].key, b"whole");
}

#[test]
fn test_read_bad_magic() {
    let mut file = entry_record(b"k", b"v");
    file[0] = 0x00;
    assert!(matches!(read_entry_at(&file, 0), Err(ClawError::NoMagicFound { .. })));
}

#[test]
fn test_read_past_end_is_torn() {
    let file = entry_record(b"k", b"v");
    assert!(matches!(read_entry_at(&file, file.len() as u64), Err(ClawError::TornWrite { .. })));
}

#[test]
fn test_data_header_roundtrip() {
    let header = DataChunkHeader::new(3, 5, 0xDEADBEEF, 1);
    let bytes = header.to_bytes();
    assert_eq!(bytes.len(), DATA_HEADER_SIZE);
    let parsed = DataChunkHeader::from_bytes(&bytes);
    assert_eq!(parsed.key_len, 3);
    assert_eq!(parsed.value_len, 5);
    assert_eq!(parsed.checksum, 0xDEADBEEF);
    assert_eq!(parsed.flags, 1);
    assert!(parsed.is_tombstone());
}

#[test]
fn test_data_file_naming() {
    let name = String::from_utf8(data_file_name(2)).unwrap();
    assert_eq!(name, "data-0000000000000002.claw");
}

#[test]
fn test_data_rotation_boundary() {
    assert!(!data_should_rotate(100, 56, 156));
    assert!(data_should_rotate(100, 57, 156));
}
