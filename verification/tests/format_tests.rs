use clawstore::error::ClawError;
use clawstore::format::{
    deserialize_entry, serialize_entry, ChunkHeader, Operation, HEADER_SIZE, MAX_KEY_SIZE,
    MAX_VALUE_SIZE,
};

#[test]
fn test_header_size() {
    assert_eq!(std::mem::size_of::<ChunkHeader>(), HEADER_SIZE);
}

#[test]
fn test_serialize_deserialize_roundtrip() {
    let key = b"test_key";
    let value = b"test_value_data";

    let serialized = serialize_entry(key, value, Operation::Put).unwrap();
    let deserialized = deserialize_entry(&serialized).unwrap();

    assert_eq!(deserialized.key, key);
    assert_eq!(deserialized.value, value);
    assert_eq!(deserialized.operation, Operation::Put);
    assert_eq!(deserialized.header.magic, [0x43, 0x4C, 0x41, 0x57]);
}

#[test]
fn test_delete_roundtrip() {
    let key = b"delete_me";
    let value = b"";

    let serialized = serialize_entry(key, value, Operation::Delete).unwrap();
    let deserialized = deserialize_entry(&serialized).unwrap();

    assert_eq!(deserialized.key, b"delete_me");
    assert_eq!(deserialized.value, b"");
    assert_eq!(deserialized.operation, Operation::Delete);
}

#[test]
fn test_oversized_key_rejected() {
    let key = vec![0u8; MAX_KEY_SIZE + 1];
    let result = serialize_entry(&key, b"val", Operation::Put);
    assert!(matches!(result, Err(ClawError::OversizedEntry { component, .. }) if component == "key"));
}

#[test]
fn test_oversized_value_rejected() {
    let value = vec![0u8; MAX_VALUE_SIZE + 1];
    let result = serialize_entry(b"k", &value, Operation::Put);
    assert!(matches!(result, Err(ClawError::OversizedEntry { component, .. }) if component == "value"));
}

#[test]
fn test_corrupted_magic_detected() {
    let mut data = serialize_entry(b"key", b"value", Operation::Put).unwrap();
    data[0] = 0xFF;
    assert!(matches!(deserialize_entry(&data), Err(ClawError::NoMagicFound { .. })));
}

#[test]
fn test_corrupted_payload_detected() {
    let mut data = serialize_entry(b"key", b"value", Operation::Put).unwrap();
    let last = data.len() - 1;
    data[last] ^= 0xFF;
    assert!(matches!(deserialize_entry(&data), Err(ClawError::ChecksumMismatch { .. })));
}

#[test]
fn test_max_key_size_accepted() {
    let key = vec![0x41u8; MAX_KEY_SIZE];
    let result = serialize_entry(&key, b"v", Operation::Put);
    assert!(result.is_ok());
}

#[test]
fn test_checksum_is_castagnoli() {
    // The classic CRC-32C check value pins the polynomial.
    assert_eq!(crc32c::crc32c(b"123456789"), 0xE3069283);

    // The header's checksum field is CRC-32C of the payload bytes.
    let serialized = serialize_entry(b"ab", b"cd", Operation::Put).unwrap();
    let payload = &serialized[HEADER_SIZE..];
    let expected = crc32c::crc32c(payload);
    let stored = u32::from_le_bytes([serialized[8], serialized[9], serialized[10], serialized[11]]);
    assert_eq!(stored, expected);
}

#[test]
fn test_record_layout_exact() {
    // One record, checked byte by byte against the documented layout.
    let serialized = serialize_entry(b"k", b"vv", Operation::Put).unwrap();
    assert_eq!(serialized.len(), 32 + 8 + 1 + 2);
    // Magic "CLAW".
    assert_eq!(&serialized[0..4], b"CLAW");
    // Payload length: 8 + 1 + 2 = 11, little-endian u32.
    assert_eq!(&serialized[4..8], &[11, 0, 0, 0]);
    // Operation byte and reserved bytes.
    assert_eq!(serialized[12], 1);
    assert_eq!(&serialized[13..16], &[0, 0, 0]);
    // Padding region is zero.
    assert_eq!(&serialized[16..32], &[0u8; 16]);
    // Payload: key_len u16 LE, value_len u32 LE, op, pad, key, value.
    assert_eq!(&serialized[32..34], &[1, 0]);
    assert_eq!(&serialized[34..38], &[2, 0, 0, 0]);
    assert_eq!(serialized[38], 1);
    assert_eq!(serialized[39], 0);
    assert_eq!(&serialized[40..41], b"k");
    assert_eq!(&serialized[41..43], b"vv");
}

#[test]
fn test_torn_record_reports_torn_write() {
    let mut data = serialize_entry(b"key", b"value", Operation::Put).unwrap();
    data.truncate(40);
    assert!(matches!(deserialize_entry(&data), Err(ClawError::TornWrite { .. })));
}

#[test]
fn test_bad_operation_byte_rejected() {
    // Rebuild a record whose payload claims operation 9, with a valid CRC.
    let key = b"k";
    let value = b"v";
    let mut payload = Vec::new();
    payload.extend_from_slice(&(key.len() as u16).to_le_bytes());
    payload.extend_from_slice(&(value.len() as u32).to_le_bytes());
    payload.push(9);
    payload.push(0);
    payload.extend_from_slice(key);
    payload.extend_from_slice(value);
    let checksum = crc32c::crc32c(&payload);

    let mut data = Vec::new();
    data.extend_from_slice(b"CLAW");
    data.extend_from_slice(&(payload.len() as u32).to_le_bytes());
    data.extend_from_slice(&checksum.to_le_bytes());
    data.push(9);
    data.extend_from_slice(&[0u8; 19]);
    data.extend_from_slice(&payload);

    assert!(matches!(deserialize_entry(&data), Err(ClawError::WalCorrupted { .. })));
}
