use clawstore::compaction::{
    compact_buffer, compact_records, live_unique_count, needs_compaction_records,
    CompactionResult,
};
use clawstore::datafile::{encode_data_record, scan_records};

fn entry_record(key: &[u8], value: &[u8]) -> Vec<u8> {
    encode_data_record(key, value, false).unwrap()
}

fn tombstone_record(key: &[u8]) -> Vec<u8> {
    encode_data_record(key, &[], true).unwrap()
}

fn compact(file: &[u8]) -> (Vec<u8>, CompactionResult) {
    compact_buffer(file, String::from("data"), file.len() as u64)
}

#[test]
fn test_compact_removes_tombstones() {
    let mut file = Vec::new();
    file.extend_from_slice(&entry_record(b"keep", b"alive"));
    file.extend_from_slice(&entry_record(b"dead", b"temporary"));
    file.extend_from_slice(&tombstone_record(b"dead"));

    let (out, result) = compact(&file);

    assert_eq!(result.original_entries, 3);
    assert_eq!(result.live_entries, 1);
    assert_eq!(result.removed_entries, 2);
    assert!(result.compacted_bytes < result.original_bytes);

    // The compacted file holds only the live entry.
    let entries = scan_records(&out);
    assert_eq!(entries.len(), 1);
    assert_eq!(entries[0].key, b"keep");
    assert_eq!(entries[0].value, b"alive");
}

#[test]
fn test_compact_deduplicates_overwrites() {
    let mut file = Vec::new();
    file.extend_from_slice(&entry_record(b"k", b"v1"));
    file.extend_from_slice(&entry_record(b"k", b"v2"));
    file.extend_from_slice(&entry_record(b"k", b"v3_final"));

    let (out, result) = compact(&file);

    assert_eq!(result.original_entries, 3);
    assert_eq!(result.live_entries, 1);

    let entries = scan_records(&out);
    assert_eq!(entries.len(), 1);
    assert_eq!(entries[0].key, b"k");
    assert_eq!(entries[0].value, b"v3_final");
}

#[test]
fn test_compact_empty_file_after_all_deleted() {
    let mut file = Vec::new();
    file.extend_from_slice(&entry_record(b"a", b"1"));
    file.extend_from_slice(&tombstone_record(b"a"));

    let (_, result) = compact(&file);

    assert_eq!(result.live_entries, 0);
    assert_eq!(result.removed_entries, 2);
}

#[test]
fn test_needs_compaction_threshold() {
    // 5 records, 2 overwritten: 40% dead.
    let mut file = Vec::new();
    file.extend_from_slice(&entry_record(b"a", b"1"));
    file.extend_from_slice(&entry_record(b"b", b"2"));
    file.extend_from_slice(&entry_record(b"c", b"3"));
    file.extend_from_slice(&entry_record(b"a", b"new_a"));
    file.extend_from_slice(&entry_record(b"b", b"new_b"));

    let entries = scan_records(&file);
    assert_eq!(live_unique_count(&entries), 3);

    // 40% dead, threshold 30%: needs compaction.
    assert!(needs_compaction_records(&entries, 300, 1000));

    // 40% dead, threshold 50%: does not.
    assert!(!needs_compaction_records(&entries, 500, 1000));

    // Empty files never need compaction.
    let none: Vec<clawstore::datafile::DataEntry> = Vec::new();
    assert!(!needs_compaction_records(&none, 300, 1000));
}

#[test]
fn test_compact_preserves_crash_safety() {
    let mut file = Vec::new();
    file.extend_from_slice(&entry_record(b"important", b"data"));
    file.extend_from_slice(&entry_record(b"stale", b"old"));
    file.extend_from_slice(&entry_record(b"stale", b"new"));

    let (out, _) = compact(&file);

    // After compaction the data is still readable with valid checksums:
    // scanning validates every CRC.
    let entries = scan_records(&out);
    assert_eq!(entries.len(), 2);
    for entry in &entries {
        assert!(!entry.is_tombstone);
    }
}

#[test]
fn test_compact_twice_removes_nothing_more() {
    let mut file = Vec::new();
    file.extend_from_slice(&entry_record(b"x", b"1"));
    file.extend_from_slice(&entry_record(b"y", b"2"));
    file.extend_from_slice(&tombstone_record(b"x"));
    file.extend_from_slice(&entry_record(b"y", b"3"));

    let (once, first) = compact(&file);
    assert_eq!(first.live_entries, 1);
    assert_eq!(first.removed_entries, 3);

    // A second compaction is a fixed point: zero removals, same bytes.
    let (twice, second) = compact(&once);
    assert_eq!(second.original_entries, 1);
    assert_eq!(second.live_entries, 1);
    assert_eq!(second.removed_entries, 0);
    assert_eq!(twice, once);
}

#[test]
fn test_compact_records_keeps_order_of_survivors() {
    let mut file = Vec::new();
    file.extend_from_slice(&entry_record(b"b", b"old"));
    file.extend_from_slice(&entry_record(b"a", b"1"));
    file.extend_from_slice(&entry_record(b"b", b"new"));
    let entries = scan_records(&file);
    let live = compact_records(&entries);
    assert_eq!(live.len(), 2);
    assert_eq!(live[0].key, b"a");
    assert_eq!(live[1].key, b"b");
    assert_eq!(live[1].value, b"new");
}

#[test]
fn test_bytes_saved() {
    let result = CompactionResult {
        file_path: String::from("data"),
        original_entries: 100,
        live_entries: 60,
        removed_entries: 40,
        original_bytes: 10000,
        compacted_bytes: 6000,
    };
    assert_eq!(result.bytes_saved(), 4000);

    let grew = CompactionResult {
        file_path: String::from("data"),
        original_entries: 1,
        live_entries: 1,
        removed_entries: 0,
        original_bytes: 10,
        compacted_bytes: 20,
    };
    assert_eq!(grew.bytes_saved(), 0);
}
