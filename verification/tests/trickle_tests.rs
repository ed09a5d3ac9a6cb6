use clawstore::datafile::{encode_data_record, scan_records};
use clawstore::engine::KvIndex;
use clawstore::trickle::{plan_flush, DirtyTracker};

#[test]
fn test_dirty_tracker_basics() {
    let mut tracker = DirtyTracker::new();
    assert_eq!(tracker.dirty_count(), 0);

    tracker.mark_dirty(b"key1");
    tracker.mark_dirty(b"key2");
    assert_eq!(tracker.dirty_count(), 2);

    // Marking the same key twice does not increase the count.
    tracker.mark_dirty(b"key1");
    assert_eq!(tracker.dirty_count(), 2);

    let taken = tracker.take_dirty();
    assert_eq!(taken.len(), 2);
    assert_eq!(tracker.dirty_count(), 0);
}

#[test]
fn test_dirty_tracker_stats() {
    let mut tracker = DirtyTracker::new();
    assert_eq!(tracker.total_flushed(), 0);
    assert_eq!(tracker.total_cycles(), 0);

    tracker.record_cycle(5);
    assert_eq!(tracker.total_flushed(), 5);
    assert_eq!(tracker.total_cycles(), 1);

    tracker.record_cycle(3);
    assert_eq!(tracker.total_flushed(), 8);
    assert_eq!(tracker.total_cycles(), 2);
}

/// One flush cycle, as the background worker runs it: take the dirty keys,
/// snapshot their values, append a record or tombstone for each, and record
/// the cycle.
fn flush_cycle(index: &KvIndex, tracker: &mut DirtyTracker, file: &mut Vec<u8>) {
    let dirty = tracker.take_dirty();
    if dirty.is_empty() {
        tracker.record_cycle(0);
        return;
    }
    let snapshot = plan_flush(index, &dirty);
    let mut flushed = 0u64;
    for (key, value) in &snapshot {
        let record = match value {
            Some(v) => encode_data_record(key, v, false),
            None => encode_data_record(key, &[], true),
        };
        file.extend_from_slice(&record.unwrap());
        flushed += 1;
    }
    tracker.record_cycle(flushed);
}

#[test]
fn test_flush_dirty_writes_to_datafile() {
    let mut index = KvIndex::new();
    let mut tracker = DirtyTracker::new();

    index.insert(b"k1".to_vec(), b"v1".to_vec());
    index.insert(b"k2".to_vec(), b"v2".to_vec());
    tracker.mark_dirty(b"k1");
    tracker.mark_dirty(b"k2");

    let mut file = Vec::new();
    flush_cycle(&index, &mut tracker, &mut file);

    assert_eq!(tracker.total_flushed(), 2);
    assert_eq!(tracker.total_cycles(), 1);
    assert_eq!(tracker.dirty_count(), 0);

    let entries = scan_records(&file);
    assert_eq!(entries.len(), 2);
}

#[test]
fn test_flush_dirty_handles_deleted_keys() {
    let index = KvIndex::new();
    let mut tracker = DirtyTracker::new();

    // A key marked dirty but absent from the index was deleted: the flush
    // writes a tombstone for it.
    tracker.mark_dirty(b"deleted_key");

    let mut file = Vec::new();
    flush_cycle(&index, &mut tracker, &mut file);

    assert_eq!(tracker.total_flushed(), 1);
    assert_eq!(tracker.total_cycles(), 1);

    let entries = scan_records(&file);
    assert_eq!(entries.len(), 1);
    assert_eq!(entries[0].key, b"deleted_key");
    assert!(entries[0].is_tombstone);
}

#[test]
fn test_trickle_no_dirty_noop() {
    let index = KvIndex::new();
    let mut tracker = DirtyTracker::new();

    let mut file = Vec::new();
    flush_cycle(&index, &mut tracker, &mut file);

    assert_eq!(tracker.total_flushed(), 0);
    assert_eq!(tracker.total_cycles(), 1);
    assert!(file.is_empty());
}

#[test]
fn test_trickle_mirrors_all_dirty_keys() {
    let mut index = KvIndex::new();
    let mut tracker = DirtyTracker::new();

    index.insert(b"t1".to_vec(), b"v1".to_vec());
    tracker.mark_dirty(b"t1");
    index.insert(b"t2".to_vec(), b"v2".to_vec());
    tracker.mark_dirty(b"t2");
    assert_eq!(tracker.dirty_count(), 2);

    let mut file = Vec::new();
    flush_cycle(&index, &mut tracker, &mut file);

    assert_eq!(tracker.dirty_count(), 0);
    assert!(tracker.total_flushed() >= 2);
    assert!(tracker.total_cycles() >= 1);
    assert!(!file.is_empty());

    let entries = scan_records(&file);
    let keys: Vec<&[u8]> = entries.iter().map(|e| e.key.as_slice()).collect();
    assert!(keys.contains(&b"t1".as_slice()));
    assert!(keys.contains(&b"t2".as_slice()));
}
