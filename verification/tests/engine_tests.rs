use clawstore::engine::{replay_entries, KvIndex};
use clawstore::format::{serialize_entry, Operation};
use clawstore::trickle::DirtyTracker;
use clawstore::wal::recover_from_bytes;

/// Rebuild an index the way open does: recover the log bytes, then replay.
fn reopen(log: &[u8]) -> KvIndex {
    let entries = recover_from_bytes(log);
    replay_entries(&entries)
}

/// Append one durable mutation to the simulated log.
fn append(log: &mut Vec<u8>, key: &[u8], value: &[u8], op: Operation) {
    log.extend_from_slice(&serialize_entry(key, value, op).unwrap());
}

#[test]
fn test_open_empty() {
    let engine = reopen(&[]);
    assert_eq!(engine.len(), 0);
    assert!(engine.is_empty());
    let tracker = DirtyTracker::new();
    assert_eq!(tracker.dirty_count(), 0);
}

#[test]
fn test_put_get() {
    let mut engine = KvIndex::new();
    engine.insert(b"hello".to_vec(), b"world".to_vec());
    assert_eq!(engine.get(b"hello"), Some(b"world".to_vec()));
    assert_eq!(engine.len(), 1);
    assert!(engine.contains_key(b"hello"));
}

#[test]
fn test_put_marks_dirty() {
    let mut tracker = DirtyTracker::new();
    tracker.mark_dirty(b"k1");
    assert_eq!(tracker.dirty_count(), 1);
    tracker.mark_dirty(b"k2");
    assert_eq!(tracker.dirty_count(), 2);
    tracker.mark_dirty(b"k1");
    assert_eq!(tracker.dirty_count(), 2);
}

#[test]
fn test_delete_marks_dirty() {
    let mut tracker = DirtyTracker::new();
    tracker.mark_dirty(b"k");
    tracker.mark_dirty(b"k");
    assert_eq!(tracker.dirty_count(), 1);
}

#[test]
fn test_put_overwrite() {
    let mut engine = KvIndex::new();
    engine.insert(b"k".to_vec(), b"v1".to_vec());
    engine.insert(b"k".to_vec(), b"v2".to_vec());
    assert_eq!(engine.get(b"k"), Some(b"v2".to_vec()));
    assert_eq!(engine.len(), 1);
}

#[test]
fn test_delete() {
    let mut engine = KvIndex::new();
    engine.insert(b"k".to_vec(), b"v".to_vec());
    engine.remove(b"k");
    assert!(!engine.contains_key(b"k"));
    assert_eq!(engine.len(), 0);
}

#[test]
fn test_crash_recovery() {
    let mut log = Vec::new();
    append(&mut log, b"survive1", b"yes", Operation::Put);
    append(&mut log, b"survive2", b"also_yes", Operation::Put);
    append(&mut log, b"doomed", b"temp", Operation::Put);
    append(&mut log, b"doomed", b"", Operation::Delete);

    let engine = reopen(&log);
    assert_eq!(engine.get(b"survive1"), Some(b"yes".to_vec()));
    assert_eq!(engine.get(b"survive2"), Some(b"also_yes".to_vec()));
    assert_eq!(engine.get(b"doomed"), None);
    assert_eq!(engine.len(), 2);
}

#[test]
fn test_basic_durability() {
    let mut log = Vec::new();
    append(&mut log, b"hello", b"world", Operation::Put);
    let engine = reopen(&log);
    assert_eq!(engine.get(b"hello"), Some(b"world".to_vec()));
}

#[test]
fn test_overwrite_wins_on_reopen() {
    let mut log = Vec::new();
    append(&mut log, b"k", b"v1", Operation::Put);
    append(&mut log, b"k", b"v2", Operation::Put);
    append(&mut log, b"k", b"v3", Operation::Put);

    let replayed = recover_from_bytes(&log);
    assert_eq!(replayed.len(), 3);

    let engine = reopen(&log);
    assert_eq!(engine.get(b"k"), Some(b"v3".to_vec()));
    assert_eq!(engine.len(), 1);
}

#[test]
fn test_delete_survives_reopen() {
    let mut log = Vec::new();
    append(&mut log, b"k", b"v", Operation::Put);
    append(&mut log, b"k", b"", Operation::Delete);

    let engine = reopen(&log);
    assert_eq!(engine.get(b"k"), None);
    assert_eq!(engine.len(), 0);
}

#[test]
fn test_put_get_many() {
    let mut engine = KvIndex::new();
    for i in 0..1000 {
        engine.insert(
            format!("key{:04}", i).into_bytes(),
            format!("val{:04}", i).into_bytes(),
        );
    }
    assert_eq!(engine.len(), 1000);
    for i in 0..1000 {
        let actual = engine.get(format!("key{:04}", i).as_bytes()).unwrap();
        assert_eq!(actual, format!("val{:04}", i).into_bytes());
    }
}

#[test]
fn test_prefix_scan() {
    let mut engine = KvIndex::new();

    engine.insert(vec![0x01, b'a'], b"val_a".to_vec());
    engine.insert(vec![0x01, b'c'], b"val_c".to_vec());
    engine.insert(vec![0x01, b'b'], b"val_b".to_vec());

    engine.insert(vec![0x02, b'x'], b"val_x".to_vec());

    let results = engine.prefix_scan(&[0x01]);
    assert_eq!(results.len(), 3);
    assert_eq!(results[0], (vec![b'a'], b"val_a".to_vec()));
    assert_eq!(results[1], (vec![b'b'], b"val_b".to_vec()));
    assert_eq!(results[2], (vec![b'c'], b"val_c".to_vec()));
}

#[test]
fn test_prefix_count() {
    let mut engine = KvIndex::new();

    engine.insert(vec![0x01, b'a'], b"v".to_vec());
    engine.insert(vec![0x01, b'b'], b"v".to_vec());
    engine.insert(vec![0x02, b'a'], b"v".to_vec());

    assert_eq!(engine.prefix_count(&[0x01]), 2);
    assert_eq!(engine.prefix_count(&[0x02]), 1);
    assert_eq!(engine.prefix_count(&[0x03]), 0);
}
