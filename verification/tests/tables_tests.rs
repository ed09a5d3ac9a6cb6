use clawstore::tables::{prefixed_key, strip_prefix, table_id_for_name};

#[test]
fn test_known_tables_unique() {
    let tables = [
        "CanonicalHeaders", "HeaderNumbers", "Headers",
        "BlockBodyIndices", "BlockOmmers", "BlockWithdrawals",
        "Transactions", "TransactionHashNumbers", "TransactionBlocks",
        "TransactionSenders", "Receipts", "PlainAccountState",
        "PlainStorageState", "Bytecodes", "AccountsTrie",
        "StoragesTrie", "HashedAccounts", "HashedStorages",
        "AccountsHistory", "StoragesHistory", "AccountChangeSets",
        "StorageChangeSets", "StageCheckpoints", "StageCheckpointProgresses",
        "PruneCheckpoints", "VersionHistory", "ChainState", "Metadata",
    ];
    let mut ids: Vec<u8> = tables.iter().map(|t| table_id_for_name(t)).collect();
    ids.sort();
    ids.dedup();
    assert_eq!(ids.len(), tables.len(), "Table IDs must be unique");
}

#[test]
fn test_prefixed_key() {
    let key = b"test_key";
    let prefixed = {
        let table_id = table_id_for_name("PlainAccountState");
        prefixed_key(table_id, key)
    };
    assert_eq!(prefixed[0], 0x0C);
    assert_eq!(strip_prefix(&prefixed), key.as_slice());
}

#[test]
fn test_unknown_table_gets_reserved_range() {
    let id = table_id_for_name("SomeUnknownTable");
    assert!(id >= 0xE0);
    // The fallback is deterministic.
    assert_eq!(id, table_id_for_name("SomeUnknownTable"));
}

#[test]
fn test_strip_prefix_of_empty_key() {
    let empty: &[u8] = &[];
    assert_eq!(strip_prefix(empty), empty);
    assert_eq!(strip_prefix(&[0x0C]), empty);
}
