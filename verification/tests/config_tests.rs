use clawstore::Config;

#[test]
fn test_all_presets_valid() {
    assert!(Config::server().validate().is_ok());
    assert!(Config::phone().validate().is_ok());
    assert!(Config::budget().validate().is_ok());
}

#[test]
fn test_tier_ordering() {
    let s = Config::server();
    let p = Config::phone();
    let b = Config::budget();
    assert!(s.max_snapshot_memory_bytes > p.max_snapshot_memory_bytes);
    assert!(p.max_snapshot_memory_bytes > b.max_snapshot_memory_bytes);
}

#[test]
fn test_default_is_server() {
    assert_eq!(Config::default(), Config::server());
}

#[test]
fn test_validation_rejects_each_bad_field() {
    let mut c = Config::server();
    c.max_snapshot_memory_bytes = 0;
    assert!(c.validate().is_err());

    let mut c = Config::server();
    c.max_snapshot_ttl_secs = 0;
    assert!(c.validate().is_err());

    let mut c = Config::server();
    c.wal_rotation_size_bytes = 1048575;
    assert!(c.validate().is_err());

    let mut c = Config::server();
    c.compaction_trigger_per_mille = 0;
    assert!(c.validate().is_err());
    c.compaction_trigger_per_mille = 1000;
    assert!(c.validate().is_err());
    c.compaction_trigger_per_mille = 999;
    assert!(c.validate().is_ok());

    let mut c = Config::server();
    c.trickle_cadence_ms = 0;
    assert!(c.validate().is_err());

    let mut c = Config::server();
    c.max_key_size = 0;
    assert!(c.validate().is_err());
    c.max_key_size = 1025;
    assert!(c.validate().is_err());
    c.max_key_size = 1024;
    assert!(c.validate().is_ok());

    let mut c = Config::server();
    c.max_value_size = 0;
    assert!(c.validate().is_err());
    c.max_value_size = 134217729;
    assert!(c.validate().is_err());
    c.max_value_size = 134217728;
    assert!(c.validate().is_ok());
}
