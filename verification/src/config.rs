//! Engine configuration, with presets for three hardware classes.
//!
//! The compaction trigger is held in per-mille (parts per thousand) and the
//! trickle cadence in milliseconds, so every field is a plain integer.

use vstd::prelude::*;

verus! {

/// Engine configuration.
#[derive(Debug, Clone, PartialEq, Eq, Structural)]
pub struct Config {
    /// Maximum memory for active snapshots, in bytes.
    pub max_snapshot_memory_bytes: u64,
    /// Maximum time-to-live for snapshots, in seconds.
    pub max_snapshot_ttl_secs: u64,
    /// Log file rotation threshold, in bytes.
    pub wal_rotation_size_bytes: u64,
    /// Compaction trigger: compact when the dead-space ratio reaches this
    /// many parts per thousand.
    pub compaction_trigger_per_mille: u64,
    /// Background flush cadence, in milliseconds.
    pub trickle_cadence_ms: u64,
    /// Maximum key size in bytes.
    pub max_key_size: usize,
    /// Maximum value size in bytes.
    pub max_value_size: usize,
}

/// The server-class preset: a 64 GiB machine.
pub open spec fn spec_server_config() -> Config {
    Config {
        max_snapshot_memory_bytes: 41875931136,
        max_snapshot_ttl_secs: 3600,
        wal_rotation_size_bytes: 104857600,
        compaction_trigger_per_mille: 300,
        trickle_cadence_ms: 12000,
        max_key_size: 128,
        max_value_size: 33554432,
    }
}

/// The phone-class preset: a 16 GiB device.
pub open spec fn spec_phone_config() -> Config {
    Config {
        max_snapshot_memory_bytes: 1610612736,
        max_snapshot_ttl_secs: 1800,
        wal_rotation_size_bytes: 52428800,
        compaction_trigger_per_mille: 250,
        trickle_cadence_ms: 15000,
        max_key_size: 128,
        max_value_size: 16777216,
    }
}

/// The budget-class preset: a 4 GiB device.
pub open spec fn spec_budget_config() -> Config {
    Config {
        max_snapshot_memory_bytes: 419430400,
        max_snapshot_ttl_secs: 900,
        wal_rotation_size_bytes: 26214400,
        compaction_trigger_per_mille: 200,
        trickle_cadence_ms: 20000,
        max_key_size: 64,
        max_value_size: 8388608,
    }
}

/// Whether every field of a configuration is acceptable.
pub open spec fn spec_config_valid(c: Config) -> bool {
    &&& c.max_snapshot_memory_bytes > 0
    &&& c.max_snapshot_ttl_secs > 0
    &&& c.wal_rotation_size_bytes >= 1048576
    &&& 0 < c.compaction_trigger_per_mille < 1000
    &&& c.trickle_cadence_ms > 0
    &&& 0 < c.max_key_size <= 1024
    &&& 0 < c.max_value_size <= 134217728
}

impl Config {
    /// Server-class preset: 64 GiB machine, 39 GiB for the store.
    pub fn server() -> (r: Config)
        ensures
            r == spec_server_config(),
    {
        Config {
            max_snapshot_memory_bytes: 41875931136,
            max_snapshot_ttl_secs: 3600,
            wal_rotation_size_bytes: 104857600,
            compaction_trigger_per_mille: 300,
            trickle_cadence_ms: 12000,
            max_key_size: 128,
            max_value_size: 33554432,
        }
    }

    /// Phone-class preset: 16 GiB device, 1.5 GiB for the store.
    pub fn phone() -> (r: Config)
        ensures
            r == spec_phone_config(),
    {
        Config {
            max_snapshot_memory_bytes: 1610612736,
            max_snapshot_ttl_secs: 1800,
            wal_rotation_size_bytes: 52428800,
            compaction_trigger_per_mille: 250,
            trickle_cadence_ms: 15000,
            max_key_size: 128,
            max_value_size: 16777216,
        }
    }

    /// Budget-class preset: 4 GiB device, 400 MiB for the store.
    pub fn budget() -> (r: Config)
        ensures
            r == spec_budget_config(),
    {
        Config {
            max_snapshot_memory_bytes: 419430400,
            max_snapshot_ttl_secs: 900,
            wal_rotation_size_bytes: 26214400,
            compaction_trigger_per_mille: 200,
            trickle_cadence_ms: 20000,
            max_key_size: 64,
            max_value_size: 8388608,
        }
    }

    /// Validate every field, succeeding exactly when all are acceptable.
    pub fn validate(&self) -> (r: Result<(), String>)
        ensures
            r is Ok <==> spec_config_valid(*self),
    {
        if self.max_snapshot_memory_bytes == 0 {
            return Err("max_snapshot_memory_bytes must be > 0".to_owned());
        }
        if self.max_snapshot_ttl_secs == 0 {
            return Err("max_snapshot_ttl_secs must be > 0".to_owned());
        }
        if self.wal_rotation_size_bytes < 1048576 {
            return Err("wal_rotation_size_bytes must be >= 1MB".to_owned());
        }
        if self.compaction_trigger_per_mille == 0 || self.compaction_trigger_per_mille >= 1000 {
            return Err("compaction_trigger_per_mille must be in (0, 1000)".to_owned());
        }
        if self.trickle_cadence_ms == 0 {
            return Err("trickle_cadence_ms must be > 0".to_owned());
        }
        if self.max_key_size == 0 || self.max_key_size > 1024 {
            return Err("max_key_size must be in [1, 1024]".to_owned());
        }
        if self.max_value_size == 0 || self.max_value_size > 134217728 {
            return Err("max_value_size must be in [1, 128MB]".to_owned());
        }
        Ok(())
    }
}

impl Default for Config {
    /// The default configuration is the server-class preset.
    fn default() -> (r: Config)
        ensures
            r == spec_server_config(),
    {
        Config::server()
    }
}

} // verus!
