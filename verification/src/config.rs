//! Configuration of the log stores and loglets, and the global memory
//! budget's derived defaults.

use vstd::prelude::*;

use crate::sequencer::SelectorStrategy;

verus! {

/// One gibibyte.
pub const GIB: usize = 1073741824;

/// One mebibyte.
pub const MIB: usize = 1048576;

/// How many logical tables the partition store serves.
pub const TABLE_COUNT: usize = 10;

/// The storage format version of the schema metadata directory. A
/// directory written by any other version must not be opened.
pub const STORAGE_FORMAT_VERSION: u32 = 1;

/// Whether a stored format version is one this build can open: only the
/// exact supported version is.
pub fn storage_format_compatible(stored: u32) -> (r: bool)
    ensures
        r == (stored == STORAGE_FORMAT_VERSION),
{
    stored == STORAGE_FORMAT_VERSION
}

/// Options of the log stores and loglets: the closed set of knobs the
/// platform exposes.
#[derive(Debug, Clone, PartialEq, Eq)]
pub struct Options {
    /// Directory that holds the data.
    pub data_dir: String,
    /// Whether writes go through the write-ahead log.
    pub wal_enabled: bool,
    /// Flush the WAL once per batch instead of once per write.
    pub batch_wal_flushes: bool,
    /// Memtables per column family.
    pub memtable_count: usize,
    /// Cap on a write batch's entries.
    pub write_batch_count_cap: usize,
    /// Cap on a write batch's bytes.
    pub write_batch_size_cap: usize,
    /// Copies required for a replicated commit.
    pub replication_factor: usize,
    /// Failure domains the copies must span.
    pub failure_domains: usize,
    /// How the sequencer spreads copies.
    pub spread: SelectorStrategy,
    /// Byte budget of the record cache; zero disables it.
    pub record_cache_budget_bytes: usize,
    /// Bound on the sequencer's in-flight window.
    pub sequencer_pressure_bound: usize,
    /// Per-RPC timeout in milliseconds.
    pub rpc_timeout_millis: u64,
}

impl Default for Options {
    fn default() -> (r: Self)
        ensures
            r.wal_enabled,
            !r.batch_wal_flushes,
            r.replication_factor == 1,
            r.spread == SelectorStrategy::Flood,
    {
        Options {
            data_dir: String::new(),
            wal_enabled: true,
            batch_wal_flushes: false,
            memtable_count: 10,
            write_batch_count_cap: 2000,
            write_batch_size_cap: 4 * MIB,
            replication_factor: 1,
            failure_domains: 1,
            spread: SelectorStrategy::Flood,
            record_cache_budget_bytes: 250 * MIB,
            sequencer_pressure_bound: 1000,
            rpc_timeout_millis: 2000,
        }
    }
}

/// Global memory options; they drive the storage defaults below.
#[derive(Debug, Clone, Copy, PartialEq, Eq, Structural)]
pub struct MemoryOptions {
    /// Global memory limit; it controls the storage cache defaults.
    pub limit: usize,
}

impl Default for MemoryOptions {
    fn default() -> (r: Self)
        ensures
            r.limit == 3 * GIB,
    {
        MemoryOptions { limit: 3 * GIB }
    }
}

/// The default write buffer size the memory limit implies: half the
/// limit, split over every table and up to three column families each,
/// clamped between 8 MiB and 256 MiB.
pub open spec fn spec_write_buffer_size(limit: usize) -> int {
    let raw = (limit as int) / 2 / (TABLE_COUNT as int) / 3;
    if raw < 8 * (MIB as int) {
        8 * (MIB as int)
    } else if raw > 256 * (MIB as int) {
        256 * (MIB as int)
    } else {
        raw
    }
}

impl MemoryOptions {
    /// The write buffer size to apply as a storage default.
    pub fn write_buffer_size(&self) -> (r: usize)
        ensures
            r == spec_write_buffer_size(self.limit),
    {
        let raw = self.limit / 2 / TABLE_COUNT / 3;
        if raw < 8 * MIB {
            8 * MIB
        } else if raw > 256 * MIB {
            256 * MIB
        } else {
            raw
        }
    }

    /// The block cache size to apply as a storage default: a third of
    /// the limit, with no floor or ceiling.
    pub fn cache_size(&self) -> (r: usize)
        ensures
            r == self.limit / 3,
    {
        self.limit / 3
    }
}

} // verus!
