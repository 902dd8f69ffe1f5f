//! Sequence-number spaces of the log.
//!
//! An LSN addresses a record in a logical log; a loglet offset addresses a
//! record inside a single loglet (one segment of the chain). Both start at
//! 1 (`OLDEST`); 0 (`INVALID`) is the sentinel for "nothing".

use vstd::prelude::*;

verus! {

/// Log sequence number in the facade's logical space.
pub type Lsn = u64;

/// Position inside a single loglet.
pub type LogletOffset = u32;

pub const LSN_INVALID: u64 = 0;
pub const LSN_OLDEST: u64 = 1;
pub const LSN_MAX: u64 = u64::MAX;

pub const OFFSET_INVALID: u32 = 0;
pub const OFFSET_OLDEST: u32 = 1;
pub const OFFSET_MAX: u32 = u32::MAX;

/// The LSN at which a loglet offset appears, for a loglet whose first
/// record (`OFFSET_OLDEST`) is at `base_lsn`.
pub open spec fn lsn_for_offset(base_lsn: Lsn, offset: LogletOffset) -> int {
    base_lsn + offset - OFFSET_OLDEST
}

/// The loglet offset at which an LSN lands inside a loglet based at
/// `base_lsn`.
pub open spec fn offset_for_lsn(base_lsn: Lsn, lsn: Lsn) -> int {
    lsn - base_lsn + OFFSET_OLDEST
}

/// Maps a loglet offset into the LSN space of a loglet based at `base_lsn`.
pub fn lsn_from_offset(base_lsn: Lsn, offset: LogletOffset) -> (r: Lsn)
    requires
        base_lsn >= LSN_OLDEST,
        offset >= OFFSET_OLDEST,
        base_lsn + offset - OFFSET_OLDEST <= LSN_MAX,
    ensures
        r == lsn_for_offset(base_lsn, offset),
{
    base_lsn + (offset - OFFSET_OLDEST) as u64
}

/// Maps an LSN back to the offset inside the loglet based at `base_lsn`.
pub fn offset_from_lsn(base_lsn: Lsn, lsn: Lsn) -> (r: LogletOffset)
    requires
        lsn >= base_lsn,
        lsn - base_lsn + OFFSET_OLDEST <= OFFSET_MAX,
    ensures
        r == offset_for_lsn(base_lsn, lsn),
{
    (lsn - base_lsn) as u32 + OFFSET_OLDEST
}

/// The two maps invert each other on every offset a loglet can hold.
pub proof fn lemma_lsn_offset_round_trip(base_lsn: Lsn, offset: LogletOffset)
    requires
        offset >= OFFSET_OLDEST,
        base_lsn + offset - OFFSET_OLDEST <= LSN_MAX,
    ensures
        offset_for_lsn(base_lsn, lsn_for_offset(base_lsn, offset) as u64) == offset,
{
}

} // verus!
