//! The log-level read stream: a cursor over one logical log's LSN space.
//!
//! The stream keeps a read pointer at the LSN of the last delivered
//! record; reading continues after it. Trim gaps fast-forward the pointer
//! to the end of the gap after the gap record is delivered, so the next
//! read skips over the gap's whole range.

use vstd::prelude::*;

use crate::chain::LogId;
use crate::offsets::Lsn;

verus! {

/// A gap of trimmed records; `until` is the inclusive end in LSN space.
#[derive(Debug, Clone, Copy, PartialEq, Eq, Structural)]
pub struct TrimGap {
    pub until: Lsn,
}

/// What one slot of the logical log holds when read.
#[derive(Debug, PartialEq, Eq)]
pub enum Record {
    TrimGap(TrimGap),
    Data(crate::record::Record),
    Seal,
}

/// One delivered item: the LSN it was read at and what is there.
#[derive(Debug, PartialEq, Eq)]
pub struct LogRecord {
    pub offset: Lsn,
    pub record: Record,
}

/// The pointer value a delivered record advances the stream to.
pub open spec fn spec_read_pointer_after(record: LogRecord) -> Lsn {
    match record.record {
        Record::TrimGap(gap) => gap.until,
        Record::Data(_) => record.offset,
        Record::Seal => record.offset,
    }
}

/// A cursor over one log, delivering records with LSNs in
/// `(read_pointer, until_lsn]` and terminating once the pointer reaches
/// `until_lsn`.
#[derive(Debug, PartialEq, Eq)]
pub struct LogReadStream {
    pub log_id: LogId,
    /// Inclusive upper bound of the read.
    pub until_lsn: Lsn,
    /// LSN of the last delivered record; the next read starts after it.
    pub read_pointer: Lsn,
    pub terminated: bool,
}

impl LogReadStream {
    /// A stream over `log_id` delivering records after `after` up to and
    /// including `until_lsn`.
    pub fn create(log_id: LogId, after: Lsn, until_lsn: Lsn) -> (r: Self)
        ensures
            r.log_id == log_id,
            r.read_pointer == after,
            r.until_lsn == until_lsn,
            !r.terminated,
    {
        Self { log_id, until_lsn, read_pointer: after, terminated: false }
    }

    pub fn is_terminated(&self) -> (r: bool)
        ensures
            r == self.terminated,
    {
        self.terminated
    }

    pub fn read_pointer(&self) -> (r: Lsn)
        ensures
            r == self.read_pointer,
    {
        self.read_pointer
    }

    /// The current read pointer: the LSN of the last read record, and
    /// the position the next read continues after.
    pub fn current_read_pointer(&self) -> (r: Lsn)
        ensures
            r == self.read_pointer,
    {
        self.read_pointer
    }

    /// Where the pointer lands after delivering `record`: on a trim gap
    /// it fast-forwards to the end of the gap, otherwise to the record's
    /// own LSN.
    pub fn calculate_read_pointer(record: &LogRecord) -> (r: Lsn)
        ensures
            r == spec_read_pointer_after(*record),
    {
        match &record.record {
            Record::TrimGap(gap) => gap.until,
            Record::Data(_) => record.offset,
            Record::Seal => record.offset,
        }
    }
}

/// One observable step of a stream: what a poll delivered, if anything.
pub open spec fn stream_step(
    pre: LogReadStream,
    post: LogReadStream,
    delivered: Option<LogRecord>,
) -> bool {
    match delivered {
        Some(rec) => {
            &&& rec.offset > pre.read_pointer
            &&& post.read_pointer == spec_read_pointer_after(rec)
            &&& post.read_pointer >= rec.offset || (rec.record matches Record::TrimGap(_))
            &&& post.read_pointer >= pre.read_pointer
            &&& post.until_lsn == pre.until_lsn
            &&& post.log_id == pre.log_id
        },
        None => post == pre || (post == (LogReadStream { terminated: true, ..pre })),
    }
}

/// Delivered records carry strictly increasing LSNs: across any two
/// consecutive deliveries the second lies strictly above the first,
/// because the pointer never falls below a delivered record's LSN.
pub proof fn lemma_stream_offsets_increase(
    s0: LogReadStream,
    s1: LogReadStream,
    r1: LogRecord,
    s2: LogReadStream,
    r2: LogRecord,
)
    requires
        stream_step(s0, s1, Some(r1)),
        stream_step(s1, s2, Some(r2)),
        s1.read_pointer >= r1.offset,
    ensures
        r2.offset > r1.offset,
{
}

} // verus!
