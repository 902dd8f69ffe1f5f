//! A log's chain: the ordered segments that make up one logical log, and
//! the lookup from an LSN to the segment that holds it.

use vstd::prelude::*;

use crate::offsets::{Lsn, LSN_MAX, LSN_OLDEST, OFFSET_MAX};

verus! {

/// Identifier of a logical log.
pub type LogId = u64;

/// Position of a segment in a log's chain.
pub type SegmentIndex = u32;

/// Which provider serves a segment.
#[derive(Debug, Clone, Copy, PartialEq, Eq, Structural)]
pub enum ProviderKind {
    Local,
    Replicated,
    File,
}

/// Opaque provider-specific configuration of one loglet.
#[derive(Debug, PartialEq, Eq)]
pub struct LogletParams {
    pub raw: String,
}

impl LogletParams {
    pub fn new(raw: String) -> (r: Self)
        ensures
            r.raw@ == raw@,
    {
        Self { raw }
    }
}

/// One segment of a log's chain.
#[derive(Debug, PartialEq, Eq)]
pub struct Segment {
    pub index: SegmentIndex,
    pub base_lsn: Lsn,
    pub provider: ProviderKind,
    pub params: LogletParams,
}

/// The chain of a log: segments in order of strictly increasing base LSN
/// and segment index. The last segment is the only writable one.
#[derive(Debug, PartialEq, Eq)]
pub struct Chain {
    pub segments: Vec<Segment>,
}

impl Chain {
    pub open spec fn wf(&self) -> bool {
        &&& self.segments@.len() > 0
        &&& forall|i: int, j: int|
            0 <= i < j < self.segments@.len() ==> self.segments@[i].base_lsn
                < self.segments@[j].base_lsn
        &&& forall|i: int, j: int|
            0 <= i < j < self.segments@.len() ==> self.segments@[i].index
                < self.segments@[j].index
        &&& forall|i: int|
            0 <= i < self.segments@.len() ==> LSN_OLDEST <= (#[trigger] self.segments@[i])
                .base_lsn <= LSN_MAX - OFFSET_MAX
    }

    /// A chain with a single open segment.
    pub fn new(base_lsn: Lsn, provider: ProviderKind, params: LogletParams) -> (r: Self)
        requires
            LSN_OLDEST <= base_lsn <= LSN_MAX - OFFSET_MAX,
        ensures
            r.wf(),
            r.segments@.len() == 1,
            r.segments@[0].base_lsn == base_lsn,
            r.segments@[0].index == 0,
            r.segments@[0].provider == provider,
    {
        Chain { segments: vec![Segment { index: 0, base_lsn, provider, params }] }
    }

    /// The position of the writable segment: the last one.
    pub fn tail_index(&self) -> (r: usize)
        requires
            self.wf(),
        ensures
            r == self.segments@.len() - 1,
    {
        self.segments.len() - 1
    }

    /// Extends the chain with a new segment. The previous tail segment
    /// must have been sealed with its tail known, which becomes the new
    /// segment's base LSN; chain order demands it lies strictly above the
    /// old base.
    pub fn append_segment(
        &mut self,
        index: SegmentIndex,
        base_lsn: Lsn,
        provider: ProviderKind,
        params: LogletParams,
    )
        requires
            old(self).wf(),
            index > old(self).segments@.last().index,
            base_lsn > old(self).segments@.last().base_lsn,
            base_lsn <= LSN_MAX - OFFSET_MAX,
        ensures
            final(self).wf(),
            final(self).segments@.len() == old(self).segments@.len() + 1,
            final(self).segments@.last().index == index,
            final(self).segments@.last().base_lsn == base_lsn,
            forall|i: int|
                0 <= i < old(self).segments@.len() ==> final(self).segments@[i] == old(
                    self,
                ).segments@[i],
    {
        let ghost pre = self.segments@;
        self.segments.push(Segment { index, base_lsn, provider, params });
        proof {
            assert forall|i: int, j: int|
                0 <= i < j < self.segments@.len() implies self.segments@[i].base_lsn
                < self.segments@[j].base_lsn by {
                if j == self.segments@.len() - 1 {
                    assert(self.segments@[i] == pre[i]);
                    if i < pre.len() - 1 {
                        assert(pre[i].base_lsn < pre[pre.len() - 1].base_lsn);
                    }
                }
            }
            assert forall|i: int, j: int|
                0 <= i < j < self.segments@.len() implies self.segments@[i].index
                < self.segments@[j].index by {
                if j == self.segments@.len() - 1 {
                    assert(self.segments@[i] == pre[i]);
                    if i < pre.len() - 1 {
                        assert(pre[i].index < pre[pre.len() - 1].index);
                    }
                }
            }
        }
    }

    /// The position of the segment that holds `lsn`: the one whose
    /// half-open range `[base_lsn, next base_lsn)` contains it. An LSN
    /// below the first base belongs to the first segment (its records
    /// were trimmed away with the chain's history).
    pub fn find_segment_for_lsn(&self, lsn: Lsn) -> (r: usize)
        requires
            self.wf(),
        ensures
            r < self.segments@.len(),
            lsn >= self.segments@[0].base_lsn ==> self.segments@[r as int].base_lsn <= lsn,
            r + 1 < self.segments@.len() ==> lsn < self.segments@[r + 1].base_lsn,
            lsn < self.segments@[0].base_lsn ==> r == 0,
    {
        if self.segments[0].base_lsn > lsn {
            return 0;
        }
        // Binary search for the last segment whose base is at or below
        // the LSN.
        let mut lo: usize = 0;
        let mut hi: usize = self.segments.len();
        while hi - lo > 1
            invariant
                self.wf(),
                lo < hi <= self.segments@.len(),
                self.segments@[lo as int].base_lsn <= lsn,
                hi < self.segments@.len() ==> lsn < self.segments@[hi as int].base_lsn,
            decreases hi - lo,
        {
            let mid = lo + (hi - lo) / 2;
            if self.segments[mid].base_lsn <= lsn {
                lo = mid;
            } else {
                hi = mid;
            }
        }
        lo
    }
}

} // verus!
