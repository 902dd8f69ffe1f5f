//! A log server's record store for one loglet.
//!
//! The store holds records ordered by offset, together with the loglet's
//! metadata: trim point, seal flag and the write-once sequencer identity.
//! Stores may leave holes (a server that missed a copy resumes past it);
//! reads surface the trimmed prefix as one trim gap, records that fail the
//! reader's key filter as filtered gaps, and stop early when a byte budget
//! runs out.

use vstd::prelude::*;

use crate::codec::{be_bytes_of_u32, get_u32_be, lemma_u32_be_extensional, put_u32_be};
use crate::nodes::{GenerationalNodeId, PlainNodeId};
use crate::offsets::{LogletOffset, OFFSET_INVALID, OFFSET_MAX, OFFSET_OLDEST};
use crate::record::{keys_match_filter, KeyFilter, Record, RecordView, RECORD_VALUE_OVERHEAD};

verus! {

/// The key of the store's marker entry in the metadata column family:
/// a zero byte followed by ASCII "marker".
pub fn marker_key() -> (r: Vec<u8>)
    ensures
        r@ == marker_key_bytes(),
{
    let r = vec![0u8, 109, 97, 114, 107, 101, 114];
    proof {
        assert(r@ =~= marker_key_bytes());
    }
    r
}

pub open spec fn marker_key_bytes() -> Seq<u8> {
    seq![0u8, 109u8, 97u8, 114u8, 107u8, 101u8, 114u8]
}

/// The one-shot marker written on first start: it proves the data
/// directory belongs to this node.
#[derive(Debug, Clone, Copy, PartialEq, Eq, Structural)]
pub struct LogStoreMarker {
    pub node_id: PlainNodeId,
}

/// The exact bytes a marker serializes to.
pub open spec fn marker_bytes(m: LogStoreMarker) -> Seq<u8> {
    be_bytes_of_u32(m.node_id)
}

impl LogStoreMarker {
    pub fn new(node_id: PlainNodeId) -> (r: Self)
        ensures
            r.node_id == node_id,
    {
        LogStoreMarker { node_id }
    }

    pub fn to_bytes(self) -> (r: Vec<u8>)
        ensures
            r@ == marker_bytes(self),
    {
        let mut buf: Vec<u8> = Vec::new();
        put_u32_be(&mut buf, self.node_id);
        proof {
            assert(buf@ =~= marker_bytes(self));
        }
        buf
    }

    /// Reads a marker back; anything but four bytes is no marker.
    pub fn from_slice(data: &[u8]) -> (r: Option<Self>)
        ensures
            r matches Some(m) ==> marker_bytes(m) == data@,
            data@.len() == 4 ==> r is Some,
            data@.len() != 4 ==> r is None,
    {
        if data.len() != 4 {
            return None;
        }
        let node_id = get_u32_be(data, 0);
        proof {
            lemma_u32_be_extensional(data@.subrange(0, 4));
            assert(data@.subrange(0, 4) =~= data@);
        }
        Some(LogStoreMarker { node_id })
    }
}

/// State of one loglet at a log server, as the store reports it.
#[derive(Debug, Clone, Copy, PartialEq, Eq)]
pub struct LogletState {
    pub sequencer: Option<GenerationalNodeId>,
    pub local_tail: LogletOffset,
    pub sealed: bool,
    pub trim_point: LogletOffset,
}

impl LogletState {
    pub fn new(
        sequencer: Option<GenerationalNodeId>,
        local_tail: LogletOffset,
        sealed: bool,
        trim_point: LogletOffset,
    ) -> (r: Self)
        ensures
            r == (LogletState { sequencer, local_tail, sealed, trim_point }),
    {
        Self { sequencer, local_tail, sealed, trim_point }
    }

    pub fn local_tail(&self) -> (r: LogletOffset)
        ensures
            r == self.local_tail,
    {
        self.local_tail
    }

    pub fn trim_point(&self) -> (r: LogletOffset)
        ensures
            r == self.trim_point,
    {
        self.trim_point
    }

    pub fn is_sealed(&self) -> (r: bool)
        ensures
            r == self.sealed,
    {
        self.sealed
    }

    pub fn sequencer(&self) -> (r: Option<GenerationalNodeId>)
        ensures
            r == self.sequencer,
    {
        self.sequencer
    }
}

/// The local tail implied by what is on disk: one past the highest stored
/// offset; for a store whose records were all trimmed away, one past the
/// trim point; the oldest offset when nothing was ever written.
pub open spec fn tail_from_parts(
    max_existing_offset: Option<LogletOffset>,
    trim_point: LogletOffset,
) -> int {
    match max_existing_offset {
        Some(max) => max + 1,
        None => if trim_point > OFFSET_INVALID {
            trim_point + 1
        } else {
            OFFSET_OLDEST as int
        },
    }
}

/// Assembles the loglet state from the raw parts a startup scan finds:
/// the metadata entries and the highest data key, if any.
pub fn loglet_state_from_parts(
    sequencer: Option<GenerationalNodeId>,
    trim_point: LogletOffset,
    is_sealed: bool,
    max_existing_offset: Option<LogletOffset>,
) -> (r: LogletState)
    requires
        max_existing_offset matches Some(max) ==> max < OFFSET_MAX,
        trim_point < OFFSET_MAX,
    ensures
        r.sequencer == sequencer,
        r.sealed == is_sealed,
        r.trim_point == trim_point,
        r.local_tail == tail_from_parts(max_existing_offset, trim_point),
{
    let local_tail: LogletOffset = match max_existing_offset {
        Some(max) => max + 1,
        None => if trim_point > OFFSET_INVALID {
            trim_point + 1
        } else {
            OFFSET_OLDEST
        },
    };
    LogletState { sequencer, local_tail, sealed: is_sealed, trim_point }
}

/// A gap in a read response; `to` is the inclusive end of the gap.
#[derive(Debug, Clone, Copy, PartialEq, Eq, Structural)]
pub struct Gap {
    pub to: LogletOffset,
}

/// One slot of a read response: a record, or the reason there is none.
#[derive(Debug, PartialEq, Eq)]
pub enum MaybeRecord {
    TrimGap(Gap),
    FilteredGap(Gap),
    Data(Record),
}

/// The mathematical value of a response slot.
#[verifier::ext_equal]
pub enum MaybeRecordView {
    TrimGap(Gap),
    FilteredGap(Gap),
    Data(RecordView),
}

impl View for MaybeRecord {
    type V = MaybeRecordView;

    open spec fn view(&self) -> MaybeRecordView {
        match self {
            MaybeRecord::TrimGap(g) => MaybeRecordView::TrimGap(*g),
            MaybeRecord::FilteredGap(g) => MaybeRecordView::FilteredGap(*g),
            MaybeRecord::Data(rec) => MaybeRecordView::Data(rec.view()),
        }
    }
}

/// The values of a stored entry sequence.
pub open spec fn entry_views(s: Seq<(LogletOffset, Record)>) -> Seq<(LogletOffset, RecordView)> {
    s.map_values(|e: (LogletOffset, Record)| (e.0, e.1.view()))
}

/// The values of a response slot sequence.
pub open spec fn item_views(s: Seq<(LogletOffset, MaybeRecord)>) -> Seq<
    (LogletOffset, MaybeRecordView),
> {
    s.map_values(|e: (LogletOffset, MaybeRecord)| (e.0, e.1.view()))
}

/// The header every log-server response carries: the server's view of its
/// tail and seal at the time of the call.
#[derive(Debug, Clone, Copy, PartialEq, Eq, Structural)]
pub struct LogServerResponseHeader {
    pub local_tail: LogletOffset,
    pub sealed: bool,
}

/// A read request: offsets `from..=to`, a key filter, and an optional
/// byte budget for the response.
#[derive(Debug, Clone, Copy, PartialEq, Eq)]
pub struct GetRecords {
    pub from_offset: LogletOffset,
    pub to_offset: LogletOffset,
    pub filter: KeyFilter,
    pub total_limit_in_bytes: Option<usize>,
}

/// A read response: the entries in offset order and the offset at which
/// the reader should resume.
#[derive(Debug, PartialEq, Eq)]
pub struct Records {
    pub header: LogServerResponseHeader,
    pub next_offset: LogletOffset,
    pub records: Vec<(LogletOffset, MaybeRecord)>,
}

/// Outcome of a store call.
#[derive(Debug, Clone, Copy, PartialEq, Eq, Structural)]
pub enum StoreStatus {
    Stored,
    Sealed,
    OutOfRange,
}

/// The weight a record contributes to a read budget.
pub open spec fn record_read_size(rec: RecordView) -> int {
    rec.payload.len() + RECORD_VALUE_OVERHEAD
}

/// Result of scanning stored entries for a read.
pub struct ScanOutcome {
    pub items: Seq<(LogletOffset, MaybeRecordView)>,
    pub next_offset: LogletOffset,
}

/// The scan a read performs over the stored entries at offsets in
/// `[pointer, read_to]`, oldest first: a record that fails the filter
/// becomes a filtered gap; a record that fits the budget (or is the first
/// one) is delivered and charged to it; the scan stops at the first
/// record an exhausted budget cannot take, or past `read_to`. Offsets
/// with no entry are passed over: this server simply has no copy.
pub open spec fn scan_entries(
    entries: Seq<(LogletOffset, RecordView)>,
    filter: KeyFilter,
    budget: int,
    got_one: bool,
    pointer: LogletOffset,
    read_to: int,
) -> ScanOutcome
    decreases entries.len(),
{
    if entries.len() == 0 || pointer > read_to {
        ScanOutcome { items: Seq::empty(), next_offset: pointer }
    } else {
        let (o, rec) = entries.first();
        if o > read_to {
            ScanOutcome { items: Seq::empty(), next_offset: (read_to + 1) as LogletOffset }
        } else if !keys_match_filter(rec.keys, filter) {
            let rest = scan_entries(
                entries.drop_first(),
                filter,
                budget,
                got_one,
                (o + 1) as LogletOffset,
                read_to,
            );
            ScanOutcome {
                items: seq![(o, MaybeRecordView::FilteredGap(Gap { to: o }))] + rest.items,
                next_offset: rest.next_offset,
            }
        } else if got_one && budget < record_read_size(rec) {
            ScanOutcome { items: Seq::empty(), next_offset: o }
        } else {
            let remaining = if budget - record_read_size(rec) < 0 {
                0
            } else {
                budget - record_read_size(rec)
            };
            let rest = scan_entries(
                entries.drop_first(),
                filter,
                remaining,
                true,
                (o + 1) as LogletOffset,
                read_to,
            );
            ScanOutcome {
                items: seq![(o, MaybeRecordView::Data(rec))] + rest.items,
                next_offset: rest.next_offset,
            }
        }
    }
}

/// A log server's store for one loglet.
pub struct LogletStore {
    /// Stored records, strictly ordered by offset.
    pub entries: Vec<(LogletOffset, Record)>,
    pub trim_point: LogletOffset,
    pub sealed: bool,
    pub sequencer: Option<GenerationalNodeId>,
}

impl LogletStore {
    /// Every stored offset lies strictly between the trim point and the
    /// end of the offset space, in strictly increasing order, and every
    /// record is small enough to weigh against a byte budget.
    pub open spec fn wf(&self) -> bool {
        &&& forall|i: int, j: int|
            0 <= i < j < self.entries@.len() ==> self.entries@[i].0 < self.entries@[j].0
        &&& forall|i: int|
            0 <= i < self.entries@.len() ==> self.trim_point < #[trigger] self.entries@[i].0
                < OFFSET_MAX
        &&& forall|i: int|
            0 <= i < self.entries@.len() ==> record_read_size(
                #[trigger] self.entries@[i].1.view(),
            ) <= usize::MAX
        &&& self.trim_point < OFFSET_MAX
    }

    /// One past the last durable record of this store.
    pub open spec fn spec_local_tail(&self) -> int {
        if self.entries@.len() > 0 {
            self.entries@.last().0 + 1
        } else {
            tail_from_parts(None, self.trim_point)
        }
    }

    /// The record stored at `offset`, if this server holds a copy.
    pub open spec fn record_at(&self, offset: LogletOffset) -> Option<RecordView> {
        if exists|r: RecordView| entry_views(self.entries@).contains((offset, r)) {
            Some(choose|r: RecordView| entry_views(self.entries@).contains((offset, r)))
        } else {
            None
        }
    }

    /// A fresh store: nothing written, nothing trimmed, no owner.
    pub fn new() -> (r: Self)
        ensures
            r.wf(),
            r.entries@.len() == 0,
            r.trim_point == OFFSET_INVALID,
            !r.sealed,
            r.sequencer is None,
    {
        Self { entries: Vec::new(), trim_point: OFFSET_INVALID, sealed: false, sequencer: None }
    }

    /// The state this store reports, assembled by the same rule the
    /// startup scan uses.
    pub fn load_loglet_state(&self) -> (r: LogletState)
        requires
            self.wf(),
        ensures
            r.sequencer == self.sequencer,
            r.sealed == self.sealed,
            r.trim_point == self.trim_point,
            r.local_tail == self.spec_local_tail(),
    {
        let max_existing: Option<LogletOffset> = if self.entries.len() > 0 {
            Some(self.entries[self.entries.len() - 1].0)
        } else {
            None
        };
        loglet_state_from_parts(self.sequencer, self.trim_point, self.sealed, max_existing)
    }

    /// Durably stores `records` at consecutive offsets from
    /// `first_offset`. A sealed store refuses. Offsets the store already
    /// covers are passed over (the sequencer only ever sends one record
    /// per offset, so what is on disk is that same copy); offsets beyond
    /// the current tail are written, leaving a hole when the range starts
    /// past it.
    pub fn store(
        &mut self,
        first_offset: LogletOffset,
        records: Vec<Record>,
        set_sequencer: Option<GenerationalNodeId>,
    ) -> (r: StoreStatus)
        requires
            old(self).wf(),
            first_offset + records@.len() <= OFFSET_MAX,
            forall|k: int|
                0 <= k < records@.len() ==> record_read_size(#[trigger] records@[k].view())
                    <= usize::MAX,
        ensures
            final(self).wf(),
            old(self).sealed ==> r == StoreStatus::Sealed && *final(self) == *old(self),
            !old(self).sealed && first_offset == OFFSET_INVALID ==> r == StoreStatus::OutOfRange
                && *final(self) == *old(self),
            !old(self).sealed && first_offset != OFFSET_INVALID ==> {
                &&& r == StoreStatus::Stored
                &&& final(self).trim_point == old(self).trim_point
                &&& final(self).sealed == old(self).sealed
                &&& final(self).sequencer == (if old(self).sequencer is Some {
                    old(self).sequencer
                } else {
                    set_sequencer
                })
                &&& forall|k: int|
                    0 <= k < records@.len() && first_offset + k >= old(self).spec_local_tail()
                        && first_offset + k > old(self).trim_point ==> final(self).record_at(
                        ((first_offset + k) as LogletOffset),
                    ) == Some(records@[k].view())
                &&& final(self).spec_local_tail() >= old(self).spec_local_tail()
                &&& final(self).spec_local_tail() <= (if old(self).spec_local_tail()
                    > first_offset + records@.len() {
                    old(self).spec_local_tail()
                } else {
                    first_offset + records@.len()
                })
                &&& forall|o: LogletOffset|
                    old(self).record_at(o) is Some ==> final(self).record_at(o) == old(
                        self,
                    ).record_at(o)
                &&& forall|o: LogletOffset|
                    o < old(self).spec_local_tail() ==> final(self).record_at(o) == old(
                        self,
                    ).record_at(o)
            },
    {
        if self.sealed {
            return StoreStatus::Sealed;
        }
        if first_offset == OFFSET_INVALID {
            return StoreStatus::OutOfRange;
        }
        let ghost pre = *self;
        if self.sequencer.is_none() {
            self.sequencer = set_sequencer;
        }
        let mut records = records;
        let ghost recs0 = records@;
        let mut k: usize = 0;
        let n = records.len();
        while k < n
            invariant
                pre.wf(),
                self.wf(),
                recs0.len() == n,
                forall|k2: int|
                    0 <= k2 < recs0.len() ==> record_read_size(#[trigger] recs0[k2].view())
                        <= usize::MAX,
                n == records@.len() + k,
                first_offset + n <= OFFSET_MAX,
                first_offset != OFFSET_INVALID,
                k <= n,
                self.trim_point == pre.trim_point,
                self.sealed == pre.sealed,
                self.sequencer == (if pre.sequencer is Some {
                    pre.sequencer
                } else {
                    set_sequencer
                }),
                self.spec_local_tail() >= pre.spec_local_tail(),
                self.entries@.len() >= pre.entries@.len(),
                self.entries@.subrange(0, pre.entries@.len() as int) =~= pre.entries@,
                forall|j: int|
                    pre.entries@.len() <= j < self.entries@.len()
                        ==> #[trigger] self.entries@[j].0 >= pre.spec_local_tail()
                        && self.entries@[j].0 < first_offset + k,
                forall|j: int|
                    0 <= j < k && first_offset + j >= pre.spec_local_tail() && first_offset + j
                        > pre.trim_point ==> #[trigger] entry_views(self.entries@).contains(
                        (((first_offset + j) as LogletOffset), recs0[j].view()),
                    ),
                records@ =~= recs0.skip(k as int),
            decreases n - k,
        {
            let offset = first_offset + k as u32;
            let tail_known: u32 = if self.entries.len() > 0 {
                self.entries[self.entries.len() - 1].0
            } else {
                0
            };
            proof {
                assert(records@[0] == recs0.skip(k as int)[0]);
            }
            let rec = records.remove(0);
            assert(rec == recs0[k as int]);
            proof {
                assert(records@ =~= recs0.skip(k as int).remove(0));
                assert(recs0.skip(k as int).remove(0) =~= recs0.skip(k + 1));
            }
            if offset > tail_known && offset > self.trim_point {
                let ghost before = self.entries@;
                self.entries.push((offset, rec));
                proof {
                    assert(self.entries@.subrange(0, pre.entries@.len() as int) =~= before
                        .subrange(0, pre.entries@.len() as int));
                    assert(entry_views(self.entries@).contains(
                        (offset, recs0[k as int].view()),
                    )) by {
                        assert(self.entries@.last() == (offset, recs0[k as int]));
                        assert(entry_views(self.entries@).last() == (
                            offset,
                            recs0[k as int].view(),
                        ));
                    }
                    assert forall|j: int|
                        0 <= j < k && first_offset + j >= pre.spec_local_tail() && first_offset
                            + j > pre.trim_point implies entry_views(self.entries@).contains(
                        (((first_offset + j) as LogletOffset), recs0[j].view()),
                    ) by {
                        assert(entry_views(before).contains(
                            (((first_offset + j) as LogletOffset), recs0[j].view()),
                        ));
                        let idx = choose|idx: int|
                            0 <= idx < entry_views(before).len() && entry_views(before)[idx] == (
                            ((first_offset + j) as LogletOffset),
                            recs0[j].view(),
                            );
                        assert(self.entries@[idx] == before[idx]);
                        assert(entry_views(self.entries@)[idx] == entry_views(before)[idx]);
                        assert(entry_views(self.entries@).contains(
                            entry_views(self.entries@)[idx],
                        ));
                    }
                    if before.len() > 0 {
                        assert(tail_known == before.last().0);
                    }
                    assert forall|a: int, b: int|
                        0 <= a < b < self.entries@.len()
                            implies self.entries@[a].0 < self.entries@[b].0 by {
                        if b == self.entries@.len() - 1 {
                            assert(self.entries@[a] == before[a]);
                            if a < before.len() - 1 {
                                assert(before[a].0 < before.last().0);
                            }
                        }
                    }
                    if pre.entries@.len() > 0 {
                        assert(before.len() > 0);
                        assert(pre.entries@.last() == before[pre.entries@.len() - 1]);
                        if before.len() > pre.entries@.len() {
                            assert(before.last().0 >= pre.spec_local_tail());
                        } else {
                            assert(before.last() == pre.entries@.last());
                        }
                        assert(offset >= pre.spec_local_tail());
                    } else {
                        assert(offset >= pre.spec_local_tail());
                    }
                    assert(self.entries@.last().0 == offset);
                    assert(self.spec_local_tail() == offset + 1);
                }
            } else {
                proof {
                    if offset > self.trim_point && offset >= pre.spec_local_tail() {
                        // The offset is at or past the pre-call tail and
                        // was not stored: it must be at or below the
                        // current last entry, which the bounds on pushed
                        // entries refute.
                        assert(self.entries@.len() > 0);
                        let last = self.entries@.len() - 1;
                        assert(self.entries@[last].0 == tail_known);
                        if last >= pre.entries@.len() {
                            assert(self.entries@[last].0 < first_offset + k);
                            assert(offset <= tail_known);
                            assert(false);
                        } else {
                            assert(self.entries@[last] == pre.entries@[last]);
                            assert(pre.entries@.last().0 >= tail_known);
                            assert(offset <= tail_known);
                            assert(offset < pre.spec_local_tail());
                            assert(false);
                        }
                    }
                }
            }
            k += 1;
        }
        proof {
            assert forall|j: int|
                0 <= j < n && first_offset + j >= pre.spec_local_tail() && first_offset + j
                    > pre.trim_point implies self.record_at(((first_offset + j) as LogletOffset))
                == Some(recs0[j].view()) by {
                lemma_record_at_contains(
                    *self,
                    ((first_offset + j) as LogletOffset),
                    recs0[j].view(),
                );
            }
            assert forall|o: LogletOffset| pre.record_at(o) is Some implies self.record_at(o)
                == pre.record_at(o) by {
                let r = choose|r: RecordView| entry_views(pre.entries@).contains((o, r));
                assert(entry_views(pre.entries@).contains((o, r)));
                let i = choose|i: int|
                    0 <= i < entry_views(pre.entries@).len() && entry_views(pre.entries@)[i] == (
                    o,
                    r,
                    );
                assert(self.entries@[i] == pre.entries@[i]);
                assert(entry_views(self.entries@)[i] == (o, r));
                assert(entry_views(self.entries@).contains((o, r)));
                lemma_record_at_contains(*self, o, r);
                lemma_record_at_contains(pre, o, r);
            }
            assert(self.spec_local_tail() <= (if pre.spec_local_tail() > first_offset
                + recs0.len() {
                pre.spec_local_tail()
            } else {
                first_offset + recs0.len()
            })) by {
                if self.entries@.len() > 0 {
                    let last = self.entries@.len() - 1;
                    if last >= pre.entries@.len() {
                        assert(self.entries@[last].0 < first_offset + n);
                    } else {
                        assert(self.entries@[last] == pre.entries@[last]);
                        assert(pre.entries@.len() > 0);
                        assert(pre.entries@[last].0 <= pre.entries@.last().0);
                    }
                }
            }
            assert forall|o: LogletOffset| o < pre.spec_local_tail() implies self.record_at(o)
                == pre.record_at(o) by {
                if pre.record_at(o) is Some {
                } else {
                    if self.record_at(o) is Some {
                        let r = choose|r: RecordView|
                            entry_views(self.entries@).contains((o, r));
                        assert(entry_views(self.entries@).contains((o, r)));
                        let idx = choose|idx: int|
                            0 <= idx < entry_views(self.entries@).len() && entry_views(
                                self.entries@,
                            )[idx] == (o, r);
                        assert(self.entries@[idx].0 == o);
                        if idx < pre.entries@.len() {
                            assert(self.entries@[idx] == pre.entries@[idx]);
                            assert(entry_views(pre.entries@)[idx] == (o, r));
                            assert(entry_views(pre.entries@).contains(
                                entry_views(pre.entries@)[idx],
                            ));
                        } else {
                            assert(self.entries@[idx].0 >= pre.spec_local_tail());
                        }
                    }
                }
            }
        }
        StoreStatus::Stored
    }

    /// Seals the store; no further records are accepted. Idempotent.
    pub fn seal(&mut self)
        requires
            old(self).wf(),
        ensures
            final(self).wf(),
            *final(self) == (LogletStore { sealed: true, ..*old(self) }),
    {
        self.sealed = true;
    }

    /// Advances the trim point to `new_trim_point`, clipped to the last
    /// stored record, and drops every record at or below it. Trimming to
    /// an offset at or below the current trim point is a no-op.
    pub fn trim(&mut self, new_trim_point: LogletOffset)
        requires
            old(self).wf(),
        ensures
            final(self).wf(),
            final(self).sealed == old(self).sealed,
            final(self).sequencer == old(self).sequencer,
            final(self).trim_point == clipped_trim(*old(self), new_trim_point),
            final(self).spec_local_tail() == old(self).spec_local_tail(),
            forall|o: LogletOffset|
                o > final(self).trim_point ==> final(self).record_at(o) == old(self).record_at(o),
            clipped_trim(*old(self), new_trim_point) == old(self).trim_point ==> *final(self)
                == *old(self),
    {
        let last_committed: LogletOffset = if self.entries.len() > 0 {
            self.entries[self.entries.len() - 1].0
        } else {
            self.trim_point
        };
        let clipped = if new_trim_point < last_committed {
            new_trim_point
        } else {
            last_committed
        };
        if clipped <= self.trim_point {
            return ;
        }
        let ghost pre = *self;
        // The records to drop form a prefix: find where it ends.
        let mut cut: usize = 0;
        while cut < self.entries.len() && self.entries[cut].0 <= clipped
            invariant
                *self == pre,
                pre.wf(),
                cut <= self.entries@.len(),
                forall|j: int| 0 <= j < cut ==> #[trigger] self.entries@[j].0 <= clipped,
            decreases self.entries@.len() - cut,
        {
            cut += 1;
        }
        let suffix = self.entries.split_off(cut);
        self.entries = suffix;
        self.trim_point = clipped;
        proof {
            assert(self.entries@ =~= pre.entries@.subrange(
                cut as int,
                pre.entries@.len() as int,
            ));
            assert(forall|j: int|
                cut <= j < pre.entries@.len() ==> #[trigger] pre.entries@[j].0 > clipped);
            if pre.entries@.len() > 0 {
                if cut < pre.entries@.len() {
                    assert(self.entries@.last() == pre.entries@.last());
                } else {
                    assert(pre.entries@.last().0 <= clipped);
                    assert(clipped <= pre.entries@.last().0);
                    assert(self.spec_local_tail() == clipped + 1);
                }
            }
            assert forall|o: LogletOffset| o > self.trim_point implies self.record_at(o)
                == pre.record_at(o) by {
                assert forall|r: RecordView|
                    entry_views(self.entries@).contains((o, r)) == entry_views(
                        pre.entries@,
                    ).contains((o, r)) by {
                    if entry_views(self.entries@).contains((o, r)) {
                        let a = choose|a: int|
                            0 <= a < entry_views(self.entries@).len() && entry_views(
                                self.entries@,
                            )[a] == (o, r);
                        assert(pre.entries@[a + cut] == self.entries@[a]);
                        assert(entry_views(pre.entries@)[a + cut] == (o, r));
                        assert(entry_views(pre.entries@).contains(
                            entry_views(pre.entries@)[a + cut],
                        ));
                    }
                    if entry_views(pre.entries@).contains((o, r)) {
                        let b = choose|b: int|
                            0 <= b < entry_views(pre.entries@).len() && entry_views(
                                pre.entries@,
                            )[b] == (o, r);
                        assert(pre.entries@[b].0 == o);
                        assert(b >= cut);
                        assert(self.entries@[b - cut] == pre.entries@[b]);
                        assert(entry_views(self.entries@)[b - cut] == (o, r));
                        assert(entry_views(self.entries@).contains(
                            entry_views(self.entries@)[b - cut],
                        ));
                    }
                }
                if pre.record_at(o) is Some {
                    let r = choose|r: RecordView| entry_views(pre.entries@).contains((o, r));
                    assert(entry_views(pre.entries@).contains((o, r)));
                    lemma_record_at_contains(pre, o, r);
                    lemma_record_at_contains(*self, o, r);
                } else {
                    if self.record_at(o) is Some {
                        let r = choose|r: RecordView|
                            entry_views(self.entries@).contains((o, r));
                        assert(entry_views(self.entries@).contains((o, r)));
                        assert(entry_views(pre.entries@).contains((o, r)));
                    }
                }
            }
        }
    }

    /// Serves a read: records from `max(from, trim_point + 1)` through
    /// `min(to, local_tail - 1)`, with a leading trim gap when the
    /// request started inside the trimmed prefix, filtered gaps for
    /// records the filter skips, within the byte budget. A scan sees one
    /// trim point: the one this snapshot of the store holds.
    pub fn read_records(&self, msg: &GetRecords) -> (r: Records)
        requires
            self.wf(),
        ensures
            r.header.local_tail == self.spec_local_tail(),
            r.header.sealed == self.sealed,
            ({
                let read_from = read_start(*self, *msg);
                let read_to = read_end(*self, *msg);
                let scanned = scan_entries(
                    views_from(self.entries@, read_from as LogletOffset),
                    msg.filter,
                    read_budget(*msg),
                    false,
                    read_from as LogletOffset,
                    read_to,
                );
                &&& r.next_offset == scanned.next_offset
                &&& (if read_from > msg.from_offset {
                    item_views(r.records@) =~= seq![
                        (
                            msg.from_offset,
                            MaybeRecordView::TrimGap(
                                Gap { to: (read_from - 1) as LogletOffset },
                            ),
                        ),
                    ] + scanned.items
                } else {
                    item_views(r.records@) =~= scanned.items
                })
            }),
    {
        let state = self.load_loglet_state();
        let local_tail = state.local_tail;
        let read_from: LogletOffset = if msg.from_offset > self.trim_point + 1 {
            msg.from_offset
        } else {
            self.trim_point + 1
        };
        let read_to: LogletOffset = if msg.to_offset < local_tail - 1 {
            msg.to_offset
        } else {
            local_tail - 1
        };
        let mut budget: usize = match msg.total_limit_in_bytes {
            Some(b) => b,
            None => usize::MAX,
        };
        let mut records: Vec<(LogletOffset, MaybeRecord)> = Vec::new();
        if read_from > msg.from_offset {
            records.push((msg.from_offset, MaybeRecord::TrimGap(Gap { to: read_from - 1 })));
        }
        let ghost lead = item_views(records@);
        proof {
            assert(self.spec_local_tail() >= OFFSET_OLDEST);
            assert(read_to == read_end(*self, *msg));
            assert(read_from == read_start(*self, *msg));
        }

        // Skip entries below the start of the read window.
        let mut i: usize = 0;
        while i < self.entries.len() && self.entries[i].0 < read_from
            invariant
                self.wf(),
                i <= self.entries@.len(),
                forall|j: int| 0 <= j < i ==> #[trigger] self.entries@[j].0 < read_from,
            decreases self.entries@.len() - i,
        {
            i += 1;
        }
        proof {
            assert(forall|j: int|
                i <= j < self.entries@.len() ==> #[trigger] self.entries@[j].0 >= read_from);
            lemma_views_from_index(self.entries@, read_from, i as int);
        }

        let ghost whole = scan_entries(
            entry_views(self.entries@).skip(i as int),
            msg.filter,
            budget as int,
            false,
            read_from,
            read_to as int,
        );
        let mut got_one = false;
        let mut pointer: LogletOffset = read_from;
        let mut done = false;
        while !done && i < self.entries.len() && pointer <= read_to
            invariant
                self.wf(),
                read_to == read_end(*self, *msg),
                read_to < OFFSET_MAX,
                i <= self.entries@.len(),
                records@.len() >= lead.len(),
                item_views(records@).subrange(0, lead.len() as int) =~= lead,
                !done ==> {
                    let rest = scan_entries(
                        entry_views(self.entries@).skip(i as int),
                        msg.filter,
                        budget as int,
                        got_one,
                        pointer,
                        read_to as int,
                    );
                    whole.items =~= item_views(records@).skip(lead.len() as int) + rest.items
                        && whole.next_offset == rest.next_offset
                },
                done ==> item_views(records@).skip(lead.len() as int) =~= whole.items && pointer
                    == whole.next_offset,
            decreases (if done {
                0int
            } else {
                1int
            }), self.entries@.len() - i,
        {
            let (o, rec) = (self.entries[i].0, self.entries[i].1.clone());
            let ghost prev = records@;
            let ghost rest0 = scan_entries(
                entry_views(self.entries@).skip(i as int),
                msg.filter,
                budget as int,
                got_one,
                pointer,
                read_to as int,
            );
            proof {
                assert(entry_views(self.entries@)[i as int] == (
                    self.entries@[i as int].0,
                    self.entries@[i as int].1.view(),
                ));
                assert(entry_views(self.entries@).skip(i as int).first() == entry_views(
                    self.entries@,
                )[i as int]);
                assert(entry_views(self.entries@).skip(i as int).drop_first() =~= entry_views(
                    self.entries@,
                ).skip(i + 1));
                assert(rec.view() == self.entries@[i as int].1.view());
            }
            if o > read_to {
                pointer = read_to + 1;
                done = true;
                proof {
                    assert(rest0.items =~= Seq::empty());
                    assert(whole.items =~= item_views(records@).skip(lead.len() as int));
                    assert(pointer == rest0.next_offset);
                }
            } else if !rec.matches_key_query(msg.filter) {
                records.push((o, MaybeRecord::FilteredGap(Gap { to: o })));
                pointer = o + 1;
                i += 1;
                proof {
                    let item = (o, MaybeRecordView::FilteredGap(Gap { to: o }));
                    let rest1 = scan_entries(
                        entry_views(self.entries@).skip(i as int),
                        msg.filter,
                        budget as int,
                        got_one,
                        pointer,
                        read_to as int,
                    );
                    assert(rest0.items =~= seq![item] + rest1.items);
                    assert(item_views(records@) =~= item_views(prev).push(item));
                    assert(item_views(records@).skip(lead.len() as int) =~= item_views(
                        prev,
                    ).skip(lead.len() as int) + seq![item]);
                    assert(whole.items =~= item_views(records@).skip(lead.len() as int)
                        + rest1.items);
                    assert(item_views(records@).subrange(0, lead.len() as int) =~= lead);
                }
            } else {
                let size = rec.estimated_encode_size();
                proof {
                    assert(size == record_read_size(self.entries@[i as int].1.view()));
                }
                if got_one && budget < size {
                    pointer = o;
                    done = true;
                    proof {
                        assert(rest0.items =~= Seq::empty());
                        assert(whole.items =~= item_views(records@).skip(lead.len() as int));
                        assert(pointer == rest0.next_offset);
                    }
                } else {
                    got_one = true;
                    budget = if budget >= size {
                        budget - size
                    } else {
                        0
                    };
                    let ghost rv = rec.view();
                    records.push((o, MaybeRecord::Data(rec)));
                    pointer = o + 1;
                    i += 1;
                    proof {
                        let item = (o, MaybeRecordView::Data(rv));
                        let rest1 = scan_entries(
                            entry_views(self.entries@).skip(i as int),
                            msg.filter,
                            budget as int,
                            got_one,
                            pointer,
                            read_to as int,
                        );
                        assert(rest0.items =~= seq![item] + rest1.items);
                        assert(item_views(records@) =~= item_views(prev).push(item));
                        assert(item_views(records@).skip(lead.len() as int) =~= item_views(
                            prev,
                        ).skip(lead.len() as int) + seq![item]);
                        assert(whole.items =~= item_views(records@).skip(lead.len() as int)
                            + rest1.items);
                        assert(item_views(records@).subrange(0, lead.len() as int) =~= lead);
                    }
                }
            }
        }
        proof {
            if !done {
                let rest = scan_entries(
                    entry_views(self.entries@).skip(i as int),
                    msg.filter,
                    budget as int,
                    got_one,
                    pointer,
                    read_to as int,
                );
                assert(rest.items =~= Seq::empty());
                assert(item_views(records@).skip(lead.len() as int) =~= whole.items);
                assert(rest.next_offset == pointer);
            }
            assert(item_views(records@) =~= lead + item_views(records@).skip(
                lead.len() as int,
            ));
            assert(item_views(records@) =~= lead + whole.items);
            assert(pointer == whole.next_offset);
        }
        Records {
            header: LogServerResponseHeader { local_tail, sealed: self.sealed },
            next_offset: pointer,
            records,
        }
    }
}

/// Where a read starts: at the requested offset, or just past the trimmed
/// prefix if the request began inside it.
pub open spec fn read_start(store: LogletStore, msg: GetRecords) -> int {
    if msg.from_offset > store.trim_point + 1 {
        msg.from_offset as int
    } else {
        store.trim_point + 1
    }
}

/// Where a read ends (inclusive): at the requested offset, clipped to the
/// last durable record.
pub open spec fn read_end(store: LogletStore, msg: GetRecords) -> int {
    if msg.to_offset < store.spec_local_tail() - 1 {
        msg.to_offset as int
    } else {
        store.spec_local_tail() - 1
    }
}

/// The byte budget of a read; a request without one is unbounded.
pub open spec fn read_budget(msg: GetRecords) -> int {
    match msg.total_limit_in_bytes {
        Some(b) => b as int,
        None => usize::MAX as int,
    }
}

/// The record values at offsets at or above `from`.
pub open spec fn views_from(entries: Seq<(LogletOffset, Record)>, from: LogletOffset) -> Seq<
    (LogletOffset, RecordView),
> {
    entry_views(entries).filter(|e: (LogletOffset, RecordView)| e.0 >= from)
}

proof fn lemma_views_from_index(entries: Seq<(LogletOffset, Record)>, from: LogletOffset, i: int)
    requires
        0 <= i <= entries.len(),
        forall|j: int| 0 <= j < i ==> #[trigger] entries[j].0 < from,
        forall|j: int| i <= j < entries.len() ==> #[trigger] entries[j].0 >= from,
    ensures
        views_from(entries, from) =~= entry_views(entries).skip(i),
{
    assert(forall|j: int| 0 <= j < i ==> #[trigger] entry_views(entries)[j].0 == entries[j].0);
    assert(forall|j: int|
        i <= j < entries.len() ==> #[trigger] entry_views(entries)[j].0 == entries[j].0);
    lemma_filter_is_suffix(entry_views(entries), |e: (LogletOffset, RecordView)| e.0 >= from, i);
}

proof fn lemma_filter_is_suffix(
    s: Seq<(LogletOffset, RecordView)>,
    pred: spec_fn((LogletOffset, RecordView)) -> bool,
    i: int,
)
    requires
        0 <= i <= s.len(),
        forall|j: int| 0 <= j < i ==> !pred(#[trigger] s[j]),
        forall|j: int| i <= j < s.len() ==> pred(#[trigger] s[j]),
    ensures
        s.filter(pred) =~= s.skip(i),
    decreases s.len(),
{
    reveal_with_fuel(Seq::filter, 2);
    if s.len() == 0 {
    } else if i == s.len() {
        assert(!pred(s.last()));
        lemma_filter_is_suffix(s.drop_last(), pred, i - 1);
        assert(s.drop_last().skip(i - 1) =~= s.skip(i));
    } else {
        assert(pred(s.last()));
        if i == 0 {
            lemma_filter_is_suffix(s.drop_last(), pred, 0);
            assert(s.filter(pred) =~= s.drop_last().filter(pred).push(s.last()));
            assert(s.drop_last().skip(0).push(s.last()) =~= s.skip(0));
        } else {
            lemma_filter_is_suffix(s.drop_last(), pred, i);
            assert(s.drop_last().skip(i).push(s.last()) =~= s.skip(i));
        }
    }
}

/// The trim point a trim call lands on: clipped to the last stored record
/// and never moving backwards.
pub open spec fn clipped_trim(pre: LogletStore, new_trim_point: LogletOffset) -> LogletOffset {
    let last_committed = if pre.entries@.len() > 0 {
        pre.entries@.last().0
    } else {
        pre.trim_point
    };
    let clipped = if new_trim_point < last_committed {
        new_trim_point
    } else {
        last_committed
    };
    if clipped <= pre.trim_point {
        pre.trim_point
    } else {
        clipped
    }
}

/// What one read response covers: the scan's items carry strictly
/// increasing offsets inside `[pointer, next_offset)`, and every stored
/// entry in that window appears exactly once, as its record when it
/// matches the filter and as a filtered gap when it does not. Offsets in
/// the window with no entry are the ones this server has no copy of.
pub proof fn lemma_scan_covers_window(
    entries: Seq<(LogletOffset, RecordView)>,
    filter: KeyFilter,
    budget: int,
    got_one: bool,
    pointer: LogletOffset,
    read_to: int,
)
    requires
        read_to < OFFSET_MAX,
        forall|a: int, b: int| 0 <= a < b < entries.len() ==> entries[a].0 < entries[b].0,
        forall|i: int| 0 <= i < entries.len() ==> pointer <= (#[trigger] entries[i]).0,
    ensures
        ({
            let scanned = scan_entries(entries, filter, budget, got_one, pointer, read_to);
            &&& pointer <= scanned.next_offset
            &&& forall|j: int|
                0 <= j < scanned.items.len() ==> pointer <= (#[trigger] scanned.items[j]).0
                    < scanned.next_offset
            &&& forall|j1: int, j2: int|
                0 <= j1 < j2 < scanned.items.len() ==> scanned.items[j1].0
                    < scanned.items[j2].0
            &&& forall|i: int|
                0 <= i < entries.len() && (#[trigger] entries[i]).0 < scanned.next_offset
                    ==> scanned.items.contains(
                    (
                        entries[i].0,
                        if keys_match_filter(entries[i].1.keys, filter) {
                            MaybeRecordView::Data(entries[i].1)
                        } else {
                            MaybeRecordView::FilteredGap(Gap { to: entries[i].0 })
                        },
                    ),
                )
        }),
    decreases entries.len(),
{
    let scanned = scan_entries(entries, filter, budget, got_one, pointer, read_to);
    if entries.len() == 0 || pointer > read_to {
    } else {
        let (o, rec) = entries.first();
        assert(entries[0].0 == o);
        assert(forall|i: int| 1 <= i < entries.len() ==> (#[trigger] entries[i]).0 > o);
        if o > read_to {
            assert(pointer <= read_to);
            assert(scanned.next_offset == (read_to + 1) as LogletOffset);
            assert(read_to + 1 <= OFFSET_MAX);
            assert(pointer <= scanned.next_offset);
            assert(scanned.items.len() == 0);
        } else if keys_match_filter(rec.keys, filter) && got_one && budget
            < record_read_size(rec) {
            assert(scanned.next_offset == o);
            assert(pointer <= o);
            assert(scanned.items.len() == 0);
        } else {
            let matched = keys_match_filter(rec.keys, filter);
            let item = if matched {
                (o, MaybeRecordView::Data(rec))
            } else {
                (o, MaybeRecordView::FilteredGap(Gap { to: o }))
            };
            let rest_budget = if matched {
                if budget - record_read_size(rec) < 0 {
                    0
                } else {
                    budget - record_read_size(rec)
                }
            } else {
                budget
            };
            let rest_got = if matched {
                true
            } else {
                got_one
            };
            let tail = entries.drop_first();
            assert(forall|a: int, b: int|
                0 <= a < b < tail.len() ==> tail[a].0 < tail[b].0);
            assert(forall|i: int|
                0 <= i < tail.len() ==> ((o + 1) as LogletOffset) <= (#[trigger] tail[i]).0);
            lemma_scan_covers_window(
                tail,
                filter,
                rest_budget,
                rest_got,
                (o + 1) as LogletOffset,
                read_to,
            );
            let rest = scan_entries(
                tail,
                filter,
                rest_budget,
                rest_got,
                (o + 1) as LogletOffset,
                read_to,
            );
            assert(scanned.items == seq![item] + rest.items);
            assert(scanned.items[0] == item);
            assert(forall|j: int|
                0 <= j < rest.items.len() ==> scanned.items[j + 1] == (
                #[trigger] rest.items[j]));
            assert(scanned.next_offset == rest.next_offset);
            assert(((o + 1) as LogletOffset) <= rest.next_offset);
            assert(pointer <= o);
            assert forall|j: int|
                0 <= j < scanned.items.len() implies pointer <= (
            #[trigger] scanned.items[j]).0 < scanned.next_offset by {
                if j == 0 {
                    assert(scanned.items[0].0 == o);
                } else {
                    assert(scanned.items[j] == rest.items[j - 1]);
                }
            }
            assert forall|j1: int, j2: int|
                0 <= j1 < j2 < scanned.items.len() implies scanned.items[j1].0
                < scanned.items[j2].0 by {
                if j1 == 0 {
                    assert(scanned.items[j2] == rest.items[j2 - 1]);
                    assert(((o + 1) as LogletOffset) <= rest.items[j2 - 1].0);
                } else {
                    assert(scanned.items[j1] == rest.items[j1 - 1]);
                    assert(scanned.items[j2] == rest.items[j2 - 1]);
                }
            }
            assert forall|i: int|
                0 <= i < entries.len() && (#[trigger] entries[i]).0 < scanned.next_offset
                    implies scanned.items.contains(
                (
                    entries[i].0,
                    if keys_match_filter(entries[i].1.keys, filter) {
                        MaybeRecordView::Data(entries[i].1)
                    } else {
                        MaybeRecordView::FilteredGap(Gap { to: entries[i].0 })
                    },
                ),
            ) by {
                if i == 0 {
                    assert(scanned.items[0] == item);
                } else {
                    assert(tail[i - 1] == entries[i]);
                    assert(rest.items.contains(
                        (
                            entries[i].0,
                            if keys_match_filter(entries[i].1.keys, filter) {
                                MaybeRecordView::Data(entries[i].1)
                            } else {
                                MaybeRecordView::FilteredGap(Gap { to: entries[i].0 })
                            },
                        ),
                    ));
                    let w = choose|w: int|
                        0 <= w < rest.items.len() && rest.items[w] == (
                        entries[i].0,
                        if keys_match_filter(entries[i].1.keys, filter) {
                            MaybeRecordView::Data(entries[i].1)
                        } else {
                            MaybeRecordView::FilteredGap(Gap { to: entries[i].0 })
                        },
                        );
                    assert(scanned.items[w + 1] == rest.items[w]);
                }
            }
        }
    }
}

/// The scan never reports past its window: the resume offset stays at
/// or below one past `read_to`.
proof fn lemma_scan_next_bounded(
    entries: Seq<(LogletOffset, RecordView)>,
    filter: KeyFilter,
    budget: int,
    got_one: bool,
    pointer: LogletOffset,
    read_to: int,
)
    requires
        read_to < OFFSET_MAX,
        pointer <= read_to + 1,
    ensures
        scan_entries(entries, filter, budget, got_one, pointer, read_to).next_offset <= read_to
            + 1,
    decreases entries.len(),
{
    if entries.len() == 0 || pointer > read_to {
    } else {
        let (o, rec) = entries.first();
        if o > read_to {
        } else if !keys_match_filter(rec.keys, filter) {
            lemma_scan_next_bounded(
                entries.drop_first(),
                filter,
                budget,
                got_one,
                (o + 1) as LogletOffset,
                read_to,
            );
        } else if got_one && budget < record_read_size(rec) {
        } else {
            let remaining = if budget - record_read_size(rec) < 0 {
                0
            } else {
                budget - record_read_size(rec)
            };
            lemma_scan_next_bounded(
                entries.drop_first(),
                filter,
                remaining,
                true,
                (o + 1) as LogletOffset,
                read_to,
            );
        }
    }
}

/// Nothing at or past the tail is ever served: every slot of a read
/// response sits strictly below the server's local tail, so once a
/// loglet is sealed at its tail, no read anywhere returns a record at or
/// beyond the sealed offset.
pub proof fn lemma_no_reads_at_or_past_tail(store: LogletStore, msg: GetRecords, j: int)
    requires
        store.wf(),
        ({
            let scanned = scan_entries(
                views_from(store.entries@, read_start(store, msg) as LogletOffset),
                msg.filter,
                read_budget(msg),
                false,
                read_start(store, msg) as LogletOffset,
                read_end(store, msg),
            );
            0 <= j < scanned.items.len()
        }),
    ensures
        ({
            let scanned = scan_entries(
                views_from(store.entries@, read_start(store, msg) as LogletOffset),
                msg.filter,
                read_budget(msg),
                false,
                read_start(store, msg) as LogletOffset,
                read_end(store, msg),
            );
            scanned.items[j].0 < store.spec_local_tail()
        }),
{
    let window = views_from(store.entries@, read_start(store, msg) as LogletOffset);
    let from = read_start(store, msg) as LogletOffset;
    let to = read_end(store, msg);
    assert(forall|a: int|
        0 <= a < window.len() ==> from <= (#[trigger] window[a]).0) by {
        entry_views(store.entries@).filter_lemma(
            |e: (LogletOffset, RecordView)| e.0 >= from,
        );
    }
    assert(forall|a: int, b: int| 0 <= a < b < window.len() ==> window[a].0 < window[b].0) by {
        lemma_views_window_sorted(store, from);
    }
    lemma_scan_covers_window(window, msg.filter, read_budget(msg), false, from, to);
    if from <= to {
        lemma_scan_next_bounded(window, msg.filter, read_budget(msg), false, from, to);
    }
    let scanned = scan_entries(window, msg.filter, read_budget(msg), false, from, to);
    assert(scanned.items[j].0 < scanned.next_offset);
    if from > to {
        assert(scanned.items.len() == 0);
    }
}

/// The record values above a cutoff stay in stored order.
#[verifier::rlimit(60)]
proof fn lemma_views_window_sorted(store: LogletStore, from: LogletOffset)
    requires
        store.wf(),
    ensures
        ({
            let window = views_from(store.entries@, from);
            forall|a: int, b: int| 0 <= a < b < window.len() ==> window[a].0 < window[b].0
        }),
{
    let views = entry_views(store.entries@);
    let pred = |e: (LogletOffset, RecordView)| e.0 >= from;
    let window = views.filter(pred);
    // The kept entries form a suffix of the sorted values.
    assert forall|a: int, b: int| 0 <= a < b < views.len() implies views[a].0 < views[b].0 by {
        assert(views[a].0 == store.entries@[a].0);
        assert(views[b].0 == store.entries@[b].0);
    }
    if exists|i: int| 0 <= i < views.len() && (#[trigger] views[i]).0 >= from {
        lemma_first_at_or_above(views, from);
        let first = choose|i: int|
            (0 <= i < views.len() && (#[trigger] views[i]).0 >= from) && (forall|i2: int|
                0 <= i2 < i ==> views[i2].0 < from);
        assert forall|i2: int| first <= i2 < views.len() implies views[i2].0 >= from by {
            if first < i2 {
                assert(views[first].0 < views[i2].0);
            }
        }
        lemma_filter_is_suffix(views, pred, first);
        assert(window =~= views.skip(first));
        assert forall|a: int, b: int|
            0 <= a < b < window.len() implies window[a].0 < window[b].0 by {
            assert(window[a] == views[first + a]);
            assert(window[b] == views[first + b]);
        }
    } else {
        assert(forall|i2: int| 0 <= i2 < views.len() ==> !pred(#[trigger] views[i2]));
        lemma_filter_is_suffix(views, pred, views.len() as int);
        assert(window =~= views.skip(views.len() as int));
        assert(window.len() == 0);
    }
}

/// A sorted run has a first element at or above any cutoff that is
/// reached at all.
proof fn lemma_first_at_or_above(views: Seq<(LogletOffset, RecordView)>, from: LogletOffset)
    requires
        exists|i: int| 0 <= i < views.len() && (#[trigger] views[i]).0 >= from,
    ensures
        exists|i: int|
            (0 <= i < views.len() && (#[trigger] views[i]).0 >= from) && (forall|i2: int|
                0 <= i2 < i ==> views[i2].0 < from),
    decreases views.len(),
{
    let w = choose|i: int| 0 <= i < views.len() && (#[trigger] views[i]).0 >= from;
    if views[0].0 >= from {
        assert((0 <= 0 < views.len() && views[0].0 >= from) && (forall|i2: int|
            0 <= i2 < 0 ==> views[i2].0 < from));
    } else {
        let tail = views.drop_first();
        assert(tail[w - 1] == views[w]);
        assert(exists|i: int| 0 <= i < tail.len() && (#[trigger] tail[i]).0 >= from);
        lemma_first_at_or_above(tail, from);
        let i0 = choose|i: int|
            (0 <= i < tail.len() && (#[trigger] tail[i]).0 >= from) && (forall|i2: int|
                0 <= i2 < i ==> tail[i2].0 < from);
        assert(views[i0 + 1].0 >= from);
        assert forall|i2: int| 0 <= i2 < i0 + 1 implies views[i2].0 < from by {
            if i2 >= 1 {
                assert(tail[i2 - 1] == views[i2]);
            }
        }
        assert((0 <= i0 + 1 < views.len() && views[i0 + 1].0 >= from) && (forall|i2: int|
            0 <= i2 < i0 + 1 ==> views[i2].0 < from));
    }
}

/// Round trip of a stored record: a read that starts at the record's
/// offset, with the unrestricted filter, delivers that record first,
/// bit-exact and whatever the byte budget. The leading scan position is
/// never charged to the budget, so even an exhausted budget returns it.
pub proof fn lemma_read_finds_record(
    store: LogletStore,
    o: LogletOffset,
    rv: RecordView,
    budget: int,
)
    requires
        store.wf(),
        store.record_at(o) == Some(rv),
    ensures
        ({
            let msg = GetRecords {
                from_offset: o,
                to_offset: (OFFSET_MAX - 1) as LogletOffset,
                filter: KeyFilter::Any,
                total_limit_in_bytes: None,
            };
            let scanned = scan_entries(
                views_from(store.entries@, read_start(store, msg) as LogletOffset),
                KeyFilter::Any,
                budget,
                false,
                read_start(store, msg) as LogletOffset,
                read_end(store, msg),
            );
            &&& read_start(store, msg) == o
            &&& scanned.items.len() >= 1
            &&& scanned.items[0] == (o, MaybeRecordView::Data(rv))
        }),
{
    let views = entry_views(store.entries@);
    let r0 = choose|r0: RecordView| views.contains((o, r0));
    assert(views.contains((o, r0)));
    let idx = choose|idx: int| 0 <= idx < views.len() && views[idx] == (o, r0);
    lemma_record_at_contains(store, o, r0);
    assert(r0 == rv);
    assert(store.entries@[idx].0 == o);
    assert(o > store.trim_point);
    let msg = GetRecords {
        from_offset: o,
        to_offset: (OFFSET_MAX - 1) as LogletOffset,
        filter: KeyFilter::Any,
        total_limit_in_bytes: None,
    };
    assert(read_start(store, msg) == o);
    assert(store.entries@[idx].0 <= store.entries@.last().0);
    assert(read_end(store, msg) == store.spec_local_tail() - 1);
    assert(o <= read_end(store, msg));
    assert(forall|j: int| 0 <= j < idx ==> #[trigger] store.entries@[j].0 < o);
    assert(forall|j: int|
        idx <= j < store.entries@.len() ==> #[trigger] store.entries@[j].0 >= o);
    lemma_views_from_index(store.entries@, o, idx);
    let window = views_from(store.entries@, o);
    assert(window =~= views.skip(idx));
    assert(window.len() > 0);
    assert(window.first() == views[idx]);
    assert(window.first() == (o, rv));
    let scanned = scan_entries(window, KeyFilter::Any, budget, false, o, read_end(store, msg));
    assert(keys_match_filter(rv.keys, KeyFilter::Any));
    assert(scanned.items[0] == (o, MaybeRecordView::Data(rv)));
}

/// The bytes a read must budget to reach `upto`: the weight of every
/// entry at or below it.
pub open spec fn window_weight(entries: Seq<(LogletOffset, RecordView)>, upto: LogletOffset)
    -> int
    decreases entries.len(),
{
    if entries.len() == 0 {
        0
    } else {
        window_weight(entries.drop_last(), upto) + (if entries.last().0 <= upto {
            record_read_size(entries.last().1)
        } else {
            0
        })
    }
}

proof fn lemma_window_weight_drop_first(
    entries: Seq<(LogletOffset, RecordView)>,
    upto: LogletOffset,
)
    requires
        entries.len() > 0,
    ensures
        window_weight(entries, upto) == (if entries.first().0 <= upto {
            record_read_size(entries.first().1)
        } else {
            0
        }) + window_weight(entries.drop_first(), upto),
    decreases entries.len(),
{
    if entries.len() == 1 {
        assert(entries.drop_last().len() == 0);
        assert(entries.drop_first().len() == 0);
        assert(window_weight(entries.drop_last(), upto) == 0);
        assert(window_weight(entries.drop_first(), upto) == 0);
        assert(entries.last() == entries.first());
    } else {
        lemma_window_weight_drop_first(entries.drop_last(), upto);
        assert(entries.drop_last().len() > 0);
        assert(window_weight(entries.drop_last(), upto) == (if entries.first().0 <= upto {
            record_read_size(entries.first().1)
        } else {
            0
        }) + window_weight(entries.drop_last().drop_first(), upto));
        assert(entries.drop_last().drop_first() =~= entries.drop_first().drop_last());
        assert(entries.drop_first().last() == entries.last());
        assert(entries.drop_last().first() == entries.first());
        assert(entries.drop_first().len() > 0);
        assert(window_weight(entries.drop_first(), upto) == window_weight(
            entries.drop_first().drop_last(),
            upto,
        ) + (if entries.drop_first().last().0 <= upto {
            record_read_size(entries.drop_first().last().1)
        } else {
            0
        }));
        assert(window_weight(entries.drop_first().drop_last(), upto) == window_weight(
            entries.drop_last().drop_first(),
            upto,
        ));
        assert(window_weight(entries, upto) == window_weight(entries.drop_last(), upto) + (
        if entries.last().0 <= upto {
            record_read_size(entries.last().1)
        } else {
            0
        }));
    }
}

proof fn lemma_window_weight_nonneg(entries: Seq<(LogletOffset, RecordView)>, upto: LogletOffset)
    ensures
        window_weight(entries, upto) >= 0,
    decreases entries.len(),
{
    if entries.len() > 0 {
        lemma_window_weight_nonneg(entries.drop_last(), upto);
    }
}

/// A matching record in the window is delivered whenever the budget
/// covers the window up to it, wherever it sits and whatever the filter
/// skips before it.
proof fn lemma_scan_delivers_within_budget(
    entries: Seq<(LogletOffset, RecordView)>,
    filter: KeyFilter,
    budget: int,
    got_one: bool,
    pointer: LogletOffset,
    read_to: int,
    i: int,
)
    requires
        forall|a: int, b: int| 0 <= a < b < entries.len() ==> entries[a].0 < entries[b].0,
        forall|a: int| 0 <= a < entries.len() ==> pointer <= (#[trigger] entries[a]).0,
        0 <= i < entries.len(),
        entries[i].0 <= read_to,
        keys_match_filter(entries[i].1.keys, filter),
        budget >= window_weight(entries, entries[i].0),
    ensures
        scan_entries(entries, filter, budget, got_one, pointer, read_to).items.contains(
            (entries[i].0, MaybeRecordView::Data(entries[i].1)),
        ),
    decreases entries.len(),
{
    let (o0, r0) = entries.first();
    assert(entries[0].0 == o0);
    assert(pointer <= o0);
    assert(o0 <= entries[i].0);
    assert(o0 <= read_to);
    lemma_window_weight_drop_first(entries, entries[i].0);
    lemma_window_weight_nonneg(entries.drop_first(), entries[i].0);
    let scanned = scan_entries(entries, filter, budget, got_one, pointer, read_to);
    if !keys_match_filter(r0.keys, filter) {
        assert(i != 0);
        let rest = scan_entries(
            entries.drop_first(),
            filter,
            budget,
            got_one,
            (o0 + 1) as LogletOffset,
            read_to,
        );
        assert(entries.drop_first()[i - 1] == entries[i]);
        assert(forall|a: int|
            0 <= a < entries.drop_first().len() ==> ((o0 + 1) as LogletOffset) <= (
            #[trigger] entries.drop_first()[a]).0);
        lemma_scan_delivers_within_budget(
            entries.drop_first(),
            filter,
            budget,
            got_one,
            (o0 + 1) as LogletOffset,
            read_to,
            i - 1,
        );
        let w = choose|w: int|
            0 <= w < rest.items.len() && rest.items[w] == (
            entries[i].0,
            MaybeRecordView::Data(entries[i].1),
            );
        assert(scanned.items[w + 1] == rest.items[w]);
    } else {
        assert(record_read_size(r0) <= window_weight(entries, entries[i].0));
        assert(!(got_one && budget < record_read_size(r0)));
        let remaining = if budget - record_read_size(r0) < 0 {
            0
        } else {
            budget - record_read_size(r0)
        };
        let rest = scan_entries(
            entries.drop_first(),
            filter,
            remaining,
            true,
            (o0 + 1) as LogletOffset,
            read_to,
        );
        assert(scanned.items[0] == (o0, MaybeRecordView::Data(r0)));
        if i == 0 {
        } else {
            assert(entries.drop_first()[i - 1] == entries[i]);
            assert(forall|a: int|
                0 <= a < entries.drop_first().len() ==> ((o0 + 1) as LogletOffset) <= (
                #[trigger] entries.drop_first()[a]).0);
            assert(remaining >= window_weight(entries.drop_first(), entries[i].0));
            lemma_scan_delivers_within_budget(
                entries.drop_first(),
                filter,
                remaining,
                true,
                (o0 + 1) as LogletOffset,
                read_to,
                i - 1,
            );
            let w = choose|w: int|
                0 <= w < rest.items.len() && rest.items[w] == (
                entries[i].0,
                MaybeRecordView::Data(entries[i].1),
                );
            assert(scanned.items[w + 1] == rest.items[w]);
        }
    }
}

/// The general round trip of a stored record: any read whose window
/// contains the record's offset, whose filter the record matches, and
/// whose budget covers the window up to it, delivers it bit-exact.
pub proof fn lemma_read_finds_record_in_window(
    store: LogletStore,
    msg: GetRecords,
    o: LogletOffset,
    rv: RecordView,
)
    requires
        store.wf(),
        store.record_at(o) == Some(rv),
        msg.from_offset <= o,
        o <= msg.to_offset,
        keys_match_filter(rv.keys, msg.filter),
        read_budget(msg) >= window_weight(
            views_from(store.entries@, read_start(store, msg) as LogletOffset),
            o,
        ),
    ensures
        ({
            let scanned = scan_entries(
                views_from(store.entries@, read_start(store, msg) as LogletOffset),
                msg.filter,
                read_budget(msg),
                false,
                read_start(store, msg) as LogletOffset,
                read_end(store, msg),
            );
            scanned.items.contains((o, MaybeRecordView::Data(rv)))
        }),
{
    let views = entry_views(store.entries@);
    let r0 = choose|r0: RecordView| views.contains((o, r0));
    assert(views.contains((o, r0)));
    let vi = choose|vi: int| 0 <= vi < views.len() && views[vi] == (o, r0);
    lemma_record_at_contains(store, o, r0);
    assert(r0 == rv);
    assert(store.entries@[vi].0 == o);
    assert(o > store.trim_point);
    let from = read_start(store, msg) as LogletOffset;
    assert(from <= o);
    assert(store.entries@[vi].0 <= store.entries@.last().0);
    assert(o <= read_end(store, msg));
    let window = views_from(store.entries@, from);
    lemma_views_window_sorted(store, from);
    assert(window.contains((o, rv))) by {
        views.filter_lemma(|e: (LogletOffset, RecordView)| e.0 >= from);
    }
    let wi = choose|wi: int| 0 <= wi < window.len() && window[wi] == (o, rv);
    assert(forall|a: int| 0 <= a < window.len() ==> from <= (#[trigger] window[a]).0) by {
        views.filter_lemma(|e: (LogletOffset, RecordView)| e.0 >= from);
    }
    lemma_scan_delivers_within_budget(
        window,
        msg.filter,
        read_budget(msg),
        false,
        from,
        read_end(store, msg),
        wi,
    );
}

/// In a well-formed store, an entry the store contains is what
/// `record_at` returns for its offset.
pub proof fn lemma_record_at_contains(store: LogletStore, o: LogletOffset, r: RecordView)
    requires
        store.wf(),
        entry_views(store.entries@).contains((o, r)),
    ensures
        store.record_at(o) == Some(r),
{
    let views = entry_views(store.entries@);
    let r2 = choose|r2: RecordView| views.contains((o, r2));
    assert(views.contains((o, r2)));
    let a = choose|a: int| 0 <= a < views.len() && views[a] == (o, r);
    let b = choose|b: int| 0 <= b < views.len() && views[b] == (o, r2);
    assert(store.entries@[a].0 == o);
    assert(store.entries@[b].0 == o);
    if a < b {
        assert(store.entries@[a].0 < store.entries@[b].0);
    } else if b < a {
        assert(store.entries@[b].0 < store.entries@[a].0);
    }
    assert(views[a].1 == r && views[b].1 == r2);
}

} // verus!
