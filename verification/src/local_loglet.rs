//! The local loglet: one segment of a log, backed by the ordered record
//! store.
//!
//! The append path reserves consecutive offsets at the in-memory tail and
//! hands the batch to the store, so offsets of successful appends are
//! contiguous. A sealed loglet accepts no further appends and its tail
//! never moves again.

use vstd::prelude::*;

use crate::log_server::{GetRecords, LogletStore, Records, StoreStatus};
use crate::loglet::{AppendError, TailState};
use crate::offsets::{LogletOffset, OFFSET_MAX};
use crate::record::{Record, RecordView};

verus! {

/// A loglet served from the local record store.
pub struct LocalLoglet {
    pub store: LogletStore,
}

impl LocalLoglet {
    pub open spec fn wf(&self) -> bool {
        self.store.wf()
    }

    /// One past the last durable record.
    pub open spec fn spec_tail(&self) -> int {
        self.store.spec_local_tail()
    }

    pub open spec fn spec_sealed(&self) -> bool {
        self.store.sealed
    }

    pub open spec fn spec_trim_point(&self) -> LogletOffset {
        self.store.trim_point
    }

    /// The record durable at `offset`, if any.
    pub open spec fn record_at(&self, offset: LogletOffset) -> Option<RecordView> {
        self.store.record_at(offset)
    }

    /// An empty, open loglet.
    pub fn new() -> (r: Self)
        ensures
            r.wf(),
            r.spec_tail() == crate::offsets::OFFSET_OLDEST,
            !r.spec_sealed(),
            r.spec_trim_point() == crate::offsets::OFFSET_INVALID,
            forall|o: LogletOffset| r.record_at(o) is None,
    {
        let r = LocalLoglet { store: LogletStore::new() };
        proof {
            assert forall|o: LogletOffset| r.record_at(o) is None by {
                if r.record_at(o) is Some {
                    let rv = choose|rv: RecordView|
                        crate::log_server::entry_views(r.store.entries@).contains((o, rv));
                    assert(crate::log_server::entry_views(r.store.entries@).contains((o, rv)));
                }
            }
        }
        r
    }

    /// Appends `records` at the tail, returning the offset of the first:
    /// the batch occupies the contiguous range starting there. A sealed
    /// loglet refuses every append and keeps its state.
    pub fn enqueue_batch(&mut self, records: Vec<Record>) -> (r: Result<
        LogletOffset,
        AppendError,
    >)
        requires
            old(self).wf(),
            records@.len() > 0,
            old(self).spec_tail() + records@.len() <= OFFSET_MAX,
            forall|k: int|
                0 <= k < records@.len() ==> crate::log_server::record_read_size(
                    #[trigger] records@[k].view(),
                ) <= usize::MAX,
        ensures
            final(self).wf(),
            old(self).spec_sealed() ==> r == Err::<LogletOffset, AppendError>(
                AppendError::Sealed,
            ) && *final(self) == *old(self),
            !old(self).spec_sealed() ==> {
                &&& r == Ok::<LogletOffset, AppendError>(
                    old(self).spec_tail() as LogletOffset,
                )
                &&& append_transition(
                    *old(self),
                    records@.map_values(|rec: Record| rec.view()),
                    *final(self),
                    old(self).spec_tail() as LogletOffset,
                )
            },
    {
        if self.store.sealed {
            return Err(AppendError::Sealed);
        }
        let state = self.store.load_loglet_state();
        let first = state.local_tail;
        let ghost pre = *self;
        let ghost recs = records@.map_values(|rec: Record| rec.view());
        let status = self.store.store(first, records, None);
        proof {
            assert(status == StoreStatus::Stored);
            assert forall|k: int| 0 <= k < recs.len() implies self.record_at(
                ((first + k) as LogletOffset),
            ) == Some(recs[k]) by {
                assert(first + k >= pre.spec_tail());
                assert(first + k > pre.spec_trim_point()) by {
                    lemma_trim_point_below_tail(pre);
                }
            }
            assert(self.spec_tail() >= first + recs.len()) by {
                let views = crate::log_server::entry_views(self.store.entries@);
                let last = recs.len() - 1;
                let x = (first + last) as LogletOffset;
                assert(self.record_at(x) == Some(recs[last]));
                let rv = choose|rv: RecordView| views.contains((x, rv));
                assert(views.contains((x, rv)));
                let idx = choose|idx: int| 0 <= idx < views.len() && views[idx] == (x, rv);
                assert(self.store.entries@[idx].0 == x);
                assert(self.store.entries@[idx].0 <= self.store.entries@.last().0);
            }
            assert(self.spec_tail() <= first + recs.len());
        }
        Ok(first)
    }

    /// The loglet's tail state: open until sealed, then frozen.
    pub fn find_tail(&self) -> (r: TailState)
        requires
            self.wf(),
        ensures
            r == tail_state_of(*self),
    {
        let state = self.store.load_loglet_state();
        if state.sealed {
            TailState::Sealed(state.local_tail)
        } else {
            TailState::Open(state.local_tail)
        }
    }

    /// The highest trimmed offset, if anything was ever trimmed.
    pub fn get_trim_point(&self) -> (r: Option<LogletOffset>)
        requires
            self.wf(),
        ensures
            self.spec_trim_point() == crate::offsets::OFFSET_INVALID <==> r is None,
            r matches Some(p) ==> p == self.spec_trim_point(),
    {
        if self.store.trim_point == crate::offsets::OFFSET_INVALID {
            None
        } else {
            Some(self.store.trim_point)
        }
    }

    /// Trims the loglet up to `new_trim_point` inclusive, clipped to the
    /// last durable record; trimming at or below the current trim point
    /// changes nothing. Idempotent.
    pub fn trim(&mut self, new_trim_point: LogletOffset)
        requires
            old(self).wf(),
        ensures
            final(self).wf(),
            final(self).spec_sealed() == old(self).spec_sealed(),
            final(self).spec_tail() == old(self).spec_tail(),
            final(self).spec_trim_point() == crate::log_server::clipped_trim(
                old(self).store,
                new_trim_point,
            ),
            forall|o: LogletOffset|
                o > final(self).spec_trim_point() ==> final(self).record_at(o) == old(
                    self,
                ).record_at(o),
            crate::log_server::clipped_trim(old(self).store, new_trim_point) == old(
                self,
            ).spec_trim_point() ==> *final(self) == *old(self),
    {
        self.store.trim(new_trim_point);
    }

    /// Seals the loglet; all later appends fail with `Sealed`, and the
    /// tail is frozen. Sealing twice has the same effect as once.
    pub fn seal(&mut self)
        requires
            old(self).wf(),
        ensures
            final(self).wf(),
            final(self).spec_sealed(),
            final(self).spec_tail() == old(self).spec_tail(),
            final(self).spec_trim_point() == old(self).spec_trim_point(),
            forall|o: LogletOffset| final(self).record_at(o) == old(self).record_at(o),
            old(self).spec_sealed() ==> *final(self) == *old(self),
    {
        self.store.seal();
    }

    /// The recovery rule of the append path: when the writer fails, the
    /// in-memory tail is not rolled back; the loglet seals itself instead,
    /// so every later append fails with `Sealed` and a fresh segment takes
    /// over. Contiguous offsets stay easier to reason about than
    /// gap-tolerant recovery.
    pub fn on_write_failure(&mut self)
        requires
            old(self).wf(),
        ensures
            final(self).wf(),
            final(self).spec_sealed(),
            final(self).spec_tail() == old(self).spec_tail(),
            final(self).spec_trim_point() == old(self).spec_trim_point(),
            forall|o: LogletOffset| final(self).record_at(o) == old(self).record_at(o),
    {
        self.store.seal();
    }

    /// Serves a read over the store's current snapshot: the records from
    /// `max(from, trim_point + 1)` up to the tail, with a leading trim
    /// gap when the request started inside the trimmed prefix, exactly
    /// as the store's scan delivers them.
    pub fn read_records(&self, msg: &GetRecords) -> (r: Records)
        requires
            self.wf(),
        ensures
            r.header.local_tail == self.spec_tail(),
            r.header.sealed == self.spec_sealed(),
            ({
                let read_from = crate::log_server::read_start(self.store, *msg);
                let read_to = crate::log_server::read_end(self.store, *msg);
                let scanned = crate::log_server::scan_entries(
                    crate::log_server::views_from(
                        self.store.entries@,
                        read_from as LogletOffset,
                    ),
                    msg.filter,
                    crate::log_server::read_budget(*msg),
                    false,
                    read_from as LogletOffset,
                    read_to,
                );
                &&& r.next_offset == scanned.next_offset
                &&& (if read_from > msg.from_offset {
                    crate::log_server::item_views(r.records@) =~= seq![
                        (
                            msg.from_offset,
                            crate::log_server::MaybeRecordView::TrimGap(
                                crate::log_server::Gap {
                                    to: (read_from - 1) as LogletOffset,
                                },
                            ),
                        ),
                    ] + scanned.items
                } else {
                    crate::log_server::item_views(r.records@) =~= scanned.items
                })
            }),
    {
        self.store.read_records(msg)
    }
}

/// The tail state a loglet reports.
pub open spec fn tail_state_of(l: LocalLoglet) -> TailState {
    if l.spec_sealed() {
        TailState::Sealed(l.spec_tail() as LogletOffset)
    } else {
        TailState::Open(l.spec_tail() as LogletOffset)
    }
}

/// The successful append step: `records` land contiguously at `first`,
/// which is the old tail; the tail advances by exactly the batch size;
/// nothing else changes.
pub open spec fn append_transition(
    pre: LocalLoglet,
    records: Seq<RecordView>,
    post: LocalLoglet,
    first: LogletOffset,
) -> bool {
    &&& first == pre.spec_tail()
    &&& post.spec_tail() == pre.spec_tail() + records.len()
    &&& post.spec_sealed() == pre.spec_sealed()
    &&& post.spec_trim_point() == pre.spec_trim_point()
    &&& forall|k: int|
        0 <= k < records.len() ==> post.record_at(((first + k) as LogletOffset)) == Some(
            records[k],
        )
    &&& forall|o: LogletOffset| o < first ==> post.record_at(o) == pre.record_at(o)
}

/// In a well-formed loglet the trim point always lies strictly below the
/// tail: even a loglet that never held a record has its trim point (the
/// invalid offset) below the oldest offset.
pub proof fn lemma_trim_point_below_tail(l: LocalLoglet)
    requires
        l.wf(),
    ensures
        l.spec_trim_point() < l.spec_tail(),
{
    if l.store.entries@.len() > 0 {
        assert(l.store.entries@.last().0 > l.store.trim_point);
    }
}

/// Offsets returned by successful appends are strictly increasing and
/// gap-free: a second append begins exactly where the first batch ended.
pub proof fn lemma_append_offsets_contiguous(
    s0: LocalLoglet,
    recs1: Seq<RecordView>,
    s1: LocalLoglet,
    o1: LogletOffset,
    recs2: Seq<RecordView>,
    s2: LocalLoglet,
    o2: LogletOffset,
)
    requires
        append_transition(s0, recs1, s1, o1),
        append_transition(s1, recs2, s2, o2),
    ensures
        o2 == o1 + recs1.len(),
        o2 > o1 || recs1.len() == 0,
{
}

/// A batch occupies a contiguous offset range: every offset inside it
/// holds the batch's record at the matching position.
pub proof fn lemma_append_batch_contiguous(
    pre: LocalLoglet,
    records: Seq<RecordView>,
    post: LocalLoglet,
    first: LogletOffset,
    k: int,
)
    requires
        append_transition(pre, records, post, first),
        0 <= k < records.len(),
    ensures
        post.record_at(((first + k) as LogletOffset)) == Some(records[k]),
{
}

/// The tail never regresses, and once sealed it is frozen: over any
/// append, trim or seal step the tail only grows, and a sealed loglet's
/// tail and seal are exactly what they were.
pub proof fn lemma_tail_monotone(pre: LocalLoglet, post: LocalLoglet, step: LogletStep)
    requires
        loglet_step(pre, post, step),
    ensures
        post.spec_tail() >= pre.spec_tail(),
        pre.spec_sealed() ==> post.spec_sealed() && post.spec_tail() == pre.spec_tail(),
        tail_state_of(pre) is Sealed ==> tail_state_of(post) == tail_state_of(pre),
{
}

/// One observable step of a loglet's life.
pub enum LogletStep {
    Append(Seq<RecordView>, LogletOffset),
    Trim(LogletOffset),
    Seal,
}

/// Which state changes each step allows.
pub open spec fn loglet_step(pre: LocalLoglet, post: LocalLoglet, step: LogletStep) -> bool {
    match step {
        LogletStep::Append(records, first) => if pre.spec_sealed() {
            post == pre
        } else {
            append_transition(pre, records, post, first)
        },
        LogletStep::Trim(p) => {
            &&& post.spec_tail() == pre.spec_tail()
            &&& post.spec_sealed() == pre.spec_sealed()
            &&& post.spec_trim_point() == crate::log_server::clipped_trim(pre.store, p)
        },
        LogletStep::Seal => {
            &&& post.spec_tail() == pre.spec_tail()
            &&& post.spec_sealed()
            &&& post.spec_trim_point() == pre.spec_trim_point()
        },
    }
}

/// After a seal, no record at or past the sealed tail is ever readable:
/// a well-formed loglet holds nothing at or beyond its tail.
pub proof fn lemma_nothing_at_or_past_tail(l: LocalLoglet, o: LogletOffset)
    requires
        l.wf(),
        o >= l.spec_tail(),
    ensures
        l.record_at(o) is None,
{
    if l.record_at(o) is Some {
        let views = crate::log_server::entry_views(l.store.entries@);
        let rv = choose|rv: RecordView| views.contains((o, rv));
        assert(views.contains((o, rv)));
        let idx = choose|idx: int| 0 <= idx < views.len() && views[idx] == (o, rv);
        assert(l.store.entries@[idx].0 == o);
        assert(l.store.entries@[idx].0 <= l.store.entries@.last().0);
    }
}

/// Round trip of an append: a record whose append returned the offset
/// range starting at `first` is read back bit-exact at its offset — the
/// scan that serves a read from that offset delivers it first, whatever
/// the byte budget.
pub proof fn lemma_append_then_read_round_trip(
    pre: LocalLoglet,
    records: Seq<RecordView>,
    post: LocalLoglet,
    first: LogletOffset,
    k: int,
    budget: int,
)
    requires
        post.wf(),
        append_transition(pre, records, post, first),
        0 <= k < records.len(),
    ensures
        post.record_at(((first + k) as LogletOffset)) == Some(records[k]),
        ({
            let o = (first + k) as LogletOffset;
            let msg = crate::log_server::GetRecords {
                from_offset: o,
                to_offset: (OFFSET_MAX - 1) as LogletOffset,
                filter: crate::record::KeyFilter::Any,
                total_limit_in_bytes: None,
            };
            let scanned = crate::log_server::scan_entries(
                crate::log_server::views_from(
                    post.store.entries@,
                    crate::log_server::read_start(post.store, msg) as LogletOffset,
                ),
                crate::record::KeyFilter::Any,
                budget,
                false,
                crate::log_server::read_start(post.store, msg) as LogletOffset,
                crate::log_server::read_end(post.store, msg),
            );
            scanned.items.len() >= 1 && scanned.items[0] == (
                o,
                crate::log_server::MaybeRecordView::Data(records[k]),
            )
        }),
{
    let o = (first + k) as LogletOffset;
    crate::log_server::lemma_read_finds_record(post.store, o, records[k], budget);
}

/// Once sealed, a loglet stays sealed with its tail frozen, and nothing
/// at or beyond the sealed tail ever becomes readable, whatever later
/// steps happen.
pub proof fn lemma_sealed_serves_nothing_beyond(
    pre: LocalLoglet,
    post: LocalLoglet,
    step: LogletStep,
    o: LogletOffset,
)
    requires
        pre.wf(),
        post.wf(),
        pre.spec_sealed(),
        loglet_step(pre, post, step),
        o >= pre.spec_tail(),
    ensures
        post.record_at(o) is None,
        tail_state_of(post) == tail_state_of(pre),
        post.spec_sealed(),
{
    lemma_tail_monotone(pre, post, step);
    lemma_nothing_at_or_past_tail(post, o);
}

/// Trimming is idempotent: after `trim(x)`, a later `trim(y)` with
/// `y <= x` lands on the same trim point, so by the trim contract it
/// changes nothing.
pub proof fn lemma_trim_idempotent(
    l0: LocalLoglet,
    l1: LocalLoglet,
    x: LogletOffset,
    y: LogletOffset,
)
    requires
        l0.wf(),
        l1.wf(),
        y <= x,
        l1.spec_trim_point() == crate::log_server::clipped_trim(l0.store, x),
        l1.spec_tail() == l0.spec_tail(),
    ensures
        crate::log_server::clipped_trim(l1.store, y) == l1.spec_trim_point(),
{
    let trim1 = l1.spec_trim_point();
    if y > trim1 {
        if l1.store.entries@.len() > 0 {
            assert(l1.store.entries@.last().0 > trim1);
            if l0.store.entries@.len() == 0 {
                assert(trim1 == l0.store.trim_point);
                assert(l1.spec_tail() == l0.spec_tail());
                assert(l1.store.entries@.last().0 + 1 == l0.spec_tail());
                assert(l0.spec_tail() <= l0.store.trim_point + 1);
                assert(false);
            } else {
                assert(l1.store.entries@.last().0 == l0.store.entries@.last().0);
                if x <= l0.store.entries@.last().0 {
                    assert(trim1 >= x || trim1 == l0.store.trim_point);
                    assert(y > trim1 && y <= x);
                    assert(trim1 == l0.store.trim_point);
                    assert(crate::log_server::clipped_trim(l0.store, x)
                        == l0.store.trim_point ==> x <= l0.store.trim_point);
                    assert(false);
                } else {
                    assert(trim1 == l0.store.entries@.last().0 || trim1
                        == l0.store.trim_point);
                    assert(l1.store.entries@.last().0 > trim1);
                    if trim1 == l0.store.entries@.last().0 {
                        assert(false);
                    } else {
                        assert(l0.store.entries@.last().0 <= l0.store.trim_point);
                        assert(false);
                    }
                }
            }
        }
    }
}

} // verus!
