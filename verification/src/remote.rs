//! Client-side computations of the replicated loglet: what a non-sequencer
//! node concludes from the log servers' responses.
//!
//! Each response carries a server's local tail and seal flag. A seal
//! observed anywhere wins: the tail is then the maximum reported, since a
//! sealed record range can only be served by whoever got furthest. An
//! all-open read quorum projects the minimum, the only offset every
//! consulted server is known to have reached.

use vstd::prelude::*;

use crate::log_server::{MaybeRecord, MaybeRecordView};
use crate::loglet::TailState;
use crate::offsets::LogletOffset;

verus! {

/// The last offset a response item covers: a trim gap spans to its end,
/// anything else covers its own offset.
pub open spec fn item_end(item: (LogletOffset, MaybeRecordView)) -> LogletOffset {
    match item.1 {
        MaybeRecordView::TrimGap(g) => g.to,
        MaybeRecordView::FilteredGap(_) => item.0,
        MaybeRecordView::Data(_) => item.0,
    }
}

/// Whether a response accounts for the offset: some item sits at it or a
/// trim gap spans it.
pub open spec fn response_covers(items: Seq<(LogletOffset, MaybeRecordView)>, o: LogletOffset)
    -> bool {
    exists|j: int| 0 <= j < items.len() && (#[trigger] items[j]).0 <= o <= item_end(items[j])
}

fn exec_item_end(item: &(LogletOffset, MaybeRecord)) -> (r: LogletOffset)
    ensures
        r == item_end((item.0, item.1.view())),
{
    match &item.1 {
        MaybeRecord::TrimGap(g) => g.to,
        MaybeRecord::FilteredGap(_) => item.0,
        MaybeRecord::Data(_) => item.0,
    }
}

/// Hole detection for the fail-over path: the first offset in
/// `[from, next_offset)` the response does not account for. Such an
/// offset was scanned and skipped, so this server holds no copy of it
/// and the reader should ask another node.
pub fn find_hole(
    records: &Vec<(LogletOffset, MaybeRecord)>,
    from: LogletOffset,
    next_offset: LogletOffset,
) -> (r: Option<LogletOffset>)
    requires
        forall|a: int, b: int|
            0 <= a < b < records@.len() ==> (#[trigger] crate::log_server::item_views(
                records@,
            )[a]).0 < (#[trigger] crate::log_server::item_views(records@)[b]).0,
        forall|j: int|
            0 <= j < records@.len() ==> (#[trigger] crate::log_server::item_views(records@)[
            j]).0 <= item_end(crate::log_server::item_views(records@)[j]),
    ensures
        ({
            let items = crate::log_server::item_views(records@);
            &&& (r matches Some(h) ==> from <= h < next_offset && !response_covers(items, h))
            &&& (r is None ==> forall|o: LogletOffset|
                from <= o < next_offset ==> response_covers(items, o))
        }),
{
    let ghost items = crate::log_server::item_views(records@);
    let mut pointer: LogletOffset = from;
    let mut i: usize = 0;
    while i < records.len() && pointer < next_offset
        invariant
            items == crate::log_server::item_views(records@),
            items.len() == records@.len(),
            forall|a: int, b: int|
                0 <= a < b < items.len() ==> (#[trigger] items[a]).0 < (
                #[trigger] items[b]).0,
            forall|j: int| 0 <= j < items.len() ==> (#[trigger] items[j]).0 <= item_end(
                items[j],
            ),
            i <= records@.len(),
            pointer >= from,
            forall|o: LogletOffset|
                from <= o < pointer ==> response_covers(items, o),
            forall|j: int| 0 <= j < i ==> item_end(#[trigger] items[j]) < pointer,
        decreases records@.len() - i,
    {
        let start = records[i].0;
        proof {
            assert(items[i as int] == (records@[i as int].0, records@[i as int].1.view()));
        }
        if start > pointer {
            proof {
                assert(!response_covers(items, pointer)) by {
                    if response_covers(items, pointer) {
                        let j = choose|j: int|
                            0 <= j < items.len() && (#[trigger] items[j]).0 <= pointer
                                <= item_end(items[j]);
                        if j < i {
                            assert(item_end(items[j]) < pointer);
                        } else {
                            assert(items[i as int].0 <= items[j].0);
                        }
                    }
                }
            }
            return Some(pointer);
        }
        let end = exec_item_end(&records[i]);
        if end >= pointer {
            if end >= next_offset || end == LogletOffset::MAX {
                proof {
                    assert forall|o: LogletOffset| from <= o < next_offset
                        implies response_covers(items, o) by {
                        if o >= pointer {
                            assert(items[i as int].0 <= o <= item_end(items[i as int]));
                        }
                    }
                }
                return None;
            }
            let ghost old_pointer = pointer;
            pointer = end + 1;
            proof {
                assert forall|o: LogletOffset| from <= o < pointer implies response_covers(
                    items,
                    o,
                ) by {
                    if o >= old_pointer {
                        assert(items[i as int].0 <= o <= item_end(items[i as int]));
                    }
                }
            }
        }
        i += 1;
    }
    if pointer < next_offset {
        proof {
            assert(!response_covers(items, pointer)) by {
                if response_covers(items, pointer) {
                    let j = choose|j: int|
                        0 <= j < items.len() && (#[trigger] items[j]).0 <= pointer <= item_end(
                            items[j],
                        );
                    assert(item_end(items[j]) < pointer);
                }
            }
        }
        Some(pointer)
    } else {
        None
    }
}

/// What one log server answered.
#[derive(Debug, Clone, Copy, PartialEq, Eq, Structural)]
pub struct TailReport {
    pub local_tail: LogletOffset,
    pub sealed: bool,
}

/// The largest tail among the reports.
pub open spec fn spec_max_tail(reports: Seq<TailReport>) -> int
    decreases reports.len(),
{
    if reports.len() == 0 {
        0
    } else if reports.last().local_tail >= spec_max_tail(reports.drop_last()) {
        reports.last().local_tail as int
    } else {
        spec_max_tail(reports.drop_last())
    }
}

/// The smallest tail among the reports.
pub open spec fn spec_min_tail(reports: Seq<TailReport>) -> int
    decreases reports.len(),
{
    if reports.len() == 0 {
        LogletOffset::MAX as int
    } else if reports.last().local_tail <= spec_min_tail(reports.drop_last()) {
        reports.last().local_tail as int
    } else {
        spec_min_tail(reports.drop_last())
    }
}

pub open spec fn spec_any_sealed(reports: Seq<TailReport>) -> bool {
    exists|i: int| 0 <= i < reports.len() && (#[trigger] reports[i]).sealed
}

/// The tail a read quorum implies: sealed at the maximum reported tail if
/// any server is sealed, otherwise open at the minimum.
pub open spec fn spec_find_tail(reports: Seq<TailReport>) -> TailState {
    if spec_any_sealed(reports) {
        TailState::Sealed(spec_max_tail(reports) as LogletOffset)
    } else {
        TailState::Open(spec_min_tail(reports) as LogletOffset)
    }
}

/// Concludes the tail state from a read quorum of responses.
pub fn find_tail_from_reports(reports: &Vec<TailReport>) -> (r: TailState)
    requires
        reports@.len() > 0,
    ensures
        r == spec_find_tail(reports@),
        r.spec_is_sealed() == spec_any_sealed(reports@),
{
    let mut any_sealed = false;
    let mut max_tail: LogletOffset = 0;
    let mut min_tail: LogletOffset = LogletOffset::MAX;
    let mut i: usize = 0;
    while i < reports.len()
        invariant
            i <= reports@.len(),
            max_tail == spec_max_tail(reports@.subrange(0, i as int)),
            min_tail == spec_min_tail(reports@.subrange(0, i as int)),
            any_sealed == spec_any_sealed(reports@.subrange(0, i as int)),
        decreases reports@.len() - i,
    {
        let rep = reports[i];
        proof {
            assert(reports@.subrange(0, i + 1).drop_last() =~= reports@.subrange(0, i as int));
            assert(reports@.subrange(0, i + 1).last() == reports@[i as int]);
        }
        if rep.sealed {
            any_sealed = true;
        }
        if rep.local_tail > max_tail {
            max_tail = rep.local_tail;
        }
        if rep.local_tail < min_tail {
            min_tail = rep.local_tail;
        }
        proof {
            let sub = reports@.subrange(0, i + 1);
            assert(spec_any_sealed(sub) == (spec_any_sealed(reports@.subrange(0, i as int))
                || reports@[i as int].sealed)) by {
                if spec_any_sealed(sub) {
                    let w = choose|w: int| 0 <= w < sub.len() && (#[trigger] sub[w]).sealed;
                    if w < i {
                        assert(reports@.subrange(0, i as int)[w].sealed);
                    }
                } else {
                }
                if spec_any_sealed(reports@.subrange(0, i as int)) {
                    let w = choose|w: int|
                        0 <= w < i && (#[trigger] reports@.subrange(0, i as int)[w]).sealed;
                    assert(sub[w].sealed);
                }
                if reports@[i as int].sealed {
                    assert(sub[i as int].sealed);
                }
            }
        }
        i += 1;
    }
    proof {
        assert(reports@.subrange(0, reports@.len() as int) =~= reports@);
    }
    if any_sealed {
        TailState::Sealed(max_tail)
    } else {
        TailState::Open(min_tail)
    }
}

/// The maximum is at least every report and is one of them.
pub proof fn lemma_max_tail_is_max(reports: Seq<TailReport>)
    requires
        reports.len() > 0,
    ensures
        forall|i: int| 0 <= i < reports.len() ==> (#[trigger] reports[i]).local_tail
            <= spec_max_tail(reports),
        exists|i: int| 0 <= i < reports.len() && (#[trigger] reports[i]).local_tail
            == spec_max_tail(reports),
    decreases reports.len(),
{
    if reports.len() == 1 {
        assert(reports[0].local_tail == spec_max_tail(reports));
    } else {
        lemma_max_tail_is_max(reports.drop_last());
        if reports.last().local_tail >= spec_max_tail(reports.drop_last()) {
            assert(reports[reports.len() - 1].local_tail == spec_max_tail(reports));
        } else {
            let w = choose|i: int|
                0 <= i < reports.drop_last().len() && (#[trigger] reports.drop_last()[i])
                    .local_tail == spec_max_tail(reports.drop_last());
            assert(reports[w].local_tail == spec_max_tail(reports));
        }
        assert forall|i: int| 0 <= i < reports.len() implies (#[trigger] reports[i]).local_tail
            <= spec_max_tail(reports) by {
            if i < reports.len() - 1 {
                assert(reports.drop_last()[i] == reports[i]);
            }
        }
    }
}

/// Sealing reconciliation: once a sealing quorum has answered, the sealed
/// tail is the maximum local tail any of them reported.
pub fn sealed_tail_from_reports(reports: &Vec<TailReport>) -> (r: LogletOffset)
    requires
        reports@.len() > 0,
    ensures
        r == spec_max_tail(reports@),
        forall|i: int| 0 <= i < reports@.len() ==> (#[trigger] reports@[i]).local_tail <= r,
        exists|i: int| 0 <= i < reports@.len() && (#[trigger] reports@[i]).local_tail == r,
{
    let mut max_tail: LogletOffset = 0;
    let mut i: usize = 0;
    while i < reports.len()
        invariant
            i <= reports@.len(),
            max_tail == spec_max_tail(reports@.subrange(0, i as int)),
        decreases reports@.len() - i,
    {
        proof {
            assert(reports@.subrange(0, i + 1).drop_last() =~= reports@.subrange(0, i as int));
            assert(reports@.subrange(0, i + 1).last() == reports@[i as int]);
        }
        if reports[i].local_tail > max_tail {
            max_tail = reports[i].local_tail;
        }
        i += 1;
    }
    proof {
        assert(reports@.subrange(0, reports@.len() as int) =~= reports@);
        lemma_max_tail_is_max(reports@);
    }
    max_tail
}

/// A sealed observation never regresses: with one more report folded in,
/// the sealed tail can only grow, and folding in a report whose tail is
/// at most the current maximum leaves it unchanged.
pub proof fn lemma_sealed_tail_monotone(reports: Seq<TailReport>, extra: TailReport)
    requires
        reports.len() > 0,
    ensures
        spec_max_tail(reports.push(extra)) >= spec_max_tail(reports),
        extra.local_tail <= spec_max_tail(reports) ==> spec_max_tail(reports.push(extra))
            == spec_max_tail(reports),
{
    assert(reports.push(extra).drop_last() =~= reports);
}

} // verus!
