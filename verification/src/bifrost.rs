//! The facade over the distributed log: log-level append, read, trim and
//! seal in the logical LSN space, composing a chain of loglets into one
//! log.
//!
//! A loglet based at `base_lsn` serves LSN `base_lsn + offset - 1` from
//! its offset `offset`; the chain keeps bases strictly increasing, and a
//! sealed segment's tail is the next segment's base.

use vstd::prelude::*;

use crate::chain::{Chain, LogId, LogletParams, ProviderKind};
use crate::local_loglet::LocalLoglet;
use crate::log_server::{GetRecords, MaybeRecord};
use crate::offsets::{LogletOffset, Lsn, LSN_MAX, LSN_OLDEST, OFFSET_MAX, OFFSET_OLDEST};
use crate::read_stream::{LogReadStream, LogRecord, Record as StreamRecord, TrimGap};
use crate::record::{KeyFilter, Record};

verus! {

/// Why a facade operation failed.
#[derive(Debug, Clone, Copy, PartialEq, Eq, Structural)]
pub enum Error {
    UnknownLogId,
    Sealed,
    Shutdown,
}

/// What a poll of the read stream produced.
#[derive(Debug, PartialEq, Eq)]
pub enum ReadOutcome {
    /// The stream reached its end: the pointer is at or past `until`, or
    /// the log's last segment is sealed and exhausted.
    Terminated,
    /// Nothing to deliver yet: the reader parks until the tail moves.
    Pending,
    /// One record.
    Item(LogRecord),
}

/// One logical log: its chain and one loglet per segment.
pub struct BifrostLog {
    pub chain: Chain,
    pub loglets: Vec<LocalLoglet>,
}

impl BifrostLog {
    /// The chain and loglets line up; every segment but the last is
    /// sealed, and each sealed segment's tail is the next segment's
    /// base, so the LSN space is contiguous across segments.
    pub open spec fn wf(&self) -> bool {
        &&& self.chain.wf()
        &&& self.loglets@.len() == self.chain.segments@.len()
        &&& forall|i: int| 0 <= i < self.loglets@.len() ==> (#[trigger] self.loglets@[i]).wf()
        &&& forall|i: int|
            0 <= i < self.loglets@.len() - 1 ==> (#[trigger] self.loglets@[i]).spec_sealed()
        &&& forall|i: int|
            0 <= i < self.loglets@.len() - 1 ==> self.chain.segments@[i + 1].base_lsn
                == self.chain.segments@[i].base_lsn + (#[trigger] self.loglets@[i]).spec_tail()
                - OFFSET_OLDEST
    }

    /// A log with one fresh local segment based at the oldest LSN.
    pub fn new() -> (r: Self)
        ensures
            r.wf(),
            r.loglets@.len() == 1,
            r.chain.segments@[0].base_lsn == LSN_OLDEST,
            !r.loglets@[0].spec_sealed(),
            r.loglets@[0].spec_tail() == OFFSET_OLDEST,
    {
        let chain = Chain::new(
            LSN_OLDEST,
            ProviderKind::Local,
            LogletParams::new(String::new()),
        );
        let loglets = vec![LocalLoglet::new()];
        BifrostLog { chain, loglets }
    }

    /// The LSN one past the last committed record of the log.
    pub open spec fn spec_tail_lsn(&self) -> int {
        let last = self.loglets@.len() - 1;
        self.chain.segments@[last].base_lsn + self.loglets@[last].spec_tail() - OFFSET_OLDEST
    }
}

/// The facade: all logs of the node, addressed by log id.
pub struct Bifrost {
    pub logs: Vec<(LogId, BifrostLog)>,
}

impl Bifrost {
    pub open spec fn wf(&self) -> bool {
        &&& forall|i: int, j: int|
            0 <= i < j < self.logs@.len() ==> self.logs@[i].0 != self.logs@[j].0
        &&& forall|i: int| 0 <= i < self.logs@.len() ==> (#[trigger] self.logs@[i].1).wf()
    }

    /// The position of `log_id`, if the facade knows the log.
    pub open spec fn spec_find_log(&self, log_id: LogId) -> Option<int> {
        if exists|i: int| 0 <= i < self.logs@.len() && self.logs@[i].0 == log_id {
            Some(choose|i: int| 0 <= i < self.logs@.len() && self.logs@[i].0 == log_id)
        } else {
            None
        }
    }

    pub fn new() -> (r: Self)
        ensures
            r.wf(),
            r.logs@.len() == 0,
    {
        Bifrost { logs: Vec::new() }
    }

    /// Registers a fresh log under `log_id`; a log that already exists
    /// stays as it is.
    pub fn add_log(&mut self, log_id: LogId)
        requires
            old(self).wf(),
        ensures
            final(self).wf(),
            final(self).spec_find_log(log_id) is Some,
            old(self).spec_find_log(log_id) is Some ==> *final(self) == *old(self),
    {
        let existing = self.find_log(log_id);
        if existing.is_some() {
            return ;
        }
        let ghost pre = self.logs@;
        self.logs.push((log_id, BifrostLog::new()));
        proof {
            assert(self.logs@.last().0 == log_id);
            assert forall|i: int, j: int|
                0 <= i < j < self.logs@.len() implies self.logs@[i].0 != self.logs@[j].0 by {
                if j == self.logs@.len() - 1 {
                    assert(self.logs@[i] == pre[i]);
                    assert(pre[i].0 != log_id) by {
                        if pre[i].0 == log_id {
                            assert(exists|w: int|
                                0 <= w < pre.len() && pre[w].0 == log_id);
                        }
                    }
                }
            }
            assert(self.spec_find_log(log_id) is Some) by {
                assert(self.logs@[self.logs@.len() - 1].0 == log_id);
            }
        }
    }

    fn find_log(&self, log_id: LogId) -> (r: Option<usize>)
        ensures
            r is Some <==> self.spec_find_log(log_id) is Some,
            r matches Some(i) ==> i < self.logs@.len() && self.logs@[i as int].0 == log_id,
    {
        let mut i: usize = 0;
        while i < self.logs.len()
            invariant
                i <= self.logs@.len(),
                forall|j: int| 0 <= j < i ==> (#[trigger] self.logs@[j]).0 != log_id,
            decreases self.logs@.len() - i,
        {
            if self.logs[i].0 == log_id {
                proof {
                    assert(exists|w: int|
                        0 <= w < self.logs@.len() && self.logs@[w].0 == log_id);
                }
                return Some(i);
            }
            i += 1;
        }
        proof {
            if self.spec_find_log(log_id) is Some {
                let w = choose|w: int| 0 <= w < self.logs@.len() && self.logs@[w].0 == log_id;
            }
        }
        None
    }

    /// Appends one record to the log's writable segment and returns its
    /// LSN. Fails with `UnknownLogId` for a log the facade does not
    /// know, and with `Sealed` when the tail segment is sealed.
    pub fn append(&mut self, log_id: LogId, record: Record) -> (r: Result<Lsn, Error>)
        requires
            old(self).wf(),
            crate::log_server::record_read_size(record@) <= usize::MAX,
        ensures
            final(self).wf(),
            r == Err::<Lsn, Error>(Error::UnknownLogId) <==> old(self).spec_find_log(log_id)
                is None,
            old(self).spec_find_log(log_id) is None ==> *final(self) == *old(self),
            ({
                old(self).spec_find_log(log_id) matches Some(i) ==> {
                    let log = old(self).logs@[i].1;
                    let last = log.loglets@.len() - 1;
                    if log.loglets@[last].spec_sealed() {
                        r == Err::<Lsn, Error>(Error::Sealed) && *final(self) == *old(self)
                    } else if log.spec_tail_lsn() < LSN_MAX && log.loglets@[last].spec_tail() + 1
                        <= OFFSET_MAX {
                        let flog = final(self).logs@[i].1;
                        &&& r == Ok::<Lsn, Error>(log.spec_tail_lsn() as Lsn)
                        &&& final(self).spec_find_log(log_id) == Some(i)
                        &&& flog.spec_tail_lsn() == log.spec_tail_lsn() + 1
                        // The chain and every earlier segment are untouched,
                        // the writable segment stays open with its trim
                        // point, and the appended record is readable at the
                        // returned LSN's offset, with everything below it
                        // preserved.
                        &&& flog.chain == log.chain
                        &&& flog.loglets@.len() == log.loglets@.len()
                        &&& (forall|s: int| 0 <= s < last ==> flog.loglets@[s] == log.loglets@[s])
                        &&& !flog.loglets@[last].spec_sealed()
                        &&& flog.loglets@[last].spec_trim_point() == log.loglets@[
                            last].spec_trim_point()
                        &&& flog.loglets@[last].record_at(
                            (log.loglets@[last].spec_tail()) as LogletOffset,
                        ) == Some(record@)
                        &&& (forall|o: LogletOffset|
                            o < log.loglets@[last].spec_tail() ==> flog.loglets@[
                                last].record_at(o) == log.loglets@[last].record_at(o))
                    } else {
                        r == Err::<Lsn, Error>(Error::Shutdown) && *final(self) == *old(self)
                    }
                }
            }),
    {
        let idx = match self.find_log(log_id) {
            Some(i) => i,
            None => {
                return Err(Error::UnknownLogId);
            },
        };
        let ghost gi = choose|w: int| 0 <= w < self.logs@.len() && self.logs@[w].0 == log_id;
        proof {
            lemma_find_log_unique(*self, log_id, idx as int, gi);
        }
        {
            let logref = &self.logs[idx].1;
            let last0 = logref.loglets.len() - 1;
            let base0 = logref.chain.segments[last0].base_lsn;
            if logref.loglets[last0].store.sealed {
                return Err(Error::Sealed);
            }
            let tail0 = logref.loglets[last0].find_tail().offset();
            // Machine limits: the offset and LSN spaces must have room.
            if tail0 >= OFFSET_MAX || base0 > LSN_MAX - (tail0 as u64 - OFFSET_OLDEST as u64)
                - 1 {
                return Err(Error::Shutdown);
            }
        }
        let (id, mut log) = self.logs.remove(idx);
        let last = log.loglets.len() - 1;
        let base = log.chain.segments[last].base_lsn;
        let tail_state = log.loglets[last].find_tail();
        let tail_off = tail_state.offset();
        let mut batch: Vec<Record> = Vec::new();
        batch.push(record);
        let ghost loglets_pre = log.loglets@;
        let ghost recs = batch@.map_values(|rec: Record| rec.view());
        let mut loglet = log.loglets.remove(last);
        let res = loglet.enqueue_batch(batch);
        log.loglets.insert(last, loglet);
        proof {
            assert(recs.len() == 1);
            assert(recs[0] == record@);
            assert(log.loglets@.len() == loglets_pre.len());
            let pre_loglet = loglets_pre[last as int];
            let post_loglet = log.loglets@[last as int];
            assert(crate::local_loglet::append_transition(
                pre_loglet,
                recs,
                post_loglet,
                pre_loglet.spec_tail() as LogletOffset,
            ));
            assert(post_loglet.record_at(
                (pre_loglet.spec_tail() + 0) as LogletOffset,
            ) == Some(recs[0]));
            assert(post_loglet.record_at(pre_loglet.spec_tail() as LogletOffset) == Some(
                record@,
            ));
            assert(forall|i: int|
                0 <= i < loglets_pre.len() - 1 ==> log.loglets@[i] == loglets_pre[i]);
            assert(log.wf()) by {
                assert forall|i: int| 0 <= i < log.loglets@.len() implies (
                #[trigger] log.loglets@[i]).wf() by {
                    if i < loglets_pre.len() - 1 {
                        assert(log.loglets@[i] == loglets_pre[i]);
                    }
                }
                assert forall|i: int|
                    0 <= i < log.loglets@.len() - 1 implies (#[trigger] log.loglets@[i])
                    .spec_sealed() by {
                    assert(log.loglets@[i] == loglets_pre[i]);
                }
                assert forall|i: int|
                    0 <= i < log.loglets@.len() - 1 implies log.chain.segments@[i + 1].base_lsn
                    == log.chain.segments@[i].base_lsn + (#[trigger] log.loglets@[i])
                    .spec_tail() - OFFSET_OLDEST by {
                    assert(log.loglets@[i] == loglets_pre[i]);
                }
            }
        }
        let lsn = base + (tail_off - OFFSET_OLDEST) as u64;
        self.logs.insert(idx, (id, log));
        proof {
            assert(self.logs@ =~= old(self).logs@.update(idx as int, (id, log)));
            assert forall|i: int, j: int|
                0 <= i < j < self.logs@.len() implies self.logs@[i].0 != self.logs@[j].0 by {
                assert(self.logs@[i].0 == old(self).logs@[i].0);
                assert(self.logs@[j].0 == old(self).logs@[j].0);
            }
            lemma_find_log_stable(*old(self), *self, log_id, idx as int);
        }
        match res {
            Ok(_) => Ok(lsn),
            Err(_) => Err(Error::Sealed),
        }
    }

    /// The LSN of the last committed record of the log, if any record
    /// was ever appended.
    pub fn find_tail(&self, log_id: LogId) -> (r: Result<Option<Lsn>, Error>)
        requires
            self.wf(),
        ensures
            r == Err::<Option<Lsn>, Error>(Error::UnknownLogId) <==> self.spec_find_log(log_id)
                is None,
            ({
                self.spec_find_log(log_id) matches Some(i) ==> {
                    let log = self.logs@[i].1;
                    if log.spec_tail_lsn() > log.chain.segments@[0].base_lsn {
                        r == Ok::<Option<Lsn>, Error>(Some((log.spec_tail_lsn() - 1) as Lsn))
                    } else {
                        r == Ok::<Option<Lsn>, Error>(None)
                    }
                }
            }),
    {
        let idx = match self.find_log(log_id) {
            Some(i) => i,
            None => {
                return Err(Error::UnknownLogId);
            },
        };
        let ghost gi = choose|w: int| 0 <= w < self.logs@.len() && self.logs@[w].0 == log_id;
        proof {
            lemma_find_log_unique(*self, log_id, idx as int, gi);
        }
        let log = &self.logs[idx].1;
        let last = log.loglets.len() - 1;
        let base = log.chain.segments[last].base_lsn;
        let tail_off = log.loglets[last].find_tail().offset();
        let tail_lsn = base + (tail_off - OFFSET_OLDEST) as u64;
        if tail_lsn > log.chain.segments[0].base_lsn {
            Ok(Some(tail_lsn - 1))
        } else {
            Ok(None)
        }
    }

    /// Seals the log's writable segment: appends fail from here on and
    /// the tail is frozen. Idempotent.
    pub fn seal(&mut self, log_id: LogId) -> (r: Result<(), Error>)
        requires
            old(self).wf(),
        ensures
            final(self).wf(),
            r == Err::<(), Error>(Error::UnknownLogId) <==> old(self).spec_find_log(log_id)
                is None,
            old(self).spec_find_log(log_id) is None ==> *final(self) == *old(self),
            ({
                old(self).spec_find_log(log_id) matches Some(i) ==> {
                    let log = old(self).logs@[i].1;
                    let last = log.loglets@.len() - 1;
                    r == Ok::<(), Error>(()) && final(self).spec_find_log(log_id) == Some(i)
                        && final(self).logs@[i].1.spec_tail_lsn() == log.spec_tail_lsn()
                        && final(self).logs@[i].1.loglets@.last().spec_sealed()
                }
            }),
    {
        let idx = match self.find_log(log_id) {
            Some(i) => i,
            None => {
                return Err(Error::UnknownLogId);
            },
        };
        let ghost gi = choose|w: int| 0 <= w < self.logs@.len() && self.logs@[w].0 == log_id;
        proof {
            lemma_find_log_unique(*self, log_id, idx as int, gi);
        }
        let (id, mut log) = self.logs.remove(idx);
        let last = log.loglets.len() - 1;
        let ghost loglets_pre = log.loglets@;
        let mut loglet = log.loglets.remove(last);
        loglet.seal();
        log.loglets.insert(last, loglet);
        proof {
            assert(forall|i: int|
                0 <= i < loglets_pre.len() - 1 ==> log.loglets@[i] == loglets_pre[i]);
            assert forall|i: int| 0 <= i < log.loglets@.len() implies (
            #[trigger] log.loglets@[i]).wf() by {
                if i < loglets_pre.len() - 1 {
                    assert(log.loglets@[i] == loglets_pre[i]);
                }
            }
            assert forall|i: int|
                0 <= i < log.loglets@.len() - 1 implies (#[trigger] log.loglets@[i])
                .spec_sealed() by {
                assert(log.loglets@[i] == loglets_pre[i]);
            }
            assert forall|i: int|
                0 <= i < log.loglets@.len() - 1 implies log.chain.segments@[i + 1].base_lsn
                == log.chain.segments@[i].base_lsn + (#[trigger] log.loglets@[i]).spec_tail()
                - OFFSET_OLDEST by {
                assert(log.loglets@[i] == loglets_pre[i]);
            }
        }
        self.logs.insert(idx, (id, log));
        proof {
            assert(self.logs@ =~= old(self).logs@.update(idx as int, (id, log)));
            assert forall|i: int, j: int|
                0 <= i < j < self.logs@.len() implies self.logs@[i].0 != self.logs@[j].0 by {
                assert(self.logs@[i].0 == old(self).logs@[i].0);
                assert(self.logs@[j].0 == old(self).logs@[j].0);
            }
            lemma_find_log_stable(*old(self), *self, log_id, idx as int);
        }
        Ok(())
    }

    /// Trims the log up to `trim_point` inclusive, clipped to the last
    /// committed record. Trimming below the current trim point is a
    /// no-op; repeated trims are idempotent.
    pub fn trim(&mut self, log_id: LogId, trim_point: Lsn) -> (r: Result<(), Error>)
        requires
            old(self).wf(),
        ensures
            final(self).wf(),
            r == Err::<(), Error>(Error::UnknownLogId) <==> old(self).spec_find_log(log_id)
                is None,
            old(self).spec_find_log(log_id) is None ==> *final(self) == *old(self),
            old(self).spec_find_log(log_id) matches Some(i) ==> r == Ok::<(), Error>(())
                && final(self).spec_find_log(log_id) == Some(i) && final(self).logs@[i].1
                .spec_tail_lsn() == old(self).logs@[i].1.spec_tail_lsn() && ({
                let log = old(self).logs@[i].1;
                let last = log.loglets@.len() - 1;
                final(self).logs@[i].1.loglets@[last].spec_trim_point()
                    == crate::log_server::clipped_trim(
                    log.loglets@[last].store,
                    lsn_trim_offset(log.chain.segments@[last].base_lsn, trim_point),
                )
            }),
    {
        let idx = match self.find_log(log_id) {
            Some(i) => i,
            None => {
                return Err(Error::UnknownLogId);
            },
        };
        let ghost gi = choose|w: int| 0 <= w < self.logs@.len() && self.logs@[w].0 == log_id;
        proof {
            lemma_find_log_unique(*self, log_id, idx as int, gi);
        }
        let (id, mut log) = self.logs.remove(idx);
        let last = log.loglets.len() - 1;
        let base = log.chain.segments[last].base_lsn;
        // Map the LSN-space trim point into the tail segment's offsets,
        // clipping to the offset space.
        let off: LogletOffset = if trim_point < base {
            0
        } else if trim_point - base >= (OFFSET_MAX - OFFSET_OLDEST) as u64 {
            OFFSET_MAX
        } else {
            (trim_point - base) as u32 + OFFSET_OLDEST
        };
        let ghost loglets_pre = log.loglets@;
        let mut loglet = log.loglets.remove(last);
        loglet.trim(off);
        log.loglets.insert(last, loglet);
        proof {
            assert(forall|i: int|
                0 <= i < loglets_pre.len() - 1 ==> log.loglets@[i] == loglets_pre[i]);
            assert forall|i: int| 0 <= i < log.loglets@.len() implies (
            #[trigger] log.loglets@[i]).wf() by {
                if i < loglets_pre.len() - 1 {
                    assert(log.loglets@[i] == loglets_pre[i]);
                }
            }
            assert forall|i: int|
                0 <= i < log.loglets@.len() - 1 implies (#[trigger] log.loglets@[i])
                .spec_sealed() by {
                assert(log.loglets@[i] == loglets_pre[i]);
            }
            assert forall|i: int|
                0 <= i < log.loglets@.len() - 1 implies log.chain.segments@[i + 1].base_lsn
                == log.chain.segments@[i].base_lsn + (#[trigger] log.loglets@[i]).spec_tail()
                - OFFSET_OLDEST by {
                assert(log.loglets@[i] == loglets_pre[i]);
            }
        }
        self.logs.insert(idx, (id, log));
        proof {
            assert(self.logs@ =~= old(self).logs@.update(idx as int, (id, log)));
            assert forall|i: int, j: int|
                0 <= i < j < self.logs@.len() implies self.logs@[i].0 != self.logs@[j].0 by {
                assert(self.logs@[i].0 == old(self).logs@[i].0);
                assert(self.logs@[j].0 == old(self).logs@[j].0);
            }
            lemma_find_log_stable(*old(self), *self, log_id, idx as int);
        }
        Ok(())
    }

    /// The highest trimmed LSN of the log, if anything was ever trimmed.
    pub fn get_trim_point(&self, log_id: LogId) -> (r: Result<Option<Lsn>, Error>)
        requires
            self.wf(),
        ensures
            r == Err::<Option<Lsn>, Error>(Error::UnknownLogId) <==> self.spec_find_log(log_id)
                is None,
            ({
                self.spec_find_log(log_id) matches Some(i) ==> {
                    let log = self.logs@[i].1;
                    let last = log.loglets@.len() - 1;
                    let trim = log.loglets@[last].spec_trim_point();
                    if trim == crate::offsets::OFFSET_INVALID {
                        r == Ok::<Option<Lsn>, Error>(None)
                    } else {
                        r == Ok::<Option<Lsn>, Error>(
                            Some(
                                (log.chain.segments@[last].base_lsn + trim
                                    - OFFSET_OLDEST) as Lsn,
                            ),
                        )
                    }
                }
            }),
    {
        let idx = match self.find_log(log_id) {
            Some(i) => i,
            None => {
                return Err(Error::UnknownLogId);
            },
        };
        let ghost gi = choose|w: int| 0 <= w < self.logs@.len() && self.logs@[w].0 == log_id;
        proof {
            lemma_find_log_unique(*self, log_id, idx as int, gi);
        }
        let log = &self.logs[idx].1;
        let last = log.loglets.len() - 1;
        let base = log.chain.segments[last].base_lsn;
        match log.loglets[last].get_trim_point() {
            None => Ok(None),
            Some(p) => Ok(Some(base + (p as u64) - (OFFSET_OLDEST as u64))),
        }
    }

    /// A reader over the log, delivering records after `after` up to and
    /// including `until_lsn`.
    pub fn create_reader(&self, log_id: LogId, after: Lsn, until_lsn: Lsn) -> (r: Result<
        LogReadStream,
        Error,
    >)
        requires
            self.wf(),
        ensures
            r == Err::<LogReadStream, Error>(Error::UnknownLogId) <==> self.spec_find_log(
                log_id,
            ) is None,
            r matches Ok(s) ==> s.log_id == log_id && s.read_pointer == after && s.until_lsn
                == until_lsn && !s.terminated,
    {
        if self.find_log(log_id).is_none() {
            return Err(Error::UnknownLogId);
        }
        Ok(LogReadStream::create(log_id, after, until_lsn))
    }

    /// Advances the stream by one record, if one is ready. Termination
    /// is owed once the pointer reaches `until` or the log is unknown,
    /// and happens otherwise only when the sealed last segment holds
    /// nothing more. A record stored at the next LSN, or the trim gap
    /// covering it, is owed bit-exact; an open tail with nothing more to
    /// read parks. Every delivered record lies strictly above the
    /// pointer, and the pointer follows the delivered record.
    pub fn read_next(&self, stream: &mut LogReadStream) -> (r: ReadOutcome)
        requires
            self.wf(),
            old(stream).read_pointer < LSN_MAX,
            !old(stream).terminated,
        ensures
            stream_advance(*old(stream), *final(stream), r),
            r is Terminated ==> old(stream).read_pointer >= old(stream).until_lsn
                || self.spec_find_log(old(stream).log_id) is None || ({
                self.spec_find_log(old(stream).log_id) matches Some(i)
                    && self.logs@[i].1.loglets@.last().spec_sealed()
            }),
            // A pointer at or past the bound, or an unknown log, terminates
            // the stream at once.
            old(stream).read_pointer >= old(stream).until_lsn ==> r is Terminated,
            old(stream).read_pointer < old(stream).until_lsn && self.spec_find_log(
                old(stream).log_id,
            ) is None ==> r is Terminated,
            // Delivery is owed: a record stored exactly at the next LSN is
            // delivered, bit-exact, at that LSN.
            ({
                let lsn = old(stream).read_pointer + 1;
                old(stream).read_pointer < old(stream).until_lsn ==> (self.spec_find_log(
                    old(stream).log_id,
                ) matches Some(i) ==> forall|s: int|
                    #[trigger] lsn_has_record(self.logs@[i].1, s, lsn) ==> (
                    r matches ReadOutcome::Item(rec) && rec.offset == lsn && (
                    rec.record matches StreamRecord::Data(d) && Some(d@) == lsn_record(
                        self.logs@[i].1,
                        s,
                        lsn,
                    ))))
            }),
            // A pointer inside the trimmed prefix is owed the trim gap,
            // ending at the trim point's LSN.
            ({
                let lsn = old(stream).read_pointer + 1;
                old(stream).read_pointer < old(stream).until_lsn ==> (self.spec_find_log(
                    old(stream).log_id,
                ) matches Some(i) ==> forall|s: int|
                    #[trigger] lsn_in_trimmed_prefix(self.logs@[i].1, s, lsn) ==> (
                    r matches ReadOutcome::Item(rec) && rec.offset == lsn && rec.record
                        == StreamRecord::TrimGap(
                        TrimGap {
                            until: (self.logs@[i].1.chain.segments@[s].base_lsn + self.logs@[
                                i].1.loglets@[s].spec_trim_point() - OFFSET_OLDEST) as Lsn,
                        },
                    )))
            }),
    {
        if stream.read_pointer >= stream.until_lsn {
            stream.terminated = true;
            return ReadOutcome::Terminated;
        }
        let idx = match self.find_log(stream.log_id) {
            Some(i) => i,
            None => {
                stream.terminated = true;
                return ReadOutcome::Terminated;
            },
        };
        let log = &self.logs[idx].1;
        let lsn = stream.read_pointer + 1;
        let mut seg = log.chain.find_segment_for_lsn(lsn);
        let ghost seg0 = seg as int;
        let ghost ready: Option<crate::record::RecordView> = if log.chain.segments@[
            seg0].base_lsn <= lsn && lsn - log.chain.segments@[seg0].base_lsn < (OFFSET_MAX
            - OFFSET_OLDEST) as u64 {
            lsn_record(*log, seg0, lsn as int)
        } else {
            None
        };
        let ghost gap_to: Option<LogletOffset> = if lsn_in_trimmed_prefix(
            *log,
            seg0,
            lsn as int,
        ) {
            Some(log.loglets@[seg0].spec_trim_point())
        } else {
            None
        };
        let mut result = ReadOutcome::Pending;
        let mut finished = false;
        while !finished && seg < log.loglets.len()
            invariant
                self.wf(),
                0 <= (idx as int) < self.logs@.len(),
                self.logs@[idx as int].0 == old(stream).log_id,
                log == self.logs@[idx as int].1,
                log.wf(),
                seg <= log.loglets@.len(),
                lsn == old(stream).read_pointer + 1,
                lsn <= old(stream).until_lsn,
                *stream == *old(stream),
                !finished ==> result == ReadOutcome::Pending,
                finished ==> read_item_ok(*old(stream), result),
                0 <= seg0 < log.loglets@.len(),
                lsn >= log.chain.segments@[0].base_lsn ==> log.chain.segments@[
                    seg0].base_lsn <= lsn,
                seg0 + 1 < log.loglets@.len() ==> lsn < log.chain.segments@[seg0
                    + 1].base_lsn,
                ready == (if log.chain.segments@[seg0].base_lsn <= lsn && lsn
                    - log.chain.segments@[seg0].base_lsn < (OFFSET_MAX - OFFSET_OLDEST) as u64 {
                    lsn_record(*log, seg0, lsn as int)
                } else {
                    Option::<crate::record::RecordView>::None
                }),
                ready is Some && !finished ==> seg == seg0,
                (match ready {
                    Some(d) => finished ==> (result matches ReadOutcome::Item(rec)
                        && rec.offset == lsn && (rec.record matches StreamRecord::Data(dd)
                        && dd@ == d)),
                    None => true,
                }),
                gap_to == (if lsn_in_trimmed_prefix(*log, seg0, lsn as int) {
                    Some(log.loglets@[seg0].spec_trim_point())
                } else {
                    Option::<LogletOffset>::None
                }),
                gap_to is Some && !finished ==> seg == seg0,
                (match gap_to {
                    Some(t) => finished ==> (result matches ReadOutcome::Item(rec)
                        && rec.offset == lsn && rec.record == StreamRecord::TrimGap(
                        TrimGap {
                            until: (log.chain.segments@[seg0].base_lsn + t
                                - OFFSET_OLDEST) as Lsn,
                        },
                    )),
                    None => true,
                }),
            ensures
                ready is Some ==> finished,
                gap_to is Some ==> finished,
            decreases (if finished {
                0int
            } else {
                1int
            }), log.loglets@.len() - seg,
        {
            let base = log.chain.segments[seg].base_lsn;
            let loglet = &log.loglets[seg];
            let from_off: LogletOffset = if lsn >= base && lsn - base < (OFFSET_MAX
                - OFFSET_OLDEST) as u64 {
                (lsn - base) as u32 + OFFSET_OLDEST
            } else if lsn < base {
                OFFSET_OLDEST
            } else {
                // The segment's offset space is exhausted; nothing more
                // can be served from this log.
                proof {
                    if ready is Some {
                        assert(seg == seg0);
                        assert(false);
                    }
                    if gap_to is Some {
                        assert(seg == seg0);
                        assert(false);
                    }
                }
                finished = true;
                result = ReadOutcome::Pending;
                break ;
            };
            let msg = GetRecords {
                from_offset: from_off,
                to_offset: OFFSET_MAX - 1,
                filter: KeyFilter::Any,
                total_limit_in_bytes: Some(1),
            };
            let mut resp = loglet.read_records(&msg);
            proof {
                if ready is Some {
                    let d = choose|d: crate::record::RecordView| ready == Some(d);
                    assert(seg == seg0);
                    assert(base == log.chain.segments@[seg0].base_lsn);
                    assert(log.loglets@[seg0].record_at(from_off) == Some(d));
                    assert(loglet.store.record_at(from_off) == Some(d));
                    crate::log_server::lemma_read_finds_record(loglet.store, from_off, d, 1);
                    assert(crate::log_server::read_start(loglet.store, msg) == from_off as int);
                    assert(crate::log_server::read_budget(msg) == 1);
                    assert(crate::log_server::item_views(resp.records@)[0] == (
                        from_off,
                        crate::log_server::MaybeRecordView::Data(d),
                    ));
                    assert(resp.records@.len() >= 1);
                    assert(resp.records@[0].0 == from_off);
                    assert(resp.records@[0].1@ == crate::log_server::MaybeRecordView::Data(d));
                }
                if gap_to is Some {
                    assert(seg == seg0);
                    assert(base == log.chain.segments@[seg0].base_lsn);
                    let trim = log.loglets@[seg0].spec_trim_point();
                    assert(from_off <= trim);
                    assert(loglet.store.trim_point == trim);
                    assert(crate::log_server::read_start(loglet.store, msg) == trim + 1);
                    assert(crate::log_server::read_start(loglet.store, msg)
                        > msg.from_offset as int);
                    assert(crate::log_server::item_views(resp.records@)[0] == (
                        from_off,
                        crate::log_server::MaybeRecordView::TrimGap(
                            crate::log_server::Gap { to: trim },
                        ),
                    ));
                    assert(resp.records@.len() >= 1);
                    assert(resp.records@[0].0 == from_off);
                    assert(resp.records@[0].1@ == crate::log_server::MaybeRecordView::TrimGap(
                        crate::log_server::Gap { to: trim },
                    ));
                }
            }
            if resp.records.len() > 0 {
                let (o, mr) = resp.records.remove(0);
                let item_lsn: Lsn = base + (o as u64) - (OFFSET_OLDEST as u64);
                match mr {
                    MaybeRecord::TrimGap(gap) => {
                        proof {
                            if ready is Some {
                                assert(false);
                            }
                            if gap_to is Some {
                                let trim = log.loglets@[seg0].spec_trim_point();
                                assert(o == from_off);
                                assert(gap.to == trim);
                            }
                        }
                        let until: Lsn = base + (gap.to as u64) - (OFFSET_OLDEST as u64);
                        if until >= lsn {
                            let rec = LogRecord {
                                offset: lsn,
                                record: StreamRecord::TrimGap(TrimGap { until }),
                            };
                            result = ReadOutcome::Item(rec);
                            finished = true;
                        } else {
                            proof {
                                if gap_to is Some {
                                    assert(false);
                                }
                            }
                            finished = true;
                            result = ReadOutcome::Pending;
                        }
                    },
                    MaybeRecord::Data(data) => {
                        proof {
                            if gap_to is Some {
                                assert(false);
                            }
                            if ready is Some {
                                let d = choose|d: crate::record::RecordView| ready == Some(d);
                                assert(o == from_off);
                                assert(data@ == d);
                                assert((o as u64) == lsn - base + 1);
                                assert(item_lsn == lsn);
                            }
                        }
                        if item_lsn >= lsn && item_lsn <= stream.until_lsn {
                            let rec = LogRecord {
                                offset: item_lsn,
                                record: StreamRecord::Data(data),
                            };
                            result = ReadOutcome::Item(rec);
                            finished = true;
                        } else {
                            // Past the requested range.
                            proof {
                                if ready is Some {
                                    assert(false);
                                }
                            }
                            finished = true;
                            result = ReadOutcome::Pending;
                        }
                    },
                    MaybeRecord::FilteredGap(_) => {
                        // Unreachable under the unrestricted filter; park
                        // rather than mislabel anything.
                        proof {
                            if ready is Some {
                                assert(false);
                            }
                            if gap_to is Some {
                                assert(false);
                            }
                        }
                        finished = true;
                        result = ReadOutcome::Pending;
                    },
                }
            } else {
                proof {
                    if ready is Some {
                        assert(false);
                    }
                    if gap_to is Some {
                        assert(false);
                    }
                }
                let sealed = resp.header.sealed;
                if sealed {
                    if seg + 1 < log.loglets.len() {
                        seg += 1;
                    } else {
                        // Sealed and exhausted: the log ends here.
                        proof {
                            assert forall|s: int| #[trigger] lsn_has_record(*log, s, lsn as int)
                                implies false by {
                                assert(log.chain.segments@[0].base_lsn <= log.chain.segments@[
                                    s].base_lsn);
                                lemma_record_segment_unique(*log, lsn as int, s, seg0);
                            }
                            assert forall|s: int|
                                #[trigger] lsn_in_trimmed_prefix(*log, s, lsn as int)
                                implies false by {
                                assert(log.chain.segments@[0].base_lsn <= log.chain.segments@[
                                    s].base_lsn);
                                lemma_record_segment_unique(*log, lsn as int, s, seg0);
                            }
                            assert(self.logs@[idx as int].0 == old(stream).log_id);
                            assert(exists|w: int|
                                0 <= w < self.logs@.len() && self.logs@[w].0 == old(
                                    stream,
                                ).log_id);
                            let gi = choose|w: int|
                                0 <= w < self.logs@.len() && self.logs@[w].0
                                    == old(stream).log_id;
                            lemma_find_log_unique(*self, old(stream).log_id, idx as int, gi);
                            assert(seg == log.loglets@.len() - 1);
                            assert(log.loglets@.last().spec_sealed());
                        }
                        stream.terminated = true;
                        return ReadOutcome::Terminated;
                    }
                } else {
                    // Open tail with nothing more: the reader parks.
                    finished = true;
                    result = ReadOutcome::Pending;
                }
            }
        }
        proof {
            assert forall|s: int| #[trigger] lsn_has_record(*log, s, lsn as int) implies ready
                is Some && s == seg0 && ready == lsn_record(*log, s, lsn as int) by {
                assert(log.chain.segments@[0].base_lsn <= log.chain.segments@[s].base_lsn);
                lemma_record_segment_unique(*log, lsn as int, s, seg0);
            }
            assert forall|s: int| #[trigger] lsn_in_trimmed_prefix(*log, s, lsn as int)
                implies gap_to == Some(log.loglets@[seg0].spec_trim_point()) && s == seg0 by {
                assert(log.chain.segments@[0].base_lsn <= log.chain.segments@[s].base_lsn);
                lemma_record_segment_unique(*log, lsn as int, s, seg0);
            }
        }
        match result {
            ReadOutcome::Item(rec) => {
                let new_pointer = LogReadStream::calculate_read_pointer(&rec);
                stream.read_pointer = if new_pointer > stream.read_pointer {
                    new_pointer
                } else {
                    stream.read_pointer
                };
                ReadOutcome::Item(rec)
            },
            _ => ReadOutcome::Pending,
        }
    }
}

/// The loglet offset a facade trim lands on, clipped to the offset
/// space: LSNs below the segment's base trim nothing of it, LSNs past
/// its offset space trim all of it.
pub open spec fn lsn_trim_offset(base_lsn: Lsn, trim_point: Lsn) -> LogletOffset {
    if trim_point < base_lsn {
        0
    } else if trim_point - base_lsn >= (OFFSET_MAX - OFFSET_OLDEST) as u64 {
        OFFSET_MAX
    } else {
        ((trim_point - base_lsn) as u32 + OFFSET_OLDEST) as LogletOffset
    }
}

/// Whether the log holds a record exactly at `lsn`: the segment whose
/// half-open range contains the LSN has a record at the corresponding
/// offset.
pub open spec fn lsn_has_record(log: BifrostLog, s: int, lsn: int) -> bool {
    let base = log.chain.segments@[s].base_lsn;
    &&& 0 <= s < log.loglets@.len()
    &&& base <= lsn
    &&& (s + 1 < log.loglets@.len() ==> lsn < log.chain.segments@[s + 1].base_lsn)
    &&& lsn - base < (OFFSET_MAX - OFFSET_OLDEST) as u64
    &&& log.loglets@[s].record_at(
        ((lsn - base) as u32 + OFFSET_OLDEST) as LogletOffset,
    ) is Some
}

/// Whether `lsn` lies inside the trimmed prefix of the segment whose
/// range contains it.
pub open spec fn lsn_in_trimmed_prefix(log: BifrostLog, s: int, lsn: int) -> bool {
    let base = log.chain.segments@[s].base_lsn;
    &&& 0 <= s < log.loglets@.len()
    &&& base <= lsn
    &&& (s + 1 < log.loglets@.len() ==> lsn < log.chain.segments@[s + 1].base_lsn)
    &&& lsn - base < (OFFSET_MAX - OFFSET_OLDEST) as u64
    &&& (lsn - base) as u32 + OFFSET_OLDEST <= log.loglets@[s].spec_trim_point()
}

/// The record the log holds at `lsn`, seen through segment `s`.
pub open spec fn lsn_record(log: BifrostLog, s: int, lsn: int) -> Option<
    crate::record::RecordView,
> {
    let base = log.chain.segments@[s].base_lsn;
    log.loglets@[s].record_at(((lsn - base) as u32 + OFFSET_OLDEST) as LogletOffset)
}

/// At most one segment's range contains a given LSN: chain bases are
/// strictly increasing.
proof fn lemma_record_segment_unique(log: BifrostLog, lsn: int, s1: int, s2: int)
    requires
        log.wf(),
        0 <= s1 < log.loglets@.len(),
        log.chain.segments@[s1].base_lsn <= lsn,
        s1 + 1 < log.loglets@.len() ==> lsn < log.chain.segments@[s1 + 1].base_lsn,
        0 <= s2 < log.loglets@.len(),
        log.chain.segments@[s2].base_lsn <= lsn,
        s2 + 1 < log.loglets@.len() ==> lsn < log.chain.segments@[s2 + 1].base_lsn,
    ensures
        s1 == s2,
{
    if s1 < s2 {
        if s1 + 1 < s2 {
            assert(log.chain.segments@[s1 + 1].base_lsn < log.chain.segments@[s2].base_lsn);
        }
        assert(false);
    } else if s2 < s1 {
        if s2 + 1 < s1 {
            assert(log.chain.segments@[s2 + 1].base_lsn < log.chain.segments@[s1].base_lsn);
        }
        assert(false);
    }
}

/// A delivered item is sound for a stream positioned at `pre`: it lies
/// strictly above the pointer, within the requested range, and a trim
/// gap's end does not precede its start.
pub open spec fn read_item_ok(pre: LogReadStream, r: ReadOutcome) -> bool {
    match r {
        ReadOutcome::Item(rec) => {
            &&& rec.offset > pre.read_pointer
            &&& rec.offset <= pre.until_lsn
            &&& (rec.record matches crate::read_stream::Record::TrimGap(gap) ==> gap.until
                >= rec.offset)
        },
        ReadOutcome::Pending => true,
        ReadOutcome::Terminated => true,
    }
}

/// How one poll moves the stream.
pub open spec fn stream_advance(pre: LogReadStream, post: LogReadStream, r: ReadOutcome) -> bool {
    match r {
        ReadOutcome::Terminated => post == (LogReadStream { terminated: true, ..pre }),
        ReadOutcome::Pending => post == pre,
        ReadOutcome::Item(rec) => {
            &&& read_item_ok(pre, ReadOutcome::Item(rec))
            &&& post.read_pointer >= rec.offset
            &&& post.read_pointer == crate::read_stream::spec_read_pointer_after(rec)
                || post.read_pointer == pre.read_pointer
            &&& post.read_pointer >= pre.read_pointer
            &&& post.until_lsn == pre.until_lsn
            &&& post.log_id == pre.log_id
            &&& post.terminated == pre.terminated
        },
    }
}

proof fn lemma_find_log_unique(b: Bifrost, log_id: LogId, i: int, j: int)
    requires
        b.wf(),
        0 <= i < b.logs@.len(),
        0 <= j < b.logs@.len(),
        b.logs@[i].0 == log_id,
        b.logs@[j].0 == log_id,
    ensures
        i == j,
{
    if i < j {
        assert(b.logs@[i].0 != b.logs@[j].0);
    } else if j < i {
        assert(b.logs@[j].0 != b.logs@[i].0);
    }
}

proof fn lemma_find_log_stable(pre: Bifrost, post: Bifrost, log_id: LogId, idx: int)
    requires
        pre.wf(),
        0 <= idx < pre.logs@.len(),
        pre.logs@[idx].0 == log_id,
        post.logs@.len() == pre.logs@.len(),
        forall|i: int| 0 <= i < post.logs@.len() ==> post.logs@[i].0 == pre.logs@[i].0,
    ensures
        pre.spec_find_log(log_id) == Some(idx),
        post.spec_find_log(log_id) == Some(idx),
{
    assert(exists|w: int| 0 <= w < pre.logs@.len() && pre.logs@[w].0 == log_id);
    let w = choose|w: int| 0 <= w < pre.logs@.len() && pre.logs@[w].0 == log_id;
    lemma_find_log_unique(pre, log_id, w, idx);
    assert(post.logs@[idx].0 == log_id);
    assert(exists|w2: int| 0 <= w2 < post.logs@.len() && post.logs@[w2].0 == log_id);
    let w2 = choose|w2: int| 0 <= w2 < post.logs@.len() && post.logs@[w2].0 == log_id;
    if w2 != idx {
        assert(pre.logs@[w2].0 == log_id);
        lemma_find_log_unique(pre, log_id, w2, idx);
    }
}

} // verus!
