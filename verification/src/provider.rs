//! The replicated loglet provider: one shared registry of active
//! loglets, keyed by log and segment, and the per-loglet choice between
//! a local and a remote sequencer.

use vstd::prelude::*;

use crate::chain::{LogId, LogletParams, SegmentIndex};
use crate::loglet::{AppendError, TailState};
use crate::nodes::GenerationalNodeId;
use crate::offsets::{LogletOffset, OFFSET_MAX, OFFSET_OLDEST};
use crate::params::{ParamsError, ReplicatedLogletParams};
use crate::sequencer::SequencerState;

verus! {

/// Where this node's appends to a replicated loglet go: through a
/// sequencer running in this process, or to a remote sequencer node
/// reached over RPC.
pub enum SequencerAccess {
    /// The sequencer is remote (or retired); calls go through the
    /// networking layer.
    Remote,
    /// This node is the loglet's sequencer.
    Local { handle: SequencerState },
}

/// One active replicated loglet on this node.
pub struct ReplicatedLoglet {
    pub log_id: LogId,
    pub segment_index: SegmentIndex,
    pub my_params: ReplicatedLogletParams,
    /// The last known global tail; for a local sequencer its own view is
    /// authoritative, otherwise this is the latest observation.
    pub known_global_tail: TailState,
    pub sequencer: SequencerAccess,
}

impl ReplicatedLoglet {
    pub open spec fn wf(&self) -> bool {
        &&& self.my_params.wf()
        &&& (self.sequencer matches SequencerAccess::Local { handle } ==> handle.wf())
    }

    /// Starts the loglet: the node that the parameters name as the
    /// sequencer runs one locally; every other node reaches it remotely.
    pub fn start(
        log_id: LogId,
        segment_index: SegmentIndex,
        my_params: ReplicatedLogletParams,
        my_node_id: GenerationalNodeId,
    ) -> (r: Self)
        requires
            my_params.wf(),
        ensures
            r.wf(),
            r.log_id == log_id,
            r.segment_index == segment_index,
            r.my_params == my_params,
            r.known_global_tail == TailState::Open(OFFSET_OLDEST),
            my_node_id == my_params.sequencer <==> (r.sequencer matches SequencerAccess::Local {
                handle,
            }),
            (r.sequencer matches SequencerAccess::Local { handle } ==> {
                &&& handle.node_set@ == my_params.node_set@
                &&& handle.replication_factor == my_params.replication_factor
                &&& handle.spec_next_offset() == OFFSET_OLDEST
                &&& handle.known_global_tail == OFFSET_OLDEST
                &&& !handle.sealed
            }),
    {
        let is_sequencer = my_node_id.id == my_params.sequencer.id && my_node_id.generation
            == my_params.sequencer.generation;
        let sequencer = if is_sequencer {
            let node_set = clone_node_set(&my_params.node_set);
            SequencerAccess::Local {
                handle: SequencerState::new(node_set, my_params.replication_factor),
            }
        } else {
            SequencerAccess::Remote
        };
        ReplicatedLoglet {
            log_id,
            segment_index,
            my_params,
            known_global_tail: TailState::Open(OFFSET_OLDEST),
            sequencer,
        }
    }

    /// Appends a batch through the local sequencer: the batch occupies
    /// the contiguous offsets starting at the returned one, and the
    /// known global tail is untouched until the copies commit. A sealed
    /// sequencer refuses with `Sealed`; a batch the offset space cannot
    /// hold fails with `Shutdown`; a node without a local sequencer
    /// cannot serve the call itself.
    pub fn enqueue_batch(&mut self, count: usize) -> (r: Result<LogletOffset, AppendError>)
        requires
            old(self).wf(),
            count > 0,
        ensures
            final(self).wf(),
            final(self).log_id == old(self).log_id,
            final(self).segment_index == old(self).segment_index,
            final(self).my_params == old(self).my_params,
            final(self).known_global_tail == old(self).known_global_tail,
            old(self).sequencer is Remote ==> r == Err::<LogletOffset, AppendError>(
                AppendError::Shutdown,
            ) && *final(self) == *old(self),
            old(self).sequencer matches SequencerAccess::Local { handle } ==> (final(self).sequencer matches SequencerAccess::Local { handle: h2 } && (if handle.sealed {
                r == Err::<LogletOffset, AppendError>(AppendError::Sealed) && h2 == handle
            } else if handle.spec_next_offset() + count <= OFFSET_MAX {
                &&& r == Ok::<LogletOffset, AppendError>(
                    handle.spec_next_offset() as LogletOffset,
                )
                &&& h2.spec_next_offset() == handle.spec_next_offset() + count
                &&& h2.known_global_tail == handle.known_global_tail
                &&& h2.sealed == handle.sealed
                &&& h2.node_set == handle.node_set
                &&& h2.replication_factor == handle.replication_factor
            } else {
                r == Err::<LogletOffset, AppendError>(AppendError::Shutdown) && h2 == handle
            })),
    {
        match &mut self.sequencer {
            SequencerAccess::Local { handle } => {
                if handle.sealed {
                    Err(AppendError::Sealed)
                } else if count <= (OFFSET_MAX as usize) - 1 && handle.entries.len() <= (
                OFFSET_MAX as usize) - 1 - count {
                    handle.enqueue_batch(count)
                } else {
                    Err(AppendError::Shutdown)
                }
            },
            SequencerAccess::Remote => Err(AppendError::Shutdown),
        }
    }

    /// The tail this node knows: a local sequencer's own global tail, or
    /// the last observation from the wire.
    pub fn find_tail(&self) -> (r: TailState)
        requires
            self.wf(),
        ensures
            self.sequencer matches SequencerAccess::Local { handle } ==> r == (if handle.sealed {
                TailState::Sealed(handle.known_global_tail)
            } else {
                TailState::Open(handle.known_global_tail)
            }),
            self.sequencer is Remote ==> r == self.known_global_tail,
    {
        match &self.sequencer {
            SequencerAccess::Local { handle } => {
                if handle.sealed {
                    TailState::Sealed(handle.known_global_tail)
                } else {
                    TailState::Open(handle.known_global_tail)
                }
            },
            SequencerAccess::Remote => self.known_global_tail,
        }
    }
}

/// The successful append step at this level: the batch took the
/// contiguous offsets starting at the old next offset, and the tail
/// tracking is untouched until the copies commit.
pub open spec fn replicated_append_transition(
    pre: ReplicatedLoglet,
    count: int,
    post: ReplicatedLoglet,
    first: LogletOffset,
) -> bool {
    &&& pre.sequencer matches SequencerAccess::Local { handle: h1 } && (
    post.sequencer matches SequencerAccess::Local { handle: h2 } && {
        &&& first == h1.spec_next_offset()
        &&& h2.spec_next_offset() == h1.spec_next_offset() + count
        &&& h2.known_global_tail == h1.known_global_tail
        &&& h2.sealed == h1.sealed
    })
    &&& post.known_global_tail == pre.known_global_tail
}

/// Offsets of successful appends through a local sequencer are strictly
/// increasing and gap-free: the second batch begins exactly where the
/// first ended.
pub proof fn lemma_replicated_appends_contiguous(
    l0: ReplicatedLoglet,
    c1: int,
    l1: ReplicatedLoglet,
    o1: LogletOffset,
    c2: int,
    l2: ReplicatedLoglet,
    o2: LogletOffset,
)
    requires
        c1 >= 0,
        replicated_append_transition(l0, c1, l1, o1),
        replicated_append_transition(l1, c2, l2, o2),
    ensures
        o2 == o1 + c1,
        o2 > o1 || c1 == 0,
{
}

/// The tail this node reports never moves across an append step: commits
/// alone advance it, and a sealed tail stays sealed where it was.
pub proof fn lemma_replicated_tail_stable_under_append(
    pre: ReplicatedLoglet,
    count: int,
    post: ReplicatedLoglet,
    first: LogletOffset,
)
    requires
        replicated_append_transition(pre, count, post, first),
    ensures
        ({
            let t1 = match pre.sequencer {
                SequencerAccess::Local { handle } => if handle.sealed {
                    TailState::Sealed(handle.known_global_tail)
                } else {
                    TailState::Open(handle.known_global_tail)
                },
                SequencerAccess::Remote => pre.known_global_tail,
            };
            let t2 = match post.sequencer {
                SequencerAccess::Local { handle } => if handle.sealed {
                    TailState::Sealed(handle.known_global_tail)
                } else {
                    TailState::Open(handle.known_global_tail)
                },
                SequencerAccess::Remote => post.known_global_tail,
            };
            t2 == t1
        }),
{
}

fn clone_node_set(nodes: &Vec<u32>) -> (r: Vec<u32>)
    ensures
        r@ == nodes@,
{
    let r = nodes.clone();
    proof {
        assert(r@ =~= nodes@);
    }
    r
}

/// The shared registry of active replicated loglets, keyed by log and
/// segment.
pub struct ReplicatedLogletProvider {
    pub active_loglets: Vec<((LogId, SegmentIndex), ReplicatedLoglet)>,
    pub my_node_id: GenerationalNodeId,
}

impl ReplicatedLogletProvider {
    pub open spec fn wf(&self) -> bool {
        &&& forall|i: int, j: int|
            0 <= i < j < self.active_loglets@.len() ==> self.active_loglets@[i].0
                != self.active_loglets@[j].0
        &&& forall|i: int|
            0 <= i < self.active_loglets@.len() ==> (#[trigger] self.active_loglets@[i].1).wf()
        &&& forall|i: int|
            0 <= i < self.active_loglets@.len() ==> (#[trigger] self.active_loglets@[i]).1.log_id
                == self.active_loglets@[i].0.0 && self.active_loglets@[i].1.segment_index
                == self.active_loglets@[i].0.1
    }

    /// The position of the loglet serving the key, if one is active.
    pub open spec fn spec_find_entry(&self, log_id: LogId, segment_index: SegmentIndex)
        -> Option<int> {
        if exists|j: int|
            0 <= j < self.active_loglets@.len() && self.active_loglets@[j].0 == (
            log_id,
            segment_index,
            ) {
            Some(
                choose|j: int|
                    0 <= j < self.active_loglets@.len() && self.active_loglets@[j].0 == (
                    log_id,
                    segment_index,
                    ),
            )
        } else {
            None
        }
    }

    pub fn new(my_node_id: GenerationalNodeId) -> (r: Self)
        ensures
            r.wf(),
            r.active_loglets@.len() == 0,
    {
        ReplicatedLogletProvider { active_loglets: Vec::new(), my_node_id }
    }

    /// The loglet serving `(log_id, segment_index)`: the one already
    /// running, or a fresh one configured from the segment's parameters.
    /// A hit returns the cached instance's position and changes nothing,
    /// so repeated lookups share one loglet; on a miss, a successful
    /// parse appends the fresh loglet and returns it, while parameters
    /// that do not parse, or that name an unsatisfiable replication
    /// policy, fail the lookup and leave the registry alone.
    pub fn get_loglet(
        &mut self,
        log_id: LogId,
        segment_index: SegmentIndex,
        params: &LogletParams,
    ) -> (r: Result<usize, ParamsError>)
        requires
            old(self).wf(),
        ensures
            final(self).wf(),
            final(self).my_node_id == old(self).my_node_id,
            r matches Ok(i) ==> i < final(self).active_loglets@.len() && final(self).active_loglets@[i as int].0 == (log_id, segment_index) && final(self).active_loglets@[i as int].1.log_id == log_id && final(self).active_loglets@[
                i as int].1.segment_index == segment_index,
            r is Err ==> *final(self) == *old(self),
            // A hit is served from the cache: same instance, nothing changed.
            old(self).spec_find_entry(log_id, segment_index) matches Some(j) ==> r
                == Ok::<usize, ParamsError>(j as usize) && *final(self) == *old(self),
            // A miss either fails and changes nothing, or appends exactly
            // one fresh loglet for this key and returns it.
            old(self).spec_find_entry(log_id, segment_index) is None && r is Ok ==> r
                == Ok::<usize, ParamsError>(old(self).active_loglets@.len() as usize) && final(self).active_loglets@.len() == old(self).active_loglets@.len() + 1 && (forall|a: int|
                0 <= a < old(self).active_loglets@.len() ==> final(self).active_loglets@[a]
                    == old(self).active_loglets@[a]),
    {
        let mut i: usize = 0;
        while i < self.active_loglets.len()
            invariant
                self.wf(),
                *self == *old(self),
                i <= self.active_loglets@.len(),
                forall|j: int|
                    0 <= j < i ==> (#[trigger] self.active_loglets@[j]).0 != (
                    log_id,
                    segment_index,
                    ),
            decreases self.active_loglets@.len() - i,
        {
            let key = self.active_loglets[i].0;
            if key.0 == log_id && key.1 == segment_index {
                proof {
                    assert(self.active_loglets@[i as int].0 == (log_id, segment_index));
                    assert(exists|j: int|
                        0 <= j < self.active_loglets@.len() && self.active_loglets@[j].0 == (
                        log_id,
                        segment_index,
                        ));
                    let w = choose|j: int|
                        0 <= j < self.active_loglets@.len() && self.active_loglets@[j].0 == (
                        log_id,
                        segment_index,
                        );
                    if w < i {
                        assert(self.active_loglets@[w].0 != self.active_loglets@[i as int].0);
                    } else if (i as int) < w {
                        assert(self.active_loglets@[i as int].0 != self.active_loglets@[w].0);
                    }
                }
                return Ok(i);
            }
            i += 1;
        }
        proof {
            if self.spec_find_entry(log_id, segment_index) is Some {
                let w = choose|j: int|
                    0 <= j < self.active_loglets@.len() && self.active_loglets@[j].0 == (
                    log_id,
                    segment_index,
                    );
                assert(false);
            }
        }
        let parsed = match ReplicatedLogletParams::deserialize_from(params.raw.as_str()) {
            Ok(p) => p,
            Err(e) => {
                return Err(e);
            },
        };
        let loglet = ReplicatedLoglet::start(log_id, segment_index, parsed, self.my_node_id);
        let ghost pre = self.active_loglets@;
        self.active_loglets.push(((log_id, segment_index), loglet));
        proof {
            assert forall|a: int, b: int|
                0 <= a < b < self.active_loglets@.len() implies self.active_loglets@[a].0
                != self.active_loglets@[b].0 by {
                if b == self.active_loglets@.len() - 1 {
                    assert(self.active_loglets@[a] == pre[a]);
                }
            }
            assert forall|a: int|
                0 <= a < self.active_loglets@.len() implies (
            #[trigger] self.active_loglets@[a].1).wf() by {
                if a < pre.len() {
                    assert(self.active_loglets@[a] == pre[a]);
                }
            }
            assert forall|a: int|
                0 <= a < self.active_loglets@.len() implies (
            #[trigger] self.active_loglets@[a]).1.log_id == self.active_loglets@[a].0.0
                && self.active_loglets@[a].1.segment_index == self.active_loglets@[a].0.1 by {
                if a < pre.len() {
                    assert(self.active_loglets@[a] == pre[a]);
                }
            }
        }
        Ok(self.active_loglets.len() - 1)
    }
}

} // verus!
