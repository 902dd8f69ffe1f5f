//! The replicated loglet's sequencer: it assigns offsets, tracks which
//! log servers acknowledged each copy, and advances the known global tail
//! over the contiguous committed prefix.
//!
//! An offset is locally committed once a replication quorum of distinct
//! log servers has acknowledged a durable copy. The known global tail
//! only ever covers a gap-free prefix of committed offsets: commits that
//! arrive out of order wait for the offsets before them.

use vstd::prelude::*;
use vstd::pervasive::VecAdditionalExecFns;

use crate::loglet::AppendError;
use crate::nodes::PlainNodeId;
use crate::offsets::{LogletOffset, OFFSET_MAX, OFFSET_OLDEST};

verus! {

/// How the sequencer spreads copies over the node set.
#[derive(Debug, Clone, Copy, PartialEq, Eq, Structural)]
pub enum SelectorStrategy {
    /// Send to every node in the set concurrently and accept the first
    /// quorum of successes.
    Flood,
    /// Send to exactly a quorum and move to the next candidate on
    /// failure.
    Balanced,
}

/// Replication tracking for one in-flight offset.
pub struct AppendState {
    /// Distinct log servers that acknowledged a durable copy.
    pub acked: Vec<PlainNodeId>,
}

/// An offset is committed once a replication quorum acknowledged it.
pub open spec fn committed(e: AppendState, replication_factor: usize) -> bool {
    e.acked@.len() >= replication_factor
}

/// The sequencer's replication state for one loglet.
pub struct SequencerState {
    /// Static per-segment membership.
    pub node_set: Vec<PlainNodeId>,
    /// Copies required for a commit.
    pub replication_factor: usize,
    /// One slot per assigned offset; slot `i` tracks offset
    /// `OFFSET_OLDEST + i`.
    pub entries: Vec<AppendState>,
    /// Every offset below this is committed.
    pub known_global_tail: LogletOffset,
    pub sealed: bool,
}

impl SequencerState {
    /// Everything but maximality: a sane membership, distinct
    /// acknowledgements from inside the set, and a committed prefix
    /// below the known global tail.
    pub open spec fn wf_core(&self) -> bool {
        &&& 1 <= self.replication_factor <= self.node_set@.len()
        &&& self.node_set@.no_duplicates()
        &&& self.entries@.len() <= OFFSET_MAX - OFFSET_OLDEST
        &&& OFFSET_OLDEST <= self.known_global_tail
        &&& self.known_global_tail <= self.spec_next_offset()
        &&& forall|i: int|
            0 <= i < self.entries@.len() ==> (#[trigger] self.entries@[i].acked)@.len()
                <= self.node_set@.len()
        &&& forall|i: int|
            0 <= i < self.entries@.len() ==> (#[trigger] self.entries@[i].acked)@.no_duplicates()
        &&& forall|i: int, a: int|
            0 <= i < self.entries@.len() && 0 <= a < self.entries@[i].acked@.len()
                ==> self.node_set@.contains(#[trigger] self.entries@[i].acked@[a])
        &&& forall|o: int|
            OFFSET_OLDEST <= o < self.known_global_tail ==> committed(
                #[trigger] self.entries@[o - OFFSET_OLDEST],
                self.replication_factor,
            )
    }

    /// The full invariant: the known global tail is also maximal, resting
    /// exactly at the first uncommitted offset (or at the next free one).
    pub open spec fn wf(&self) -> bool {
        &&& self.wf_core()
        &&& (self.known_global_tail == self.spec_next_offset() || !committed(
            self.entries@[self.known_global_tail - OFFSET_OLDEST],
            self.replication_factor,
        ))
    }

    /// The next free offset.
    pub open spec fn spec_next_offset(&self) -> int {
        OFFSET_OLDEST + self.entries@.len()
    }

    /// A fresh sequencer for a segment with the given membership and
    /// replication factor.
    pub fn new(node_set: Vec<PlainNodeId>, replication_factor: usize) -> (r: Self)
        requires
            1 <= replication_factor <= node_set@.len(),
            node_set@.no_duplicates(),
        ensures
            r.wf(),
            r.node_set == node_set,
            r.replication_factor == replication_factor,
            r.spec_next_offset() == OFFSET_OLDEST,
            r.known_global_tail == OFFSET_OLDEST,
            !r.sealed,
    {
        SequencerState {
            node_set,
            replication_factor,
            entries: Vec::new(),
            known_global_tail: OFFSET_OLDEST,
            sealed: false,
        }
    }

    pub fn next_offset(&self) -> (r: LogletOffset)
        requires
            self.wf(),
        ensures
            r == self.spec_next_offset(),
    {
        OFFSET_OLDEST + self.entries.len() as u32
    }

    /// Atomically assigns `count` consecutive offsets to a batch and
    /// starts tracking them; returns the first. A sealed sequencer
    /// refuses any new appends.
    pub fn enqueue_batch(&mut self, count: usize) -> (r: Result<LogletOffset, AppendError>)
        requires
            old(self).wf(),
            count > 0,
            old(self).spec_next_offset() + count <= OFFSET_MAX,
        ensures
            final(self).wf(),
            old(self).sealed ==> r == Err::<LogletOffset, AppendError>(AppendError::Sealed)
                && *final(self) == *old(self),
            !old(self).sealed ==> {
                &&& r == Ok::<LogletOffset, AppendError>(
                    old(self).spec_next_offset() as LogletOffset,
                )
                &&& final(self).spec_next_offset() == old(self).spec_next_offset() + count
                &&& final(self).known_global_tail == old(self).known_global_tail
                &&& final(self).sealed == old(self).sealed
                &&& final(self).node_set == old(self).node_set
                &&& final(self).replication_factor == old(self).replication_factor
                &&& forall|i: int|
                    0 <= i < old(self).entries@.len() ==> final(self).entries@[i] == old(
                        self,
                    ).entries@[i]
                &&& forall|i: int|
                    old(self).entries@.len() <= i < final(self).entries@.len() ==> (
                    #[trigger] final(self).entries@[i].acked)@.len() == 0
            },
    {
        if self.sealed {
            return Err(AppendError::Sealed);
        }
        let first = OFFSET_OLDEST + self.entries.len() as u32;
        let mut added: usize = 0;
        while added < count
            invariant
                self.node_set == old(self).node_set,
                self.replication_factor == old(self).replication_factor,
                self.known_global_tail == old(self).known_global_tail,
                self.sealed == old(self).sealed,
                old(self).wf(),
                added <= count,
                old(self).spec_next_offset() + count <= OFFSET_MAX,
                self.entries@.len() == old(self).entries@.len() + added,
                forall|i: int|
                    0 <= i < old(self).entries@.len() ==> self.entries@[i] == old(
                        self,
                    ).entries@[i],
                forall|i: int|
                    old(self).entries@.len() <= i < self.entries@.len() ==> (
                    #[trigger] self.entries@[i].acked)@.len() == 0,
            decreases count - added,
        {
            self.entries.push(AppendState { acked: Vec::new() });
            added += 1;
        }
        proof {
            assert forall|o: int|
                OFFSET_OLDEST <= o < self.known_global_tail implies committed(
                #[trigger] self.entries@[o - OFFSET_OLDEST],
                self.replication_factor,
            ) by {
                assert(self.entries@[o - OFFSET_OLDEST] == old(self).entries@[o
                    - OFFSET_OLDEST]);
            }
            if self.known_global_tail < self.spec_next_offset() {
                let t = self.known_global_tail - OFFSET_OLDEST;
                if t < old(self).entries@.len() {
                    assert(self.entries@[t] == old(self).entries@[t]);
                } else {
                    assert(self.entries@[t].acked@.len() == 0);
                }
            }
        }
        Ok(first)
    }

    /// Records a log server's acknowledgement of a durable copy at
    /// `offset`, then advances the known global tail over the contiguous
    /// committed prefix, landing exactly at the first uncommitted offset
    /// (or at the next free offset once everything committed). Acks from
    /// nodes outside the set, for offsets not in flight, or repeated
    /// acks change only what they may: nothing, or one more
    /// acknowledgement.
    pub fn on_store_ack(&mut self, node: PlainNodeId, offset: LogletOffset)
        requires
            old(self).wf(),
        ensures
            final(self).wf(),
            final(self).sealed == old(self).sealed,
            final(self).node_set == old(self).node_set,
            final(self).replication_factor == old(self).replication_factor,
            final(self).spec_next_offset() == old(self).spec_next_offset(),
            final(self).known_global_tail >= old(self).known_global_tail,
            old(self).sealed ==> *final(self) == *old(self),
            ({
                let idx = offset - OFFSET_OLDEST;
                if !old(self).sealed && old(self).node_set@.contains(node) && OFFSET_OLDEST
                    <= offset && idx < old(self).entries@.len() && !old(self).entries@[
                    idx].acked@.contains(node) {
                    final(self).entries@[idx].acked@ == old(self).entries@[idx].acked@.push(
                        node,
                    ) && forall|j: int|
                        0 <= j < old(self).entries@.len() && j != idx ==> final(self).entries@[
                            j] == old(self).entries@[j]
                } else {
                    final(self).entries@ == old(self).entries@
                }
            }),
    {
        if self.sealed {
            // A sealed loglet's tail is frozen; late acknowledgements
            // change nothing.
            return ;
        }
        let in_set = contains_node(&self.node_set, node);
        let in_flight = offset >= OFFSET_OLDEST && offset - OFFSET_OLDEST
            < self.entries.len() as u32;
        if in_set && in_flight {
            let idx = (offset - OFFSET_OLDEST) as usize;
            let already = contains_node(&self.entries[idx].acked, node);
            if !already {
                let ghost pre = *self;
                let mut entry = self.entries.remove(idx);
                entry.acked.push(node);
                let ghost newe = entry;
                self.entries.insert(idx, entry);
                proof {
                    assert(self.entries@ =~= pre.entries@.update(idx as int, newe));
                    assert(newe.acked@ == pre.entries@[idx as int].acked@.push(node));
                    assert(newe.acked@.no_duplicates()) by {
                        assert(forall|j: int|
                            0 <= j < pre.entries@[idx as int].acked@.len()
                                ==> pre.entries@[idx as int].acked@[j] != node);
                    }
                    assert(newe.acked@.len() <= self.node_set@.len()) by {
                        lemma_distinct_subset_len(newe.acked@, self.node_set@);
                    }
                    assert forall|o: int|
                        OFFSET_OLDEST <= o < self.known_global_tail implies committed(
                        #[trigger] self.entries@[o - OFFSET_OLDEST],
                        self.replication_factor,
                    ) by {
                        if o - OFFSET_OLDEST != idx {
                            assert(self.entries@[o - OFFSET_OLDEST] == pre.entries@[o
                                - OFFSET_OLDEST]);
                        }
                    }
                }
            }
        }
        let ghost mid = self.entries@;
        // Advance the tail over the contiguous committed prefix.
        while self.known_global_tail - OFFSET_OLDEST < self.entries.len() as u32
            && self.entries[(self.known_global_tail - OFFSET_OLDEST) as usize].acked.len()
            >= self.replication_factor
            invariant
                self.wf_core(),
                self.sealed == old(self).sealed,
                self.node_set == old(self).node_set,
                self.replication_factor == old(self).replication_factor,
                self.spec_next_offset() == old(self).spec_next_offset(),
                self.known_global_tail >= old(self).known_global_tail,
                self.entries@ == mid,
            decreases self.spec_next_offset() - self.known_global_tail,
        {
            self.known_global_tail = self.known_global_tail + 1;
        }
        proof {
            assert(self.entries@ == mid);
        }
    }

    /// Whether the in-flight window has room under the back-pressure
    /// bound: the distance between the next free offset and the known
    /// global tail.
    pub fn within_pressure_limit(&self, bound: usize) -> (r: bool)
        requires
            self.wf(),
        ensures
            r == (self.spec_next_offset() - self.known_global_tail <= bound),
    {
        let next = OFFSET_OLDEST + self.entries.len() as u32;
        (next - self.known_global_tail) as usize <= bound
    }

    /// Marks the loglet sealed. Called when the seal protocol concludes,
    /// or when a copy ran out of retry budget (the append then fails with
    /// insufficient replication, and sealing prevents any reuse of its
    /// offsets). Idempotent; no new appends are accepted afterwards.
    pub fn seal(&mut self)
        requires
            old(self).wf(),
        ensures
            final(self).wf(),
            *final(self) == (SequencerState { sealed: true, ..*old(self) }),
    {
        self.sealed = true;
    }
}

fn contains_node(nodes: &Vec<PlainNodeId>, node: PlainNodeId) -> (r: bool)
    ensures
        r == nodes@.contains(node),
{
    let mut i: usize = 0;
    while i < nodes.len()
        invariant
            i <= nodes@.len(),
            forall|j: int| 0 <= j < i ==> nodes@[j] != node,
        decreases nodes@.len() - i,
    {
        if nodes[i] == node {
            return true;
        }
        i += 1;
    }
    false
}

/// A sequence without duplicates whose members all lie in another
/// duplicate-free sequence is no longer than it.
proof fn lemma_distinct_subset_len(a: Seq<PlainNodeId>, b: Seq<PlainNodeId>)
    requires
        a.no_duplicates(),
        b.no_duplicates(),
        forall|i: int| 0 <= i < a.len() ==> b.contains(#[trigger] a[i]),
    ensures
        a.len() <= b.len(),
{
    a.unique_seq_to_set();
    b.unique_seq_to_set();
    assert(a.to_set().subset_of(b.to_set())) by {
        assert forall|x: PlainNodeId| a.to_set().contains(x) implies b.to_set().contains(x) by {
            assert(a.contains(x));
        }
    }
    vstd::set_lib::lemma_len_subset(a.to_set(), b.to_set());
}

/// Every offset below the known global tail is committed: a replication
/// quorum of distinct log servers from the node set acknowledged a
/// durable copy of it.
pub proof fn lemma_commit_is_replicated(s: SequencerState, o: LogletOffset)
    requires
        s.wf(),
        OFFSET_OLDEST <= o < s.known_global_tail,
    ensures
        s.entries@[o - OFFSET_OLDEST].acked@.len() >= s.replication_factor,
        s.entries@[o - OFFSET_OLDEST].acked@.no_duplicates(),
        forall|a: int|
            0 <= a < s.entries@[o - OFFSET_OLDEST].acked@.len() ==> s.node_set@.contains(
                #[trigger] s.entries@[o - OFFSET_OLDEST].acked@[a],
            ),
{
}

/// The position in the node set that the `i`-th member of a rotated
/// window reads from: the window starts at the attempt's offset and
/// wraps around the end of the set.
pub open spec fn spec_rotated_position(len: int, attempt: usize, i: int) -> int {
    let start = (attempt as int) % len;
    if start + i < len {
        start + i
    } else {
        start + i - len
    }
}

/// The nodes the sequencer sends a copy to. `Flood` targets the whole
/// node set; `Balanced` targets a quorum-sized window that rotates with
/// the attempt number, so a failed attempt moves on to fresh candidates.
pub fn plan_spread(
    strategy: SelectorStrategy,
    node_set: &Vec<PlainNodeId>,
    replication_factor: usize,
    attempt: usize,
) -> (r: Vec<PlainNodeId>)
    requires
        1 <= replication_factor <= node_set@.len(),
    ensures
        forall|i: int| 0 <= i < r@.len() ==> node_set@.contains(#[trigger] r@[i]),
        strategy == SelectorStrategy::Flood ==> r@ == node_set@,
        strategy == SelectorStrategy::Balanced ==> r@.len() == replication_factor,
        strategy == SelectorStrategy::Balanced ==> forall|i: int|
            0 <= i < r@.len() ==> #[trigger] r@[i] == node_set@[spec_rotated_position(
                node_set@.len() as int,
                attempt,
                i,
            )],
{
    match strategy {
        SelectorStrategy::Flood => {
            let mut r: Vec<PlainNodeId> = Vec::new();
            let mut i: usize = 0;
            while i < node_set.len()
                invariant
                    i <= node_set@.len(),
                    r@ =~= node_set@.subrange(0, i as int),
                decreases node_set@.len() - i,
            {
                r.push(node_set[i]);
                proof {
                    assert(r@ =~= node_set@.subrange(0, i + 1));
                }
                i += 1;
            }
            proof {
                assert(r@ =~= node_set@);
                assert forall|i2: int| 0 <= i2 < r@.len() implies node_set@.contains(
                    #[trigger] r@[i2],
                ) by {
                    assert(r@[i2] == node_set@[i2]);
                }
            }
            r
        },
        SelectorStrategy::Balanced => {
            let mut r: Vec<PlainNodeId> = Vec::new();
            let start = attempt % node_set.len();
            let mut taken: usize = 0;
            while taken < replication_factor
                invariant
                    start == (attempt as int) % (node_set@.len() as int),
                    start < node_set@.len(),
                    taken <= replication_factor,
                    replication_factor <= node_set@.len(),
                    r@.len() == taken,
                    forall|i: int| 0 <= i < r@.len() ==> node_set@.contains(#[trigger] r@[i]),
                    forall|i: int|
                        0 <= i < r@.len() ==> #[trigger] r@[i] == node_set@[
                            spec_rotated_position(node_set@.len() as int, attempt, i)],
                decreases replication_factor - taken,
            {
                let pos = if taken < node_set.len() - start {
                    start + taken
                } else {
                    taken - (node_set.len() - start)
                };
                let n = node_set[pos];
                proof {
                    assert(node_set@.contains(node_set@[pos as int]));
                }
                r.push(n);
                taken += 1;
            }
            r
        },
    }
}

} // verus!
