//! Per-log metadata of the local log store, and the merge semantics its
//! column family applies.
//!
//! Updates are merged without read-modify-write, so the merge must be a
//! fold that (i) takes the monotonically larger trim point, (ii) makes the
//! seal sticky, and (iii) keeps the first sequencer ever set.

use vstd::prelude::*;

use crate::codec::{
    be_bytes_of_u32, get_u32_be, lemma_u32_be_extensional, lemma_u32_be_round_trip, put_u32_be,
    u32_of_be_bytes,
};
use crate::nodes::GenerationalNodeId;
use crate::offsets::{LogletOffset, OFFSET_INVALID};

verus! {

/// Metadata of one log in the store: whether it is sealed, the highest
/// trimmed offset (`OFFSET_INVALID` when nothing was ever trimmed), and
/// the identity of the sequencer that owns it, once one has claimed it.
#[derive(Debug, Clone, Copy, PartialEq, Eq, Structural)]
pub struct LogState {
    pub sealed: bool,
    pub trim_point: LogletOffset,
    pub sequencer: Option<GenerationalNodeId>,
}

impl LogState {
    /// The state of a log nothing has touched.
    pub fn empty() -> (r: Self)
        ensures
            r == LogState::spec_empty(),
    {
        Self { sealed: false, trim_point: OFFSET_INVALID, sequencer: None }
    }

    pub open spec fn spec_empty() -> Self {
        LogState { sealed: false, trim_point: OFFSET_INVALID, sequencer: None }
    }
}

/// One merge operand of the metadata column family.
#[derive(Debug, Clone, Copy, PartialEq, Eq, Structural)]
pub enum LogStateUpdate {
    SetSequencer(GenerationalNodeId),
    Seal,
    Trim(LogletOffset),
}

/// The state after one update lands on `state`: the trim point only grows,
/// a seal never clears, and a sequencer is write-once.
pub open spec fn apply_update(state: LogState, update: LogStateUpdate) -> LogState {
    match update {
        LogStateUpdate::SetSequencer(node) => if state.sequencer is None {
            LogState { sequencer: Some(node), ..state }
        } else {
            state
        },
        LogStateUpdate::Seal => LogState { sealed: true, ..state },
        LogStateUpdate::Trim(offset) => if offset > state.trim_point {
            LogState { trim_point: offset, ..state }
        } else {
            state
        },
    }
}

/// The state after a whole run of updates lands on `state`, oldest first.
pub open spec fn apply_updates(state: LogState, updates: Seq<LogStateUpdate>) -> LogState
    decreases updates.len(),
{
    if updates.len() == 0 {
        state
    } else {
        apply_updates(apply_update(state, updates.first()), updates.drop_first())
    }
}

/// The full merge the store runs: the existing value (or the empty state)
/// folded with every queued operand, oldest first.
pub fn log_state_full_merge(existing: Option<LogState>, operands: &Vec<LogStateUpdate>) -> (r:
    LogState)
    ensures
        r == apply_updates(
            match existing {
                Some(s) => s,
                None => LogState::spec_empty(),
            },
            operands@,
        ),
{
    let mut state = match existing {
        Some(s) => s,
        None => LogState::empty(),
    };
    let ghost base = state;
    proof {
        assert(operands@.skip(0) =~= operands@);
    }
    let mut i: usize = 0;
    while i < operands.len()
        invariant
            i <= operands@.len(),
            apply_updates(base, operands@) == apply_updates(state, operands@.skip(i as int)),
        decreases operands@.len() - i,
    {
        let update = operands[i];
        state = apply_log_state_update(state, update);
        proof {
            assert(operands@.skip(i as int).drop_first() =~= operands@.skip(i + 1));
        }
        i += 1;
    }
    proof {
        assert(operands@.skip(operands@.len() as int) =~= Seq::<LogStateUpdate>::empty());
    }
    state
}

/// Applies one operand to a state.
pub fn apply_log_state_update(state: LogState, update: LogStateUpdate) -> (r: LogState)
    ensures
        r == apply_update(state, update),
{
    match update {
        LogStateUpdate::SetSequencer(node) => if state.sequencer.is_none() {
            LogState { sequencer: Some(node), ..state }
        } else {
            state
        },
        LogStateUpdate::Seal => LogState { sealed: true, ..state },
        LogStateUpdate::Trim(offset) => if offset > state.trim_point {
            LogState { trim_point: offset, ..state }
        } else {
            state
        },
    }
}

/// However updates land, the trim point never shrinks, a seal never
/// clears, and a sequencer once set never changes.
pub proof fn lemma_update_monotone(state: LogState, update: LogStateUpdate)
    ensures
        apply_update(state, update).trim_point >= state.trim_point,
        state.sealed ==> apply_update(state, update).sealed,
        state.sequencer is Some ==> apply_update(state, update).sequencer == state.sequencer,
{
}

/// The fold of a whole run of updates keeps the same three guarantees.
pub proof fn lemma_updates_monotone(state: LogState, updates: Seq<LogStateUpdate>)
    ensures
        apply_updates(state, updates).trim_point >= state.trim_point,
        state.sealed ==> apply_updates(state, updates).sealed,
        state.sequencer is Some ==> apply_updates(state, updates).sequencer == state.sequencer,
    decreases updates.len(),
{
    if updates.len() > 0 {
        lemma_update_monotone(state, updates.first());
        lemma_updates_monotone(apply_update(state, updates.first()), updates.drop_first());
    }
}

/// Trimming is idempotent at the state level: landing a trim to an offset
/// at or below the current trim point changes nothing.
pub proof fn lemma_trim_idempotent(state: LogState, offset: LogletOffset)
    requires
        offset <= state.trim_point,
    ensures
        apply_update(state, LogStateUpdate::Trim(offset)) == state,
{
}

/// Sealing twice has the same effect as sealing once.
pub proof fn lemma_seal_idempotent(state: LogState)
    ensures
        apply_update(apply_update(state, LogStateUpdate::Seal), LogStateUpdate::Seal)
            == apply_update(state, LogStateUpdate::Seal),
{
}

/// Tag bytes of the serialized operands.
pub const UPDATE_TAG_SET_SEQUENCER: u8 = 1;

pub const UPDATE_TAG_SEAL: u8 = 2;

pub const UPDATE_TAG_TRIM: u8 = 3;

/// The exact bytes an operand serializes to: a one-byte tag and the body.
pub open spec fn update_bytes(update: LogStateUpdate) -> Seq<u8> {
    match update {
        LogStateUpdate::SetSequencer(node) => seq![UPDATE_TAG_SET_SEQUENCER]
            + be_bytes_of_u32(node.id) + be_bytes_of_u32(node.generation),
        LogStateUpdate::Seal => seq![UPDATE_TAG_SEAL],
        LogStateUpdate::Trim(offset) => seq![UPDATE_TAG_TRIM] + be_bytes_of_u32(offset),
    }
}

impl LogStateUpdate {
    pub fn to_bytes(self) -> (r: Vec<u8>)
        ensures
            r@ == update_bytes(self),
    {
        let mut buf: Vec<u8> = Vec::new();
        match self {
            LogStateUpdate::SetSequencer(node) => {
                buf.push(UPDATE_TAG_SET_SEQUENCER);
                put_u32_be(&mut buf, node.id);
                put_u32_be(&mut buf, node.generation);
            },
            LogStateUpdate::Seal => {
                buf.push(UPDATE_TAG_SEAL);
            },
            LogStateUpdate::Trim(offset) => {
                buf.push(UPDATE_TAG_TRIM);
                put_u32_be(&mut buf, offset);
            },
        }
        assert(buf@ =~= update_bytes(self));
        buf
    }

    /// Reads an operand back; a slice that is not the serialization of any
    /// operand yields `None`.
    pub fn from_slice(data: &[u8]) -> (r: Option<Self>)
        ensures
            r matches Some(u) ==> update_bytes(u) == data@,
            forall|u: LogStateUpdate| update_bytes(u) == data@ ==> r == Some(u),
    {
        if data.len() == 9 && data[0] == UPDATE_TAG_SET_SEQUENCER {
            let id = get_u32_be(data, 1);
            let generation = get_u32_be(data, 5);
            let r = LogStateUpdate::SetSequencer(GenerationalNodeId { id, generation });
            proof {
                lemma_u32_be_extensional(data@.subrange(1, 5));
                lemma_u32_be_extensional(data@.subrange(5, 9));
                lemma_update_bytes_parts(r, data@);
                assert forall|u2: LogStateUpdate| update_bytes(u2) == data@ implies u2 == r by {
                    lemma_update_bytes_injective(u2, r);
                }
            }
            Some(r)
        } else if data.len() == 1 && data[0] == UPDATE_TAG_SEAL {
            proof {
                assert(update_bytes(LogStateUpdate::Seal) =~= data@);
                assert forall|u2: LogStateUpdate| update_bytes(u2) == data@ implies u2
                    == LogStateUpdate::Seal by {
                    lemma_update_bytes_injective(u2, LogStateUpdate::Seal);
                }
            }
            Some(LogStateUpdate::Seal)
        } else if data.len() == 5 && data[0] == UPDATE_TAG_TRIM {
            let offset = get_u32_be(data, 1);
            let r = LogStateUpdate::Trim(offset);
            proof {
                lemma_u32_be_extensional(data@.subrange(1, 5));
                lemma_update_bytes_parts(r, data@);
                assert forall|u2: LogStateUpdate| update_bytes(u2) == data@ implies u2 == r by {
                    lemma_update_bytes_injective(u2, r);
                }
            }
            Some(r)
        } else {
            proof {
                lemma_no_update_matches(data@);
            }
            None
        }
    }
}

/// The length and tag byte every operand's serialization carries.
proof fn lemma_update_shape(u: LogStateUpdate)
    ensures
        match u {
            LogStateUpdate::SetSequencer(_) => update_bytes(u).len() == 9 && update_bytes(u)[0]
                == UPDATE_TAG_SET_SEQUENCER,
            LogStateUpdate::Seal => update_bytes(u).len() == 1 && update_bytes(u)[0]
                == UPDATE_TAG_SEAL,
            LogStateUpdate::Trim(_) => update_bytes(u).len() == 5 && update_bytes(u)[0]
                == UPDATE_TAG_TRIM,
        },
{
}

/// No two distinct operands serialize to the same bytes.
proof fn lemma_update_bytes_injective(u1: LogStateUpdate, u2: LogStateUpdate)
    requires
        update_bytes(u1) == update_bytes(u2),
    ensures
        u1 == u2,
{
    lemma_update_shape(u1);
    lemma_update_shape(u2);
    match (u1, u2) {
        (LogStateUpdate::SetSequencer(n1), LogStateUpdate::SetSequencer(n2)) => {
            assert(update_bytes(u1).subrange(1, 5) =~= be_bytes_of_u32(n1.id));
            assert(update_bytes(u2).subrange(1, 5) =~= be_bytes_of_u32(n2.id));
            assert(update_bytes(u1).subrange(5, 9) =~= be_bytes_of_u32(n1.generation));
            assert(update_bytes(u2).subrange(5, 9) =~= be_bytes_of_u32(n2.generation));
            lemma_u32_be_round_trip(n1.id);
            lemma_u32_be_round_trip(n2.id);
            lemma_u32_be_round_trip(n1.generation);
            lemma_u32_be_round_trip(n2.generation);
            assert(be_bytes_of_u32(n1.id) == be_bytes_of_u32(n2.id));
            assert(n1.id == n2.id);
            assert(be_bytes_of_u32(n1.generation) == be_bytes_of_u32(n2.generation));
            assert(n1.generation == n2.generation);
        },
        (LogStateUpdate::Trim(o1), LogStateUpdate::Trim(o2)) => {
            assert(update_bytes(u1).subrange(1, 5) =~= be_bytes_of_u32(o1));
            assert(update_bytes(u2).subrange(1, 5) =~= be_bytes_of_u32(o2));
            lemma_u32_be_round_trip(o1);
            lemma_u32_be_round_trip(o2);
            assert(be_bytes_of_u32(o1) == be_bytes_of_u32(o2));
            assert(o1 == o2);
        },
        _ => {
        },
    }
}

proof fn lemma_update_bytes_parts(u: LogStateUpdate, data: Seq<u8>)
    requires
        match u {
            LogStateUpdate::SetSequencer(node) => {
                &&& data.len() == 9
                &&& data[0] == UPDATE_TAG_SET_SEQUENCER
                &&& be_bytes_of_u32(node.id) =~= data.subrange(1, 5)
                &&& be_bytes_of_u32(node.generation) =~= data.subrange(5, 9)
            },
            LogStateUpdate::Seal => data.len() == 1 && data[0] == UPDATE_TAG_SEAL,
            LogStateUpdate::Trim(offset) => {
                &&& data.len() == 5
                &&& data[0] == UPDATE_TAG_TRIM
                &&& be_bytes_of_u32(offset) =~= data.subrange(1, 5)
            },
        },
    ensures
        update_bytes(u) =~= data,
{
}

proof fn lemma_no_update_matches(data: Seq<u8>)
    requires
        !(data.len() == 9 && data[0] == UPDATE_TAG_SET_SEQUENCER),
        !(data.len() == 1 && data[0] == UPDATE_TAG_SEAL),
        !(data.len() == 5 && data[0] == UPDATE_TAG_TRIM),
    ensures
        forall|u: LogStateUpdate| update_bytes(u) != data,
{
    assert forall|u: LogStateUpdate| update_bytes(u) != data by {
        match u {
            LogStateUpdate::SetSequencer(node) => {
                assert(update_bytes(u).len() == 9 && update_bytes(u)[0]
                    == UPDATE_TAG_SET_SEQUENCER);
            },
            LogStateUpdate::Seal => {
                assert(update_bytes(u).len() == 1 && update_bytes(u)[0] == UPDATE_TAG_SEAL);
            },
            LogStateUpdate::Trim(offset) => {
                assert(update_bytes(u).len() == 5 && update_bytes(u)[0] == UPDATE_TAG_TRIM);
            },
        }
    }
}

/// The exact bytes a `LogState` serializes to: a seal byte, the trim
/// point, and the sequencer behind a presence byte.
pub open spec fn log_state_bytes(state: LogState) -> Seq<u8> {
    seq![if state.sealed { 1u8 } else { 0u8 }] + be_bytes_of_u32(state.trim_point)
        + match state.sequencer {
        Some(node) => seq![1u8] + be_bytes_of_u32(node.id) + be_bytes_of_u32(node.generation),
        None => seq![0u8],
    }
}

impl LogState {
    pub fn to_bytes(self) -> (r: Vec<u8>)
        ensures
            r@ == log_state_bytes(self),
    {
        let mut buf: Vec<u8> = Vec::new();
        buf.push(if self.sealed { 1 } else { 0 });
        put_u32_be(&mut buf, self.trim_point);
        match self.sequencer {
            Some(node) => {
                buf.push(1);
                put_u32_be(&mut buf, node.id);
                put_u32_be(&mut buf, node.generation);
            },
            None => {
                buf.push(0);
            },
        }
        assert(buf@ =~= log_state_bytes(self));
        buf
    }

    /// Reads a state back; a slice that is not the serialization of any
    /// state yields `None`.
    pub fn from_slice(data: &[u8]) -> (r: Option<Self>)
        ensures
            r matches Some(s) ==> log_state_bytes(s) == data@,
    {
        if data.len() == 6 && (data[0] == 0 || data[0] == 1) && data[5] == 0 {
            let trim_point = get_u32_be(data, 1);
            let r = LogState { sealed: data[0] == 1, trim_point, sequencer: None };
            proof {
                lemma_u32_be_extensional(data@.subrange(1, 5));
                assert(log_state_bytes(r) =~= data@);
            }
            Some(r)
        } else if data.len() == 14 && (data[0] == 0 || data[0] == 1) && data[5] == 1 {
            let trim_point = get_u32_be(data, 1);
            let id = get_u32_be(data, 6);
            let generation = get_u32_be(data, 10);
            let r = LogState {
                sealed: data[0] == 1,
                trim_point,
                sequencer: Some(GenerationalNodeId { id, generation }),
            };
            proof {
                lemma_u32_be_extensional(data@.subrange(1, 5));
                lemma_u32_be_extensional(data@.subrange(6, 10));
                lemma_u32_be_extensional(data@.subrange(10, 14));
                assert(log_state_bytes(r) =~= data@);
            }
            Some(r)
        } else {
            None
        }
    }
}

} // verus!
