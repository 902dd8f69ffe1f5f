//! Configuration of one replicated loglet, carried as an opaque JSON
//! string in the chain's loglet parameters.
//!
//! The JSON work itself is done by serde_json; this module only walks
//! the parsed value and checks the shape the sequencer relies on: a
//! replication factor of at least one that the node set can satisfy, and
//! a duplicate-free membership.

use vstd::prelude::*;

use crate::nodes::{GenerationalNodeId, PlainNodeId};

verus! {

#[verifier::external_type_specification]
#[verifier::external_body]
pub struct ExValue(serde_json::Value);

/// Relies on serde_json::from_str::<serde_json::Value>: parses a JSON
/// document, or fails on text that is not JSON.
#[verifier::external_body]
fn json_parse(text: &str) -> (r: Option<serde_json::Value>)
{
    match serde_json::from_str::<serde_json::Value>(text) {
        Ok(v) => Some(v),
        Err(_) => None,
    }
}

/// Relies on serde_json::Value::get: the member of a JSON object under a
/// key, if the value is an object with that member.
#[verifier::external_body]
fn json_get<'a>(v: &'a serde_json::Value, key: &str) -> (r: Option<&'a serde_json::Value>)
{
    v.get(key)
}

/// Relies on serde_json::Value::as_u64: the value as an unsigned
/// integer, if it is a number representable as one.
#[verifier::external_body]
fn json_as_u64(v: &serde_json::Value) -> (r: Option<u64>)
{
    v.as_u64()
}

/// Relies on serde_json::Value::as_array: the value's elements, if it is
/// an array.
#[verifier::external_body]
fn json_as_array(v: &serde_json::Value) -> (r: Option<&Vec<serde_json::Value>>)
{
    v.as_array()
}

/// Why loglet parameters were rejected.
#[derive(Debug, Clone, Copy, PartialEq, Eq, Structural)]
pub enum ParamsError {
    /// The text is not JSON, or lacks a required member.
    Malformed,
    /// A numeric field does not fit its type.
    OutOfRange,
    /// The replication factor is zero or exceeds the node set, or the
    /// node set repeats a member.
    InvalidReplication,
}

/// Configuration of a replicated loglet: its identity, the node that
/// runs its sequencer, the replication policy and the membership at
/// segment creation.
#[derive(Debug, Clone, PartialEq, Eq)]
pub struct ReplicatedLogletParams {
    pub loglet_id: u64,
    pub sequencer: GenerationalNodeId,
    pub replication_factor: usize,
    pub node_set: Vec<PlainNodeId>,
}

impl ReplicatedLogletParams {
    /// What the sequencer relies on: a satisfiable replication factor
    /// over a duplicate-free node set.
    pub open spec fn wf(&self) -> bool {
        &&& 1 <= self.replication_factor <= self.node_set@.len()
        &&& self.node_set@.no_duplicates()
    }

    /// Reads parameters from their JSON form. Whatever the document
    /// holds, a successful result satisfies everything the sequencer
    /// relies on; a document that is not JSON, lacks a member, holds an
    /// oversized number or an unsatisfiable replication policy is
    /// rejected.
    pub fn deserialize_from(text: &str) -> (r: Result<Self, ParamsError>)
        ensures
            r matches Ok(p) ==> p.wf(),
    {
        let v = match json_parse(text) {
            Some(v) => v,
            None => {
                return Err(ParamsError::Malformed);
            },
        };
        let loglet_id = match json_get(&v, "loglet_id") {
            Some(f) => match json_as_u64(f) {
                Some(n) => n,
                None => {
                    return Err(ParamsError::Malformed);
                },
            },
            None => {
                return Err(ParamsError::Malformed);
            },
        };
        let sequencer = match json_get(&v, "sequencer") {
            Some(f) => match parse_node_id(f) {
                Some(n) => n,
                None => {
                    return Err(ParamsError::OutOfRange);
                },
            },
            None => {
                return Err(ParamsError::Malformed);
            },
        };
        let replication_factor_raw = match json_get(&v, "replication_factor") {
            Some(f) => match json_as_u64(f) {
                Some(n) => n,
                None => {
                    return Err(ParamsError::Malformed);
                },
            },
            None => {
                return Err(ParamsError::Malformed);
            },
        };
        if replication_factor_raw == 0 || replication_factor_raw > usize::MAX as u64 {
            return Err(ParamsError::InvalidReplication);
        }
        let replication_factor = replication_factor_raw as usize;
        let members = match json_get(&v, "node_set") {
            Some(f) => match json_as_array(f) {
                Some(a) => a,
                None => {
                    return Err(ParamsError::Malformed);
                },
            },
            None => {
                return Err(ParamsError::Malformed);
            },
        };
        let mut node_set: Vec<PlainNodeId> = Vec::new();
        let mut i: usize = 0;
        while i < members.len()
            invariant
                node_set@.len() == i,
                i <= members@.len(),
                node_set@.no_duplicates(),
            decreases members@.len() - i,
        {
            let n = match json_as_u64(&members[i]) {
                Some(n) => n,
                None => {
                    return Err(ParamsError::Malformed);
                },
            };
            if n > u32::MAX as u64 {
                return Err(ParamsError::OutOfRange);
            }
            let id = n as u32;
            // Membership must be duplicate-free.
            let mut j: usize = 0;
            while j < node_set.len()
                invariant
                    j <= node_set@.len(),
                    forall|a: int| 0 <= a < j ==> node_set@[a] != id,
                decreases node_set@.len() - j,
            {
                if node_set[j] == id {
                    return Err(ParamsError::InvalidReplication);
                }
                j += 1;
            }
            let ghost before = node_set@;
            node_set.push(id);
            proof {
                assert(node_set@.drop_last() =~= before);
            }
            i += 1;
        }
        if replication_factor > node_set.len() {
            return Err(ParamsError::InvalidReplication);
        }
        Ok(
            ReplicatedLogletParams {
                loglet_id,
                sequencer,
                replication_factor,
                node_set,
            },
        )
    }
}

/// Reads a generational node id from its JSON object form.
fn parse_node_id(v: &serde_json::Value) -> (r: Option<GenerationalNodeId>) {
    let id = match json_get(v, "id") {
        Some(f) => match json_as_u64(f) {
            Some(n) => n,
            None => {
                return None;
            },
        },
        None => {
            return None;
        },
    };
    let generation = match json_get(v, "generation") {
        Some(f) => match json_as_u64(f) {
            Some(n) => n,
            None => {
                return None;
            },
        },
        None => {
            return None;
        },
    };
    if id > u32::MAX as u64 || generation > u32::MAX as u64 {
        return None;
    }
    Some(GenerationalNodeId { id: id as u32, generation: generation as u32 })
}

} // verus!
