//! Node identities.

use vstd::prelude::*;

verus! {

/// A cluster member, without a generation.
pub type PlainNodeId = u32;

/// A node identity at a particular generation of its life; a node that
/// restarts comes back with a higher generation.
#[derive(Debug, Clone, Copy, PartialEq, Eq, Hash, Structural)]
pub struct GenerationalNodeId {
    pub id: PlainNodeId,
    pub generation: u32,
}

impl GenerationalNodeId {
    pub fn new(id: PlainNodeId, generation: u32) -> (r: Self)
        ensures
            r == (GenerationalNodeId { id, generation }),
    {
        Self { id, generation }
    }
}

} // verus!
