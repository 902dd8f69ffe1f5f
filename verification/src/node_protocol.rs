//! Node-to-node protocol basics: request correlation and protocol
//! versioning, plus the cluster controller's message surface.

use vstd::prelude::*;

verus! {

/// Identifies a request in an RPC-style call going through the
/// networking layer; the response carries it back for correlation.
#[derive(Debug, Clone, Copy, PartialEq, Eq, Hash, Structural)]
pub struct RequestId(pub u64);

/// Hands out request ids in strictly increasing order. Each networking
/// stack owns one; ids start at 1 so that 0 can stand for "none".
#[derive(Debug, Clone, Copy, PartialEq, Eq, Structural)]
pub struct RequestIdGenerator {
    pub next: u64,
}

impl RequestIdGenerator {
    pub fn new() -> (r: Self)
        ensures
            r.next == 1,
    {
        Self { next: 1 }
    }
}

impl RequestId {
    /// The next request id; later calls on the same generator return
    /// strictly larger ids.
    pub fn new(generator: &mut RequestIdGenerator) -> (r: Self)
        requires
            old(generator).next < u64::MAX,
        ensures
            r.0 == old(generator).next,
            final(generator).next == old(generator).next + 1,
    {
        let id = generator.next;
        generator.next = generator.next + 1;
        RequestId(id)
    }
}

/// Ids handed out by one generator are strictly increasing.
pub proof fn lemma_request_ids_increase(
    g0: RequestIdGenerator,
    g1: RequestIdGenerator,
    r1: RequestId,
    g2: RequestIdGenerator,
    r2: RequestId,
)
    requires
        r1.0 == g0.next && g1.next == g0.next + 1,
        r2.0 == g1.next && g2.next == g1.next + 1,
    ensures
        r1.0 < r2.0,
{
}

/// Version of the wire encoding used between nodes.
#[derive(Debug, Clone, Copy, PartialEq, Eq, Structural)]
pub enum ProtocolVersion {
    Unspecified,
    Flexbuffers,
}

impl ProtocolVersion {
    /// Whether this version lies in the supported window. One version is
    /// spoken today: the oldest and the newest supported are the same.
    pub fn is_supported(&self) -> (r: bool)
        ensures
            r == (*self == ProtocolVersion::Flexbuffers),
    {
        matches!(self, ProtocolVersion::Flexbuffers)
    }
}

/// What a node sends along when it attaches to the cluster controller.
#[derive(Debug, Clone, Copy, PartialEq, Eq, Structural)]
pub struct AttachementDetails {
    pub request_id: RequestId,
}

/// Messages addressed to the cluster controller.
#[derive(Debug, Clone, Copy, PartialEq, Eq, Structural)]
pub enum ClusterControllerMessage {
    Attach(AttachementDetails),
}

impl ClusterControllerMessage {
    /// The message kind, for logging and routing.
    pub fn kind(&self) -> (r: &'static str)
        ensures
            *self matches ClusterControllerMessage::Attach(_) ==> r@ == "Attach"@,
    {
        match self {
            ClusterControllerMessage::Attach(_) => "Attach",
        }
    }
}

} // verus!
