//! Key kinds and table kinds of the partition store.
//!
//! Every key starts with a two-byte kind tag; each logical table owns a
//! set of kinds and can test whether a key prefix belongs to it. All
//! tables share one column family.

use vstd::prelude::*;

verus! {

/// The column family shared by every table.
pub const PARTITION_CF: &'static str = "data-unpartitioned";

/// Length of the serialized key kind prefix.
pub const KEY_KIND_SERIALIZED_LENGTH: usize = 2;

/// The two-byte tag at the start of every key.
#[derive(Debug, Clone, Copy, PartialEq, Eq, Structural)]
pub enum KeyKind {
    Deduplication,
    Fsm,
    Idempotency,
    Inbox,
    InvocationStatus,
    Journal,
    Outbox,
    ServiceStatus,
    State,
    Timers,
}

/// The serialized tag of each kind: two ASCII bytes.
pub open spec fn key_kind_bytes(kind: KeyKind) -> (u8, u8) {
    match kind {
        KeyKind::Deduplication => (100, 101),  // "de"
        KeyKind::Fsm => (102, 115),  // "fs"
        KeyKind::Idempotency => (105, 100),  // "id"
        KeyKind::Inbox => (105, 98),  // "ib"
        KeyKind::InvocationStatus => (105, 115),  // "is"
        KeyKind::Journal => (106, 111),  // "jo"
        KeyKind::Outbox => (111, 98),  // "ob"
        KeyKind::ServiceStatus => (115, 115),  // "ss"
        KeyKind::State => (115, 116),  // "st"
        KeyKind::Timers => (116, 105),  // "ti"
    }
}

impl KeyKind {
    pub fn as_bytes(self) -> (r: (u8, u8))
        ensures
            r == key_kind_bytes(self),
    {
        match self {
            KeyKind::Deduplication => (100, 101),
            KeyKind::Fsm => (102, 115),
            KeyKind::Idempotency => (105, 100),
            KeyKind::Inbox => (105, 98),
            KeyKind::InvocationStatus => (105, 115),
            KeyKind::Journal => (106, 111),
            KeyKind::Outbox => (111, 98),
            KeyKind::ServiceStatus => (115, 115),
            KeyKind::State => (115, 116),
            KeyKind::Timers => (116, 105),
        }
    }

    /// Decodes a two-byte tag; an unassigned tag yields `None`.
    pub fn from_bytes(b0: u8, b1: u8) -> (r: Option<KeyKind>)
        ensures
            r matches Some(k) ==> key_kind_bytes(k) == (b0, b1),
            forall|k: KeyKind| key_kind_bytes(k) == (b0, b1) ==> r == Some(k),
    {
        if b0 == 100 && b1 == 101 {
            Some(KeyKind::Deduplication)
        } else if b0 == 102 && b1 == 115 {
            Some(KeyKind::Fsm)
        } else if b0 == 105 && b1 == 100 {
            Some(KeyKind::Idempotency)
        } else if b0 == 105 && b1 == 98 {
            Some(KeyKind::Inbox)
        } else if b0 == 105 && b1 == 115 {
            Some(KeyKind::InvocationStatus)
        } else if b0 == 106 && b1 == 111 {
            Some(KeyKind::Journal)
        } else if b0 == 111 && b1 == 98 {
            Some(KeyKind::Outbox)
        } else if b0 == 115 && b1 == 115 {
            Some(KeyKind::ServiceStatus)
        } else if b0 == 115 && b1 == 116 {
            Some(KeyKind::State)
        } else if b0 == 116 && b1 == 105 {
            Some(KeyKind::Timers)
        } else {
            None
        }
    }
}

/// The logical tables of the partition store.
#[derive(Debug, Clone, Copy, PartialEq, Eq, Structural)]
pub enum TableKind {
    PartitionStateMachine,
    Deduplication,
    Outbox,
    Timers,
    State,
    InvocationStatus,
    ServiceStatus,
    Idempotency,
    Inbox,
    Journal,
}

/// The column family a table lives in: all tables share one.
pub fn cf_name(_kind: TableKind) -> (r: &'static str)
    ensures
        r@ == PARTITION_CF@,
{
    PARTITION_CF
}

/// The key kinds a table owns.
pub open spec fn spec_key_kinds(kind: TableKind) -> Seq<KeyKind> {
    match kind {
        TableKind::State => seq![KeyKind::State],
        TableKind::InvocationStatus => seq![KeyKind::InvocationStatus],
        TableKind::ServiceStatus => seq![KeyKind::ServiceStatus],
        TableKind::Idempotency => seq![KeyKind::Idempotency],
        TableKind::Inbox => seq![KeyKind::Inbox],
        TableKind::Outbox => seq![KeyKind::Outbox],
        TableKind::Deduplication => seq![KeyKind::Deduplication],
        TableKind::PartitionStateMachine => seq![KeyKind::Fsm],
        TableKind::Timers => seq![KeyKind::Timers],
        TableKind::Journal => seq![KeyKind::Journal],
    }
}

impl TableKind {
    /// Every table, in scan order.
    pub fn all() -> (r: Vec<TableKind>)
        ensures
            r@ == seq![
                TableKind::State,
                TableKind::InvocationStatus,
                TableKind::ServiceStatus,
                TableKind::Idempotency,
                TableKind::Inbox,
                TableKind::Outbox,
                TableKind::Deduplication,
                TableKind::PartitionStateMachine,
                TableKind::Timers,
                TableKind::Journal,
            ],
    {
        let r = vec![
            TableKind::State,
            TableKind::InvocationStatus,
            TableKind::ServiceStatus,
            TableKind::Idempotency,
            TableKind::Inbox,
            TableKind::Outbox,
            TableKind::Deduplication,
            TableKind::PartitionStateMachine,
            TableKind::Timers,
            TableKind::Journal,
        ];
        proof {
            assert(r@ =~= seq![
                TableKind::State,
                TableKind::InvocationStatus,
                TableKind::ServiceStatus,
                TableKind::Idempotency,
                TableKind::Inbox,
                TableKind::Outbox,
                TableKind::Deduplication,
                TableKind::PartitionStateMachine,
                TableKind::Timers,
                TableKind::Journal,
            ]);
        }
        r
    }

    /// The key kinds this table owns.
    pub fn key_kinds(self) -> (r: Vec<KeyKind>)
        ensures
            r@ == spec_key_kinds(self),
    {
        let r = match self {
            TableKind::State => vec![KeyKind::State],
            TableKind::InvocationStatus => vec![KeyKind::InvocationStatus],
            TableKind::ServiceStatus => vec![KeyKind::ServiceStatus],
            TableKind::Idempotency => vec![KeyKind::Idempotency],
            TableKind::Inbox => vec![KeyKind::Inbox],
            TableKind::Outbox => vec![KeyKind::Outbox],
            TableKind::Deduplication => vec![KeyKind::Deduplication],
            TableKind::PartitionStateMachine => vec![KeyKind::Fsm],
            TableKind::Timers => vec![KeyKind::Timers],
            TableKind::Journal => vec![KeyKind::Journal],
        };
        proof {
            assert(r@ =~= spec_key_kinds(self));
        }
        r
    }

    /// Whether the key prefix starts with a kind this table owns.
    pub fn has_key_kind(self, prefix: &[u8]) -> (r: bool)
        ensures
            r == (spec_extract_key_kind(self, prefix@) is Some),
    {
        self.extract_key_kind(prefix).is_some()
    }

    /// The table's key kind that the prefix starts with, if any: the
    /// prefix must be long enough, decode to a known kind, and that kind
    /// must belong to this table.
    pub fn extract_key_kind(self, prefix: &[u8]) -> (r: Option<KeyKind>)
        ensures
            r == spec_extract_key_kind(self, prefix@),
    {
        if prefix.len() < KEY_KIND_SERIALIZED_LENGTH {
            return None;
        }
        let kind = match KeyKind::from_bytes(prefix[0], prefix[1]) {
            Some(k) => k,
            None => {
                return None;
            },
        };
        let owned = self.key_kinds();
        let mut i: usize = 0;
        while i < owned.len()
            invariant
                i <= owned@.len(),
                owned@ == spec_key_kinds(self),
                forall|j: int| 0 <= j < i ==> owned@[j] != kind,
                prefix@.len() >= 2,
                key_kind_bytes(kind) == (prefix@[0], prefix@[1]),
                forall|k: KeyKind| key_kind_bytes(k) == (prefix@[0], prefix@[1]) ==> k == kind,
            decreases owned@.len() - i,
        {
            if owned[i] == kind {
                proof {
                    assert(spec_key_kinds(self).contains(kind));
                    assert(key_kind_bytes(kind) == (prefix@[0], prefix@[1]));
                    let kc = choose|kc: KeyKind|
                        key_kind_bytes(kc) == (prefix@[0], prefix@[1]);
                    assert(key_kind_bytes(kc) == (prefix@[0], prefix@[1]));
                    assert(kc == kind);
                }
                return Some(kind);
            }
            i += 1;
        }
        proof {
            assert(key_kind_bytes(kind) == (prefix@[0], prefix@[1]));
            let kc = choose|kc: KeyKind| key_kind_bytes(kc) == (prefix@[0], prefix@[1]);
            assert(key_kind_bytes(kc) == (prefix@[0], prefix@[1]));
            assert(kc == kind);
            if spec_key_kinds(self).contains(kind) {
                let w = choose|w: int|
                    0 <= w < spec_key_kinds(self).len() && spec_key_kinds(self)[w] == kind;
                assert(owned@[w] == kind);
                assert(false);
            }
        }
        None
    }
}

/// The table's key kind at the head of a prefix, if the prefix is long
/// enough, the tag is known, and the kind belongs to the table.
pub open spec fn spec_extract_key_kind(table: TableKind, prefix: Seq<u8>) -> Option<KeyKind> {
    if prefix.len() < KEY_KIND_SERIALIZED_LENGTH {
        None
    } else if exists|k: KeyKind| key_kind_bytes(k) == (prefix[0], prefix[1]) {
        let k = choose|k: KeyKind| key_kind_bytes(k) == (prefix[0], prefix[1]);
        if spec_key_kinds(table).contains(k) {
            Some(k)
        } else {
            None
        }
    } else {
        None
    }
}

/// What a table scan does with one visited row.
#[derive(Debug)]
pub enum TableScanIterationDecision<R> {
    Emit(R),
    Continue,
    Break,
    BreakWith(R),
}

/// How an iterator walks the keyspace.
#[derive(Debug, Clone, Copy, PartialEq, Eq, Structural)]
pub enum ScanMode {
    /// The scan stays inside one fixed key prefix.
    WithinPrefix,
    /// The scan crosses prefixes and needs total-order seeks.
    TotalOrder,
}

} // verus!
