//! Keys of the local loglet's column families.
//!
//! A data key is `'d' | log_id (u64 BE) | offset (u64 BE)`; the fixed
//! nine-byte prefix (`'d'` plus the log id) lets a prefix extractor serve
//! per-log range scans. A metadata key is `'m' | log_id (u64 BE) | kind`.

use vstd::prelude::*;

use crate::codec::{
    be_bytes_of_u64, get_u64_be, lemma_u64_be_round_trip, put_u64_be, u64_of_be_bytes,
};
use crate::offsets::{LogletOffset, OFFSET_MAX};

verus! {

/// Length of the prefix (tag byte plus log id) shared by every data key of
/// one log.
pub const DATA_KEY_PREFIX_LENGTH: usize = 9;

/// Tag byte of data keys: ASCII 'd'.
pub const DATA_KEY_TAG: u8 = 100;

/// Tag byte of metadata keys: ASCII 'm'.
pub const METADATA_KEY_TAG: u8 = 109;

/// Key of one record in the data column family.
#[derive(Debug, Clone, Copy, PartialEq, Eq, Structural)]
pub struct RecordKey {
    pub log_id: u64,
    pub offset: LogletOffset,
}

/// The exact bytes `key` serializes to.
pub open spec fn record_key_bytes(key: RecordKey) -> Seq<u8> {
    seq![DATA_KEY_TAG] + be_bytes_of_u64(key.log_id) + be_bytes_of_u64(key.offset as u64)
}

impl RecordKey {
    pub fn new(log_id: u64, offset: LogletOffset) -> (r: Self)
        ensures
            r == (RecordKey { log_id, offset }),
    {
        Self { log_id, offset }
    }

    /// The largest key of `log_id`'s keyspace; every record of the log
    /// sorts at or below it.
    pub fn upper_bound(log_id: u64) -> (r: Self)
        ensures
            r == (RecordKey { log_id, offset: OFFSET_MAX }),
    {
        Self { log_id, offset: OFFSET_MAX }
    }

    pub fn to_bytes(self) -> (r: Vec<u8>)
        ensures
            r@ == record_key_bytes(self),
            r@.len() == 17,
    {
        let mut buf: Vec<u8> = Vec::new();
        buf.push(DATA_KEY_TAG);
        put_u64_be(&mut buf, self.log_id);
        put_u64_be(&mut buf, self.offset as u64);
        assert(buf@ =~= record_key_bytes(self));
        buf
    }

    /// Reads a key back from its serialized form. Callers iterate only over
    /// keys this library wrote, so the slice carries the data-key tag and an
    /// offset that fits the offset space.
    pub fn from_slice(data: &[u8]) -> (r: Self)
        requires
            data@.len() == 17,
            data@[0] == DATA_KEY_TAG,
            u64_of_be_bytes(data@.subrange(9, 17)) <= OFFSET_MAX,
        ensures
            r.log_id == u64_of_be_bytes(data@.subrange(1, 9)),
            r.offset == u64_of_be_bytes(data@.subrange(9, 17)),
    {
        let log_id = get_u64_be(data, 1);
        let offset = get_u64_be(data, 9);
        Self { log_id, offset: offset as u32 }
    }
}

/// Serializing a record key and reading it back yields the same key.
pub proof fn lemma_record_key_round_trip(key: RecordKey)
    ensures
        record_key_bytes(key).len() == 17,
        record_key_bytes(key)[0] == DATA_KEY_TAG,
        u64_of_be_bytes(record_key_bytes(key).subrange(1, 9)) == key.log_id,
        u64_of_be_bytes(record_key_bytes(key).subrange(9, 17)) == key.offset as u64,
{
    assert(record_key_bytes(key).subrange(1, 9) =~= be_bytes_of_u64(key.log_id));
    assert(record_key_bytes(key).subrange(9, 17) =~= be_bytes_of_u64(key.offset as u64));
    lemma_u64_be_round_trip(key.log_id);
    lemma_u64_be_round_trip(key.offset as u64);
}

/// What a metadata entry of a log holds. Unknown tags decode to the
/// sentinel so that newer stores stay readable.
#[derive(Debug, Clone, Copy, PartialEq, Eq, Structural)]
pub enum MetadataKind {
    Unknown,
    LogState,
}

/// The tag byte each metadata kind serializes to.
pub open spec fn metadata_kind_byte(kind: MetadataKind) -> u8 {
    match kind {
        MetadataKind::Unknown => 0,
        MetadataKind::LogState => 1,
    }
}

impl MetadataKind {
    pub fn as_byte(self) -> (r: u8)
        ensures
            r == metadata_kind_byte(self),
    {
        match self {
            MetadataKind::Unknown => 0,
            MetadataKind::LogState => 1,
        }
    }

    /// Decodes a tag byte; every unassigned tag yields the sentinel.
    pub fn from_repr(b: u8) -> (r: Self)
        ensures
            b == 1 ==> r == MetadataKind::LogState,
            b != 1 ==> r == MetadataKind::Unknown,
    {
        if b == 1 {
            MetadataKind::LogState
        } else {
            MetadataKind::Unknown
        }
    }
}

/// Key of one metadata entry in the metadata column family.
#[derive(Debug, Clone, Copy, PartialEq, Eq, Structural)]
pub struct MetadataKey {
    pub log_id: u64,
    pub kind: MetadataKind,
}

/// The exact bytes `key` serializes to.
pub open spec fn metadata_key_bytes(key: MetadataKey) -> Seq<u8> {
    seq![METADATA_KEY_TAG] + be_bytes_of_u64(key.log_id) + seq![metadata_kind_byte(key.kind)]
}

impl MetadataKey {
    pub fn new(log_id: u64, kind: MetadataKind) -> (r: Self)
        ensures
            r == (MetadataKey { log_id, kind }),
    {
        Self { log_id, kind }
    }

    pub fn to_bytes(self) -> (r: Vec<u8>)
        ensures
            r@ == metadata_key_bytes(self),
            r@.len() == 10,
    {
        let mut buf: Vec<u8> = Vec::new();
        buf.push(METADATA_KEY_TAG);
        put_u64_be(&mut buf, self.log_id);
        buf.push(self.kind.as_byte());
        assert(buf@ =~= metadata_key_bytes(self));
        buf
    }

    /// Reads a key back from its serialized form; an unknown kind byte
    /// decodes to the sentinel kind.
    pub fn from_slice(data: &[u8]) -> (r: Self)
        requires
            data@.len() == 10,
            data@[0] == METADATA_KEY_TAG,
        ensures
            r.log_id == u64_of_be_bytes(data@.subrange(1, 9)),
            data@[9] == 1 ==> r.kind == MetadataKind::LogState,
            data@[9] != 1 ==> r.kind == MetadataKind::Unknown,
    {
        let log_id = get_u64_be(data, 1);
        let kind = MetadataKind::from_repr(data[9]);
        Self { log_id, kind }
    }
}

/// Serializing a metadata key and reading it back yields the same key,
/// as long as the kind is a known one (the sentinel re-decodes to itself).
pub proof fn lemma_metadata_key_round_trip(key: MetadataKey)
    ensures
        metadata_key_bytes(key).len() == 10,
        metadata_key_bytes(key)[0] == METADATA_KEY_TAG,
        u64_of_be_bytes(metadata_key_bytes(key).subrange(1, 9)) == key.log_id,
        metadata_key_bytes(key)[9] == metadata_kind_byte(key.kind),
{
    assert(metadata_key_bytes(key).subrange(1, 9) =~= be_bytes_of_u64(key.log_id));
    lemma_u64_be_round_trip(key.log_id);
}

} // verus!
