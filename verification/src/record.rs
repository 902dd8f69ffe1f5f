//! Records and their on-disk value format.
//!
//! A serialized record value is `version (1 byte, current = 1) | flags
//! (1 byte, bit 0 = compressed) | payload length (u32 BE) | payload |
//! CRC32C of all preceding bytes (u32 BE)`. Decoders reject values whose
//! version is unknown, whose length field disagrees with the value's size,
//! or whose checksum fails; they never panic.

use vstd::prelude::*;

use crate::codec::{
    be_bytes_of_u32, get_u32_be, lemma_u32_be_round_trip, put_u32_be, u32_of_be_bytes,
};

verus! {

/// The version byte this library writes and accepts.
pub const RECORD_FORMAT_VERSION: u8 = 1;

/// Bit 0 of the flags byte: the payload is stored compressed.
pub const RECORD_FLAG_COMPRESSED: u8 = 1;

/// Bytes of a record value besides the payload: version, flags, length
/// field and trailing checksum.
pub const RECORD_VALUE_OVERHEAD: usize = 10;

/// Keys a record is tagged with; readers use them to skip irrelevant
/// entries.
#[derive(Debug, Clone, Copy, PartialEq, Eq, Structural)]
pub enum Keys {
    Empty,
    Single(u64),
    Pair(u64, u64),
    RangeInclusive(u64, u64),
}

/// A reader's interest in record keys.
#[derive(Debug, Clone, Copy, PartialEq, Eq, Structural)]
pub enum KeyFilter {
    Any,
    Include(u64),
    Within(u64, u64),
}

/// Whether a single key falls inside the filter.
pub open spec fn key_in_filter(key: u64, filter: KeyFilter) -> bool {
    match filter {
        KeyFilter::Any => true,
        KeyFilter::Include(k) => key == k,
        KeyFilter::Within(from, to) => from <= key && key <= to,
    }
}

/// Whether a record tagged `keys` is of interest to a reader with
/// `filter`. A record without keys matches only the unrestricted filter.
pub open spec fn keys_match_filter(keys: Keys, filter: KeyFilter) -> bool {
    match keys {
        Keys::Empty => filter == KeyFilter::Any,
        Keys::Single(k) => key_in_filter(k, filter),
        Keys::Pair(k1, k2) => key_in_filter(k1, filter) || key_in_filter(k2, filter),
        Keys::RangeInclusive(from, to) => match filter {
            KeyFilter::Any => true,
            KeyFilter::Include(k) => from <= k && k <= to,
            KeyFilter::Within(f, t) => f <= to && from <= t,
        },
    }
}

/// One record of a loglet: opaque payload bytes, the key tag readers
/// filter by, and the creation time in milliseconds.
#[derive(Debug, PartialEq, Eq)]
pub struct Record {
    pub payload: Vec<u8>,
    pub keys: Keys,
    pub created_at: u64,
}

/// The mathematical value of a record: what contracts compare.
#[verifier::ext_equal]
pub struct RecordView {
    pub payload: Seq<u8>,
    pub keys: Keys,
    pub created_at: u64,
}

impl View for Record {
    type V = RecordView;

    open spec fn view(&self) -> RecordView {
        RecordView { payload: self.payload@, keys: self.keys, created_at: self.created_at }
    }
}

impl Record {
    pub fn new(payload: Vec<u8>, keys: Keys, created_at: u64) -> (r: Self)
        ensures
            r.payload == payload,
            r.keys == keys,
            r.created_at == created_at,
    {
        Self { payload, keys, created_at }
    }

    /// Weight of this record for cache accounting: the payload plus the
    /// serialization overhead.
    pub fn estimated_encode_size(&self) -> (r: usize)
        ensures
            self.payload@.len() + RECORD_VALUE_OVERHEAD <= usize::MAX ==> r == self.payload@.len()
                + RECORD_VALUE_OVERHEAD,
            self.payload@.len() + RECORD_VALUE_OVERHEAD > usize::MAX ==> r == usize::MAX,
    {
        if self.payload.len() <= usize::MAX - RECORD_VALUE_OVERHEAD {
            self.payload.len() + RECORD_VALUE_OVERHEAD
        } else {
            usize::MAX
        }
    }

    /// Whether a reader with `filter` wants this record.
    pub fn matches_key_query(&self, filter: KeyFilter) -> (r: bool)
        ensures
            r == keys_match_filter(self.keys, filter),
    {
        match self.keys {
            Keys::Empty => matches!(filter, KeyFilter::Any),
            Keys::Single(k) => key_in_filter_exec(k, filter),
            Keys::Pair(k1, k2) => {
                key_in_filter_exec(k1, filter) || key_in_filter_exec(k2, filter)
            },
            Keys::RangeInclusive(from, to) => match filter {
                KeyFilter::Any => true,
                KeyFilter::Include(k) => from <= k && k <= to,
                KeyFilter::Within(f, t) => f <= to && from <= t,
            },
        }
    }
}

/// Clones a byte buffer; the copy holds the same bytes.
pub fn clone_bytes(v: &Vec<u8>) -> (r: Vec<u8>)
    ensures
        r@ == v@,
{
    let r = v.clone();
    proof {
        assert(r@ =~= v@);
    }
    r
}

impl Clone for Record {
    /// The copy carries the same payload, keys and timestamp.
    fn clone(&self) -> (r: Self)
        ensures
            r@ == self@,
    {
        Record {
            payload: clone_bytes(&self.payload),
            keys: self.keys,
            created_at: self.created_at,
        }
    }
}

fn key_in_filter_exec(key: u64, filter: KeyFilter) -> (r: bool)
    ensures
        r == key_in_filter(key, filter),
{
    match filter {
        KeyFilter::Any => true,
        KeyFilter::Include(k) => key == k,
        KeyFilter::Within(from, to) => from <= key && key <= to,
    }
}

/// CRC-32-Castagnoli of a byte string. The checksum is a pure function of
/// the bytes; its value is not modelled here.
pub uninterp spec fn crc32c_of(data: Seq<u8>) -> u32;

/// Relies on crc32c::crc32c: the CRC-32-Castagnoli digest, a function of
/// the input bytes alone.
#[verifier::external_body]
fn crc32c_digest(data: &[u8]) -> (r: u32)
    ensures
        r == crc32c_of(data@),
{
    crc32c::crc32c(data)
}

/// The header and payload part of a record value: everything the trailing
/// checksum covers.
pub open spec fn record_value_prefix(payload: Seq<u8>, flags: u8) -> Seq<u8> {
    seq![RECORD_FORMAT_VERSION, flags] + be_bytes_of_u32(payload.len() as u32) + payload
}

/// The exact serialized form of a record value.
pub open spec fn record_value_bytes(payload: Seq<u8>, flags: u8) -> Seq<u8> {
    record_value_prefix(payload, flags)
        + be_bytes_of_u32(crc32c_of(record_value_prefix(payload, flags)))
}

/// A value is well formed when it is long enough, carries the supported
/// version, its length field matches the payload it frames, and its
/// trailing checksum covers everything before it.
pub open spec fn record_value_well_formed(data: Seq<u8>) -> bool {
    &&& data.len() >= RECORD_VALUE_OVERHEAD
    &&& data[0] == RECORD_FORMAT_VERSION
    &&& u32_of_be_bytes(data.subrange(2, 6)) == data.len() - RECORD_VALUE_OVERHEAD
    &&& u32_of_be_bytes(data.subrange(data.len() - 4, data.len() as int))
        == crc32c_of(data.subrange(0, data.len() - 4))
}

/// Why a record value was rejected.
#[derive(Debug, Clone, Copy, PartialEq, Eq, Structural)]
pub enum DecodeError {
    TooShort,
    UnsupportedVersion,
    LengthMismatch,
    ChecksumMismatch,
}

/// A record value read back from storage.
#[derive(Debug, PartialEq, Eq)]
pub struct DecodedValue {
    pub payload: Vec<u8>,
    pub compressed: bool,
}

/// Serializes a payload into the record value format.
pub fn encode_record_value(payload: &Vec<u8>, compressed: bool) -> (r: Vec<u8>)
    requires
        payload@.len() <= u32::MAX,
        payload@.len() + RECORD_VALUE_OVERHEAD <= usize::MAX,
    ensures
        r@ == record_value_bytes(payload@, if compressed { RECORD_FLAG_COMPRESSED } else { 0u8 }),
        record_value_well_formed(r@),
{
    let flags: u8 = if compressed { RECORD_FLAG_COMPRESSED } else { 0 };
    let mut buf: Vec<u8> = Vec::new();
    buf.push(RECORD_FORMAT_VERSION);
    buf.push(flags);
    put_u32_be(&mut buf, payload.len() as u32);
    let mut i: usize = 0;
    while i < payload.len()
        invariant
            i <= payload@.len(),
            payload@.len() <= u32::MAX,
            buf@ == record_value_prefix(payload@, flags).subrange(0, 6 + i),
        decreases payload@.len() - i,
    {
        assert(record_value_prefix(payload@, flags)[6 + i] == payload@[i as int]);
        buf.push(payload[i]);
        assert(buf@ =~= record_value_prefix(payload@, flags).subrange(0, 6 + i + 1));
        i += 1;
    }
    assert(buf@ =~= record_value_prefix(payload@, flags));
    let crc = crc32c_digest(buf.as_slice());
    put_u32_be(&mut buf, crc);
    proof {
        lemma_record_value_well_formed(payload@, flags);
    }
    buf
}

/// Reads a record value back, rejecting malformed input exactly as the
/// format demands: a value too short to frame anything, an unsupported
/// version, a length field that disagrees with the value's size, or a
/// checksum that does not match.
pub fn decode_record_value(data: &[u8]) -> (r: Result<DecodedValue, DecodeError>)
    ensures
        r is Ok <==> record_value_well_formed(data@),
        r matches Ok(d) ==> {
            &&& d.payload@ == data@.subrange(6, data@.len() - 4)
            &&& d.compressed == ((data@[1] & RECORD_FLAG_COMPRESSED) == RECORD_FLAG_COMPRESSED)
        },
        r == Err::<DecodedValue, DecodeError>(DecodeError::TooShort)
            <==> data@.len() < RECORD_VALUE_OVERHEAD,
        r == Err::<DecodedValue, DecodeError>(DecodeError::UnsupportedVersion) <==> {
            &&& data@.len() >= RECORD_VALUE_OVERHEAD
            &&& data@[0] != RECORD_FORMAT_VERSION
        },
        r == Err::<DecodedValue, DecodeError>(DecodeError::LengthMismatch) <==> {
            &&& data@.len() >= RECORD_VALUE_OVERHEAD
            &&& data@[0] == RECORD_FORMAT_VERSION
            &&& u32_of_be_bytes(data@.subrange(2, 6)) != data@.len() - RECORD_VALUE_OVERHEAD
        },
{
    if data.len() < RECORD_VALUE_OVERHEAD {
        return Err(DecodeError::TooShort);
    }
    if data[0] != RECORD_FORMAT_VERSION {
        return Err(DecodeError::UnsupportedVersion);
    }
    let body_len = get_u32_be(data, 2);
    if body_len as usize != data.len() - RECORD_VALUE_OVERHEAD {
        return Err(DecodeError::LengthMismatch);
    }
    let checksum_pos = data.len() - 4;
    let stored_crc = get_u32_be(data, checksum_pos);
    let computed_crc = crc32c_digest(vstd::slice::slice_subrange(data, 0, checksum_pos));
    if stored_crc != computed_crc {
        return Err(DecodeError::ChecksumMismatch);
    }
    let mut payload: Vec<u8> = Vec::new();
    let mut i: usize = 6;
    while i < checksum_pos
        invariant
            6 <= i <= checksum_pos,
            checksum_pos == data@.len() - 4,
            data@.len() >= RECORD_VALUE_OVERHEAD,
            payload@ == data@.subrange(6, i as int),
        decreases checksum_pos - i,
    {
        payload.push(data[i]);
        assert(payload@ =~= data@.subrange(6, i + 1));
        i += 1;
    }
    let compressed = (data[1] & RECORD_FLAG_COMPRESSED) == RECORD_FLAG_COMPRESSED;
    Ok(DecodedValue { payload, compressed })
}

/// A serialized record value is well formed, and decoding gives back the
/// payload and the compression flag that were encoded.
pub proof fn lemma_record_value_well_formed(payload: Seq<u8>, flags: u8)
    requires
        payload.len() <= u32::MAX,
    ensures
        record_value_well_formed(record_value_bytes(payload, flags)),
        record_value_bytes(payload, flags)
            .subrange(6, record_value_bytes(payload, flags).len() - 4) == payload,
        record_value_bytes(payload, flags)[1] == flags,
{
    let prefix = record_value_prefix(payload, flags);
    let all = record_value_bytes(payload, flags);
    assert(all.len() == payload.len() + RECORD_VALUE_OVERHEAD);
    assert(all.subrange(0, all.len() - 4) =~= prefix);
    assert(all.subrange(2, 6) =~= be_bytes_of_u32(payload.len() as u32));
    lemma_u32_be_round_trip(payload.len() as u32);
    assert(all.subrange(all.len() - 4, all.len() as int) =~= be_bytes_of_u32(crc32c_of(prefix)));
    lemma_u32_be_round_trip(crc32c_of(prefix));
    assert(all.subrange(6, all.len() - 4) =~= payload);
}

} // verus!
