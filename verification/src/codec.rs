//! Big-endian integer codecs underlying every on-disk key and record format.

use vstd::prelude::*;

verus! {

/// The eight big-endian bytes of `x`.
pub open spec fn be_bytes_of_u64(x: u64) -> Seq<u8> {
    seq![
        (x >> 56) as u8,
        (x >> 48) as u8,
        (x >> 40) as u8,
        (x >> 32) as u8,
        (x >> 24) as u8,
        (x >> 16) as u8,
        (x >> 8) as u8,
        x as u8,
    ]
}

/// The value read back from eight big-endian bytes.
pub open spec fn u64_of_be_bytes(s: Seq<u8>) -> u64
    recommends
        s.len() == 8,
{
    ((s[0] as u64) << 56) | ((s[1] as u64) << 48) | ((s[2] as u64) << 40)
        | ((s[3] as u64) << 32) | ((s[4] as u64) << 24) | ((s[5] as u64) << 16)
        | ((s[6] as u64) << 8) | (s[7] as u64)
}

/// The four big-endian bytes of `x`.
pub open spec fn be_bytes_of_u32(x: u32) -> Seq<u8> {
    seq![(x >> 24) as u8, (x >> 16) as u8, (x >> 8) as u8, x as u8]
}

/// The value read back from four big-endian bytes.
pub open spec fn u32_of_be_bytes(s: Seq<u8>) -> u32
    recommends
        s.len() == 4,
{
    ((s[0] as u32) << 24) | ((s[1] as u32) << 16) | ((s[2] as u32) << 8) | (s[3] as u32)
}

/// Writing then reading eight big-endian bytes gives the value back.
pub proof fn lemma_u64_be_round_trip(x: u64)
    ensures
        u64_of_be_bytes(be_bytes_of_u64(x)) == x,
{
    assert((((x >> 56) as u8 as u64) << 56) | (((x >> 48) as u8 as u64) << 48)
        | (((x >> 40) as u8 as u64) << 40) | (((x >> 32) as u8 as u64) << 32)
        | (((x >> 24) as u8 as u64) << 24) | (((x >> 16) as u8 as u64) << 16)
        | (((x >> 8) as u8 as u64) << 8) | (x as u8 as u64) == x) by (bit_vector);
}

/// Writing then reading four big-endian bytes gives the value back.
pub proof fn lemma_u32_be_round_trip(x: u32)
    ensures
        u32_of_be_bytes(be_bytes_of_u32(x)) == x,
{
    assert((((x >> 24) as u8 as u32) << 24) | (((x >> 16) as u8 as u32) << 16)
        | (((x >> 8) as u8 as u32) << 8) | (x as u8 as u32) == x) by (bit_vector);
}

/// Reading four bytes as a value and writing the value back gives the
/// same four bytes.
pub proof fn lemma_u32_be_extensional(s: Seq<u8>)
    requires
        s.len() == 4,
    ensures
        be_bytes_of_u32(u32_of_be_bytes(s)) =~= s,
{
    let b0 = s[0];
    let b1 = s[1];
    let b2 = s[2];
    let b3 = s[3];
    assert(((((b0 as u32) << 24) | ((b1 as u32) << 16) | ((b2 as u32) << 8) | (b3 as u32)) >> 24)
        as u8 == b0 && ((((b0 as u32) << 24) | ((b1 as u32) << 16) | ((b2 as u32) << 8) | (
    b3 as u32)) >> 16) as u8 == b1 && ((((b0 as u32) << 24) | ((b1 as u32) << 16) | ((
    b2 as u32) << 8) | (b3 as u32)) >> 8) as u8 == b2 && (((b0 as u32) << 24) | ((b1 as u32)
        << 16) | ((b2 as u32) << 8) | (b3 as u32)) as u8 == b3) by (bit_vector);
}

/// Reading eight bytes as a value and writing the value back gives the
/// same eight bytes.
pub proof fn lemma_u64_be_extensional(s: Seq<u8>)
    requires
        s.len() == 8,
    ensures
        be_bytes_of_u64(u64_of_be_bytes(s)) =~= s,
{
    let b0 = s[0];
    let b1 = s[1];
    let b2 = s[2];
    let b3 = s[3];
    let b4 = s[4];
    let b5 = s[5];
    let b6 = s[6];
    let b7 = s[7];
    let x = u64_of_be_bytes(s);
    assert(x == ((b0 as u64) << 56) | ((b1 as u64) << 48) | ((b2 as u64) << 40) | ((b3 as u64)
        << 32) | ((b4 as u64) << 24) | ((b5 as u64) << 16) | ((b6 as u64) << 8) | (b7 as u64));
    assert({
        let y = ((b0 as u64) << 56) | ((b1 as u64) << 48) | ((b2 as u64) << 40) | ((b3 as u64)
            << 32) | ((b4 as u64) << 24) | ((b5 as u64) << 16) | ((b6 as u64) << 8) | (
        b7 as u64);
        (y >> 56) as u8 == b0 && (y >> 48) as u8 == b1 && (y >> 40) as u8 == b2 && (y >> 32)
            as u8 == b3 && (y >> 24) as u8 == b4 && (y >> 16) as u8 == b5 && (y >> 8) as u8
            == b6 && y as u8 == b7
    }) by (bit_vector);
}

/// Appends the eight big-endian bytes of `x` to `buf`.
pub fn put_u64_be(buf: &mut Vec<u8>, x: u64)
    requires
        old(buf)@.len() + 8 <= usize::MAX,
    ensures
        final(buf)@ == old(buf)@ + be_bytes_of_u64(x),
{
    buf.push((x >> 56) as u8);
    buf.push((x >> 48) as u8);
    buf.push((x >> 40) as u8);
    buf.push((x >> 32) as u8);
    buf.push((x >> 24) as u8);
    buf.push((x >> 16) as u8);
    buf.push((x >> 8) as u8);
    buf.push(x as u8);
    assert(buf@ =~= old(buf)@ + be_bytes_of_u64(x));
}

/// Appends the four big-endian bytes of `x` to `buf`.
pub fn put_u32_be(buf: &mut Vec<u8>, x: u32)
    requires
        old(buf)@.len() + 4 <= usize::MAX,
    ensures
        final(buf)@ == old(buf)@ + be_bytes_of_u32(x),
{
    buf.push((x >> 24) as u8);
    buf.push((x >> 16) as u8);
    buf.push((x >> 8) as u8);
    buf.push(x as u8);
    assert(buf@ =~= old(buf)@ + be_bytes_of_u32(x));
}

/// Reads the eight big-endian bytes starting at `pos`.
pub fn get_u64_be(data: &[u8], pos: usize) -> (r: u64)
    requires
        pos + 8 <= data@.len(),
    ensures
        r == u64_of_be_bytes(data@.subrange(pos as int, pos + 8)),
{
    let r = ((data[pos] as u64) << 56) | ((data[pos + 1] as u64) << 48)
        | ((data[pos + 2] as u64) << 40) | ((data[pos + 3] as u64) << 32)
        | ((data[pos + 4] as u64) << 24) | ((data[pos + 5] as u64) << 16)
        | ((data[pos + 6] as u64) << 8) | (data[pos + 7] as u64);
    r
}

/// Reads the four big-endian bytes starting at `pos`.
pub fn get_u32_be(data: &[u8], pos: usize) -> (r: u32)
    requires
        pos + 4 <= data@.len(),
    ensures
        r == u32_of_be_bytes(data@.subrange(pos as int, pos + 4)),
{
    let r = ((data[pos] as u32) << 24) | ((data[pos + 1] as u32) << 16)
        | ((data[pos + 2] as u32) << 8) | (data[pos + 3] as u32);
    r
}

} // verus!
