//! Big-endian integers inside byte buffers, read and written through `byteorder`.
use vstd::prelude::*;
use byteorder::{BigEndian, ByteOrder};

verus! {

/// The big-endian 16-bit integer held by `s[i]` and `s[i + 1]`.
pub open spec fn be16(s: Seq<u8>, i: int) -> int {
    s[i] * 256 + s[i + 1]
}

/// The big-endian 32-bit integer held by `s[i..i + 4]`.
pub open spec fn be32(s: Seq<u8>, i: int) -> int {
    ((s[i] * 256 + s[i + 1]) * 256 + s[i + 2]) * 256 + s[i + 3]
}

/// The two big-endian bytes of `v`.
pub open spec fn be16_bytes(v: u16) -> Seq<u8> {
    seq![(v / 256) as u8, (v % 256) as u8]
}

/// `s` with the two bytes at `i` replaced by the big-endian encoding of `v`.
pub open spec fn put16(s: Seq<u8>, i: int, v: u16) -> Seq<u8> {
    s.update(i, (v / 256) as u8).update(i + 1, (v % 256) as u8)
}

/// `BigEndian::read_u16` applied to `buf[offset..]`: the big-endian value of the
/// two bytes at `offset`. The function indexes `buf[..2]`, so two bytes must be there.
#[verifier::external_body]
pub(crate) fn read_u16_at(buf: &[u8], offset: usize) -> (v: u16)
    requires
        offset + 2 <= buf@.len(),
    ensures
        v == be16(buf@, offset as int),
{
    BigEndian::read_u16(&buf[offset..])
}

/// `BigEndian::read_u32` applied to `buf[offset..]`: the big-endian value of the
/// four bytes at `offset`. The function indexes `buf[..4]`, so four bytes must be there.
#[verifier::external_body]
pub(crate) fn read_u32_at(buf: &[u8], offset: usize) -> (v: u32)
    requires
        offset + 4 <= buf@.len(),
    ensures
        v == be32(buf@, offset as int),
{
    BigEndian::read_u32(&buf[offset..])
}

/// `BigEndian::write_u16` applied to `buf[offset..]`: the two bytes at `offset`
/// become the big-endian encoding of `v`; nothing else changes.
#[verifier::external_body]
pub(crate) fn write_u16_at(buf: &mut Vec<u8>, offset: usize, v: u16)
    requires
        offset + 2 <= old(buf)@.len(),
    ensures
        final(buf)@ == put16(old(buf)@, offset as int, v),
{
    BigEndian::write_u16(&mut buf[offset..], v)
}

} // verus!
