//! Little-endian byte strings of fixed-width integers, and appending them to
//! a byte buffer.

use byteorder::{LittleEndian, WriteBytesExt};
use vstd::prelude::*;

verus! {

/// The four bytes of `value`, least significant first.
#[verifier::opaque]
pub open spec fn u32_le_bytes(value: u32) -> Seq<u8> {
    seq![
        (value % 0x100) as u8,
        (value / 0x100 % 0x100) as u8,
        (value / 0x1_0000 % 0x100) as u8,
        (value / 0x100_0000 % 0x100) as u8,
    ]
}

/// The eight bytes of `value`, least significant first.
#[verifier::opaque]
pub open spec fn u64_le_bytes(value: u64) -> Seq<u8> {
    seq![
        (value % 0x100) as u8,
        (value / 0x100 % 0x100) as u8,
        (value / 0x1_0000 % 0x100) as u8,
        (value / 0x100_0000 % 0x100) as u8,
        (value / 0x1_0000_0000 % 0x100) as u8,
        (value / 0x100_0000_0000 % 0x100) as u8,
        (value / 0x1_0000_0000_0000 % 0x100) as u8,
        (value / 0x100_0000_0000_0000 % 0x100) as u8,
    ]
}

/// The number whose little-endian bytes are the first four of `bytes`.
pub open spec fn u32_from_le_bytes(bytes: Seq<u8>) -> u32
    recommends
        bytes.len() >= 4,
{
    (bytes[0] + bytes[1] * 0x100 + bytes[2] * 0x1_0000 + bytes[3] * 0x100_0000) as u32
}

/// The number whose little-endian bytes are the first eight of `bytes`.
pub open spec fn u64_from_le_bytes(bytes: Seq<u8>) -> u64
    recommends
        bytes.len() >= 8,
{
    (bytes[0] + bytes[1] * 0x100 + bytes[2] * 0x1_0000 + bytes[3] * 0x100_0000 + bytes[4]
        * 0x1_0000_0000 + bytes[5] * 0x100_0000_0000 + bytes[6] * 0x1_0000_0000_0000 + bytes[7]
        * 0x100_0000_0000_0000) as u64
}

/// Reading back the bytes of a 32-bit number gives the number.
pub proof fn lemma_u32_le_round_trip(value: u32)
    ensures
        u32_le_bytes(value).len() == 4,
        u32_from_le_bytes(u32_le_bytes(value)) == value,
{
    reveal(u32_le_bytes);
}

/// Reading back the bytes of a 64-bit number gives the number.
pub proof fn lemma_u64_le_round_trip(value: u64)
    ensures
        u64_le_bytes(value).len() == 8,
        u64_from_le_bytes(u64_le_bytes(value)) == value,
{
    reveal(u64_le_bytes);
    assert(value == (value % 0x100) + (value / 0x100 % 0x100) * 0x100 + (value / 0x1_0000 % 0x100)
        * 0x1_0000 + (value / 0x100_0000 % 0x100) * 0x100_0000 + (value / 0x1_0000_0000 % 0x100)
        * 0x1_0000_0000 + (value / 0x100_0000_0000 % 0x100) * 0x100_0000_0000 + (value
        / 0x1_0000_0000_0000 % 0x100) * 0x1_0000_0000_0000 + (value / 0x100_0000_0000_0000 % 0x100)
        * 0x100_0000_0000_0000) by (bit_vector);
}

/// Calls `byteorder::WriteBytesExt::write_u32` with `LittleEndian` on the
/// buffer, which appends the four little-endian bytes of `value`. A `Vec<u8>`
/// never holds more than `isize::MAX` bytes.
#[verifier::external_body]
pub(crate) fn put_u32_le(buf: &mut Vec<u8>, value: u32)
    ensures
        final(buf)@ == old(buf)@ + u32_le_bytes(value),
        final(buf)@.len() <= isize::MAX,
{
    buf.write_u32::<LittleEndian>(value).unwrap();
}

/// Calls `byteorder::WriteBytesExt::write_u64` with `LittleEndian` on the
/// buffer, which appends the eight little-endian bytes of `value`. A `Vec<u8>`
/// never holds more than `isize::MAX` bytes.
#[verifier::external_body]
pub(crate) fn put_u64_le(buf: &mut Vec<u8>, value: u64)
    ensures
        final(buf)@ == old(buf)@ + u64_le_bytes(value),
        final(buf)@.len() <= isize::MAX,
{
    buf.write_u64::<LittleEndian>(value).unwrap();
}

} // verus!
