//! Fixed-size binary codec. All multi-byte integers in the durable files
//! are little-endian; keys are serialized big-endian so that byte order
//! agrees with numeric order.

use vstd::prelude::*;

verus! {

/// The u16 stored little-endian at `off`.
pub open spec fn decode_u16(b: Seq<u8>, off: int) -> u16 {
    (b[off] + 256 * (b[off + 1] as int)) as u16
}

/// The u32 stored little-endian at `off`.
pub open spec fn decode_u32(b: Seq<u8>, off: int) -> u32 {
    (b[off] + 0x100 * (b[off + 1] as int) + 0x1_0000 * (b[off + 2] as int) + 0x100_0000 * (b[off
        + 3] as int)) as u32
}

/// The u64 stored little-endian at `off`.
pub open spec fn decode_u64(b: Seq<u8>, off: int) -> u64 {
    (decode_u32(b, off) + 0x1_0000_0000 * (decode_u32(b, off + 4) as int)) as u64
}

/// The u32 stored big-endian at `off`.
pub open spec fn decode_u32_be(b: Seq<u8>, off: int) -> u32 {
    ((b[off] as int) * 0x100_0000 + (b[off + 1] as int) * 0x1_0000 + (b[off + 2] as int) * 0x100
        + (b[off + 3] as int)) as u32
}

/// The u64 stored big-endian at `off`.
pub open spec fn decode_u64_be(b: Seq<u8>, off: int) -> u64 {
    ((decode_u32_be(b, off) as int) * 0x1_0000_0000 + decode_u32_be(b, off + 4)) as u64
}

/// Append `x` big-endian.
pub fn put_u32_be(out: &mut Vec<u8>, x: u32)
    ensures
        final(out)@.len() == old(out)@.len() + 4,
        forall|i: int| 0 <= i < old(out)@.len() ==> final(out)@[i] == old(out)@[i],
        decode_u32_be(final(out)@, old(out)@.len() as int) == x,
{
    out.push((x / 0x100_0000) as u8);
    out.push(((x / 0x1_0000) % 0x100) as u8);
    out.push(((x / 0x100) % 0x100) as u8);
    out.push((x % 0x100) as u8);
}

/// Append `x` little-endian.
pub fn put_u16_le(out: &mut Vec<u8>, x: u16)
    ensures
        final(out)@.len() == old(out)@.len() + 2,
        forall|i: int| 0 <= i < old(out)@.len() ==> final(out)@[i] == old(out)@[i],
        decode_u16(final(out)@, old(out)@.len() as int) == x,
{
    out.push((x % 256) as u8);
    out.push((x / 256) as u8);
}

/// Append `x` little-endian.
pub fn put_u32_le(out: &mut Vec<u8>, x: u32)
    ensures
        final(out)@.len() == old(out)@.len() + 4,
        forall|i: int| 0 <= i < old(out)@.len() ==> final(out)@[i] == old(out)@[i],
        decode_u32(final(out)@, old(out)@.len() as int) == x,
{
    out.push((x % 0x100) as u8);
    out.push(((x / 0x100) % 0x100) as u8);
    out.push(((x / 0x1_0000) % 0x100) as u8);
    out.push((x / 0x100_0000) as u8);
}

/// Append `x` little-endian.
#[verifier::rlimit(60)]
pub fn put_u64_le(out: &mut Vec<u8>, x: u64)
    ensures
        final(out)@.len() == old(out)@.len() + 8,
        forall|i: int| 0 <= i < old(out)@.len() ==> final(out)@[i] == old(out)@[i],
        decode_u64(final(out)@, old(out)@.len() as int) == x,
{
    let lo = (x % 0x1_0000_0000) as u32;
    let hi = (x / 0x1_0000_0000) as u32;
    put_u32_le(out, lo);
    put_u32_le(out, hi);
    proof {
        assert(decode_u32(out@, old(out)@.len() as int) == lo);
        assert(decode_u64(out@, old(out)@.len() as int) == x);
    }
}

/// Append `x` big-endian.
#[verifier::rlimit(60)]
pub fn put_u64_be(out: &mut Vec<u8>, x: u64)
    ensures
        final(out)@.len() == old(out)@.len() + 8,
        forall|i: int| 0 <= i < old(out)@.len() ==> final(out)@[i] == old(out)@[i],
        decode_u64_be(final(out)@, old(out)@.len() as int) == x,
{
    let hi = (x / 0x1_0000_0000) as u32;
    let lo = (x % 0x1_0000_0000) as u32;
    put_u32_be(out, hi);
    put_u32_be(out, lo);
    proof {
        assert(decode_u32_be(out@, old(out)@.len() as int) == hi);
        assert(decode_u64_be(out@, old(out)@.len() as int) == x);
    }
}

/// Read the u16 stored little-endian at `off`.
pub fn get_u16_le(b: &Vec<u8>, off: usize) -> (r: u16)
    requires
        off + 2 <= b@.len(),
    ensures
        r == decode_u16(b@, off as int),
{
    let n = b.len();
    (b[off] as u16) + 256 * (b[off + 1] as u16)
}

/// Read the u32 stored little-endian at `off`.
pub fn get_u32_le(b: &Vec<u8>, off: usize) -> (r: u32)
    requires
        off + 4 <= b@.len(),
    ensures
        r == decode_u32(b@, off as int),
{
    let n = b.len();
    (b[off] as u32) + 0x100 * (b[off + 1] as u32) + 0x1_0000 * (b[off + 2] as u32) + 0x100_0000
        * (b[off + 3] as u32)
}

/// Read the u64 stored little-endian at `off`.
pub fn get_u64_le(b: &Vec<u8>, off: usize) -> (r: u64)
    requires
        off + 8 <= b@.len(),
    ensures
        r == decode_u64(b@, off as int),
{
    let n = b.len();
    let lo = get_u32_le(b, off);
    let hi = get_u32_le(b, off + 4);
    (lo as u64) + 0x1_0000_0000 * (hi as u64)
}

/// Read the u64 stored big-endian at `off`.
pub fn get_u64_be(b: &Vec<u8>, off: usize) -> (r: u64)
    requires
        off + 8 <= b@.len(),
    ensures
        r == decode_u64_be(b@, off as int),
{
    let n = b.len();
    let hi = get_u32_be(b, off);
    let lo = get_u32_be(b, off + 4);
    (hi as u64) * 0x1_0000_0000 + (lo as u64)
}

/// Read the u32 stored big-endian at `off`.
pub fn get_u32_be(b: &Vec<u8>, off: usize) -> (r: u32)
    requires
        off + 4 <= b@.len(),
    ensures
        r == decode_u32_be(b@, off as int),
{
    let n = b.len();
    (b[off] as u32) * 0x100_0000 + (b[off + 1] as u32) * 0x1_0000 + (b[off + 2] as u32) * 0x100
        + (b[off + 3] as u32)
}

} // verus!
