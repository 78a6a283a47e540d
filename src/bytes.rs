//! Little-endian fixed-width integers over byte buffers.
use vstd::prelude::*;

verus! {

/// The unsigned value of the four little-endian bytes of `b` starting at `i`.
pub open spec fn le32(b: Seq<u8>, i: int) -> int {
    b[i] + 256 * b[i + 1] + 65536 * b[i + 2] + 16777216 * b[i + 3]
}

/// The unsigned value of the two little-endian bytes of `b` starting at `i`.
pub open spec fn le16(b: Seq<u8>, i: int) -> int {
    b[i] + 256 * b[i + 1]
}

/// The four little-endian bytes of `v`.
pub open spec fn le32_bytes(v: u32) -> Seq<u8> {
    seq![(v % 256) as u8, ((v / 256) % 256) as u8, ((v / 65536) % 256) as u8, (v / 16777216) as u8]
}

/// `c` with the four bytes at `at` replaced by the little-endian bytes of `v`.
pub open spec fn put_u32(c: Seq<u8>, at: int, v: u32) -> Seq<u8> {
    c.subrange(0, at) + le32_bytes(v) + c.subrange(at + 4, c.len() as int)
}

/// `c` with the bytes from `at` on replaced by `r`.
pub open spec fn put_region(c: Seq<u8>, at: int, r: Seq<u8>) -> Seq<u8> {
    c.subrange(0, at) + r + c.subrange(at + r.len(), c.len() as int)
}

/// `n` zero bytes.
pub open spec fn zeros(n: int) -> Seq<u8> {
    Seq::new(n as nat, |k: int| 0u8)
}

/// Reads the unsigned 32-bit little-endian integer at the start of `buf`.
pub fn read_uint32_le(buf: &[u8]) -> (r: u32)
    requires
        buf@.len() >= 4,
    ensures
        r == le32(buf@, 0),
{
    let b0 = buf[0] as u32;
    let b1 = buf[1] as u32;
    let b2 = buf[2] as u32;
    let b3 = buf[3] as u32;
    b0 + 256 * b1 + 65536 * b2 + 16777216 * b3
}

/// Reads the unsigned 16-bit little-endian integer at the start of `buf`.
pub fn read_uint16_le(buf: &[u8]) -> (r: u16)
    requires
        buf@.len() >= 2,
    ensures
        r == le16(buf@, 0),
{
    let b0 = buf[0] as u16;
    let b1 = buf[1] as u16;
    b0 + 256 * b1
}

/// Writes `val` as four little-endian bytes at the start of `buf`.
pub fn write_uint32_le(buf: &mut [u8], val: u32)
    requires
        old(buf)@.len() >= 4,
    ensures
        final(buf)@ == le32_bytes(val) + old(buf)@.subrange(4, old(buf)@.len() as int),
{
    buf[0] = (val % 256) as u8;
    buf[1] = ((val / 256) % 256) as u8;
    buf[2] = ((val / 65536) % 256) as u8;
    buf[3] = (val / 16777216) as u8;
    assert(buf@ =~= le32_bytes(val) + old(buf)@.subrange(4, old(buf)@.len() as int));
}

} // verus!
