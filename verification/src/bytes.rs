//! Little-endian reads from byte buffers.
use vstd::prelude::*;

verus! {

/// The little-endian `u16` stored at `s[off..off + 2]`.
pub open spec fn le_u16(s: Seq<u8>, off: int) -> u16 {
    (s[off] + 256 * s[off + 1]) as u16
}

/// The little-endian `u32` stored at `s[off..off + 4]`.
pub open spec fn le_u32(s: Seq<u8>, off: int) -> u32 {
    (s[off] + 256 * s[off + 1] + 65536 * s[off + 2] + 16777216 * s[off + 3]) as u32
}

/// Reads the little-endian `u16` at `buf[off..off + 2]`.
pub fn read_u16_le(buf: &[u8], off: usize) -> (r: u16)
    requires
        off + 2 <= buf@.len(),
    ensures
        r == le_u16(buf@, off as int),
{
    buf[off] as u16 + 256 * (buf[off + 1] as u16)
}

/// Reads the little-endian `u32` at `buf[off..off + 4]`.
pub fn read_u32_le(buf: &[u8], off: usize) -> (r: u32)
    requires
        off + 4 <= buf@.len(),
    ensures
        r == le_u32(buf@, off as int),
{
    buf[off] as u32 + 256 * (buf[off + 1] as u32) + 65536 * (buf[off + 2] as u32) + 16777216 * (
    buf[off + 3] as u32)
}

} // verus!
