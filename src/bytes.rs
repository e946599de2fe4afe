//! Little-endian words as they are laid out in an archive.
use vstd::prelude::*;

verus! {

/// The unsigned 32-bit little-endian word that starts at byte `i` of `b`.
pub open spec fn u32_le(b: Seq<u8>, i: int) -> int {
    b[i] as int + 256 * b[i + 1] as int + 65536 * b[i + 2] as int + 16777216 * b[i + 3] as int
}

/// The signed (two's complement) 32-bit little-endian word at byte `i` of `b`.
pub open spec fn i32_le(b: Seq<u8>, i: int) -> int {
    if u32_le(b, i) >= 0x8000_0000 {
        u32_le(b, i) - 0x1_0000_0000
    } else {
        u32_le(b, i)
    }
}

/// Reads the unsigned little-endian word at byte `i`.
pub fn read_u32_le(buf: &[u8], i: usize) -> (r: u32)
    requires
        i + 4 <= buf@.len(),
    ensures
        r as int == u32_le(buf@, i as int),
{
    let b0 = buf[i] as u32;
    let b1 = buf[i + 1] as u32;
    let b2 = buf[i + 2] as u32;
    let b3 = buf[i + 3] as u32;
    assert(b0 + 256 * b1 + 65536 * b2 + 16777216 * b3 <= 0xffff_ffff) by (nonlinear_arith)
        requires
            b0 <= 255,
            b1 <= 255,
            b2 <= 255,
            b3 <= 255,
    ;
    b0 + 256 * b1 + 65536 * b2 + 16777216 * b3
}

/// Reads the signed little-endian word at byte `i`, widened to 64 bits.
pub fn read_i32_le(buf: &[u8], i: usize) -> (r: i64)
    requires
        i + 4 <= buf@.len(),
    ensures
        r as int == i32_le(buf@, i as int),
{
    let u = read_u32_le(buf, i);
    if u >= 0x8000_0000 {
        u as i64 - 0x1_0000_0000
    } else {
        u as i64
    }
}

} // verus!
