//! Little-endian integers in byte sequences.

use vstd::prelude::*;

verus! {

/// The 16-bit little-endian number at offset `at`.
pub open spec fn le16(s: Seq<u8>, at: int) -> int {
    s[at] + 0x100 * s[at + 1]
}

/// The 32-bit little-endian number at offset `at`.
pub open spec fn le32(s: Seq<u8>, at: int) -> int {
    le16(s, at) + 0x1_0000 * le16(s, at + 2)
}

/// The 64-bit little-endian number at offset `at`.
pub open spec fn le64(s: Seq<u8>, at: int) -> int {
    le32(s, at) + 0x1_0000_0000 * le32(s, at + 4)
}

/// Read the 16-bit number at offset `at`.
pub fn u16le(b: &[u8], at: usize) -> (r: u16)
    requires
        at + 2 <= b@.len(),
    ensures
        r == le16(b@, at as int),
{
    b[at] as u16 + 0x100 * (b[at + 1] as u16)
}

/// Read the 32-bit number at offset `at`.
pub fn u32le(b: &[u8], at: usize) -> (r: u32)
    requires
        at + 4 <= b@.len(),
    ensures
        r == le32(b@, at as int),
{
    let len: usize = b.len();
    assert(at + 4 <= len);
    u16le(b, at) as u32 + 0x1_0000 * (u16le(b, at + 2) as u32)
}

/// Read the 64-bit number at offset `at`.
pub fn u64le(b: &[u8], at: usize) -> (r: u64)
    requires
        at + 8 <= b@.len(),
    ensures
        r == le64(b@, at as int),
{
    let len: usize = b.len();
    assert(at + 8 <= len);
    u32le(b, at) as u64 + 0x1_0000_0000 * (u32le(b, at + 4) as u64)
}

/// Append `more` to `to`.
pub fn append_bytes(to: &mut Vec<u8>, more: &[u8])
    ensures
        final(to)@ == old(to)@ + more@,
{
    let ghost before = to@;
    to.extend_from_slice(more);
    assert(to@ =~= before + more@);
}

} // verus!
