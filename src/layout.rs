use vstd::bytes::*;
use vstd::prelude::*;

verus! {

/// The little-endian `u16` at byte `off` of `b`.
pub open spec fn u16_at(b: Seq<u8>, off: int) -> u16 {
    spec_u16_from_le_bytes(b.subrange(off, off + 2))
}

/// The little-endian `u32` at byte `off` of `b`.
pub open spec fn u32_at(b: Seq<u8>, off: int) -> u32 {
    spec_u32_from_le_bytes(b.subrange(off, off + 4))
}

/// The little-endian `u64` at byte `off` of `b`.
pub open spec fn u64_at(b: Seq<u8>, off: int) -> u64 {
    spec_u64_from_le_bytes(b.subrange(off, off + 8))
}

pub fn read_u16(b: &[u8], off: usize) -> (r: u16)
    requires
        off + 2 <= b@.len(),
    ensures
        r == u16_at(b@, off as int),
{
    let len: usize = b.len();
    assert(off + 2 <= len);
    u16_from_le_bytes(&b[off..off + 2])
}

pub fn read_u32(b: &[u8], off: usize) -> (r: u32)
    requires
        off + 4 <= b@.len(),
    ensures
        r == u32_at(b@, off as int),
{
    let len: usize = b.len();
    assert(off + 4 <= len);
    u32_from_le_bytes(&b[off..off + 4])
}

pub fn read_u64(b: &[u8], off: usize) -> (r: u64)
    requires
        off + 8 <= b@.len(),
    ensures
        r == u64_at(b@, off as int),
{
    let len: usize = b.len();
    assert(off + 8 <= len);
    u64_from_le_bytes(&b[off..off + 8])
}

/// A copy of bytes `start .. end` of `b`.
pub fn copy_bytes(b: &[u8], start: usize, end: usize) -> (r: Vec<u8>)
    requires
        start <= end <= b@.len(),
    ensures
        r@ == b@.subrange(start as int, end as int),
{
    vstd::slice::slice_to_vec(&b[start..end])
}

/// Whether bytes `start .. start + pattern.len()` of `b` exist and equal `pattern`.
pub fn bytes_equal_at(b: &[u8], start: usize, pattern: &[u8]) -> (r: bool)
    ensures
        r == (start + pattern@.len() <= b@.len() && b@.subrange(
            start as int,
            start + pattern@.len(),
        ) == pattern@),
{
    if start > b.len() || pattern.len() > b.len() - start {
        return false;
    }
    let len: usize = b.len();
    let mut i: usize = 0;
    while i < pattern.len()
        invariant
            i <= pattern@.len(),
            start + pattern@.len() <= b@.len(),
            b@.len() <= usize::MAX,
            forall|j: int| 0 <= j < i ==> b@[start + j] == pattern@[j],
        decreases pattern@.len() - i,
    {
        if b[start + i] != pattern[i] {
            assert(b@.subrange(start as int, start + pattern@.len())[i as int] != pattern@[i as int]);
            return false;
        }
        i = i + 1;
    }
    assert(b@.subrange(start as int, start + pattern@.len()) =~= pattern@);
    true
}

} // verus!
