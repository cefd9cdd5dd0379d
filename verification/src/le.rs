//! Little-endian integers in byte strings.

use vstd::prelude::*;

verus! {

/// The 16-bit value whose little-endian bytes start at `off`.
pub open spec fn le16_at(s: Seq<u8>, off: int) -> int {
    s[off] + 256 * s[off + 1]
}

/// The 32-bit value whose little-endian bytes start at `off`.
pub open spec fn le32_at(s: Seq<u8>, off: int) -> int {
    s[off] + 256 * s[off + 1] + 65536 * s[off + 2] + 16777216 * s[off + 3]
}

/// The 64-bit value whose little-endian bytes start at `off`.
pub open spec fn le64_at(s: Seq<u8>, off: int) -> int {
    le32_at(s, off) + 4294967296 * le32_at(s, off + 4)
}

/// The two little-endian bytes of `x`.
pub open spec fn bytes16(x: u16) -> Seq<u8> {
    seq![(x % 256) as u8, (x / 256) as u8]
}

/// The four little-endian bytes of `x`.
pub open spec fn bytes32(x: u32) -> Seq<u8> {
    seq![
        (x % 256) as u8,
        ((x / 256) % 256) as u8,
        ((x / 65536) % 256) as u8,
        (x / 16777216) as u8,
    ]
}

/// Reading back what `bytes16` wrote gives the value written.
pub proof fn lemma_le16_roundtrip(x: u16, s: Seq<u8>, off: int)
    requires
        0 <= off,
        off + 2 <= s.len(),
        s.subrange(off, off + 2) == bytes16(x),
    ensures
        le16_at(s, off) == x,
{
    let b = s.subrange(off, off + 2);
    assert(b[0] == s[off] && b[1] == s[off + 1]);
}

/// Reading back what `bytes32` wrote gives the value written.
pub proof fn lemma_le32_roundtrip(x: u32, s: Seq<u8>, off: int)
    requires
        0 <= off,
        off + 4 <= s.len(),
        s.subrange(off, off + 4) == bytes32(x),
    ensures
        le32_at(s, off) == x,
{
    let b = s.subrange(off, off + 4);
    assert(b[0] == s[off] && b[1] == s[off + 1] && b[2] == s[off + 2] && b[3] == s[off + 3]);
}

pub fn read_u16(b: &[u8], off: usize) -> (r: u16)
    requires
        off + 2 <= b@.len(),
    ensures
        r == le16_at(b@, off as int),
{
    (b[off] as u16) + 256 * (b[off + 1] as u16)
}

pub fn read_u32(b: &[u8], off: usize) -> (r: u32)
    requires
        off + 4 <= b@.len(),
    ensures
        r == le32_at(b@, off as int),
{
    (b[off] as u32) + 256 * (b[off + 1] as u32) + 65536 * (b[off + 2] as u32) + 16777216 * (b[off
        + 3] as u32)
}

pub fn read_u64(b: &[u8], off: usize) -> (r: u64)
    requires
        off + 8 <= b@.len(),
    ensures
        r == le64_at(b@, off as int),
{
    let n = b.len();
    assert(off + 8 <= n);
    let lo: u64 = read_u32(b, off) as u64;
    let hi: u64 = read_u32(b, off + 4) as u64;
    lo + 4294967296 * hi
}

/// Appends the two little-endian bytes of `x`.
pub fn put_u16(out: &mut Vec<u8>, x: u16)
    ensures
        final(out)@ == old(out)@ + bytes16(x),
{
    out.push((x % 256) as u8);
    out.push((x / 256) as u8);
    assert(out@ =~= old(out)@ + bytes16(x));
}

/// Appends the four little-endian bytes of `x`.
pub fn put_u32(out: &mut Vec<u8>, x: u32)
    ensures
        final(out)@ == old(out)@ + bytes32(x),
{
    out.push((x % 256) as u8);
    out.push(((x / 256) % 256) as u8);
    out.push(((x / 65536) % 256) as u8);
    out.push((x / 16777216) as u8);
    assert(out@ =~= old(out)@ + bytes32(x));
}

/// Appends the bytes of `src` to `out`.
pub fn put_bytes(out: &mut Vec<u8>, src: &[u8])
    ensures
        final(out)@ == old(out)@ + src@,
{
    let ghost start = out@;
    let n = src.len();
    let mut i: usize = 0;
    while i < n
        invariant
            n == src@.len(),
            i <= n,
            out@ == start + src@.take(i as int),
        decreases n - i,
    {
        out.push(src[i]);
        i = i + 1;
        assert(out@ =~= start + src@.take(i as int));
    }
    assert(src@.take(n as int) =~= src@);
}

} // verus!
