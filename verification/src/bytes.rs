//! Little- and big-endian integer fields inside byte buffers.

use vstd::prelude::*;

verus! {

/// Little-endian u16 stored at `s[off..off + 2]`.
pub open spec fn le_u16(s: Seq<u8>, off: int) -> int {
    s[off] as int + 256 * s[off + 1] as int
}

/// Little-endian u32 stored at `s[off..off + 4]`.
pub open spec fn le_u32(s: Seq<u8>, off: int) -> int {
    s[off] as int + 256 * s[off + 1] as int + 65536 * s[off + 2] as int + 16777216 * s[off
        + 3] as int
}

/// Little-endian u64 stored at `s[off..off + 8]`.
pub open spec fn le_u64(s: Seq<u8>, off: int) -> int {
    le_u32(s, off) + 4294967296 * le_u32(s, off + 4)
}

/// Big-endian u32 stored at `s[off..off + 4]`.
pub open spec fn be_u32(s: Seq<u8>, off: int) -> int {
    16777216 * s[off] as int + 65536 * s[off + 1] as int + 256 * s[off + 2] as int + s[off
        + 3] as int
}

/// The four little-endian bytes of `v`.
pub open spec fn le_bytes32(v: int) -> Seq<u8> {
    seq![(v % 256) as u8, (v / 256 % 256) as u8, (v / 65536 % 256) as u8, (v / 16777216 % 256) as u8]
}

/// The eight little-endian bytes of `v`.
pub open spec fn le_bytes64(v: int) -> Seq<u8> {
    le_bytes32(v % 4294967296) + le_bytes32(v / 4294967296)
}

/// The four big-endian bytes of `v`.
pub open spec fn be_bytes32(v: int) -> Seq<u8> {
    seq![(v / 16777216 % 256) as u8, (v / 65536 % 256) as u8, (v / 256 % 256) as u8, (v % 256) as u8]
}

/// The two big-endian bytes of `v`.
pub open spec fn be_bytes16(v: int) -> Seq<u8> {
    seq![(v / 256 % 256) as u8, (v % 256) as u8]
}

/// The eight big-endian bytes of `v`.
pub open spec fn be_bytes64(v: int) -> Seq<u8> {
    be_bytes32(v / 4294967296 % 4294967296) + be_bytes32(v % 4294967296)
}

/// Reading back the little-endian encoding of a u32 gives the value.
pub proof fn lemma_le_bytes32(v: int)
    requires
        0 <= v < 0x1_0000_0000,
    ensures
        le_bytes32(v).len() == 4,
        le_u32(le_bytes32(v), 0) == v,
{
    let s = le_bytes32(v);
    assert(s[0] as int == v % 256);
    assert(s[1] as int == v / 256 % 256);
    assert(s[2] as int == v / 65536 % 256);
    assert(s[3] as int == v / 16777216 % 256);
    assert(v / 16777216 < 256);
}

/// Reading back the big-endian encoding of a u32 gives the value.
pub proof fn lemma_be_bytes32(v: int)
    requires
        0 <= v < 0x1_0000_0000,
    ensures
        be_bytes32(v).len() == 4,
        be_u32(be_bytes32(v), 0) == v,
{
    let s = be_bytes32(v);
    assert(s[3] as int == v % 256);
    assert(s[2] as int == v / 256 % 256);
    assert(s[1] as int == v / 65536 % 256);
    assert(s[0] as int == v / 16777216 % 256);
    assert(v / 16777216 < 256);
}

/// A big-endian u32 field reads back the value whose bytes it holds.
pub proof fn lemma_be_field(s: Seq<u8>, off: int, v: int)
    requires
        0 <= off,
        off + 4 <= s.len(),
        0 <= v < 0x1_0000_0000,
        s.subrange(off, off + 4) == be_bytes32(v),
    ensures
        be_u32(s, off) == v,
{
    lemma_be_bytes32(v);
    let t = s.subrange(off, off + 4);
    assert(t[0] == s[off] && t[1] == s[off + 1] && t[2] == s[off + 2] && t[3] == s[off + 3]);
}

/// A little-endian u32 field reads back the value whose bytes it holds.
pub proof fn lemma_le_field(s: Seq<u8>, off: int, v: int)
    requires
        0 <= off,
        off + 4 <= s.len(),
        0 <= v < 0x1_0000_0000,
        s.subrange(off, off + 4) == le_bytes32(v),
    ensures
        le_u32(s, off) == v,
{
    lemma_le_bytes32(v);
    let t = s.subrange(off, off + 4);
    assert(t[0] == s[off] && t[1] == s[off + 1] && t[2] == s[off + 2] && t[3] == s[off + 3]);
}

/// The four bytes of a little-endian u32 field are the encoding of the
/// value they hold.
pub proof fn lemma_le_u32_bytes(s: Seq<u8>, off: int)
    requires
        0 <= off,
        off + 4 <= s.len(),
    ensures
        0 <= le_u32(s, off) < 0x1_0000_0000,
        le_bytes32(le_u32(s, off)) == s.subrange(off, off + 4),
{
    let b0 = s[off] as int;
    let b1 = s[off + 1] as int;
    let b2 = s[off + 2] as int;
    let b3 = s[off + 3] as int;
    let v = le_u32(s, off);
    assert(v == b0 + 256 * b1 + 65536 * b2 + 16777216 * b3);
    assert(0 <= v < 0x1_0000_0000 && v % 256 == b0 && v / 256 % 256 == b1 && v / 65536 % 256 == b2
        && v / 16777216 % 256 == b3) by (nonlinear_arith)
        requires
            v == b0 + 256 * b1 + 65536 * b2 + 16777216 * b3,
            0 <= b0 < 256,
            0 <= b1 < 256,
            0 <= b2 < 256,
            0 <= b3 < 256,
    ;
    assert(le_bytes32(v) =~= s.subrange(off, off + 4));
}

/// Reads a little-endian u16 at `off`.
pub fn read_u16_le(b: &[u8], off: usize) -> (r: u16)
    requires
        off + 2 <= b@.len(),
    ensures
        r as int == le_u16(b@, off as int),
{
    b[off] as u16 + b[off + 1] as u16 * 256
}

/// Reads a little-endian u32 at `off`.
pub fn read_u32_le(b: &[u8], off: usize) -> (r: u32)
    requires
        off + 4 <= b@.len(),
    ensures
        r as int == le_u32(b@, off as int),
{
    b[off] as u32 + b[off + 1] as u32 * 256 + b[off + 2] as u32 * 65536 + b[off + 3] as u32
        * 16777216
}

/// Reads a little-endian u64 at `off`.
pub fn read_u64_le(b: &[u8], off: usize) -> (r: u64)
    requires
        off + 8 <= b@.len(),
    ensures
        r as int == le_u64(b@, off as int),
{
    let _n = b.len();
    let lo = read_u32_le(b, off) as u64;
    let hi = read_u32_le(b, off + 4) as u64;
    lo + hi * 4294967296
}

/// Reads a big-endian u32 at `off`.
pub fn read_u32_be(b: &[u8], off: usize) -> (r: u32)
    requires
        off + 4 <= b@.len(),
    ensures
        r as int == be_u32(b@, off as int),
{
    b[off] as u32 * 16777216 + b[off + 1] as u32 * 65536 + b[off + 2] as u32 * 256 + b[off
        + 3] as u32
}

/// Appends the little-endian bytes of `v`.
pub fn push_u32_le(out: &mut Vec<u8>, v: u32)
    ensures
        final(out)@ == old(out)@ + le_bytes32(v as int),
{
    out.push((v % 256) as u8);
    out.push((v / 256 % 256) as u8);
    out.push((v / 65536 % 256) as u8);
    out.push((v / 16777216 % 256) as u8);
    assert(out@ =~= old(out)@ + le_bytes32(v as int));
}

/// Appends the big-endian bytes of `v`.
pub fn push_u32_be(out: &mut Vec<u8>, v: u32)
    ensures
        final(out)@ == old(out)@ + be_bytes32(v as int),
{
    out.push((v / 16777216 % 256) as u8);
    out.push((v / 65536 % 256) as u8);
    out.push((v / 256 % 256) as u8);
    out.push((v % 256) as u8);
    assert(out@ =~= old(out)@ + be_bytes32(v as int));
}

/// Appends the big-endian bytes of `v`.
pub fn push_u16_be(out: &mut Vec<u8>, v: u16)
    ensures
        final(out)@ == old(out)@ + be_bytes16(v as int),
{
    out.push((v / 256 % 256) as u8);
    out.push((v % 256) as u8);
    assert(out@ =~= old(out)@ + be_bytes16(v as int));
}

/// Appends the big-endian bytes of `v`.
pub fn push_u64_be(out: &mut Vec<u8>, v: u64)
    ensures
        final(out)@ == old(out)@ + be_bytes64(v as int),
{
    push_u32_be(out, (v / 4294967296 % 4294967296) as u32);
    push_u32_be(out, (v % 4294967296) as u32);
    assert(out@ =~= old(out)@ + be_bytes64(v as int));
}

/// Appends the little-endian bytes of `v`.
pub fn push_u64_le(out: &mut Vec<u8>, v: u64)
    ensures
        final(out)@ == old(out)@ + le_bytes64(v as int),
{
    push_u32_le(out, (v % 4294967296) as u32);
    push_u32_le(out, (v / 4294967296) as u32);
    assert(out@ =~= old(out)@ + le_bytes64(v as int));
}

/// Overwrites `out[off..off + 4]` with the big-endian bytes of `v`.
pub fn set_u32_be(out: &mut Vec<u8>, off: usize, v: u32)
    requires
        off + 4 <= old(out)@.len(),
    ensures
        final(out)@ == old(out)@.subrange(0, off as int) + be_bytes32(v as int) + old(
            out,
        )@.subrange(off + 4, old(out)@.len() as int),
{
    let _n = out.len();
    out.set(off, (v / 16777216 % 256) as u8);
    out.set(off + 1, (v / 65536 % 256) as u8);
    out.set(off + 2, (v / 256 % 256) as u8);
    out.set(off + 3, (v % 256) as u8);
    assert(out@ =~= old(out)@.subrange(0, off as int) + be_bytes32(v as int) + old(
        out,
    )@.subrange(off + 4, old(out)@.len() as int));
}

/// Whether `b[off..]` starts with `tag`.
pub fn has_at(b: &[u8], off: usize, tag: &[u8]) -> (r: bool)
    ensures
        r == (off + tag@.len() <= b@.len() && b@.subrange(off as int, off + tag@.len())
            == tag@),
{
    let blen = b.len();
    if off > blen || tag.len() > blen - off {
        return false;
    }
    let mut i: usize = 0;
    while i < tag.len()
        invariant
            blen == b@.len(),
            off + tag@.len() <= b@.len(),
            i <= tag@.len(),
            forall|j: int| 0 <= j < i ==> b@[off + j] == tag@[j],
        decreases tag.len() - i,
    {
        if b[off + i] != tag[i] {
            assert(b@.subrange(off as int, off + tag@.len())[i as int] != tag@[i as int]);
            return false;
        }
        i += 1;
    }
    assert(b@.subrange(off as int, off + tag@.len()) =~= tag@);
    true
}

/// Copies `b[lo..hi]` into a fresh vector.
pub fn copy_range(b: &[u8], lo: usize, hi: usize) -> (r: Vec<u8>)
    requires
        lo <= hi <= b@.len(),
    ensures
        r@ == b@.subrange(lo as int, hi as int),
{
    let mut r: Vec<u8> = Vec::with_capacity(hi - lo);
    let mut i = lo;
    while i < hi
        invariant
            lo <= i <= hi <= b@.len(),
            r@ == b@.subrange(lo as int, i as int),
        decreases hi - i,
    {
        r.push(b[i]);
        assert(b@.subrange(lo as int, i + 1) =~= b@.subrange(lo as int, i as int).push(b@[i as int]));
        i += 1;
    }
    r
}

/// Appends `src` to `out`.
pub fn extend_from(out: &mut Vec<u8>, src: &[u8])
    ensures
        final(out)@ == old(out)@ + src@,
{
    let mut i: usize = 0;
    while i < src.len()
        invariant
            i <= src@.len(),
            out@ == old(out)@ + src@.subrange(0, i as int),
        decreases src.len() - i,
    {
        out.push(src[i]);
        assert(src@.subrange(0, i + 1) =~= src@.subrange(0, i as int).push(src@[i as int]));
        i += 1;
    }
    assert(src@.subrange(0, src@.len() as int) =~= src@);
}

/// Overwrites `out[off..off + src.len()]` with `src`.
pub fn overwrite(out: &mut Vec<u8>, off: usize, src: &[u8])
    requires
        off + src@.len() <= old(out)@.len(),
    ensures
        final(out)@ == old(out)@.subrange(0, off as int) + src@ + old(out)@.subrange(
            off + src@.len(),
            old(out)@.len() as int,
        ),
{
    let n = src.len();
    let total = out.len();
    let mut i: usize = 0;
    while i < n
        invariant
            n == src@.len(),
            total == old(out)@.len(),
            i <= n,
            off + n <= old(out)@.len(),
            out@.len() == old(out)@.len(),
            forall|j: int| 0 <= j < off ==> out@[j] == old(out)@[j],
            forall|j: int| off <= j < off + i ==> out@[j] == src@[j - off],
            forall|j: int| off + i <= j < out@.len() ==> out@[j] == old(out)@[j],
        decreases n - i,
    {
        out.set(off + i, src[i]);
        i += 1;
    }
    assert(out@ =~= old(out)@.subrange(0, off as int) + src@ + old(out)@.subrange(
        off + src@.len(),
        old(out)@.len() as int,
    ));
}

} // verus!
