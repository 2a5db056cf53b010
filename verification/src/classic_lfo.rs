//! Classic LFO blocks: the default block a converted state starts from and
//! the rewriting of a classic (pre-0.162) LFO region into the modern
//! 0x2D28-byte block, as byte layouts.

use vstd::prelude::*;
use vstd::slice::slice_subrange;
use crate::bytes::{le_bytes32, le_bytes64, overwrite, push_u32_le, push_u64_le};
use crate::s1state::LFO_BLOCK_SIZE;

verus! {

/// The bits of the f64 `0.5`.
pub const HALF_F64_BITS: u64 = 0x3FE0_0000_0000_0000;

/// The bits of the f64 `1.0`.
pub const ONE_F64_BITS: u64 = 0x3FF0_0000_0000_0000;

/// The bits of the f32 `0.5`.
pub const HALF_F32_BITS: u32 = 0x3F00_0000;

/// The phase word (-1) and the loopback point (0x1E0) that a default block
/// holds, as the one little-endian qword written at 0x2D0C.
pub const DEFAULT_PHASE_LOOPBACK: u64 = 0x1E0_FFFF_FFFF;

/// How many f64 values the three planes (tension, x, y) hold together.
pub const PLANE_WORDS: usize = 1440;

/// Word `i` of the planes of a default block: tension 0.5 throughout; x 0,
/// then 1.0 (`alt`) or 0.5, then 1.0; y 1, 0, then 1.0.
pub open spec fn classic_word(alt: bool, i: int) -> u64 {
    if i < 480 {
        HALF_F64_BITS
    } else if i == 480 {
        0
    } else if i == 481 {
        if alt {
            ONE_F64_BITS
        } else {
            HALF_F64_BITS
        }
    } else if i == 961 {
        0
    } else {
        ONE_F64_BITS
    }
}

/// The 40 bytes after the planes of a default block: for the main variant
/// anchored on, two points, phase -1 with loopback point 0x1E0 and rate
/// 0.5; for the `alt` variant one point and nothing else.
pub open spec fn classic_tail(alt: bool) -> Seq<u8> {
    if alt {
        Seq::new(8, |i: int| 0u8) + le_bytes32(1) + Seq::new(28, |i: int| 0u8)
    } else {
        seq![1u8] + Seq::new(7, |i: int| 0u8) + le_bytes32(2) + le_bytes64(
            DEFAULT_PHASE_LOOPBACK as int,
        ) + le_bytes32(HALF_F32_BITS as int) + Seq::new(16, |i: int| 0u8)
    }
}

/// The default block: the planes' words in little-endian order, then the
/// tail.
pub open spec fn default_block(alt: bool) -> Seq<u8> {
    Seq::new(
        LFO_BLOCK_SIZE as nat,
        |p: int|
            if p < 8 * PLANE_WORDS {
                le_bytes64(classic_word(alt, p / 8) as int)[p % 8]
            } else {
                classic_tail(alt)[p - 8 * PLANE_WORDS]
            },
    )
}

fn classic_word_exec(alt: bool, i: usize) -> (r: u64)
    ensures
        r == classic_word(alt, i as int),
{
    if i < 480 {
        HALF_F64_BITS
    } else if i == 480 {
        0
    } else if i == 481 {
        if alt {
            ONE_F64_BITS
        } else {
            HALF_F64_BITS
        }
    } else if i == 961 {
        0
    } else {
        ONE_F64_BITS
    }
}

fn push_zeros(out: &mut Vec<u8>, n: usize)
    ensures
        final(out)@ == old(out)@ + Seq::new(n as nat, |i: int| 0u8),
{
    let mut k: usize = 0;
    while k < n
        invariant
            k <= n,
            out@ == old(out)@ + Seq::new(k as nat, |i: int| 0u8),
        decreases n - k,
    {
        out.push(0);
        assert(old(out)@ + Seq::new((k + 1) as nat, |i: int| 0u8) =~= (old(out)@ + Seq::new(
            k as nat,
            |i: int| 0u8,
        )).push(0));
        k += 1;
    }
}

/// The default LFO block the importer synthesizes (see [`default_block`]);
/// `alt` selects the one-point variant used for the flex LFO blocks.
pub fn default_classic_block(alt: bool) -> (r: Vec<u8>)
    ensures
        r@ == default_block(alt),
{
    let mut out: Vec<u8> = Vec::new();
    let mut i: usize = 0;
    while i < PLANE_WORDS
        invariant
            i <= PLANE_WORDS,
            out@.len() == 8 * i,
            forall|p: int|
                0 <= p < 8 * i ==> #[trigger] out@[p] == le_bytes64(classic_word(alt, p / 8) as int)[p
                    % 8],
        decreases PLANE_WORDS - i,
    {
        let w = classic_word_exec(alt, i);
        let ghost before = out@;
        push_u64_le(&mut out, w);
        proof {
            assert forall|p: int| 0 <= p < 8 * (i + 1) implies #[trigger] out@[p] == le_bytes64(
                classic_word(alt, p / 8) as int,
            )[p % 8] by {
                if p < 8 * i {
                    assert(out@[p] == before[p]);
                } else {
                    assert(p / 8 == i);
                    assert(p % 8 == p - 8 * i);
                }
            }
        }
        i += 1;
    }
    let ghost planes = out@;
    let mut tail: Vec<u8> = Vec::new();
    if alt {
        push_zeros(&mut tail, 8);
        push_u32_le(&mut tail, 1);
        push_zeros(&mut tail, 28);
    } else {
        tail.push(1);
        push_zeros(&mut tail, 7);
        push_u32_le(&mut tail, 2);
        push_u64_le(&mut tail, DEFAULT_PHASE_LOOPBACK);
        push_u32_le(&mut tail, HALF_F32_BITS);
        push_zeros(&mut tail, 16);
    }
    assert(tail@ =~= classic_tail(alt));
    let mut k: usize = 0;
    while k < tail.len()
        invariant
            k <= tail@.len(),
            tail@ == classic_tail(alt),
            out@ == planes + tail@.subrange(0, k as int),
        decreases tail.len() - k,
    {
        out.push(tail[k]);
        assert(tail@.subrange(0, k + 1) =~= tail@.subrange(0, k as int).push(tail@[k as int]));
        k += 1;
    }
    assert(out@ =~= default_block(alt)) by {
        assert(tail@.subrange(0, tail@.len() as int) =~= tail@);
        assert forall|p: int| 0 <= p < out@.len() implies #[trigger] out@[p] == default_block(alt)[p] by {
            if p < 8 * PLANE_WORDS {
                assert(out@[p] == planes[p]);
            }
        }
    }
    out
}

/// `s` with `b` written over it from `off` on.
pub open spec fn put_bytes(s: Seq<u8>, off: int, b: Seq<u8>) -> Seq<u8> {
    s.subrange(0, off) + b + s.subrange(off + b.len(), s.len() as int)
}

/// Copies `len` bytes of `region` from `start` to `dst` when the region
/// holds them.
pub open spec fn plane_spec(o: Seq<u8>, region: Seq<u8>, start: int, dst: int, len: int) -> Seq<u8> {
    if start + len <= region.len() {
        put_bytes(o, dst, region.subrange(start, start + len))
    } else {
        o
    }
}

/// The byte of LFO `sub` in a byte-strided tail field at `off`.
pub open spec fn tail_byte(region: Seq<u8>, sub: int, off: int) -> Seq<u8> {
    seq![region[sub + off]]
}

/// The four bytes of LFO `sub` in a word-strided tail field at `off`.
pub open spec fn tail_word(region: Seq<u8>, sub: int, off: int) -> Seq<u8> {
    region.subrange(sub * 4 + off, sub * 4 + off + 4)
}

/// The point count byte widened to a little-endian i32 (sign-extended).
pub open spec fn num_points_bytes(b: u8) -> Seq<u8> {
    if b < 128 {
        seq![b, 0u8, 0u8, 0u8]
    } else {
        seq![b, 0xFFu8, 0xFFu8, 0xFFu8]
    }
}

/// The region's tail fields of LFO `sub` written over the block `o`: the
/// point count, the flag bytes (anchored, beat-sync, dotted, triplets,
/// not-off, env flag and one more), then phase, loopback point, rate,
/// smooth, delay and rise.
pub open spec fn tail_fields(o: Seq<u8>, region: Seq<u8>, sub: int) -> Seq<u8> {
    let o1 = put_bytes(o, 0x2D08, num_points_bytes(region[sub + 0x1860]));
    let o2 = put_bytes(o1, 0x2D00, tail_byte(region, sub, 0x1874));
    let o3 = put_bytes(o2, 0x2D01, tail_byte(region, sub, 0x1878));
    let o4 = put_bytes(o3, 0x2D02, tail_byte(region, sub, 0x187C));
    let o5 = put_bytes(o4, 0x2D03, tail_byte(region, sub, 0x1880));
    let o6 = put_bytes(o5, 0x2D04, tail_byte(region, sub, 0x1884));
    let o7 = put_bytes(o6, 0x2D05, tail_byte(region, sub, 0x1888));
    let o8 = put_bytes(o7, 0x2D06, tail_byte(region, sub, 0x188C));
    let o9 = put_bytes(o8, 0x2D0C, tail_word(region, sub, 0x18A0));
    let o10 = put_bytes(o9, 0x2D10, tail_word(region, sub, 0x18B0));
    let o11 = put_bytes(o10, 0x2D14, tail_word(region, sub, 0x1864));
    let o12 = put_bytes(o11, 0x2D18, tail_word(region, sub, 0x18C0));
    let o13 = put_bytes(o12, 0x2D1C, tail_word(region, sub, 0x18D0));
    put_bytes(o13, 0x2D20, tail_word(region, sub, 0x18E0))
}

/// The modern block made from a classic LFO region for LFO `sub` of its
/// group: the default block, with the region's tension plane (65 values)
/// and x and y planes (64 values each; the 65th keeps the default) of
/// sub-block `sub` copied over it where the region holds them, and, when
/// the region reaches its tail (0x18F0 bytes), the tail fields.
pub open spec fn normalize_spec(region: Seq<u8>, sub: int) -> Seq<u8> {
    let base = sub * 0x208;
    let o1 = plane_spec(default_block(false), region, base, 0int, 520int);
    let o2 = plane_spec(o1, region, base + 0x820, 3840int, 512int);
    let o3 = plane_spec(o2, region, base + 0x1040, 7680int, 512int);
    if region.len() >= 0x18F0 {
        tail_fields(o3, region, sub)
    } else {
        o3
    }
}

fn put_byte(out: &mut Vec<u8>, off: usize, b: u8)
    requires
        off < old(out)@.len(),
    ensures
        final(out)@ == put_bytes(old(out)@, off as int, seq![b]),
{
    out.set(off, b);
    assert(out@ =~= put_bytes(old(out)@, off as int, seq![b]));
}

fn copy_plane(out: &mut Vec<u8>, region: &[u8], start: usize, dst: usize, len: usize)
    requires
        start + len <= usize::MAX,
        dst + len <= old(out)@.len(),
    ensures
        final(out)@ == plane_spec(old(out)@, region@, start as int, dst as int, len as int),
{
    if start + len <= region.len() {
        overwrite(out, dst, slice_subrange(region, start, start + len));
    }
}

/// Writes LFO `sub`'s tail fields of `region` over the block (see
/// [`tail_fields`]).
#[verifier::spinoff_prover]
fn write_tail_fields(out: &mut Vec<u8>, region: &[u8], sub: usize)
    requires
        old(out)@.len() == LFO_BLOCK_SIZE,
        region@.len() >= 0x18F0,
        sub * 4 + 0x18E4 <= region@.len(),
        sub + 0x188D <= region@.len(),
    ensures
        final(out)@ == tail_fields(old(out)@, region@, sub as int),
{
    let _n = region.len();
    let nb = region[sub + 0x1860];
    let np: Vec<u8> = if nb < 128 {
        vec![nb, 0, 0, 0]
    } else {
        vec![nb, 0xFF, 0xFF, 0xFF]
    };
    assert(np@ =~= num_points_bytes(nb));
    overwrite(out, 0x2D08, np.as_slice());
    put_byte(out, 0x2D00, region[sub + 0x1874]);
    put_byte(out, 0x2D01, region[sub + 0x1878]);
    put_byte(out, 0x2D02, region[sub + 0x187C]);
    put_byte(out, 0x2D03, region[sub + 0x1880]);
    put_byte(out, 0x2D04, region[sub + 0x1884]);
    put_byte(out, 0x2D05, region[sub + 0x1888]);
    put_byte(out, 0x2D06, region[sub + 0x188C]);
    let w = sub * 4;
    overwrite(out, 0x2D0C, slice_subrange(region, w + 0x18A0, w + 0x18A4));
    overwrite(out, 0x2D10, slice_subrange(region, w + 0x18B0, w + 0x18B4));
    overwrite(out, 0x2D14, slice_subrange(region, w + 0x1864, w + 0x1868));
    overwrite(out, 0x2D18, slice_subrange(region, w + 0x18C0, w + 0x18C4));
    overwrite(out, 0x2D1C, slice_subrange(region, w + 0x18D0, w + 0x18D4));
    overwrite(out, 0x2D20, slice_subrange(region, w + 0x18E0, w + 0x18E4));
}

/// Rewrites a classic LFO region into a modern block for LFO `sub` of its
/// group (see [`normalize_spec`]). The region's planes must be addressable
/// and, when it reaches its tail, hold LFO `sub`'s tail fields.
#[verifier::spinoff_prover]
pub fn normalize_classic_lfo(region: &[u8], sub: usize) -> (r: Vec<u8>)
    requires
        sub * 0x208 + 0x1240 <= usize::MAX,
        region@.len() >= 0x18F0 ==> sub * 4 + 0x18E4 <= region@.len() && sub + 0x188D
            <= region@.len(),
    ensures
        r@ == normalize_spec(region@, sub as int),
{
    let mut out = default_classic_block(false);
    let base = sub * 0x208;
    copy_plane(&mut out, region, base, 0, 65 * 8);
    copy_plane(&mut out, region, base + 0x820, 480 * 8, 64 * 8);
    copy_plane(&mut out, region, base + 0x1040, 960 * 8, 64 * 8);
    if region.len() < 0x18F0 {
        return out;
    }
    write_tail_fields(&mut out, region, sub);
    out
}

} // verus!
