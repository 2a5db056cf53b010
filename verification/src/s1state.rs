//! Serum 1 preset-state parsing: splits a Serum 1 fxp `chunk` into its zlib
//! streams, inflates the 172,736-byte state blob and exposes it through typed,
//! bounds-checked accessors for a downstream S1 -> S2 converter.
//!
//! Float fields of the state are handed out as their IEEE-754 bit patterns
//! (`f32::from_bits` gives the number).

use vstd::prelude::*;
use vstd::slice::slice_subrange;
use crate::bytes::{le_u16, le_u32, read_u16_le, read_u32_le};
use crate::scan::{cstr, cstr_spec};
use crate::serum::PresetMeta;
use crate::strs::{decimal, push_decimal, push_str, string_of};
use crate::zlibio::{zlib_take, zlib_read_at_most};

verus! {

broadcast use vstd::array::group_array_axioms;

/// Decompressed size of a modern (Serum >= ~1.2) preset state blob.
pub const S1_BLOB_SIZE: usize = 172736;
/// State-blob sizes of 2015-era (Serum <= ~1.07) presets, not supported here.
pub const S1_OLD_BLOB_SIZES: [usize; 2] = [21808, 28232];
/// Master parameters 0..247 (float32 LE) at `blob + 0x3460`.
pub const OFF_MASTER_PARAMS: usize = 0x3460;
pub const MASTER_PARAM_COUNT: usize = 248;
/// Parameters 228..298 (float32 LE) at `blob + 0x4AE0`.
pub const OFF_AUX_PARAMS: usize = 0x4AE0;
pub const AUX_PARAM_COUNT: usize = 71;
/// FX rack order, 10 x i32 LE.
pub const OFF_FX_ORDER: usize = 0x3BE0;
/// OSC A / OSC B wavetable and noise sample name fields (512 B, NUL-terminated).
pub const OFF_WT_NAME_A: usize = 0x3C08;
pub const OFF_WT_NAME_B: usize = 0x3E08;
pub const OFF_NOISE_NAME: usize = 0x4008;
pub const NAME_FIELD_LEN: usize = 512;
/// Preset name (32 B) / version f32 / author (48 B) / category (48 B).
pub const OFF_PRESET_NAME: usize = 0x4972;
pub const OFF_VERSION_F32: usize = 0x4994;
pub const OFF_AUTHOR: usize = 0x49A0;
pub const OFF_CATEGORY: usize = 0x49D0;
/// 8-byte per-preset id, preserved verbatim.
pub const OFF_PRESET_ID: usize = 0x4A58;
/// Oversampling / tuning lock bits byte.
pub const OFF_LOCK_BITS: usize = 0x4A50;
/// Macro 1..4 names, 4 x 32 B.
pub const OFF_MACRO_NAMES: usize = 0x4A60;
/// Per-osc embedded wavetable byte counters (i32 LE x2) and the
/// interpolate-after-load flag byte.
pub const OFF_OSC_WT_FRAMES: usize = 0x4968;
pub const OFF_INTERPOLATE_AFTER_LOAD: usize = 0x4970;
/// Velocity / note scalars curve blocks, 0x200 bytes each at `blob + 0x4220`.
pub const OFF_SCALARS: usize = 0x4220;
pub const SCALARS_BLOCK_LEN: usize = 0x200;
pub const SCALARS_BLOCK_COUNT: usize = 2;
/// Global switches block, 100 bytes of float32 fields.
pub const OFF_SWITCHES: usize = 0x4C48;
pub const SWITCHES_LEN: usize = 100;
pub const SWITCHES_SLICE_LEN: usize = 200;
/// MIDI map: CC assigned to param `i` at `blob + 0x3840 + i`, and to param
/// `248 + i` at `blob + 0x5360 + i` (37 entries, the Serum2 importer range).
pub const OFF_MIDI_MAP: usize = 0x3840;
pub const MIDI_MAP_LEN: usize = 247;
pub const OFF_MIDI_MAP_EXTRA: usize = 0x5360;
pub const MIDI_MAP_EXTRA_LEN: usize = 37;
/// tuningData length (u32 LE) and tuning name (NUL-terminated) fields.
pub const OFF_TUNING_LEN: usize = 0x53E0;
pub const OFF_TUNING_NAME: usize = 0x53E4;
pub const TUNING_NAME_MAX: usize = 0x34;
/// storedPhasePos / loopback64 / boundary64 raw 8-byte values.
pub const OFF_STORED_PHASE_POS: usize = 0x5528;
pub const OFF_LOOPBACK64: usize = 0x5530;
pub const OFF_BOUNDARY64: usize = 0x5538;
/// LFO point-mod records (0x2C bytes each) at `blob + 0x6E48`, count u32 LE
/// at `blob + 0x8448`.
pub const OFF_LFO_POINT_MODS: usize = 0x6E48;
pub const OFF_LFO_POINT_MOD_COUNT: usize = 0x8448;
pub const LFO_POINT_MOD_LEN: usize = 0x2C;
pub const LFO_POINT_MOD_MAX: usize = 4096;
/// Modern LFO graph blocks: importer block base, stride, count.
pub const LFO_BLOCK_BASE: usize = 0x84E0;
pub const LFO_BLOCK_SIZE: usize = 0x2D28;
pub const LFO_BLOCK_COUNT: usize = 8;
/// LFO 9/10 "flex" phasor blocks, same stride, base `0x1EE20`.
pub const LFO_FLEX_BASE: usize = 0x1EE20;
pub const LFO_FLEX_COUNT: usize = 2;
/// Classic-layout LFO shape regions (12 x 65 f64 + switch tail each).
pub const LFO_CLASSIC_1_4: usize = 0x0280;
pub const LFO_CLASSIC_5_8: usize = 0x1B70;
pub const LFO_CLASSIC_ALT_5_8: usize = 0x5558;
pub const LFO_CLASSIC_SIZE: usize = 0x18F0;
/// Modern-block field offsets (Serum2 importer block layout).
pub const LFO_CURVE_POINTS: usize = 480;
pub const LFO_CURVE_BYTES: usize = LFO_CURVE_POINTS * 8;
pub const LFO_OFF_FLAGS: usize = 0x2D00;
pub const LFO_OFF_NUM_POINTS: usize = 0x2D08;
pub const LFO_OFF_PHASE: usize = 0x2D0C;
pub const LFO_OFF_LOOPBACK_POINT_NUM: usize = 0x2D10;
pub const LFO_OFF_RATE: usize = 0x2D14;
pub const LFO_OFF_SMOOTH: usize = 0x2D18;
pub const LFO_OFF_DELAY: usize = 0x2D1C;
pub const LFO_OFF_RISE: usize = 0x2D20;
/// Embedded wavetable / noise frames: 2048 float32 LE samples per frame.
pub const FRAME_BYTES: usize = 8192;
/// Sanity caps on decompressed sizes.
pub const MAX_STREAM_DECOMP: usize = 32 * 1024 * 1024;
pub const MAX_TOTAL_DECOMP: usize = 32 * 1024 * 1024;
/// Modulation-slot record geometry: slots 1-16 at 0x0000, 17-32 at 0x50E0.
pub const MOD_SLOT_LEN: usize = 40;
pub const MOD_SLOT_COUNT: usize = 32;
pub const MOD_SLOTS_1_16: usize = 0x0000;
pub const MOD_SLOTS_17_32: usize = 0x50E0;

/// Raw Serum 1 preset data ready for conversion.
#[derive(Debug)]
pub struct S1Preset {
    /// The full decompressed state blob (172,736 bytes for modern presets).
    pub blob: Vec<u8>,
    /// Appended data streams after the state (embedded wavetable/noise/filter
    /// data; raw float32 LE frames, 2048 samples per frame), in original order.
    pub streams: Vec<Vec<u8>>,
    /// Metadata read from fixed offsets (preset name 0x4972, author 0x49A0,
    /// category 0x49D0, version f32 0x4994).
    pub meta: PresetMeta,
    /// Parsed, validated view of the 32 modulation-slot records (slots 1-16 at
    /// blob+0x0000, 17-32 at blob+0x50E0; 40 bytes each), ordered by 0-based
    /// slot number. Records with a broken marker or out-of-range fields are
    /// dropped.
    pub mod_slots: Vec<S1ModSlot>,
}

/// One validated modulation-slot record (40 bytes, decoded fields + raw).
#[derive(Debug, Clone)]
pub struct S1ModSlot {
    /// 0-based slot number taken from the marker byte at record+0x22.
    pub slot: u8,
    /// S1 source code, word at record+0x14.
    pub source_t: u16,
    /// Third word at record+0x18 (the Serum2 importer staging's "srcA" code).
    pub src_a: u16,
    /// Aux source id, word at record+0x16 (0 = none).
    pub aux: u16,
    /// S1 destination VST parameter index 0..298, word at record+0x1A.
    pub dest: u16,
    /// Bit pattern of amount A, f32 at record+0x04 (bipolar -1..1).
    pub amount_a_bits: u32,
    /// Bit pattern of the output-range scaler, f32 at record+0x08
    /// (1.0 = 100%).
    pub amount_b_bits: u32,
    /// Curve byte A at record+0x20 (not part of the marker).
    pub curve_a: u8,
    /// Aux curve byte at record+0x21 (0x80 in the marker).
    pub aux_curve: u8,
    /// Aux-invert / bypass word at record+0x1C.
    pub aux_word: u16,
    /// Second aux word at record+0x1E.
    pub aux_word2: u16,
    /// Matrix type byte at record+0x0C: 0 unipolar, 1 bipolar.
    pub bipolar_src: i8,
    /// The full raw record bytes.
    pub raw: [u8; 40],
}

/// The tuning fields the Serum2 importer reads.
#[derive(Debug, Clone, Default, PartialEq)]
pub struct S1Tuning {
    /// u32 LE at blob+0x53E0: byte length of the tuning data carried in the
    /// appended data streams (0 = no custom tuning).
    pub len: u32,
    /// NUL-terminated name string at blob+0x53E4.
    pub name: String,
}

/// The MIDI-map byte arrays the Serum2 importer reads.
#[derive(Debug, Clone, PartialEq)]
pub struct S1MidiMap {
    /// 247 bytes at blob+0x3840: index `i` -> CC assigned to S1 param `i`
    /// (0 or >=128 = unassigned).
    pub param_cc: [u8; MIDI_MAP_LEN],
    /// 37 bytes at blob+0x5360: index `i` -> CC assigned to S1 param `248 + i`.
    pub extra_cc: [u8; MIDI_MAP_EXTRA_LEN],
}

impl Default for S1MidiMap {
    fn default() -> (r: Self)
        ensures
            r.param_cc@ == Seq::new(MIDI_MAP_LEN as nat, |i: int| 0u8),
            r.extra_cc@ == Seq::new(MIDI_MAP_EXTRA_LEN as nat, |i: int| 0u8),
    {
        let r = S1MidiMap { param_cc: [0u8; MIDI_MAP_LEN], extra_cc: [0u8; MIDI_MAP_EXTRA_LEN] };
        assert(r.param_cc@ =~= Seq::new(MIDI_MAP_LEN as nat, |i: int| 0u8));
        assert(r.extra_cc@ =~= Seq::new(MIDI_MAP_EXTRA_LEN as nat, |i: int| 0u8));
        r
    }
}

/// One lfoPointModAssignments record (raw u32 LE words; the importer clamps
/// `mode` to <=3 and subtracts 147 from `param`).
#[derive(Debug, Clone, Copy, Default, PartialEq, Eq)]
pub struct S1LfoPointMod {
    pub lfo: u32,
    pub point: u32,
    pub mode: u32,
    pub param: u32,
}

// ---------------------------------------------------------------------------
// Stream splitting
// ---------------------------------------------------------------------------

pub open spec fn msg_stream_cap() -> Seq<char> {
    "decompressed stream exceeds sanity limit (33554432 bytes)"@
}

pub open spec fn msg_total_cap() -> Seq<char> {
    "decompressed chunk exceeds sanity limit (33554432 bytes)"@
}

/// Inflating one zlib stream at the start of `data`: the decompressed bytes
/// and the input consumed, or the failure, flagged `true` when it is the
/// sanity cap (always fatal) rather than bad stream data.
pub open spec fn stream_spec(data: Seq<u8>) -> Result<(Seq<u8>, nat), (bool, Seq<char>)> {
    if data.len() == 0 || data[0] != 0x78 {
        Err((false, "not a zlib stream (expected 0x78 header byte)"@))
    } else {
        let (out, err, consumed) = zlib_take(data, (MAX_STREAM_DECOMP + 1) as nat);
        if out.len() > MAX_STREAM_DECOMP {
            Err((true, msg_stream_cap()))
        } else {
            match err {
                Some(m) => Err((false, "zlib error: "@ + m)),
                None => Ok((out, consumed)),
            }
        }
    }
}

fn inflate_stream(data: &[u8]) -> (r: Result<(Vec<u8>, usize), (bool, String)>)
    ensures
        match (r, stream_spec(data@)) {
            (Ok(a), Ok(b)) => a.0@ == b.0 && a.1 == b.1 && 1 <= a.1 <= data@.len(),
            (Err(a), Err(b)) => a.0 == b.0 && a.1@ == b.1,
            _ => false,
        },
{
    if data.len() == 0 || data[0] != 0x78 {
        return Err((false, string_of("not a zlib stream (expected 0x78 header byte)")));
    }
    let (out, err, consumed) = zlib_read_at_most(data, MAX_STREAM_DECOMP as u64 + 1);
    if out.len() > MAX_STREAM_DECOMP {
        return Err((true, string_of("decompressed stream exceeds sanity limit (33554432 bytes)")));
    }
    match err {
        Some(e) => {
            let mut msg = string_of("zlib error: ");
            push_str(&mut msg, e.as_str());
            Err((false, msg))
        },
        None => Ok((out, consumed)),
    }
}

/// The zlib streams of `chunk` from `pos` on, `total` bytes having been
/// decompressed before. Bad data in the first stream is fatal, a later one
/// ends the walk; a sanity cap is fatal anywhere.
pub open spec fn streams_from(chunk: Seq<u8>, pos: int, total: nat) -> Result<Seq<Seq<u8>>, Seq<char>>
    decreases chunk.len() - pos,
{
    if pos < 0 || chunk.len() - pos <= 4 {
        Ok(Seq::empty())
    } else if chunk[pos] != 0x78 {
        if pos == 0 {
            Err("chunk does not start with a zlib stream"@)
        } else {
            Ok(Seq::empty())
        }
    } else {
        match stream_spec(chunk.subrange(pos, chunk.len() as int)) {
            Err((cap, m)) => if cap || pos == 0 {
                Err(m)
            } else {
                Ok(Seq::empty())
            },
            Ok((out, consumed)) => if total + out.len() > MAX_TOTAL_DECOMP {
                Err(msg_total_cap())
            } else if 1 <= consumed && pos + consumed <= chunk.len() {
                match streams_from(chunk, pos + consumed, total + out.len()) {
                    Ok(s) => Ok(seq![out] + s),
                    Err(e) => Err(e),
                }
            } else {
                Ok(seq![out])
            },
        }
    }
}

/// Splitting a Serum 1 chunk `[zlib stream 0][zlib stream 1]...[u32 LE
/// trailer]` into its decompressed streams.
pub open spec fn split_streams_spec(chunk: Seq<u8>) -> Result<Seq<Seq<u8>>, Seq<char>> {
    if chunk.len() < 8 {
        Err("chunk too small to contain a zlib stream"@)
    } else {
        match streams_from(chunk, 0, 0) {
            Err(e) => Err(e),
            Ok(s) => if s.len() == 0 {
                Err("chunk contains no zlib streams"@)
            } else {
                Ok(s)
            },
        }
    }
}

pub open spec fn vec_views(v: Seq<Vec<u8>>) -> Seq<Seq<u8>> {
    v.map_values(|x: Vec<u8>| x@)
}

/// Split a Serum 1 chunk into its zlib streams.
///
/// Layout: `[zlib stream 0][zlib stream 1]...[u32 LE trailer]`, the trailer
/// holding the compressed size of stream 0. A minimal zlib stream is 8 bytes,
/// so a 4-byte tail can only be the trailer. The trailer word is tolerated
/// missing or stale.
fn split_streams(chunk: &[u8]) -> (r: Result<Vec<Vec<u8>>, String>)
    ensures
        match (r, split_streams_spec(chunk@)) {
            (Ok(a), Ok(b)) => vec_views(a@) == b,
            (Err(a), Err(b)) => a@ == b,
            _ => false,
        },
{
    let len = chunk.len();
    if len < 8 {
        return Err(string_of("chunk too small to contain a zlib stream"));
    }
    let mut pos: usize = 0;
    let mut total: usize = 0;
    let mut streams: Vec<Vec<u8>> = Vec::new();
    loop
        invariant
            len == chunk@.len() >= 8,
            pos <= len,
            total <= MAX_TOTAL_DECOMP,
            pos == 0 ==> streams@.len() == 0 && total == 0,
            ({
                match streams_from(chunk@, pos as int, total as nat) {
                    Ok(s) => streams_from(chunk@, 0, 0) == Ok::<Seq<Seq<u8>>, Seq<char>>(vec_views(streams@) + s),
                    Err(e) => streams_from(chunk@, 0, 0) == Err::<Seq<Seq<u8>>, Seq<char>>(e),
                }
            }),
        ensures
            streams_from(chunk@, 0, 0) == Ok::<Seq<Seq<u8>>, Seq<char>>(vec_views(streams@)),
        decreases len - pos,
    {
        let ghost old_streams = vec_views(streams@);
        if len - pos <= 4 {
            assert(old_streams + Seq::<Seq<u8>>::empty() =~= old_streams);
            break;
        }
        if chunk[pos] != 0x78 {
            if pos == 0 {
                return Err(string_of("chunk does not start with a zlib stream"));
            }
            assert(old_streams + Seq::<Seq<u8>>::empty() =~= old_streams);
            break;
        }
        let rest = slice_subrange(chunk, pos, len);
        match inflate_stream(rest) {
            Err((cap, msg)) => {
                if cap || pos == 0 {
                    return Err(msg);
                }
                assert(old_streams + Seq::<Seq<u8>>::empty() =~= old_streams);
                break;
            },
            Ok((out, consumed)) => {
                if out.len() > MAX_TOTAL_DECOMP - total {
                    return Err(string_of("decompressed chunk exceeds sanity limit (33554432 bytes)"));
                }
                let ghost ov = out@;
                total = total + out.len();
                streams.push(out);
                proof {
                    let nv = vec_views(streams@);
                    assert(nv =~= old_streams.push(ov));
                    match streams_from(chunk@, pos + consumed, total as nat) {
                        Ok(s) => {
                            assert(old_streams + (seq![ov] + s) =~= nv + s);
                        },
                        Err(_) => {},
                    }
                }
                pos = pos + consumed;
            },
        }
    }
    if streams.len() == 0 {
        return Err(string_of("chunk contains no zlib streams"));
    }
    Ok(streams)
}

// ---------------------------------------------------------------------------
// Modulation slots
// ---------------------------------------------------------------------------

/// Fixed position of the record of 0-based slot `k`.
pub open spec fn slot_base(k: int) -> int {
    if k < 16 {
        MOD_SLOTS_1_16 + MOD_SLOT_LEN * k
    } else {
        MOD_SLOTS_17_32 + MOD_SLOT_LEN * (k - 16)
    }
}

/// An f32 amount (by its bits) that is finite with magnitude at most 8.0:
/// the magnitude bits of a finite float order as its absolute value, and
/// infinities and NaNs have magnitude bits above those of 8.0 (0x41000000).
pub open spec fn amount_ok(bits: int) -> bool {
    bits % 0x8000_0000 <= 0x4100_0000
}

/// A valid record for `slot` at `blob[off..off + 40]`: marker
/// `80 <slot> FF` at +0x21, both amounts finite within 8.0 in magnitude,
/// source and aux ids at most 64, destination below 1024.
pub open spec fn valid_slot_at(blob: Seq<u8>, off: int, slot: int) -> bool {
    &&& 0 <= off
    &&& off + MOD_SLOT_LEN <= blob.len()
    &&& blob[off + 0x21] == 0x80
    &&& blob[off + 0x22] == slot
    &&& blob[off + 0x23] == 0xFF
    &&& amount_ok(le_u32(blob, off + 0x04))
    &&& amount_ok(le_u32(blob, off + 0x08))
    &&& le_u16(blob, off + 0x14) <= 64
    &&& le_u16(blob, off + 0x16) <= 64
    &&& le_u16(blob, off + 0x1A) < 1024
}

/// `s` holds the fields of the record at `blob[off..off + 40]`.
pub open spec fn slot_fields(s: S1ModSlot, blob: Seq<u8>, off: int) -> bool {
    &&& s.slot == blob[off + 0x22]
    &&& s.source_t == le_u16(blob, off + 0x14)
    &&& s.src_a == le_u16(blob, off + 0x18)
    &&& s.aux == le_u16(blob, off + 0x16)
    &&& s.dest == le_u16(blob, off + 0x1A)
    &&& s.amount_a_bits == le_u32(blob, off + 0x04)
    &&& s.amount_b_bits == le_u32(blob, off + 0x08)
    &&& s.curve_a == blob[off + 0x20]
    &&& s.aux_curve == blob[off + 0x21]
    &&& s.aux_word == le_u16(blob, off + 0x1C)
    &&& s.aux_word2 == le_u16(blob, off + 0x1E)
    &&& s.bipolar_src == blob[off + 0x0C] as i8
    &&& s.raw@ == blob.subrange(off, off + MOD_SLOT_LEN)
}

/// Where each slot's record was found at its fixed position.
pub open spec fn fixed_found(blob: Seq<u8>) -> Seq<Option<int>> {
    Seq::new(
        MOD_SLOT_COUNT as nat,
        |k: int|
            if valid_slot_at(blob, slot_base(k), k) {
                Some(slot_base(k))
            } else {
                None
            },
    )
}

/// One step of the whole-blob marker scan at position `i`: a marker naming a
/// slot still missing fills it when the record there is valid.
pub open spec fn scan_step(blob: Seq<u8>, found: Seq<Option<int>>, i: int) -> Seq<Option<int>> {
    let k = blob[i + 0x22] as int;
    if blob[i + 0x21] == 0x80 && blob[i + 0x23] == 0xFF && k < MOD_SLOT_COUNT && found[k] is None
        && valid_slot_at(blob, i, k) {
        found.update(k, Some(i))
    } else {
        found
    }
}

/// The slots found after the fixed positions and the scan of positions
/// `0..n`.
pub open spec fn scan_found(blob: Seq<u8>, n: nat) -> Seq<Option<int>>
    decreases n,
{
    if n == 0 {
        fixed_found(blob)
    } else {
        scan_step(blob, scan_found(blob, (n - 1) as nat), n - 1)
    }
}

/// Number of positions the marker scan visits.
pub open spec fn scan_len(n: nat) -> nat {
    if n > 0x24 {
        (n - 0x24) as nat
    } else {
        0
    }
}

/// The found offsets, in slot order, missing slots left out.
pub open spec fn flatten(s: Seq<Option<int>>) -> Seq<int>
    decreases s.len(),
{
    if s.len() == 0 {
        Seq::empty()
    } else {
        let head = flatten(s.drop_last());
        match s.last() {
            Some(o) => head.push(o),
            None => head,
        }
    }
}

/// Record offsets of the parsed modulation slots of `blob`.
pub open spec fn slot_offsets(blob: Seq<u8>) -> Seq<int> {
    flatten(scan_found(blob, scan_len(blob.len())))
}

proof fn lemma_scan_found(blob: Seq<u8>, n: nat)
    requires
        n <= scan_len(blob.len()),
    ensures
        scan_found(blob, n).len() == MOD_SLOT_COUNT,
        forall|k: int|
            0 <= k < MOD_SLOT_COUNT ==> (#[trigger] scan_found(blob, n)[k] matches Some(o) ==> valid_slot_at(blob, o, k)),
    decreases n,
{
    if n > 0 {
        lemma_scan_found(blob, (n - 1) as nat);
    }
}

/// The positions of `s` that hold a value, in order.
pub open spec fn filled(s: Seq<Option<int>>) -> Seq<int>
    decreases s.len(),
{
    if s.len() == 0 {
        Seq::empty()
    } else {
        let head = filled(s.drop_last());
        match s.last() {
            Some(_) => head.push(s.len() - 1),
            None => head,
        }
    }
}

/// `flatten` keeps the values at the filled positions, which increase.
proof fn lemma_flatten_filled(s: Seq<Option<int>>)
    ensures
        flatten(s).len() == filled(s).len(),
        forall|i: int| 0 <= i < filled(s).len() ==> 0 <= #[trigger] filled(s)[i] < s.len(),
        forall|i: int| 0 <= i < filled(s).len() ==> s[#[trigger] filled(s)[i]] == Some(flatten(s)[i]),
        forall|i: int, j: int| 0 <= i < j < filled(s).len() ==> #[trigger] filled(s)[i] < #[trigger] filled(s)[j],
    decreases s.len(),
{
    if s.len() > 0 {
        let t = s.drop_last();
        lemma_flatten_filled(t);
        assert forall|i: int| 0 <= i < filled(t).len() implies s[#[trigger] filled(t)[i]] == t[filled(t)[i]] by {}
    }
}

/// The modulation slots of a parsed preset come in increasing slot order:
/// each slot at most once, every one below the slot count.
pub proof fn lemma_mod_slots_in_order(blob: Seq<u8>, slots: Seq<S1ModSlot>)
    requires
        slots_of(blob, slots),
    ensures
        forall|i: int| 0 <= i < slots.len() ==> (#[trigger] slots[i]).slot < MOD_SLOT_COUNT,
        forall|i: int, j: int| 0 <= i < j < slots.len() ==> (#[trigger] slots[i]).slot < (#[trigger] slots[j]).slot,
{
    let found = scan_found(blob, scan_len(blob.len()));
    lemma_scan_found(blob, scan_len(blob.len()));
    lemma_flatten_filled(found);
    let ks = filled(found);
    assert forall|i: int| 0 <= i < slots.len() implies (#[trigger] slots[i]).slot == ks[i] by {
        let k = ks[i];
        assert(found[k] == Some(slot_offsets(blob)[i]));
        assert(valid_slot_at(blob, slot_offsets(blob)[i], k));
        assert(slot_fields(slots[i], blob, slot_offsets(blob)[i]));
    }
}

fn check_slot(blob: &[u8], off: usize, slot: u8) -> (r: bool)
    ensures
        r == valid_slot_at(blob@, off as int, slot as int),
{
    if off > blob.len() || blob.len() - off < MOD_SLOT_LEN {
        return false;
    }
    if blob[off + 0x21] != 0x80 || blob[off + 0x22] != slot || blob[off + 0x23] != 0xFF {
        return false;
    }
    let a = read_u32_le(blob, off + 0x04);
    let b = read_u32_le(blob, off + 0x08);
    if a % 0x8000_0000 > 0x4100_0000 || b % 0x8000_0000 > 0x4100_0000 {
        return false;
    }
    let source = read_u16_le(blob, off + 0x14);
    let aux = read_u16_le(blob, off + 0x16);
    let dest = read_u16_le(blob, off + 0x1A);
    source <= 64 && aux <= 64 && dest < 1024
}

/// Validate one 40-byte modulation-slot record; `slot` must match the marker
/// byte at record+0x22 (marker `80 <slot> FF` at +0x21, the +0x20 byte is not
/// part of the marker). Unused slots carry amount = 0, source = 0 and a
/// garbage dest and pass validation as-is.
fn read_mod_slot(blob: &[u8], off: usize, slot: u8) -> (r: Option<S1ModSlot>)
    ensures
        r is Some <==> valid_slot_at(blob@, off as int, slot as int),
        r matches Some(s) ==> slot_fields(s, blob@, off as int),
{
    if !check_slot(blob, off, slot) {
        return None;
    }
    let blen = blob.len();
    let mut raw = [0u8; 40];
    let mut i: usize = 0;
    while i < MOD_SLOT_LEN
        invariant
            i <= MOD_SLOT_LEN,
            blen == blob@.len(),
            off + MOD_SLOT_LEN <= blob@.len(),
            raw@.len() == MOD_SLOT_LEN,
            forall|j: int| 0 <= j < i ==> raw@[j] == blob@[off + j],
        decreases MOD_SLOT_LEN - i,
    {
        raw[i] = blob[off + i];
        i += 1;
    }
    assert(raw@ =~= blob@.subrange(off as int, off + MOD_SLOT_LEN));
    Some(S1ModSlot {
        slot,
        source_t: read_u16_le(blob, off + 0x14),
        src_a: read_u16_le(blob, off + 0x18),
        aux: read_u16_le(blob, off + 0x16),
        dest: read_u16_le(blob, off + 0x1A),
        amount_a_bits: read_u32_le(blob, off + 0x04),
        amount_b_bits: read_u32_le(blob, off + 0x08),
        curve_a: blob[off + 0x20],
        aux_curve: blob[off + 0x21],
        aux_word: read_u16_le(blob, off + 0x1C),
        aux_word2: read_u16_le(blob, off + 0x1E),
        bipolar_src: blob[off + 0x0C] as i8,
        raw,
    })
}

pub open spec fn opt_views(v: Seq<Option<usize>>) -> Seq<Option<int>> {
    v.map_values(
        |o: Option<usize>|
            match o {
                Some(x) => Some(x as int),
                None => None,
            },
    )
}

/// Parse the 32 modulation-slot records: fixed positions first (slots 1-16 at
/// 0x0000+40k, 17-32 at the fixed 0x50E0+40k offset), then a whole-blob
/// marker scan for slots missing there (overlapping occurrences permitted).
fn parse_mod_slots(blob: &[u8]) -> (r: Vec<S1ModSlot>)
    ensures
        r@.len() == slot_offsets(blob@).len(),
        forall|i: int| 0 <= i < r@.len() ==> slot_fields(#[trigger] r@[i], blob@, slot_offsets(blob@)[i]),
{
    let mut found: Vec<Option<usize>> = Vec::new();
    let mut k: usize = 0;
    while k < MOD_SLOT_COUNT
        invariant
            k <= MOD_SLOT_COUNT,
            found@.len() == k,
            forall|j: int| 0 <= j < k ==> opt_views(found@)[j] == fixed_found(blob@)[j],
        decreases MOD_SLOT_COUNT - k,
    {
        let base = if k < 16 {
            MOD_SLOTS_1_16 + MOD_SLOT_LEN * k
        } else {
            MOD_SLOTS_17_32 + MOD_SLOT_LEN * (k - 16)
        };
        if check_slot(blob, base, k as u8) {
            found.push(Some(base));
        } else {
            found.push(None);
        }
        proof {
            assert(opt_views(found@)[k as int] == fixed_found(blob@)[k as int]);
        }
        k += 1;
    }
    assert(opt_views(found@) =~= scan_found(blob@, 0));
    let blen = blob.len();
    let n = if blen > 0x24 {
        blen - 0x24
    } else {
        0
    };
    let mut i: usize = 0;
    while i < n
        invariant
            i <= n,
            blen == blob@.len(),
            n == scan_len(blob@.len()),
            found@.len() == MOD_SLOT_COUNT,
            opt_views(found@) == scan_found(blob@, i as nat),
        decreases n - i,
    {
        let ghost before = found@;
        proof {
            lemma_scan_found(blob@, i as nat);
        }
        if blob[i + 0x21] == 0x80 && blob[i + 0x23] == 0xFF {
            let slot = blob[i + 0x22];
            let ks = slot as usize;
            if ks < MOD_SLOT_COUNT && found[ks].is_none() && check_slot(blob, i, slot) {
                found.set(ks, Some(i));
                proof {
                    assert(opt_views(found@) =~= opt_views(before).update(ks as int, Some(i as int)));
                }
            }
        }
        proof {
            assert(opt_views(found@) =~= scan_step(blob@, scan_found(blob@, i as nat), i as int));
        }
        i += 1;
    }
    proof {
        lemma_scan_found(blob@, n as nat);
    }
    let mut slots: Vec<S1ModSlot> = Vec::new();
    let mut k: usize = 0;
    while k < MOD_SLOT_COUNT
        invariant
            k <= MOD_SLOT_COUNT,
            found@.len() == MOD_SLOT_COUNT,
            opt_views(found@) == scan_found(blob@, scan_len(blob@.len())),
            forall|j: int|
                0 <= j < MOD_SLOT_COUNT ==> (#[trigger] scan_found(blob@, scan_len(blob@.len()))[j] matches Some(o)
                    ==> valid_slot_at(blob@, o, j)),
            slots@.len() == flatten(opt_views(found@).take(k as int)).len(),
            forall|j: int|
                0 <= j < slots@.len() ==> slot_fields(
                    #[trigger] slots@[j],
                    blob@,
                    flatten(opt_views(found@).take(k as int))[j],
                ),
        decreases MOD_SLOT_COUNT - k,
    {
        let ghost fv = opt_views(found@);
        assert(fv.take(k + 1).drop_last() =~= fv.take(k as int));
        match found[k] {
            Some(off) => {
                assert(fv[k as int] == Some(off as int));
                let s = read_mod_slot(blob, off, k as u8);
                match s {
                    Some(s) => {
                        slots.push(s);
                    },
                    None => {},
                }
            },
            None => {},
        }
        k += 1;
    }
    assert(opt_views(found@).take(MOD_SLOT_COUNT as int) =~= opt_views(found@));
    slots
}

// ---------------------------------------------------------------------------
// Preset parsing
// ---------------------------------------------------------------------------

pub open spec fn msg_old_format(n: nat) -> Seq<char> {
    "old-format Serum 1 preset not supported by the converter (state blob is "@ + decimal(n)
        + " bytes, expected 172736)"@
}

pub open spec fn msg_not_frames(i: nat, n: nat) -> Seq<char> {
    "appended data stream "@ + decimal(i) + " is "@ + decimal(n)
        + " bytes, not a multiple of the 8192-byte wavetable frame size"@
}

/// The first appended stream, at or after `i`, whose size is not a whole
/// number of wavetable frames.
pub open spec fn first_bad_stream(s: Seq<Seq<u8>>, i: int) -> Option<int>
    decreases s.len() - i,
{
    if i < 0 || i >= s.len() {
        None
    } else if s[i].len() % (FRAME_BYTES as nat) != 0 {
        Some(i)
    } else {
        first_bad_stream(s, i + 1)
    }
}

/// Why `chunk` is refused, if it is: a bad stream layout, an old-format
/// state blob, or an appended stream that is not whole frames.
pub open spec fn parse_error(chunk: Seq<u8>) -> Option<Seq<char>> {
    match split_streams_spec(chunk) {
        Err(e) => Some(e),
        Ok(s) => if s[0].len() != S1_BLOB_SIZE {
            Some(msg_old_format(s[0].len()))
        } else {
            match first_bad_stream(s, 1) {
                Some(i) => Some(msg_not_frames(i as nat, s[i].len())),
                None => None,
            }
        },
    }
}

/// The metadata at the fixed offsets of a state blob.
pub open spec fn meta_of(blob: Seq<u8>, m: PresetMeta) -> bool {
    &&& m.preset_name@ == cstr_spec(blob, OFF_PRESET_NAME as int, 32, true)
    &&& m.author@ == cstr_spec(blob, OFF_AUTHOR as int, 48, true)
    &&& m.category@ == cstr_spec(blob, OFF_CATEGORY as int, 48, true)
    &&& m.version_f32_bits == le_u32(blob, OFF_VERSION_F32 as int)
}

/// The modulation slots parsed from `blob`.
pub open spec fn slots_of(blob: Seq<u8>, slots: Seq<S1ModSlot>) -> bool {
    &&& slots.len() == slot_offsets(blob).len()
    &&& forall|i: int| 0 <= i < slots.len() ==> slot_fields(#[trigger] slots[i], blob, slot_offsets(blob)[i])
}

/// `p` is the preset parsed from `chunk`.
pub open spec fn preset_of(chunk: Seq<u8>, p: S1Preset) -> bool {
    match split_streams_spec(chunk) {
        Ok(s) => {
            &&& p.blob@ == s[0]
            &&& vec_views(p.streams@) == s.drop_first()
            &&& meta_of(s[0], p.meta)
            &&& slots_of(s[0], p.mod_slots@)
        },
        Err(_) => false,
    }
}

/// Parse a raw Serum 1 preset chunk (concatenated zlib streams + u32 LE
/// trailer, i.e. `crate::serum::Serum1Chunk::chunk`) into a typed [`S1Preset`].
pub fn parse_preset(chunk: &[u8]) -> (r: Result<S1Preset, String>)
    ensures
        match r {
            Ok(p) => parse_error(chunk@) is None && preset_of(chunk@, p),
            Err(e) => parse_error(chunk@) == Some(e@),
        },
{
    let mut streams = split_streams(chunk)?;
    let ghost all = vec_views(streams@);
    let blob = streams.remove(0);
    proof {
        assert(vec_views(streams@) =~= all.drop_first());
    }
    if blob.len() != S1_BLOB_SIZE {
        let mut msg = string_of("old-format Serum 1 preset not supported by the converter (state blob is ");
        push_decimal(&mut msg, blob.len() as u64);
        push_str(&mut msg, " bytes, expected 172736)");
        return Err(msg);
    }
    let mut i: usize = 0;
    while i < streams.len()
        invariant
            i <= streams@.len(),
            split_streams_spec(chunk@) == Ok::<Seq<Seq<u8>>, Seq<char>>(all),
            blob@ == all[0],
            blob@.len() == S1_BLOB_SIZE,
            all.len() == streams@.len() + 1,
            vec_views(streams@) == all.drop_first(),
            first_bad_stream(all, 1) == first_bad_stream(all, i + 1),
        decreases streams@.len() - i,
    {
        let n = streams[i].len();
        assert(vec_views(streams@)[i as int] == streams@[i as int]@);
        assert(all[i + 1] == streams@[i as int]@);
        if n % FRAME_BYTES != 0 {
            let mut msg = string_of("appended data stream ");
            push_decimal(&mut msg, (i + 1) as u64);
            push_str(&mut msg, " is ");
            push_decimal(&mut msg, n as u64);
            push_str(&mut msg, " bytes, not a multiple of the 8192-byte wavetable frame size");
            return Err(msg);
        }
        i += 1;
    }
    let meta = PresetMeta {
        preset_name: cstr(blob.as_slice(), OFF_PRESET_NAME, 32, true),
        author: cstr(blob.as_slice(), OFF_AUTHOR, 48, true),
        category: cstr(blob.as_slice(), OFF_CATEGORY, 48, true),
        version_f32_bits: read_u32_le(blob.as_slice(), OFF_VERSION_F32),
    };
    let mod_slots = parse_mod_slots(blob.as_slice());
    Ok(S1Preset { blob, streams, meta, mod_slots })
}

// ---------------------------------------------------------------------------
// Field accessors
// ---------------------------------------------------------------------------

/// A u32 (or f32 bit pattern) at `b[off..off + 4]`; 0 when out of range.
pub open spec fn u32_at_spec(b: Seq<u8>, off: int) -> u32 {
    if 0 <= off && off + 4 <= b.len() {
        le_u32(b, off) as u32
    } else {
        0
    }
}

/// An i32 at `b[off..off + 4]`; 0 when out of range.
pub open spec fn i32_at_spec(b: Seq<u8>, off: int) -> i32 {
    if 0 <= off && off + 4 <= b.len() {
        le_u32(b, off) as u32 as i32
    } else {
        0
    }
}

/// The bytes `b[lo..hi]`, when that range lies inside `b`.
pub open spec fn region(b: Seq<u8>, lo: int, hi: int) -> Option<Seq<u8>> {
    if 0 <= lo <= hi <= b.len() {
        Some(b.subrange(lo, hi))
    } else {
        None
    }
}

/// The 8 bytes at `off`, or zeros when they do not lie inside `b`.
pub open spec fn bytes8_spec(b: Seq<u8>, off: int) -> Seq<u8> {
    match region(b, off, off + 8) {
        Some(r) => r,
        None => Seq::new(8, |i: int| 0u8),
    }
}

/// Reads the u32 at `off`, 0 when out of range.
fn u32_at(b: &[u8], off: usize) -> (r: u32)
    ensures
        r == u32_at_spec(b@, off as int),
{
    if off <= b.len() && b.len() - off >= 4 {
        read_u32_le(b, off)
    } else {
        0
    }
}

/// Reads the i32 at `off`, 0 when out of range.
fn i32_at(b: &[u8], off: usize) -> (r: i32)
    ensures
        r == i32_at_spec(b@, off as int),
{
    if off <= b.len() && b.len() - off >= 4 {
        read_u32_le(b, off) as i32
    } else {
        0
    }
}

/// `b[lo..hi]` when that range lies inside `b`.
fn get_region(b: &[u8], lo: usize, hi: usize) -> (r: Option<&[u8]>)
    ensures
        match r {
            Some(s) => region(b@, lo as int, hi as int) == Some(s@),
            None => region(b@, lo as int, hi as int) is None,
        },
{
    if lo <= hi && hi <= b.len() {
        Some(slice_subrange(b, lo, hi))
    } else {
        None
    }
}

/// The 8 bytes at `off` (zeros when out of range).
fn bytes8(b: &[u8], off: usize) -> (r: [u8; 8])
    ensures
        r@ == bytes8_spec(b@, off as int),
{
    let mut out = [0u8; 8];
    let blen = b.len();
    if off <= blen && blen - off >= 8 {
        let mut i: usize = 0;
        while i < 8
            invariant
                i <= 8,
                blen == b@.len(),
                off + 8 <= b@.len(),
                out@.len() == 8,
                forall|j: int| 0 <= j < i ==> out@[j] == b@[off + j],
            decreases 8 - i,
        {
            out[i] = b[off + i];
            i += 1;
        }
        assert(out@ =~= b@.subrange(off as int, off + 8));
    } else {
        assert(out@ =~= Seq::new(8, |i: int| 0u8));
    }
    out
}

/// Copies `src` into a fresh array of the same length.
fn array_of<const N: usize>(src: &[u8]) -> (r: [u8; N])
    requires
        src@.len() == N,
    ensures
        r@ == src@,
{
    let mut out = [0u8; N];
    let mut i: usize = 0;
    while i < N
        invariant
            i <= N,
            src@.len() == N,
            out@.len() == N,
            forall|j: int| 0 <= j < i ==> out@[j] == src@[j],
        decreases N - i,
    {
        out[i] = src[i];
        i += 1;
    }
    assert(out@ =~= src@);
    out
}

/// The lfoPointModAssignments records of `blob`: as many as the count word
/// says, at most 4096 and at most as many as fit in the blob.
pub open spec fn point_mod_count(blob: Seq<u8>) -> int {
    let c = if u32_at_spec(blob, OFF_LFO_POINT_MOD_COUNT as int) < LFO_POINT_MOD_MAX {
        u32_at_spec(blob, OFF_LFO_POINT_MOD_COUNT as int) as int
    } else {
        LFO_POINT_MOD_MAX as int
    };
    let avail = if blob.len() > OFF_LFO_POINT_MODS {
        (blob.len() - OFF_LFO_POINT_MODS) / (LFO_POINT_MOD_LEN as int)
    } else {
        0
    };
    if c < avail {
        c
    } else {
        avail
    }
}

pub open spec fn point_mod_at(blob: Seq<u8>, i: int) -> S1LfoPointMod {
    let base = OFF_LFO_POINT_MODS + LFO_POINT_MOD_LEN * i;
    S1LfoPointMod {
        lfo: le_u32(blob, base) as u32,
        point: le_u32(blob, base + 0x04) as u32,
        mode: le_u32(blob, base + 0x08) as u32,
        param: le_u32(blob, base + 0x0C) as u32,
    }
}

/// Start of the `kind`-th scalars curve block.
pub open spec fn classic_base(k: int) -> Option<int> {
    if 0 <= k <= 3 {
        Some(LFO_CLASSIC_1_4 as int)
    } else if 4 <= k <= 7 {
        Some(LFO_CLASSIC_5_8 as int)
    } else {
        None
    }
}

impl S1Preset {
    /// Raw stored value (f32 bit pattern) of master parameter `i` (0..247)
    /// at `blob + 0x3460`; 0 (the bits of 0.0) out of range. No clamping.
    pub fn master_param(&self, i: usize) -> (r: u32)
        ensures
            r == if i >= MASTER_PARAM_COUNT {
                0
            } else {
                u32_at_spec(self.blob@, OFF_MASTER_PARAMS + 4 * i)
            },
    {
        if i >= MASTER_PARAM_COUNT {
            return 0;
        }
        u32_at(self.blob.as_slice(), OFF_MASTER_PARAMS + 4 * i)
    }

    /// Raw stored value (f32 bit pattern) of parameter `228 + i` (0..70) at
    /// `blob + 0x4AE0`; 0 out of range.
    pub fn aux_param(&self, i: usize) -> (r: u32)
        ensures
            r == if i >= AUX_PARAM_COUNT {
                0
            } else {
                u32_at_spec(self.blob@, OFF_AUX_PARAMS + 4 * i)
            },
    {
        if i >= AUX_PARAM_COUNT {
            return 0;
        }
        u32_at(self.blob.as_slice(), OFF_AUX_PARAMS + 4 * i)
    }

    /// FX rack order (10 x i32 LE at `blob + 0x3BE0`): one rack position
    /// (0 = top) per effect in enable-parameter order; zeros when short.
    pub fn fx_order(&self) -> (r: [i32; 10])
        ensures
            forall|i: int|
                0 <= i < 10 ==> #[trigger] r@[i] == if OFF_FX_ORDER + 40 <= self.blob@.len() {
                    i32_at_spec(self.blob@, OFF_FX_ORDER + 4 * i)
                } else {
                    0
                },
    {
        let mut order = [0i32; 10];
        if self.blob.len() >= OFF_FX_ORDER + 40 {
            let mut i: usize = 0;
            while i < 10
                invariant
                    i <= 10,
                    OFF_FX_ORDER + 40 <= self.blob@.len(),
                    order@.len() == 10,
                    forall|j: int| 0 <= j < i ==> order@[j] == i32_at_spec(self.blob@, OFF_FX_ORDER + 4 * j),
                    forall|j: int| i <= j < 10 ==> order@[j] == 0,
                decreases 10 - i,
            {
                order[i] = i32_at(self.blob.as_slice(), OFF_FX_ORDER + 4 * i);
                i += 1;
            }
        }
        order
    }

    /// OSC A wavetable name (512-byte NUL-terminated field at 0x3C08).
    pub fn wt_name_a(&self) -> (r: String)
        ensures
            r@ == cstr_spec(self.blob@, OFF_WT_NAME_A as int, NAME_FIELD_LEN as int, true),
    {
        cstr(self.blob.as_slice(), OFF_WT_NAME_A, NAME_FIELD_LEN, true)
    }

    /// OSC B wavetable name (at 0x3E08).
    pub fn wt_name_b(&self) -> (r: String)
        ensures
            r@ == cstr_spec(self.blob@, OFF_WT_NAME_B as int, NAME_FIELD_LEN as int, true),
    {
        cstr(self.blob.as_slice(), OFF_WT_NAME_B, NAME_FIELD_LEN, true)
    }

    /// Noise sample name (at 0x4008).
    pub fn noise_name(&self) -> (r: String)
        ensures
            r@ == cstr_spec(self.blob@, OFF_NOISE_NAME as int, NAME_FIELD_LEN as int, true),
    {
        cstr(self.blob.as_slice(), OFF_NOISE_NAME, NAME_FIELD_LEN, true)
    }

    /// Macro `k` (0..4) name, 32-byte NUL-terminated field at `0x4A60 + 32k`.
    pub fn macro_name(&self, k: usize) -> (r: String)
        ensures
            r@ == if k >= 4 {
                Seq::empty()
            } else {
                cstr_spec(self.blob@, OFF_MACRO_NAMES + 32 * k, 32, true)
            },
    {
        if k >= 4 {
            return String::new();
        }
        cstr(self.blob.as_slice(), OFF_MACRO_NAMES + 32 * k, 32, true)
    }

    /// The 8-byte per-preset id at `blob + 0x4A58`, preserved verbatim.
    pub fn preset_id(&self) -> (r: [u8; 8])
        ensures
            r@ == bytes8_spec(self.blob@, OFF_PRESET_ID as int),
    {
        bytes8(self.blob.as_slice(), OFF_PRESET_ID)
    }

    /// Per-osc embedded wavetable counters (i32 LE x2 at `0x4968/0x496C`).
    pub fn osc_wt_frames(&self) -> (r: [i32; 2])
        ensures
            r@ == seq![
                i32_at_spec(self.blob@, OFF_OSC_WT_FRAMES as int),
                i32_at_spec(self.blob@, OFF_OSC_WT_FRAMES + 4),
            ],
    {
        let r = [
            i32_at(self.blob.as_slice(), OFF_OSC_WT_FRAMES),
            i32_at(self.blob.as_slice(), OFF_OSC_WT_FRAMES + 4),
        ];
        assert(r@ =~= seq![r[0], r[1]]);
        r
    }

    /// The interpolate-after-load flag byte at `blob + 0x4970`.
    pub fn interpolate_after_load(&self) -> (r: bool)
        ensures
            r == (OFF_INTERPOLATE_AFTER_LOAD < self.blob@.len()
                && self.blob@[OFF_INTERPOLATE_AFTER_LOAD as int] != 0),
    {
        OFF_INTERPOLATE_AFTER_LOAD < self.blob.len() && self.blob[OFF_INTERPOLATE_AFTER_LOAD] != 0
    }

    /// Raw 8-byte value at `blob + 0x5528` (`storedPhasePos`).
    pub fn stored_phase_pos(&self) -> (r: [u8; 8])
        ensures
            r@ == bytes8_spec(self.blob@, OFF_STORED_PHASE_POS as int),
    {
        bytes8(self.blob.as_slice(), OFF_STORED_PHASE_POS)
    }

    /// Raw 8-byte value at `blob + 0x5530` (`loopback64`).
    pub fn loopback64(&self) -> (r: [u8; 8])
        ensures
            r@ == bytes8_spec(self.blob@, OFF_LOOPBACK64 as int),
    {
        bytes8(self.blob.as_slice(), OFF_LOOPBACK64)
    }

    /// Raw 8-byte value at `blob + 0x5538` (`boundary64`).
    pub fn boundary64(&self) -> (r: [u8; 8])
        ensures
            r@ == bytes8_spec(self.blob@, OFF_BOUNDARY64 as int),
    {
        bytes8(self.blob.as_slice(), OFF_BOUNDARY64)
    }

    /// The tuning fields the importer reads (see [`S1Tuning`]).
    pub fn tuning_bytes(&self) -> (r: S1Tuning)
        ensures
            r.len == u32_at_spec(self.blob@, OFF_TUNING_LEN as int),
            r.name@ == cstr_spec(self.blob@, OFF_TUNING_NAME as int, TUNING_NAME_MAX as int, true),
    {
        S1Tuning {
            len: u32_at(self.blob.as_slice(), OFF_TUNING_LEN),
            name: cstr(self.blob.as_slice(), OFF_TUNING_NAME, TUNING_NAME_MAX, true),
        }
    }

    /// Oversampling / tuning lock bits at `blob + 0x4A50` (bit 1 =
    /// lockOversampling, bit 2 = lockTuning); 0 when short.
    pub fn lock_bits(&self) -> (r: u8)
        ensures
            r == if OFF_LOCK_BITS < self.blob@.len() {
                self.blob@[OFF_LOCK_BITS as int]
            } else {
                0
            },
    {
        if OFF_LOCK_BITS < self.blob.len() {
            self.blob[OFF_LOCK_BITS]
        } else {
            0
        }
    }

    /// The `k`-th modern LFO graph block (k < 8): 0x2D28 raw bytes at
    /// `blob + 0x84E0 + 0x2D28*k`.
    pub fn lfo_block(&self, k: usize) -> (r: Option<&[u8]>)
        ensures
            match r {
                Some(s) => k < LFO_BLOCK_COUNT && region(
                    self.blob@,
                    LFO_BLOCK_BASE + LFO_BLOCK_SIZE * k,
                    LFO_BLOCK_BASE + LFO_BLOCK_SIZE * k + LFO_BLOCK_SIZE,
                ) == Some(s@),
                None => k >= LFO_BLOCK_COUNT || region(
                    self.blob@,
                    LFO_BLOCK_BASE + LFO_BLOCK_SIZE * k,
                    LFO_BLOCK_BASE + LFO_BLOCK_SIZE * k + LFO_BLOCK_SIZE,
                ) is None,
            },
    {
        if k >= LFO_BLOCK_COUNT {
            return None;
        }
        let base = LFO_BLOCK_BASE + LFO_BLOCK_SIZE * k;
        get_region(self.blob.as_slice(), base, base + LFO_BLOCK_SIZE)
    }

    /// LFO 9/10 "flex" phasor block (k < 2), same layout, base `0x1EE20`.
    pub fn flex_lfo_block(&self, k: usize) -> (r: Option<&[u8]>)
        ensures
            match r {
                Some(s) => k < LFO_FLEX_COUNT && region(
                    self.blob@,
                    LFO_FLEX_BASE + LFO_BLOCK_SIZE * k,
                    LFO_FLEX_BASE + LFO_BLOCK_SIZE * k + LFO_BLOCK_SIZE,
                ) == Some(s@),
                None => k >= LFO_FLEX_COUNT || region(
                    self.blob@,
                    LFO_FLEX_BASE + LFO_BLOCK_SIZE * k,
                    LFO_FLEX_BASE + LFO_BLOCK_SIZE * k + LFO_BLOCK_SIZE,
                ) is None,
            },
    {
        if k >= LFO_FLEX_COUNT {
            return None;
        }
        let base = LFO_FLEX_BASE + LFO_BLOCK_SIZE * k;
        get_region(self.blob.as_slice(), base, base + LFO_BLOCK_SIZE)
    }

    /// Classic-layout LFO shape region for LFO `k` (k < 8), 0x18F0 bytes:
    /// LFO 1-4 at `blob + 0x0280`, LFO 5-8 at `blob + 0x1B70`. Layout: 12
    /// arrays x 65 float64 (stride 520; arrays 0-3 tension, 4-7 x, 8-11 y),
    /// then per-LFO switch bytes.
    pub fn classic_lfo_block(&self, k: usize) -> (r: Option<&[u8]>)
        ensures
            match r {
                Some(s) => classic_base(k as int) matches Some(b) && region(
                    self.blob@,
                    b,
                    b + LFO_CLASSIC_SIZE,
                ) == Some(s@),
                None => match classic_base(k as int) {
                    Some(b) => region(self.blob@, b, b + LFO_CLASSIC_SIZE) is None,
                    None => true,
                },
            },
    {
        let base = if k <= 3 {
            LFO_CLASSIC_1_4
        } else if k <= 7 {
            LFO_CLASSIC_5_8
        } else {
            return None;
        };
        get_region(self.blob.as_slice(), base, base + LFO_CLASSIC_SIZE)
    }

    /// Mid-era classic-layout LFO 5-8 region at `blob + 0x5558`, same
    /// layout as [`S1Preset::classic_lfo_block`].
    pub fn classic_lfo_5_8_alt(&self) -> (r: Option<&[u8]>)
        ensures
            match r {
                Some(s) => region(
                    self.blob@,
                    LFO_CLASSIC_ALT_5_8 as int,
                    LFO_CLASSIC_ALT_5_8 + LFO_CLASSIC_SIZE,
                ) == Some(s@),
                None => region(self.blob@, LFO_CLASSIC_ALT_5_8 as int, LFO_CLASSIC_ALT_5_8 + LFO_CLASSIC_SIZE) is None,
            },
    {
        get_region(self.blob.as_slice(), LFO_CLASSIC_ALT_5_8, LFO_CLASSIC_ALT_5_8 + LFO_CLASSIC_SIZE)
    }

    /// The lfoPointModAssignments records (raw u32 words; the importer clamps
    /// `mode` to <=3 and offsets `param` by -147).
    pub fn lfo_point_mods(&self) -> (r: Vec<S1LfoPointMod>)
        ensures
            r@.len() == point_mod_count(self.blob@),
            forall|i: int| 0 <= i < r@.len() ==> #[trigger] r@[i] == point_mod_at(self.blob@, i),
    {
        let blob = self.blob.as_slice();
        let blen = blob.len();
        let c = u32_at(blob, OFF_LFO_POINT_MOD_COUNT);
        let count: usize = if c < LFO_POINT_MOD_MAX as u32 {
            c as usize
        } else {
            LFO_POINT_MOD_MAX
        };
        let available: usize = if blen > OFF_LFO_POINT_MODS {
            (blen - OFF_LFO_POINT_MODS) / LFO_POINT_MOD_LEN
        } else {
            0
        };
        let count = if count < available {
            count
        } else {
            available
        };
        let mut out: Vec<S1LfoPointMod> = Vec::new();
        let mut i: usize = 0;
        while i < count
            invariant
                blen == blob@.len(),
                blob@ == self.blob@,
                count == point_mod_count(blob@),
                count <= available,
                available == (if blen > OFF_LFO_POINT_MODS {
                    (blen - OFF_LFO_POINT_MODS) / (LFO_POINT_MOD_LEN as int)
                } else {
                    0
                }),
                i <= count,
                out@.len() == i,
                forall|j: int| 0 <= j < i ==> #[trigger] out@[j] == point_mod_at(blob@, j),
            decreases count - i,
        {
            assert(OFF_LFO_POINT_MODS + LFO_POINT_MOD_LEN * i + LFO_POINT_MOD_LEN <= blen) by (nonlinear_arith)
                requires
                    i < available,
                    blen > OFF_LFO_POINT_MODS,
                    available == (blen - OFF_LFO_POINT_MODS) / (LFO_POINT_MOD_LEN as int),
            ;
            let base = OFF_LFO_POINT_MODS + LFO_POINT_MOD_LEN * i;
            out.push(
                S1LfoPointMod {
                    lfo: read_u32_le(blob, base),
                    point: read_u32_le(blob, base + 0x04),
                    mode: read_u32_le(blob, base + 0x08),
                    param: read_u32_le(blob, base + 0x0C),
                },
            );
            i += 1;
        }
        out
    }

    /// The `kind`-th scalars curve block (0 = velo, 1 = note), 0x200 raw
    /// bytes at `blob + 0x4220 + 0x200*kind`; empty out of range.
    pub fn scalars_curve(&self, kind: usize) -> (r: &[u8])
        ensures
            r@ == if kind >= SCALARS_BLOCK_COUNT {
                Seq::empty()
            } else {
                match region(
                    self.blob@,
                    OFF_SCALARS + SCALARS_BLOCK_LEN * kind,
                    OFF_SCALARS + SCALARS_BLOCK_LEN * kind + SCALARS_BLOCK_LEN,
                ) {
                    Some(s) => s,
                    None => Seq::empty(),
                }
            },
    {
        let blob = self.blob.as_slice();
        if kind >= SCALARS_BLOCK_COUNT {
            return slice_subrange(blob, 0, 0);
        }
        let base = OFF_SCALARS + SCALARS_BLOCK_LEN * kind;
        match get_region(blob, base, base + SCALARS_BLOCK_LEN) {
            Some(s) => s,
            None => slice_subrange(blob, 0, 0),
        }
    }

    /// The two MIDI-map byte arrays (see [`S1MidiMap`]); zeros for a region
    /// that does not lie inside the blob.
    pub fn midi_map(&self) -> (r: S1MidiMap)
        ensures
            r.param_cc@ == match region(self.blob@, OFF_MIDI_MAP as int, OFF_MIDI_MAP + MIDI_MAP_LEN) {
                Some(s) => s,
                None => Seq::new(MIDI_MAP_LEN as nat, |i: int| 0u8),
            },
            r.extra_cc@ == match region(
                self.blob@,
                OFF_MIDI_MAP_EXTRA as int,
                OFF_MIDI_MAP_EXTRA + MIDI_MAP_EXTRA_LEN,
            ) {
                Some(s) => s,
                None => Seq::new(MIDI_MAP_EXTRA_LEN as nat, |i: int| 0u8),
            },
    {
        let blob = self.blob.as_slice();
        let mut map = S1MidiMap::default();
        match get_region(blob, OFF_MIDI_MAP, OFF_MIDI_MAP + MIDI_MAP_LEN) {
            Some(s) => {
                map.param_cc = array_of::<MIDI_MAP_LEN>(s);
            },
            None => {},
        }
        match get_region(blob, OFF_MIDI_MAP_EXTRA, OFF_MIDI_MAP_EXTRA + MIDI_MAP_EXTRA_LEN) {
            Some(s) => {
                map.extra_cc = array_of::<MIDI_MAP_EXTRA_LEN>(s);
            },
            None => {},
        }
        map
    }

    /// Raw bytes of the global switches block at `blob + 0x4C48` (up to
    /// [`SWITCHES_SLICE_LEN`] bytes, clamped to the blob end).
    pub fn switches(&self) -> (r: &[u8])
        ensures
            r@ == if OFF_SWITCHES <= self.blob@.len() {
                self.blob@.subrange(
                    OFF_SWITCHES as int,
                    if OFF_SWITCHES + SWITCHES_SLICE_LEN < self.blob@.len() {
                        OFF_SWITCHES + SWITCHES_SLICE_LEN
                    } else {
                        self.blob@.len() as int
                    },
                )
            } else {
                Seq::empty()
            },
    {
        let blob = self.blob.as_slice();
        let end = if OFF_SWITCHES + SWITCHES_SLICE_LEN < blob.len() {
            OFF_SWITCHES + SWITCHES_SLICE_LEN
        } else {
            blob.len()
        };
        if OFF_SWITCHES <= end {
            slice_subrange(blob, OFF_SWITCHES, end)
        } else {
            slice_subrange(blob, 0, 0)
        }
    }

    /// Float32 field (bit pattern) at `switches + off`; 0 when outside the
    /// documented 100-byte block.
    pub fn switch_f32(&self, off: usize) -> (r: u32)
        ensures
            r == if off + 4 > SWITCHES_LEN {
                0
            } else {
                u32_at_spec(self.blob@, OFF_SWITCHES + off)
            },
    {
        if off > SWITCHES_LEN - 4 {
            return 0;
        }
        u32_at(self.blob.as_slice(), OFF_SWITCHES + off)
    }

    /// A4 tuning reference: Hz = 430 + 20*value (0.5 = 440 Hz).
    pub fn switch_a4(&self) -> (r: u32)
        ensures
            r == u32_at_spec(self.blob@, OFF_SWITCHES + 0x00),
    {
        self.switch_f32(0x00)
    }

    /// Unison tuning A: index/4 of Linear/Super/Exp/Inv/Random.
    pub fn switch_unison_tuning_a(&self) -> (r: u32)
        ensures
            r == u32_at_spec(self.blob@, OFF_SWITCHES + 0x08),
    {
        self.switch_f32(0x08)
    }

    /// Unison tuning B, same encoding.
    pub fn switch_unison_tuning_b(&self) -> (r: u32)
        ensures
            r == u32_at_spec(self.blob@, OFF_SWITCHES + 0x0C),
    {
        self.switch_f32(0x0C)
    }

    /// Mono toggle (0/1).
    pub fn switch_mono(&self) -> (r: u32)
        ensures
            r == u32_at_spec(self.blob@, OFF_SWITCHES + 0x10),
    {
        self.switch_f32(0x10)
    }

    /// Legato toggle (0/1).
    pub fn switch_legato(&self) -> (r: u32)
        ensures
            r == u32_at_spec(self.blob@, OFF_SWITCHES + 0x14),
    {
        self.switch_f32(0x14)
    }

    /// Portamento "Always" toggle (0/1).
    pub fn switch_porta_always(&self) -> (r: u32)
        ensures
            r == u32_at_spec(self.blob@, OFF_SWITCHES + 0x18),
    {
        self.switch_f32(0x18)
    }

    /// Portamento "Scaled" toggle (0/1).
    pub fn switch_porta_scaled(&self) -> (r: u32)
        ensures
            r == u32_at_spec(self.blob@, OFF_SWITCHES + 0x1C),
    {
        self.switch_f32(0x1C)
    }

    /// Oversampling: index/2 of 1x/2x/4x (0.5 = 2x).
    pub fn switch_oversampling(&self) -> (r: u32)
        ensures
            r == u32_at_spec(self.blob@, OFF_SWITCHES + 0x20),
    {
        self.switch_f32(0x20)
    }

    /// Noise one-shot toggle (0/1).
    pub fn switch_noise_one_shot(&self) -> (r: u32)
        ensures
            r == u32_at_spec(self.blob@, OFF_SWITCHES + 0x24),
    {
        self.switch_f32(0x24)
    }

    /// Noise pitch-track toggle (0/1).
    pub fn switch_noise_pitch_track(&self) -> (r: u32)
        ensures
            r == u32_at_spec(self.blob@, OFF_SWITCHES + 0x28),
    {
        self.switch_f32(0x28)
    }

    /// Polyphony: (voices - 1) / 31 (default 8 voices = 7/31).
    pub fn switch_polyphony(&self) -> (r: u32)
        ensures
            r == u32_at_spec(self.blob@, OFF_SWITCHES + 0x2C),
    {
        self.switch_f32(0x2C)
    }

    /// Filter keytrack toggle (0/1).
    pub fn switch_filter_keytrack(&self) -> (r: u32)
        ensures
            r == u32_at_spec(self.blob@, OFF_SWITCHES + 0x34),
    {
        self.switch_f32(0x34)
    }

    /// Unison range A: semitones / 48 (default 2 st = 0.041667).
    pub fn switch_unison_range_a(&self) -> (r: u32)
        ensures
            r == u32_at_spec(self.blob@, OFF_SWITCHES + 0x38),
    {
        self.switch_f32(0x38)
    }

    /// Unison range B, same encoding.
    pub fn switch_unison_range_b(&self) -> (r: u32)
        ensures
            r == u32_at_spec(self.blob@, OFF_SWITCHES + 0x3C),
    {
        self.switch_f32(0x3C)
    }

    /// Chaos 1 mono toggle (0/1).
    pub fn switch_chaos1_mono(&self) -> (r: u32)
        ensures
            r == u32_at_spec(self.blob@, OFF_SWITCHES + 0x40),
    {
        self.switch_f32(0x40)
    }

    /// Chaos 2 mono toggle (0/1).
    pub fn switch_chaos2_mono(&self) -> (r: u32)
        ensures
            r == u32_at_spec(self.blob@, OFF_SWITCHES + 0x44),
    {
        self.switch_f32(0x44)
    }

    /// Chorus mono toggle (0/1).
    pub fn switch_chorus_mono(&self) -> (r: u32)
        ensures
            r == u32_at_spec(self.blob@, OFF_SWITCHES + 0x48),
    {
        self.switch_f32(0x48)
    }

    /// Chaos 1 sample-and-hold toggle (0/1).
    pub fn switch_chaos1_sample_hold(&self) -> (r: u32)
        ensures
            r == u32_at_spec(self.blob@, OFF_SWITCHES + 0x50),
    {
        self.switch_f32(0x50)
    }

    /// Chaos 2 sample-and-hold toggle (0/1).
    pub fn switch_chaos2_sample_hold(&self) -> (r: u32)
        ensures
            r == u32_at_spec(self.blob@, OFF_SWITCHES + 0x54),
    {
        self.switch_f32(0x54)
    }

    /// Reverb Hall/Plate: 1 = Hall (default; mirrored by the 0x3B04 byte).
    pub fn switch_reverb_hall(&self) -> (r: u32)
        ensures
            r == u32_at_spec(self.blob@, OFF_SWITCHES + 0x5C),
    {
        self.switch_f32(0x5C)
    }
}

// ---------------------------------------------------------------------------
// LFO block fields (work for any 0x2D28-byte block)
// ---------------------------------------------------------------------------

/// Point count, u32 at block+0x2D08; 0 when the block is short.
pub fn lfo_num_points(block: &[u8]) -> (r: u32)
    ensures
        r == u32_at_spec(block@, LFO_OFF_NUM_POINTS as int),
{
    u32_at(block, LFO_OFF_NUM_POINTS)
}

/// Raw phase word at block+0x2D0C; 0 when the block is short.
pub fn lfo_phase_raw(block: &[u8]) -> (r: u32)
    ensures
        r == u32_at_spec(block@, LFO_OFF_PHASE as int),
{
    u32_at(block, LFO_OFF_PHASE)
}

/// Loopback point number, i32 at block+0x2D10; 0 when the block is short.
pub fn lfo_loopback_point_num(block: &[u8]) -> (r: i32)
    ensures
        r == i32_at_spec(block@, LFO_OFF_LOOPBACK_POINT_NUM as int),
{
    i32_at(block, LFO_OFF_LOOPBACK_POINT_NUM)
}

/// Rate (f32 bit pattern) at block+0x2D14; 0 when the block is short.
pub fn lfo_rate(block: &[u8]) -> (r: u32)
    ensures
        r == u32_at_spec(block@, LFO_OFF_RATE as int),
{
    u32_at(block, LFO_OFF_RATE)
}

/// Smooth (f32 bit pattern) at block+0x2D18; 0 when the block is short.
pub fn lfo_smooth(block: &[u8]) -> (r: u32)
    ensures
        r == u32_at_spec(block@, LFO_OFF_SMOOTH as int),
{
    u32_at(block, LFO_OFF_SMOOTH)
}

/// Delay (f32 bit pattern) at block+0x2D1C; 0 when the block is short.
pub fn lfo_delay(block: &[u8]) -> (r: u32)
    ensures
        r == u32_at_spec(block@, LFO_OFF_DELAY as int),
{
    u32_at(block, LFO_OFF_DELAY)
}

/// Rise (f32 bit pattern) at block+0x2D20; 0 when the block is short.
pub fn lfo_rise(block: &[u8]) -> (r: u32)
    ensures
        r == u32_at_spec(block@, LFO_OFF_RISE as int),
{
    u32_at(block, LFO_OFF_RISE)
}

/// The 7 flag bytes at block+0x2D00; zeros when the block is short.
pub fn lfo_flags(block: &[u8]) -> (r: [u8; 7])
    ensures
        r@ == match region(block@, LFO_OFF_FLAGS as int, LFO_OFF_FLAGS + 7) {
            Some(s) => s,
            None => Seq::new(7, |i: int| 0u8),
        },
{
    match get_region(block, LFO_OFF_FLAGS, LFO_OFF_FLAGS + 7) {
        Some(s) => array_of::<7>(s),
        None => {
            let flags = [0u8; 7];
            assert(flags@ =~= Seq::new(7, |i: int| 0u8));
            flags
        },
    }
}

/// The curve array (480 f64 values) at the start of the block.
pub fn lfo_curve_vals(block: &[u8]) -> (r: Option<&[u8]>)
    ensures
        match r {
            Some(s) => region(block@, 0, LFO_CURVE_BYTES as int) == Some(s@),
            None => region(block@, 0, LFO_CURVE_BYTES as int) is None,
        },
{
    get_region(block, 0, LFO_CURVE_BYTES)
}

/// The x array (480 f64 values) after the curve array.
pub fn lfo_x_vals(block: &[u8]) -> (r: Option<&[u8]>)
    ensures
        match r {
            Some(s) => region(block@, LFO_CURVE_BYTES as int, 2 * LFO_CURVE_BYTES) == Some(s@),
            None => region(block@, LFO_CURVE_BYTES as int, 2 * LFO_CURVE_BYTES) is None,
        },
{
    get_region(block, LFO_CURVE_BYTES, 2 * LFO_CURVE_BYTES)
}

/// The y array (480 f64 values) after the x array.
pub fn lfo_y_vals(block: &[u8]) -> (r: Option<&[u8]>)
    ensures
        match r {
            Some(s) => region(block@, 2 * LFO_CURVE_BYTES, 3 * LFO_CURVE_BYTES) == Some(s@),
            None => region(block@, 2 * LFO_CURVE_BYTES, 3 * LFO_CURVE_BYTES) is None,
        },
{
    get_region(block, 2 * LFO_CURVE_BYTES, 3 * LFO_CURVE_BYTES)
}

} // verus!
