//! Serum plugin state handling: detecting Serum instances and recovering
//! the Serum preset chunk (the exact `chunk` region of a Serum `.fxp`).

use vstd::prelude::*;
use vstd::slice::slice_subrange;
use crate::bytes::{be_u32, copy_range, has_at, le_bytes32, le_u32, push_u32_le, read_u32_be, read_u32_le};
use crate::flp::{records, record_walk, lemma_record_walk_step, lemma_record_next_advances};
use crate::scan::{cstr, cstr_spec};
use crate::strs::{
    basename, basename_chars, byte_list, chars_eq, chars_start_with, decimal, lossy_chars, lower_all,
    push_byte_list, push_decimal, push_str, starts_with, string_from_chars, string_of, strip_suffix_all,
    strip_suffix_repeated, to_lower, trim, trim_ws, utf8_lossy,
};
use crate::zlibio::{inflate, inflate_spec, split_chunk, split_chunk_spec, MAX_STREAM};

verus! {

broadcast use vstd::string::group_string_axioms;

/// Size of the decompressed Serum preset state for contemporary presets.
pub const SERUM1_STATE_SIZE: usize = 172736;

/// Offset of the 32-byte preset name inside the decompressed state.
pub const OFF_PRESET_NAME: usize = 0x4972;

/// Offset of the f32 preset-format version inside the decompressed state.
pub const OFF_VERSION_F32: usize = 0x4994;

/// Offset of the 48-byte author string inside the decompressed state.
pub const OFF_AUTHOR: usize = 0x49A0;

/// Offset of the 48-byte category string inside the decompressed state.
pub const OFF_CATEGORY: usize = 0x49D0;

// ---------------------------------------------------------------------------
// Plugin detection
/// A plugin name field: decoded lossily, trimmed, ASCII-lowercased.
pub open spec fn norm_name(b: Seq<u8>) -> Seq<char> {
    lower_all(trim(utf8_lossy(b)))
}

/// `.vst3`, `.vst`, `.dll`, `.vstpreset` stripped (each repeatedly, in
/// that order).
pub open spec fn strip_exts(s: Seq<char>) -> Seq<char> {
    strip_suffix_all(
        strip_suffix_all(strip_suffix_all(strip_suffix_all(s, ".vst3"@), ".vst"@), ".dll"@),
        ".vstpreset"@,
    )
}

/// Basename of a plugin path with known extensions stripped, lowercased.
pub open spec fn plugin_base(filename: Seq<u8>) -> Seq<char> {
    strip_exts(basename(norm_name(filename)))
}

/// Names that mark a Serum2 plugin.
pub open spec fn names_serum2(name: Seq<char>) -> bool {
    name == "serum2"@ || starts_with(name, "serum 2"@)
}

/// One of the Serum synth / FX identities.
pub open spec fn serum1_ident(s: Seq<char>) -> bool {
    s == "serum"@ || s == "serum fx"@ || s == "serum_x64"@
}

pub open spec fn is_serum1_spec(name: Seq<u8>, filename: Seq<u8>) -> bool {
    let n = norm_name(name);
    let b = plugin_base(filename);
    if is_serum2_spec(name, filename) || b == "serum2"@ {
        false
    } else {
        serum1_ident(n) || serum1_ident(b)
    }
}

pub open spec fn is_serum2_spec(name: Seq<u8>, filename: Seq<u8>) -> bool {
    names_serum2(norm_name(name)) || starts_with(basename(norm_name(filename)), "serum2"@)
}

pub open spec fn is_serum1_synth_spec(name: Seq<u8>, filename: Seq<u8>) -> bool {
    let n = norm_name(name);
    let b = plugin_base(filename);
    if is_serum2_spec(name, filename) || is_serum_fx_spec(name, filename) || b == "serum2"@
        || starts_with(b, "serum2"@) {
        false
    } else {
        n == "serum"@ || n == "serum_x64"@ || b == "serum"@ || b == "serum_x64"@
    }
}

pub open spec fn is_serum_fx_spec(name: Seq<u8>, filename: Seq<u8>) -> bool {
    norm_name(name) == "serum fx"@ || plugin_base(filename) == "serum fx"@
}

/// The plugin kinds never overlap: a Serum2 plugin is not Serum, and the
/// Serum synth is Serum but neither Serum2 nor Serum FX.
pub proof fn lemma_serum_kinds_exclusive(name: Seq<u8>, filename: Seq<u8>)
    ensures
        is_serum2_spec(name, filename) ==> !is_serum1_spec(name, filename),
        is_serum1_synth_spec(name, filename) ==> is_serum1_spec(name, filename)
            && !is_serum2_spec(name, filename) && !is_serum_fx_spec(name, filename),
{
}

fn norm_chars(b: &[u8]) -> (r: Vec<char>)
    ensures
        r@ == norm_name(b@),
{
    let s = lossy_chars(b);
    let t = trim_ws(s.as_slice());
    to_lower(t.as_slice())
}

fn base_chars(filename: &[u8]) -> (r: Vec<char>)
    ensures
        r@ == plugin_base(filename@),
{
    let f = norm_chars(filename);
    let b = basename_chars(f.as_slice());
    let b = strip_suffix_repeated(b.as_slice(), ".vst3");
    let b = strip_suffix_repeated(b.as_slice(), ".vst");
    let b = strip_suffix_repeated(b.as_slice(), ".dll");
    strip_suffix_repeated(b.as_slice(), ".vstpreset")
}

fn names_serum2_exec(n: &[char]) -> (r: bool)
    ensures
        r == names_serum2(n@),
{
    chars_eq(n, "serum2") || chars_start_with(n, "serum 2")
}

fn serum1_ident_exec(s: &[char]) -> (r: bool)
    ensures
        r == serum1_ident(s@),
{
    chars_eq(s, "serum") || chars_eq(s, "serum fx") || chars_eq(s, "serum_x64")
}

/// True when the plugin described by `name`/`filename` is Serum
/// (the synth or "Serum FX"), i.e. not Serum2 and not something unrelated.
pub fn is_serum1(name: &[u8], filename: &[u8]) -> (r: bool)
    ensures
        r == is_serum1_spec(name@, filename@),
{
    let n = norm_chars(name);
    let b = base_chars(filename);
    if is_serum2(name, filename) || chars_eq(b.as_slice(), "serum2") {
        return false;
    }
    serum1_ident_exec(n.as_slice()) || serum1_ident_exec(b.as_slice())
}

/// True when the plugin is Serum2 (reported separately, never extracted).
pub fn is_serum2(name: &[u8], filename: &[u8]) -> (r: bool)
    ensures
        r == is_serum2_spec(name@, filename@),
{
    let n = norm_chars(name);
    let f = norm_chars(filename);
    let b = basename_chars(f.as_slice());
    names_serum2_exec(n.as_slice()) || chars_start_with(b.as_slice(), "serum2")
}

/// Basename of a plugin path with known extensions stripped
/// (`.vst3`/`.vst`/`.dll`/`.vstpreset`), lowercased.
pub fn plugin_basename(filename: &[u8]) -> (r: String)
    ensures
        r@ == plugin_base(filename@),
{
    let b = base_chars(filename);
    string_from_chars(b.as_slice())
}

/// Serum *synth* only — excludes "Serum FX" and Serum2.
pub fn is_serum1_synth(name: &[u8], filename: &[u8]) -> (r: bool)
    ensures
        r == is_serum1_synth_spec(name@, filename@),
{
    let n = norm_chars(name);
    let b = base_chars(filename);
    if is_serum2(name, filename) || is_serum_fx(name, filename) || chars_eq(b.as_slice(), "serum2")
        || chars_start_with(b.as_slice(), "serum2") {
        return false;
    }
    chars_eq(n.as_slice(), "serum") || chars_eq(n.as_slice(), "serum_x64") || chars_eq(
        b.as_slice(),
        "serum",
    ) || chars_eq(b.as_slice(), "serum_x64")
}

/// True for the "Serum FX" plugin variant (the FX is never converted).
pub fn is_serum_fx(name: &[u8], filename: &[u8]) -> (r: bool)
    ensures
        r == is_serum_fx_spec(name@, filename@),
{
    let n = norm_chars(name);
    let b = base_chars(filename);
    chars_eq(n.as_slice(), "serum fx") || chars_eq(b.as_slice(), "serum fx")
}

// ---------------------------------------------------------------------------
// Recovering the preset chunk
/// Where the Serum chunk was recovered from (for diagnostics).
#[derive(Debug, Clone, Copy, PartialEq, Eq, Structural)]
pub enum SourceKind {
    /// FL Studio VST3 wrapper: `[prologue][chunks..., state = cid 3]`, the
    /// cid-3 payload being the zlib-stream preset chunk.
    FlVst3Wrapper,
    /// A bare zlib-stream chunk stored directly in the state event.
    RawZlib,
    /// A complete `CcnK`/`FPCh` preset embedded in the state.
    CcnKFxPreset,
    /// An `FPCh` preset inside FL's `VstW` VST2 wrapper.
    VstWFxPreset,
}

/// Metadata read from the decompressed 172,736-byte preset state.
///
/// The preset-format version is an `f32` in the state; it is kept here as
/// its raw IEEE-754 bit pattern (`f32::from_bits` gives the number).
#[derive(Debug, Clone, Default, PartialEq, Eq)]
pub struct PresetMeta {
    pub preset_name: String,
    pub author: String,
    pub category: String,
    pub version_f32_bits: u32,
}

/// The recovered Serum chunk plus parsed metadata.
#[derive(Debug)]
pub struct Serum1Chunk {
    /// Exact bytes of the fxp `chunk` region: one or more concatenated zlib
    /// streams followed by a `u32 LE` trailer with the compressed size of the
    /// first stream.
    pub chunk: Vec<u8>,
    pub source: SourceKind,
    pub meta: PresetMeta,
    /// Decompressed sizes of every zlib stream (stream 0 = the preset state,
    /// later streams = embedded wavetable / noise data).
    pub stream_sizes: Vec<usize>,
}

/// `"CcnK"`
pub open spec fn tag_ccnk() -> Seq<u8> {
    seq![0x43u8, 0x63u8, 0x6Eu8, 0x4Bu8]
}

/// `"FPCh"`
pub open spec fn tag_fpch() -> Seq<u8> {
    seq![0x46u8, 0x50u8, 0x43u8, 0x68u8]
}

/// `"FBCh"`
pub open spec fn tag_fbch() -> Seq<u8> {
    seq![0x46u8, 0x42u8, 0x43u8, 0x68u8]
}

/// `"VstW"`
pub open spec fn tag_vstw() -> Seq<u8> {
    seq![0x56u8, 0x73u8, 0x74u8, 0x57u8]
}

/// `"XferJson"`
pub open spec fn tag_xferjson() -> Seq<u8> {
    seq![0x58u8, 0x66u8, 0x65u8, 0x72u8, 0x4Au8, 0x73u8, 0x6Fu8, 0x6Eu8]
}

/// Whether `s` starts with `p`.
pub open spec fn starts_bytes(s: Seq<u8>, p: Seq<u8>) -> bool {
    p.len() <= s.len() && s.subrange(0, p.len() as int) == p
}

pub(crate) fn ccnk_tag() -> (v: Vec<u8>)
    ensures
        v@ == tag_ccnk(),
{
    let v = vec![0x43u8, 0x63u8, 0x6Eu8, 0x4Bu8];
    assert(v@ =~= tag_ccnk());
    v
}

pub(crate) fn fpch_tag() -> (v: Vec<u8>)
    ensures
        v@ == tag_fpch(),
{
    let v = vec![0x46u8, 0x50u8, 0x43u8, 0x68u8];
    assert(v@ =~= tag_fpch());
    v
}

fn fbch_tag() -> (v: Vec<u8>)
    ensures
        v@ == tag_fbch(),
{
    let v = vec![0x46u8, 0x42u8, 0x43u8, 0x68u8];
    assert(v@ =~= tag_fbch());
    v
}

fn vstw_tag() -> (v: Vec<u8>)
    ensures
        v@ == tag_vstw(),
{
    let v = vec![0x56u8, 0x73u8, 0x74u8, 0x57u8];
    assert(v@ =~= tag_vstw());
    v
}

fn xferjson_tag() -> (v: Vec<u8>)
    ensures
        v@ == tag_xferjson(),
{
    let v = vec![0x58u8, 0x66u8, 0x65u8, 0x72u8, 0x4Au8, 0x73u8, 0x6Fu8, 0x6Eu8];
    assert(v@ =~= tag_xferjson());
    v
}

/// The payload of the first record with id `cid`, if any.
pub open spec fn first_payload(recs: Seq<(u32, Seq<u8>)>, cid: u32) -> Option<Seq<u8>>
    decreases recs.len(),
{
    if recs.len() == 0 {
        None
    } else {
        match first_payload(recs.drop_last(), cid) {
            Some(p) => Some(p),
            None => if recs.last().0 == cid {
                Some(recs.last().1)
            } else {
                None
            },
        }
    }
}

/// Whether some record is the wrapper's 64-byte cid-1 header.
pub open spec fn has_header_record(recs: Seq<(u32, Seq<u8>)>) -> bool
    decreases recs.len(),
{
    recs.len() > 0 && (has_header_record(recs.drop_last()) || (recs.last().0 == 1
        && recs.last().1.len() == 64))
}

/// FL Studio's VST3 wrapper read from `rest`: `Some(cid-3 payload)` when the
/// record walk consumes `rest` exactly, with at least two records including
/// the 64-byte cid-1 header; `None` when the layout does not match.
pub open spec fn wrapper_layout(rest: Seq<u8>) -> Option<Option<Seq<u8>>> {
    if rest.len() < 4 {
        None
    } else {
        let w = record_walk(rest, 0, false);
        if !w.2 && w.1 == rest.len() && w.0.len() >= 2 && has_header_record(w.0) {
            Some(first_payload(w.0, 3))
        } else {
            None
        }
    }
}

/// The wrapper's cid-3 payload, trying prologue lengths `start..=8`.
pub open spec fn wrapper_cid3_from(state: Seq<u8>, start: int) -> Option<Seq<u8>>
    decreases 9 - start,
{
    if start < 0 || start > 8 {
        None
    } else if start > state.len() {
        wrapper_cid3_from(state, start + 1)
    } else {
        match wrapper_layout(state.subrange(start, state.len() as int)) {
            Some(found) => found,
            None => wrapper_cid3_from(state, start + 1),
        }
    }
}

pub open spec fn slice_opt_view(o: Option<&[u8]>) -> Option<Seq<u8>> {
    match o {
        Some(s) => Some(s@),
        None => None,
    }
}

fn wrapper_walk<'a>(rest: &'a [u8]) -> (r: Option<Option<&'a [u8]>>)
    ensures
        match (r, wrapper_layout(rest@)) {
            (Some(a), Some(b)) => slice_opt_view(a) == b,
            (None, None) => true,
            _ => false,
        },
{
    let rlen = rest.len();
    let mut recs = match records(rest) {
        Some(w) => w,
        None => return None,
    };
    let ghost total = record_walk(rest@, 0, false);
    let ghost mut seen: Seq<(u32, Seq<u8>)> = Seq::empty();
    let mut found: Option<&'a [u8]> = None;
    let mut nchunks: usize = 0;
    let mut has_cid1 = false;
    loop
        invariant
            recs.wf(),
            recs@.0 == rest@,
            rlen == rest@.len(),
            0 <= recs@.1 <= rest@.len(),
            seen.len() * 12 <= recs@.1,
            ({
                let w = record_walk(rest@, recs@.1, recs@.2);
                total == (seen + w.0, w.1, w.2)
            }),
            nchunks == seen.len(),
            has_cid1 == has_header_record(seen),
            slice_opt_view(found) == first_payload(seen, 3),
        ensures
            total == (seen, recs@.1, recs@.2),
            nchunks == seen.len(),
            has_cid1 == has_header_record(seen),
            slice_opt_view(found) == first_payload(seen, 3),
        decreases rest@.len() - recs@.1,
    {
        proof {
            lemma_record_walk_step(rest@, recs@.1, recs@.2);
            lemma_record_next_advances(rest@, recs@.1, recs@.2);
        }
        match recs.next() {
            Some((cid, data)) => {
                let ghost rec = (cid, data@);
                proof {
                    assert(seen.push(rec).drop_last() =~= seen);
                    let w = record_walk(rest@, recs@.1, recs@.2);
                    assert(seen + (seq![rec] + w.0) =~= seen.push(rec) + w.0);
                    seen = seen.push(rec);
                }
                if cid == 1 && data.len() == 64 {
                    has_cid1 = true;
                }
                if cid == 3 && found.is_none() {
                    found = Some(data);
                }
                nchunks += 1;
            },
            None => {
                proof {
                    assert(seen + Seq::<(u32, Seq<u8>)>::empty() =~= seen);
                }
                break;
            },
        }
    }
    if !recs.overran() && recs.pos() == rest.len() && nchunks >= 2 && has_cid1 {
        Some(found)
    } else {
        None
    }
}

/// Walk FL Studio's VST3 wrapper state and return the cid-3 payload
/// (the plugin's own saved state), if the layout matches.
///
/// Acceptance requires the record walk to consume the state exactly, with at
/// least two records including the 64-byte cid-1 header record.
fn fl_vst3_wrapper_cid3<'a>(state: &'a [u8]) -> (r: Option<&'a [u8]>)
    ensures
        slice_opt_view(r) == wrapper_cid3_from(state@, 0),
{
    let mut start: usize = 0;
    while start <= 8
        invariant
            start <= 9,
            wrapper_cid3_from(state@, 0) == wrapper_cid3_from(state@, start as int),
        decreases 9 - start,
    {
        if start <= state.len() {
            let rest = slice_subrange(state, start, state.len());
            match wrapper_walk(rest) {
                Some(found) => return found,
                None => {},
            }
        }
        start += 1;
    }
    None
}

pub open spec fn msg_unsupported_magic(m: Seq<u8>) -> Seq<char> {
    "unsupported fxMagic "@ + byte_list(m)
}

/// The preset chunk of a complete VST2 `CcnK` blob: program chunk (`FPCh`,
/// size at 0x38, chunk at 0x3C) or bank chunk (`FBCh`, size at 28, chunk
/// at 32).
pub open spec fn ccnk_chunk(blob: Seq<u8>) -> Result<Seq<u8>, Seq<char>> {
    if blob.len() < 0x3C || blob.subrange(0, 4) != tag_ccnk() {
        Err("bad CcnK blob"@)
    } else {
        let magic = blob.subrange(8, 12);
        if magic == tag_fpch() {
            let cs = be_u32(blob, 0x38);
            if 0x3C + cs > blob.len() {
                Err("FPCh chunk overruns blob"@)
            } else {
                Ok(blob.subrange(0x3C, 0x3C + cs))
            }
        } else if magic == tag_fbch() {
            let cs = be_u32(blob, 28);
            if 32 + cs > blob.len() {
                Err("FBCh chunk overruns blob"@)
            } else {
                Ok(blob.subrange(32, 32 + cs))
            }
        } else {
            Err(msg_unsupported_magic(magic))
        }
    }
}

/// Extract the `CcnK` preset chunk out of a complete VST2 fxp/fxb blob.
fn chunk_from_ccnk<'a>(blob: &'a [u8]) -> (r: Result<&'a [u8], String>)
    ensures
        match (r, ccnk_chunk(blob@)) {
            (Ok(a), Ok(b)) => a@ == b,
            (Err(a), Err(b)) => a@ == b,
            _ => false,
        },
{
    let len = blob.len();
    if len < 0x3C || !has_at(blob, 0, ccnk_tag().as_slice()) {
        return Err(string_of("bad CcnK blob"));
    }
    if has_at(blob, 8, fpch_tag().as_slice()) {
        let cs = read_u32_be(blob, 0x38) as usize;
        if cs > len - 0x3C {
            return Err(string_of("FPCh chunk overruns blob"));
        }
        Ok(slice_subrange(blob, 0x3C, 0x3C + cs))
    } else if has_at(blob, 8, fbch_tag().as_slice()) {
        let cs = read_u32_be(blob, 28) as usize;
        if cs > len - 32 {
            return Err(string_of("FBCh chunk overruns blob"));
        }
        Ok(slice_subrange(blob, 32, 32 + cs))
    } else {
        let mut msg = string_of("unsupported fxMagic ");
        push_byte_list(&mut msg, slice_subrange(blob, 8, 12));
        Err(msg)
    }
}

/// First offset `i` in `lo..` with `"CcnK"` at `s[i..i + 4]` inside `s[..lim]`.
pub open spec fn find_ccnk(s: Seq<u8>, i: int, lim: int) -> Option<int>
    decreases lim - i,
{
    if i < 0 || i + 4 > lim {
        None
    } else if s.subrange(i, i + 4) == tag_ccnk() {
        Some(i)
    } else {
        find_ccnk(s, i + 1, lim)
    }
}

/// Where the chunk of a plugin state lies, and which layout held it.
pub open spec fn locate_chunk(state: Seq<u8>) -> Result<(Seq<u8>, SourceKind), Seq<char>> {
    match wrapper_cid3_from(state, 0) {
        Some(c) => if starts_bytes(c, tag_xferjson()) {
            Err("cid-3 state is Serum2 XferJson (not Serum)"@)
        } else {
            Ok((c, SourceKind::FlVst3Wrapper))
        },
        None => if starts_bytes(state, tag_vstw()) {
            let lim = if state.len() < 64 {
                state.len() as int
            } else {
                64
            };
            match find_ccnk(state, 0, lim) {
                None => Err("VstW wrapper without CcnK blob"@),
                Some(off) => match ccnk_chunk(state.subrange(off, state.len() as int)) {
                    Ok(c) => Ok((c, SourceKind::VstWFxPreset)),
                    Err(e) => Err(e),
                },
            }
        } else if starts_bytes(state, tag_ccnk()) {
            match ccnk_chunk(state) {
                Ok(c) => Ok((c, SourceKind::CcnKFxPreset)),
                Err(e) => Err(e),
            }
        } else if state.len() > 0 && state[0] == 0x78 {
            Ok((state, SourceKind::RawZlib))
        } else {
            Err("unrecognized plugin state layout"@)
        },
    }
}

fn locate<'a>(state: &'a [u8]) -> (r: Result<(&'a [u8], SourceKind), String>)
    requires
        state@.len() > 0,
    ensures
        match (r, locate_chunk(state@)) {
            (Ok(a), Ok(b)) => a.0@ == b.0 && a.1 == b.1,
            (Err(a), Err(b)) => a@ == b,
            _ => false,
        },
{
    let len = state.len();
    if let Some(cid3) = fl_vst3_wrapper_cid3(state) {
        if has_at(cid3, 0, xferjson_tag().as_slice()) {
            return Err(string_of("cid-3 state is Serum2 XferJson (not Serum)"));
        }
        return Ok((cid3, SourceKind::FlVst3Wrapper));
    }
    if has_at(state, 0, vstw_tag().as_slice()) {
        let lim: usize = if len < 64 {
            len
        } else {
            64
        };
        let tag = ccnk_tag();
        let mut i: usize = 0;
        while i + 4 <= lim
            invariant
                lim <= len == state@.len(),
                lim == (if len < 64 {
                    len
                } else {
                    64
                }),
                i <= lim,
                tag@ == tag_ccnk(),
                wrapper_cid3_from(state@, 0) is None,
                starts_bytes(state@, tag_vstw()),
                find_ccnk(state@, 0, lim as int) == find_ccnk(state@, i as int, lim as int),
            decreases lim - i,
        {
            if has_at(state, i, tag.as_slice()) {
                let blob = slice_subrange(state, i, len);
                return match chunk_from_ccnk(blob) {
                    Ok(c) => Ok((c, SourceKind::VstWFxPreset)),
                    Err(e) => Err(e),
                };
            }
            i += 1;
        }
        return Err(string_of("VstW wrapper without CcnK blob"));
    }
    if has_at(state, 0, ccnk_tag().as_slice()) {
        return match chunk_from_ccnk(state) {
            Ok(c) => Ok((c, SourceKind::CcnKFxPreset)),
            Err(e) => Err(e),
        };
    }
    if state[0] == 0x78 {
        return Ok((state, SourceKind::RawZlib));
    }
    Err(string_of("unrecognized plugin state layout"))
}

/// The metadata fields of a decompressed state: preset name, author,
/// category and the version float's bits (0 when the state is too short).
pub open spec fn meta_spec(state: Seq<u8>) -> (Seq<char>, Seq<char>, Seq<char>, u32) {
    (
        cstr_spec(state, OFF_PRESET_NAME as int, 32, true),
        cstr_spec(state, OFF_AUTHOR as int, 48, true),
        cstr_spec(state, OFF_CATEGORY as int, 48, true),
        if state.len() >= OFF_VERSION_F32 + 4 {
            le_u32(state, OFF_VERSION_F32 as int) as u32
        } else {
            0u32
        },
    )
}

pub open spec fn meta_view(m: PresetMeta) -> (Seq<char>, Seq<char>, Seq<char>, u32) {
    (m.preset_name@, m.author@, m.category@, m.version_f32_bits)
}

fn parse_meta(state: &[u8]) -> (m: PresetMeta)
    ensures
        meta_view(m) == meta_spec(state@),
{
    let version_f32_bits = if state.len() >= OFF_VERSION_F32 + 4 {
        read_u32_le(state, OFF_VERSION_F32)
    } else {
        0
    };
    PresetMeta {
        preset_name: cstr(state, OFF_PRESET_NAME, 32, true),
        author: cstr(state, OFF_AUTHOR, 48, true),
        category: cstr(state, OFF_CATEGORY, 48, true),
        version_f32_bits,
    }
}

pub open spec fn msg_state_too_big(n: nat) -> Seq<char> {
    "preset state is "@ + decimal(n) + " bytes (expected at most 172736)"@
}

/// Recovering the preset chunk of a plugin state: the chunk bytes (with the
/// trailer appended when it was missing), the layout it came from, the
/// decompressed preset state (stream 0) and every stream's decompressed
/// size.
pub open spec fn serum1_chunk_spec(state: Seq<u8>) -> Result<
    (Seq<u8>, SourceKind, Seq<u8>, Seq<nat>),
    Seq<char>,
> {
    if state.len() == 0 {
        Err("plugin state is empty"@)
    } else {
        match locate_chunk(state) {
            Err(e) => Err(e),
            Ok((raw, source)) => match split_chunk_spec(raw) {
                Err(e) => Err(e),
                Ok((streams, has_trailer)) => {
                    let s0 = streams[0];
                    let sizes = streams.map_values(|s: Seq<u8>| s.len());
                    if s0.len() > SERUM1_STATE_SIZE {
                        Err(msg_state_too_big(s0.len()))
                    } else if has_trailer {
                        Ok((raw, source, s0, sizes))
                    } else {
                        match inflate_spec(raw, MAX_STREAM as nat) {
                            Err(e) => Err(e),
                            Ok((_, c)) => Ok(
                                (raw + le_bytes32(c as int % 0x1_0000_0000), source, s0, sizes),
                            ),
                        }
                    }
                },
            },
        }
    }
}

fn stream_sizes(streams: &Vec<Vec<u8>>) -> (r: Vec<usize>)
    ensures
        r@.len() == streams@.len(),
        forall|i: int| 0 <= i < r@.len() ==> r@[i] == streams@[i]@.len(),
{
    let mut r: Vec<usize> = Vec::new();
    let mut i: usize = 0;
    while i < streams.len()
        invariant
            i <= streams@.len(),
            r@.len() == i,
            forall|j: int| 0 <= j < i ==> r@[j] == streams@[j]@.len(),
        decreases streams.len() - i,
    {
        r.push(streams[i].len());
        i += 1;
    }
    r
}

/// A recovered chunk as plain values: chunk bytes, source layout, metadata
/// (name, author, category, version bits) and stream sizes.
pub type ChunkView = (Seq<u8>, SourceKind, (Seq<char>, Seq<char>, Seq<char>, u32), Seq<nat>);

pub open spec fn chunk_view(c: Serum1Chunk) -> ChunkView {
    (c.chunk@, c.source, meta_view(c.meta), c.stream_sizes@.map_values(|n: usize| n as nat))
}

/// [`serum1_chunk_spec`]'s result with the state read into its metadata.
pub open spec fn recovered_view(s: (Seq<u8>, SourceKind, Seq<u8>, Seq<nat>)) -> ChunkView {
    (s.0, s.1, meta_spec(s.2), s.3)
}

/// Recover the Serum preset chunk from a `PluginParams` state payload.
pub fn serum1_chunk_from_state(state: &[u8]) -> (r: Result<Serum1Chunk, String>)
    ensures
        r matches Ok(c) ==> (serum1_chunk_spec(state@) matches Ok(s) && chunk_view(c)
            == recovered_view(s)),
        match (r, serum1_chunk_spec(state@)) {
            (Ok(c), Ok((chunk, source, s0, sizes))) => {
                &&& c.chunk@ == chunk
                &&& c.source == source
                &&& meta_view(c.meta) == meta_spec(s0)
                &&& c.stream_sizes@.len() == sizes.len()
                &&& forall|i: int| 0 <= i < sizes.len() ==> c.stream_sizes@[i] == sizes[i]
            },
            (Err(a), Err(b)) => a@ == b,
            _ => false,
        },
{
    if state.len() == 0 {
        return Err(string_of("plugin state is empty"));
    }
    let (raw, source) = match locate(state) {
        Ok(x) => x,
        Err(e) => return Err(e),
    };
    let (streams, has_trailer) = match split_chunk(raw) {
        Ok(x) => x,
        Err(e) => return Err(e),
    };
    proof {
        assert(streams@.map_values(|v: Vec<u8>| v@)[0] == streams@[0]@);
    }
    let stream0 = &streams[0];
    if stream0.len() > SERUM1_STATE_SIZE {
        let mut msg = string_of("preset state is ");
        push_decimal(&mut msg, stream0.len() as u64);
        push_str(&mut msg, " bytes (expected at most 172736)");
        return Err(msg);
    }
    let meta = parse_meta(stream0.as_slice());
    let mut chunk = copy_range(raw, 0, raw.len());
    proof {
        assert(raw@.subrange(0, raw@.len() as int) =~= raw@);
    }
    if !has_trailer {
        let s0_len = match inflate(raw, MAX_STREAM) {
            Ok((_, c)) => c,
            Err(e) => return Err(e),
        };
        push_u32_le(&mut chunk, (s0_len as u64 % 4294967296) as u32);
    }
    let sizes = stream_sizes(&streams);
    proof {
        let sv = streams@.map_values(|v: Vec<u8>| v@);
        assert forall|i: int| 0 <= i < sizes@.len() implies sizes@[i] == sv.map_values(
            |s: Seq<u8>| s.len(),
        )[i] by {
            assert(sv[i] == streams@[i]@);
        }
    }
    let out = Serum1Chunk { chunk, source, meta, stream_sizes: sizes };
    proof {
        let sv = streams@.map_values(|v: Vec<u8>| v@);
        assert(out.stream_sizes@.map_values(|n: usize| n as nat) =~= sv.map_values(
            |s: Seq<u8>| s.len(),
        ));
    }
    Ok(out)
}

} // verus!
