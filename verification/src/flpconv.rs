//! FLP byte surgery on Serum event-213 (`PluginParams`) payloads: rewriting
//! Serum instances into Serum2 ones (plan / bundle / apply) and patching the
//! preset metadata of Serum instances in place.
//!
//! Every rewrite keeps the bytes before the `FLdt` payload (but its length
//! field), re-emits every untouched event byte-identically and frames each
//! replaced payload afresh (event id, varint length, payload).

use vstd::prelude::*;
use vstd::slice::slice_subrange;
use vstd::utf8::encode_utf8;
use std::collections::HashMap;
use crate::bytes::{extend_from, has_at, le_bytes32, le_bytes64, le_u32, push_u32_le, push_u64_le, read_u32_le};
use crate::flp::{
    flp_events, parse_event_spans, parse_plugin_params, plugin_params, record_walk, span_view,
    lemma_record_next_advances, lemma_record_walk_step, tag_fldt, tag_flhd, Event, Records,
    EV_NEW_CHANNEL, EV_PLUGIN_PARAMS, EV_TEXT_CHANNEL_NAME, EV_TEXT_FX_TRACK_NAME,
};
use crate::bytes::{le_u16, read_u16_le};
use crate::flp::events_from;
use crate::fxp::{boundary_at_most, find_last_name, last_name, patch_chunk_spec, PatchField};
use crate::scan::{channel_label, display_name, text, text_spec, where_name};
use crate::serum::{
    is_serum1_synth, is_serum1_synth_spec, is_serum2, is_serum2_spec, is_serum_fx, is_serum_fx_spec,
    meta_spec, serum1_chunk_from_state, serum1_chunk_spec,
};
use crate::s1state::{parse_error, parse_preset, preset_of, S1Preset};
use crate::serum2state::{
    controller_header_spec, controller_json_header, hex_bytes, md5_digest, md5_hex, parse_xfer_json, record_bytes,
    wrap_controller_frame, xfer_json_spec,
};
use crate::strs::{
    chars_of, copy_chars, decimal, hex_prefixed, lossy_chars, push_decimal, push_hex_prefixed, push_str,
    string_from_chars, string_of, trim, trim_ws, utf8_lossy,
};

verus! {

broadcast use vstd::string::group_string_axioms;

/// 16-byte Serum2 plugin UID for top-level cid 52:
/// ASCII `XESVsfsPerum 2` + 2 NULs.
pub open spec fn serum2_uid() -> Seq<u8> {
    seq![
        0x58u8, 0x45u8, 0x53u8, 0x56u8, 0x73u8, 0x66u8, 0x73u8, 0x50u8, 0x65u8, 0x72u8, 0x75u8,
        0x6Du8, 0x20u8, 0x32u8, 0x00u8, 0x00u8,
    ]
}

fn serum2_uid_bytes() -> (v: Vec<u8>)
    ensures
        v@ == serum2_uid(),
{
    let v = vec![
        0x58u8, 0x45u8, 0x53u8, 0x56u8, 0x73u8, 0x66u8, 0x73u8, 0x50u8, 0x65u8, 0x72u8, 0x75u8,
        0x6Du8, 0x20u8, 0x32u8, 0x00u8, 0x00u8,
    ];
    assert(v@ =~= serum2_uid());
    v
}

// ---------------------------------------------------------------------------
// Chunk boundaries and record framing

pub open spec fn msg_no_flhd() -> Seq<char> {
    "missing FLhd header (not an FLP file?)"@
}

pub open spec fn msg_no_fldt() -> Seq<char> {
    "missing FLdt chunk"@
}

/// The FLhd/FLdt chunk boundaries: header length, position of the FLdt
/// length field, start of the FLdt payload, declared FLdt length.
pub open spec fn locate_spec(buf: Seq<u8>) -> Result<(int, int, int, int), Seq<char>> {
    if buf.len() < 8 || buf.subrange(0, 4) != tag_flhd() {
        Err(msg_no_flhd())
    } else {
        let hdrlen = le_u32(buf, 4);
        let dt_pos = 8 + hdrlen;
        if buf.len() < dt_pos + 8 || buf.subrange(dt_pos, dt_pos + 4) != tag_fldt() {
            Err(msg_no_fldt())
        } else {
            Ok((hdrlen, dt_pos + 4, dt_pos + 8, le_u32(buf, dt_pos + 4)))
        }
    }
}

fn has_tag(b: &[u8], off: usize, t0: u8, t1: u8, t2: u8, t3: u8) -> (r: bool)
    requires
        off + 4 <= b@.len(),
    ensures
        r == (b@.subrange(off as int, off + 4) == seq![t0, t1, t2, t3]),
{
    let r = b[off] == t0 && b[off + 1] == t1 && b[off + 2] == t2 && b[off + 3] == t3;
    proof {
        let s = b@.subrange(off as int, off + 4);
        if r {
            assert(s =~= seq![t0, t1, t2, t3]);
        } else {
            assert(s[0] == b@[off as int] && s[1] == b@[off + 1] && s[2] == b@[off + 2] && s[3]
                == b@[off + 3]);
        }
    }
    r
}

/// Locate the FLhd/FLdt chunk boundaries.
/// Returns `(hdrlen, dtlen_field_pos, dt_payload_start, dtlen)`.
fn locate_chunks(buf: &[u8]) -> (r: Result<(usize, usize, usize, usize), String>)
    ensures
        match (r, locate_spec(buf@)) {
            (Ok(a), Ok(b)) => a.0 == b.0 && a.1 == b.1 && a.2 == b.2 && a.3 == b.3,
            (Err(a), Err(b)) => a@ == b,
            _ => false,
        },
{
    let len = buf.len();
    if len < 8 || !has_tag(buf, 0, 0x46, 0x4C, 0x68, 0x64) {
        return Err(string_of("missing FLhd header (not an FLP file?)"));
    }
    let hdrlen = read_u32_le(buf, 4) as usize;
    if len < 16 || hdrlen > len - 16 || !has_tag(buf, 8 + hdrlen, 0x46, 0x4C, 0x64, 0x74) {
        return Err(string_of("missing FLdt chunk"));
    }
    let dt_pos = 8 + hdrlen;
    let dtlen = read_u32_le(buf, dt_pos + 4) as usize;
    Ok((hdrlen, dt_pos + 4, dt_pos + 8, dtlen))
}

/// A record `[u32 LE cid][u64 LE size][data]`.
pub open spec fn rec_bytes(cid: u32, data: Seq<u8>) -> Seq<u8> {
    le_bytes32(cid as int) + le_bytes64(data.len() as int) + data
}

fn push_rec(out: &mut Vec<u8>, cid: u32, data: &[u8])
    ensures
        final(out)@ == old(out)@ + rec_bytes(cid, data@),
{
    push_u32_le(out, cid);
    push_u64_le(out, data.len() as u64);
    extend_from(out, data);
    assert(out@ =~= old(out)@ + rec_bytes(cid, data@));
}

/// The LEB128 bytes of `n` (7 bits per byte, high bit = more follow).
pub open spec fn varint_bytes(n: nat) -> Seq<u8>
    decreases n,
{
    if n < 128 {
        seq![n as u8]
    } else {
        seq![(n % 128 + 128) as u8] + varint_bytes(n / 128)
    }
}

fn push_varint(out: &mut Vec<u8>, len: usize)
    ensures
        final(out)@ == old(out)@ + varint_bytes(len as nat),
    decreases len,
{
    if len < 128 {
        out.push(len as u8);
    } else {
        out.push((len % 128 + 128) as u8);
        push_varint(out, len / 128);
    }
    assert(out@ =~= old(out)@ + varint_bytes(len as nat));
}

pub open spec fn msg_rec_overrun(off: int) -> Seq<char> {
    "record payload overruns the record sequence at offset "@ + hex_prefixed(off as nat)
}

pub open spec fn msg_rec_truncated(off: int) -> Seq<char> {
    "truncated record header at offset "@ + hex_prefixed(off as nat)
}

/// The `[u32 cid][u64 size][data]` records of `buf` from `start` on, which
/// must cover every byte up to the end.
pub open spec fn record_seq_spec(buf: Seq<u8>, start: int) -> Result<Seq<(u32, Seq<u8>)>, Seq<char>> {
    let w = record_walk(buf.subrange(start, buf.len() as int), 0, false);
    if w.2 {
        Err(msg_rec_overrun(start + w.1))
    } else if w.1 != buf.len() - start {
        Err(msg_rec_truncated(start + w.1))
    } else {
        Ok(w.0)
    }
}

pub open spec fn rec_views<'a>(v: Seq<(u32, &'a [u8])>) -> Seq<(u32, Seq<u8>)> {
    v.map_values(|r: (u32, &'a [u8])| (r.0, r.1@))
}

/// Parse a `[u32 cid][u64 size][data]` record sequence starting at `start`.
fn parse_record_seq<'a>(buf: &'a [u8], start: usize) -> (r: Result<Vec<(u32, &'a [u8])>, String>)
    requires
        start <= buf@.len(),
    ensures
        match (r, record_seq_spec(buf@, start as int)) {
            (Ok(a), Ok(b)) => rec_views(a@) == b,
            (Err(a), Err(b)) => a@ == b,
            _ => false,
        },
{
    let len = buf.len();
    let rest = slice_subrange(buf, start, len);
    let mut it = Records::new(rest);
    let ghost total = record_walk(rest@, 0, false);
    let mut recs: Vec<(u32, &'a [u8])> = Vec::new();
    loop
        invariant
            it.wf(),
            it@.0 == rest@,
            rest@ == buf@.subrange(start as int, len as int),
            len == buf@.len(),
            start <= len,
            ({
                let w = record_walk(rest@, it@.1, it@.2);
                total == (rec_views(recs@) + w.0, w.1, w.2)
            }),
        ensures
            total == (rec_views(recs@), it@.1, it@.2),
        decreases rest@.len() - it@.1,
    {
        proof {
            it.lemma_wf();
            lemma_record_walk_step(rest@, it@.1, it@.2);
            lemma_record_next_advances(rest@, it@.1, it@.2);
        }
        let ghost before = rec_views(recs@);
        match it.next() {
            Some((cid, data)) => {
                recs.push((cid, data));
                proof {
                    let w = record_walk(rest@, it@.1, it@.2);
                    assert(rec_views(recs@) =~= before.push((cid, data@)));
                    assert(before + (seq![(cid, data@)] + w.0) =~= rec_views(recs@) + w.0);
                }
            },
            None => {
                assert(before + Seq::<(u32, Seq<u8>)>::empty() =~= before);
                break;
            },
        }
    }
    proof {
        it.lemma_wf();
    }
    if it.overran() {
        let mut m = string_of("record payload overruns the record sequence at offset ");
        push_hex_prefixed(&mut m, (start + it.pos()) as u64);
        return Err(m);
    }
    if it.pos() != len - start {
        let mut m = string_of("truncated record header at offset ");
        push_hex_prefixed(&mut m, (start + it.pos()) as u64);
        return Err(m);
    }
    Ok(recs)
}

/// The payload of the first record with id `cid`.
pub open spec fn first_rec(recs: Seq<(u32, Seq<u8>)>, cid: u32, i: int) -> Option<Seq<u8>>
    decreases recs.len() - i,
{
    if i < 0 || i >= recs.len() {
        None
    } else if recs[i].0 == cid {
        Some(recs[i].1)
    } else {
        first_rec(recs, cid, i + 1)
    }
}

fn record_data<'a>(recs: &Vec<(u32, &'a [u8])>, cid: u32) -> (r: Option<&'a [u8]>)
    ensures
        match (r, first_rec(rec_views(recs@), cid, 0)) {
            (Some(a), Some(b)) => a@ == b,
            (None, None) => true,
            _ => false,
        },
{
    let mut i: usize = 0;
    while i < recs.len()
        invariant
            i <= recs@.len(),
            first_rec(rec_views(recs@), cid, 0) == first_rec(rec_views(recs@), cid, i as int),
        decreases recs.len() - i,
    {
        if recs[i].0 == cid {
            return Some(recs[i].1);
        }
        i += 1;
    }
    None
}

/// Records re-emitted in order, the payload of every record with id `cid`
/// replaced by `repl`.
pub open spec fn recs_bytes(recs: Seq<(u32, Seq<u8>)>, cid: u32, repl: Seq<u8>) -> Seq<u8>
    decreases recs.len(),
{
    if recs.len() == 0 {
        Seq::empty()
    } else {
        let r = recs.last();
        recs_bytes(recs.drop_last(), cid, repl) + rec_bytes(
            r.0,
            if r.0 == cid {
                repl
            } else {
                r.1
            },
        )
    }
}

fn push_recs_replacing(out: &mut Vec<u8>, recs: &Vec<(u32, &[u8])>, cid: u32, repl: &[u8])
    ensures
        final(out)@ == old(out)@ + recs_bytes(rec_views(recs@), cid, repl@),
{
    let ghost rv = rec_views(recs@);
    let mut i: usize = 0;
    while i < recs.len()
        invariant
            i <= recs@.len(),
            rv == rec_views(recs@),
            out@ == old(out)@ + recs_bytes(rv.take(i as int), cid, repl@),
        decreases recs.len() - i,
    {
        assert(rv.take(i + 1).drop_last() =~= rv.take(i as int));
        let (c, d) = recs[i];
        if c == cid {
            push_rec(out, c, repl);
        } else {
            push_rec(out, c, d);
        }
        assert(out@ =~= old(out)@ + recs_bytes(rv.take(i + 1), cid, repl@));
        i += 1;
    }
    assert(rv.take(recs@.len() as int) =~= rv);
}

// ---------------------------------------------------------------------------
// Payload rewrites

pub open spec fn msg_payload_small() -> Seq<char> {
    "PluginParams payload too small"@
}

pub open spec fn msg_old_version(v: nat) -> Seq<char> {
    "PluginParams version "@ + decimal(v) + " predates the chunked layout"@
}

/// The records of a chunked `PluginParams` payload (format version >= 5).
pub open spec fn payload_records(orig: Seq<u8>) -> Result<Seq<(u32, Seq<u8>)>, Seq<char>> {
    if orig.len() < 4 {
        Err(msg_payload_small())
    } else if le_u32(orig, 0) < 5 {
        Err(msg_old_version(le_u32(orig, 0) as nat))
    } else {
        record_seq_spec(orig, 4)
    }
}

/// Checks the payload's size and version and parses its records.
fn payload_records_exec<'a>(orig: &'a [u8]) -> (r: Result<(u32, Vec<(u32, &'a [u8])>), String>)
    ensures
        match (r, payload_records(orig@)) {
            (Ok((v, a)), Ok(b)) => v as int == le_u32(orig@, 0) && rec_views(a@) == b,
            (Err(a), Err(b)) => a@ == b,
            _ => false,
        },
{
    if orig.len() < 4 {
        return Err(string_of("PluginParams payload too small"));
    }
    let version = read_u32_le(orig, 0);
    if version < 5 {
        let mut m = string_of("PluginParams version ");
        push_decimal(&mut m, version as u64);
        push_str(&mut m, " predates the chunked layout");
        return Err(m);
    }
    let recs = parse_record_seq(orig, 4)?;
    Ok((version, recs))
}

/// The first start in `s..=8` from which the FL VST3 wrapper's records
/// parse (the wrapper is `[u32 prologue][records...]`).
pub open spec fn wrapper_start(cid53: Seq<u8>, s: int) -> Option<int>
    decreases 9 - s,
{
    if s < 0 || s > 8 {
        None
    } else if cid53.len() >= s && record_seq_spec(cid53, s) is Ok {
        Some(s)
    } else {
        wrapper_start(cid53, s + 1)
    }
}

proof fn lemma_wrapper_start(cid53: Seq<u8>, s: int)
    requires
        0 <= s,
    ensures
        wrapper_start(cid53, s) matches Some(w) ==> s <= w <= 8 && w <= cid53.len() && record_seq_spec(
            cid53,
            w,
        ) is Ok,
    decreases 9 - s,
{
    if s <= 8 && !(cid53.len() >= s && record_seq_spec(cid53, s) is Ok) {
        lemma_wrapper_start(cid53, s + 1);
    }
}

/// The payload with the inner cid-3 chunk of its FL VST3 wrapper patched;
/// every other record, the record order and the wrapper prologue verbatim.
pub open spec fn patch_payload_spec(orig: Seq<u8>, ps: Seq<crate::fxp::PatchField>) -> Result<Seq<u8>, Seq<char>> {
    match payload_records(orig) {
        Err(e) => Err(e),
        Ok(recs) => match first_rec(recs, 53, 0) {
            None => Err("missing cid 53 record"@),
            Some(cid53) => match wrapper_start(cid53, 0) {
                None => Err("cid 53 wrapper records do not parse"@),
                Some(ws) => match record_seq_spec(cid53, ws) {
                    Err(e) => Err(e),
                    Ok(wrecs) => match first_rec(wrecs, 3, 0) {
                        None => Err("missing inner cid 3 record"@),
                        Some(inner3) => match crate::fxp::patch_chunk_spec(inner3, ps) {
                            Err(e) => Err(e),
                            Ok(new3) => {
                                let w = cid53.subrange(0, ws) + recs_bytes(wrecs, 3, new3);
                                Ok(le_bytes32(le_u32(orig, 0)) + recs_bytes(recs, 53, w))
                            },
                        },
                    },
                },
            },
        },
    }
}

fn find_wrapper_start(cid53: &[u8]) -> (r: Option<usize>)
    ensures
        match r {
            Some(w) => wrapper_start(cid53@, 0) == Some(w as int) && w <= cid53@.len(),
            None => wrapper_start(cid53@, 0) is None,
        },
{
    proof {
        lemma_wrapper_start(cid53@, 0);
    }
    let mut s: usize = 0;
    while s <= 8
        invariant
            s <= 9,
            wrapper_start(cid53@, 0) == wrapper_start(cid53@, s as int),
        decreases 9 - s,
    {
        if cid53.len() >= s && parse_record_seq(cid53, s).is_ok() {
            return Some(s);
        }
        s += 1;
    }
    None
}

/// Replace the inner cid-3 chunk of a PluginParams payload with its patched
/// version; every other record and the record order stay verbatim.
fn patch_event_payload(orig: &[u8], patches: &[crate::fxp::PatchField]) -> (r: Result<Vec<u8>, String>)
    ensures
        match (r, patch_payload_spec(orig@, patches@)) {
            (Ok(a), Ok(b)) => a@ == b,
            (Err(a), Err(b)) => a@ == b,
            _ => false,
        },
{
    let (version, recs) = payload_records_exec(orig)?;
    let cid53 = match record_data(&recs, 53) {
        Some(d) => d,
        None => return Err(string_of("missing cid 53 record")),
    };
    let ws = match find_wrapper_start(cid53) {
        Some(w) => w,
        None => return Err(string_of("cid 53 wrapper records do not parse")),
    };
    let wrecs = parse_record_seq(cid53, ws)?;
    let inner3 = match record_data(&wrecs, 3) {
        Some(d) => d,
        None => return Err(string_of("missing inner cid 3 record")),
    };
    let new_cid3 = crate::fxp::patch_chunk_fields(inner3, patches)?;
    let mut w: Vec<u8> = Vec::new();
    extend_from(&mut w, slice_subrange(cid53, 0, ws));
    push_recs_replacing(&mut w, &wrecs, 3, new_cid3.as_slice());
    let mut p: Vec<u8> = Vec::new();
    push_u32_le(&mut p, version);
    push_recs_replacing(&mut p, &recs, 53, w.as_slice());
    Ok(p)
}

/// Everything needed to turn one Serum instance into a Serum2 instance
/// (built by the caller; this module only does byte surgery).
#[derive(Debug, Clone)]
pub struct Serum2Bundle {
    /// Full XferJson processor record (the FL wrapper's inner cid-3 payload).
    pub processor_record: Vec<u8>,
    /// Full XferJson controller record (inner cid-2), or None to omit it.
    pub controller_record: Option<Vec<u8>>,
    /// FL's saved parameter-id list (inner cid-4 payload bytes, lifted from a
    /// genuine Serum2 instance).
    pub param_list: Vec<u8>,
    /// Plugin name string for cid 54 ("Serum2").
    pub name: String,
    /// Plugin filename string for cid 55.
    pub filename: String,
    /// Vendor string for cid 56 ("Xfer Records").
    pub vendor: String,
}

/// cid 1 with its u32 at offset 8 set to 1.
pub open spec fn cid1_patched(c1: Seq<u8>) -> Seq<u8> {
    c1.subrange(0, 8) + le_bytes32(1) + c1.subrange(12, c1.len() as int)
}

/// The wrapper's inner cid-1 record payload: u32 1 and 60 zero bytes.
pub open spec fn inner1() -> Seq<u8> {
    le_bytes32(1) + Seq::new(60, |i: int| 0u8)
}

/// The rebuilt FL VST3 wrapper: `[prologue 1][cid1 64 B][cid3 processor]
/// [cid2 controller, if any][cid4 parameter list]`.
pub open spec fn wrapper_bytes(b: Serum2Bundle) -> Seq<u8> {
    le_bytes32(1) + rec_bytes(1, inner1()) + rec_bytes(3, b.processor_record@) + match b.controller_record {
        Some(c) => rec_bytes(2, c@),
        None => Seq::empty(),
    } + rec_bytes(4, b.param_list@)
}

/// The vendor bytes for cid 56: the bundle's, or the original record's when
/// the bundle has none.
pub open spec fn vendor_bytes(recs: Seq<(u32, Seq<u8>)>, b: Serum2Bundle) -> Seq<u8> {
    if b.vendor@.len() == 0 {
        match first_rec(recs, 56, 0) {
            Some(v) => v,
            None => Seq::empty(),
        }
    } else {
        encode_utf8(b.vendor@)
    }
}

/// The Serum2 event-213 payload built from an original Serum payload and a
/// bundle. The original version u32 and records cid 2/30/32/50 are kept
/// verbatim; cid 1 gets its u32 at 8 set to 1; cid 52/54/55 are replaced;
/// cid 56 uses the bundle vendor (the original bytes when the bundle omits
/// it); cid 53 is rebuilt last.
pub open spec fn serum2_payload_spec(orig: Seq<u8>, b: Serum2Bundle) -> Result<Seq<u8>, Seq<char>> {
    match payload_records(orig) {
        Err(e) => Err(e),
        Ok(recs) => match first_rec(recs, 1, 0) {
            None => Err("missing cid 1 record"@),
            Some(c1) => if c1.len() != 20 {
                Err("cid 1 record is "@ + decimal(c1.len()) + " bytes (expected 20)"@)
            } else {
                match (
                    first_rec(recs, 2, 0),
                    first_rec(recs, 30, 0),
                    first_rec(recs, 32, 0),
                    first_rec(recs, 50, 0),
                ) {
                    (None, _, _, _) => Err("missing cid 2 record"@),
                    (_, None, _, _) => Err("missing cid 30 record"@),
                    (_, _, None, _) => Err("missing cid 32 record"@),
                    (_, _, _, None) => Err("missing cid 50 record"@),
                    (Some(c2), Some(c30), Some(c32), Some(c50)) => if b.processor_record@.len() == 0 {
                        Err("Serum2Bundle has an empty processor record"@)
                    } else if b.param_list@.len() == 0 {
                        Err("Serum2Bundle has an empty parameter list"@)
                    } else {
                        Ok(
                            le_bytes32(le_u32(orig, 0)) + rec_bytes(1, cid1_patched(c1)) + rec_bytes(2, c2)
                                + rec_bytes(30, c30) + rec_bytes(32, c32) + rec_bytes(50, c50)
                                + rec_bytes(52, serum2_uid()) + rec_bytes(54, encode_utf8(b.name@))
                                + rec_bytes(55, encode_utf8(b.filename@)) + rec_bytes(
                                56,
                                vendor_bytes(recs, b),
                            ) + rec_bytes(53, wrapper_bytes(b)),
                        )
                    },
                }
            },
        },
    }
}

/// Build the new Serum2 event-213 payload from the original Serum payload
/// plus a bundle (see [`serum2_payload_spec`]).
fn build_serum2_payload(orig: &[u8], b: &Serum2Bundle) -> (r: Result<Vec<u8>, String>)
    ensures
        match (r, serum2_payload_spec(orig@, *b)) {
            (Ok(a), Ok(x)) => a@ == x,
            (Err(a), Err(x)) => a@ == x,
            _ => false,
        },
{
    let (version, recs) = payload_records_exec(orig)?;
    let cid1 = match record_data(&recs, 1) {
        Some(d) => d,
        None => return Err(string_of("missing cid 1 record")),
    };
    if cid1.len() != 20 {
        let mut m = string_of("cid 1 record is ");
        push_decimal(&mut m, cid1.len() as u64);
        push_str(&mut m, " bytes (expected 20)");
        return Err(m);
    }
    let cid2 = match record_data(&recs, 2) {
        Some(d) => d,
        None => return Err(string_of("missing cid 2 record")),
    };
    let cid30 = match record_data(&recs, 30) {
        Some(d) => d,
        None => return Err(string_of("missing cid 30 record")),
    };
    let cid32 = match record_data(&recs, 32) {
        Some(d) => d,
        None => return Err(string_of("missing cid 32 record")),
    };
    let cid50 = match record_data(&recs, 50) {
        Some(d) => d,
        None => return Err(string_of("missing cid 50 record")),
    };
    if b.processor_record.len() == 0 {
        return Err(string_of("Serum2Bundle has an empty processor record"));
    }
    if b.param_list.len() == 0 {
        return Err(string_of("Serum2Bundle has an empty parameter list"));
    }
    let mut p: Vec<u8> = Vec::new();
    push_u32_le(&mut p, version);
    let mut c1: Vec<u8> = Vec::new();
    extend_from(&mut c1, slice_subrange(cid1, 0, 8));
    push_u32_le(&mut c1, 1);
    extend_from(&mut c1, slice_subrange(cid1, 12, 20));
    push_rec(&mut p, 1, c1.as_slice());
    push_rec(&mut p, 2, cid2);
    push_rec(&mut p, 30, cid30);
    push_rec(&mut p, 32, cid32);
    push_rec(&mut p, 50, cid50);
    push_rec(&mut p, 52, serum2_uid_bytes().as_slice());
    push_rec(&mut p, 54, b.name.as_str().as_bytes());
    push_rec(&mut p, 55, b.filename.as_str().as_bytes());
    let empty: Vec<u8> = Vec::new();
    let vendor: &[u8] = if b.vendor.as_str().is_empty() {
        match record_data(&recs, 56) {
            Some(v) => v,
            None => empty.as_slice(),
        }
    } else {
        b.vendor.as_str().as_bytes()
    };
    push_rec(&mut p, 56, vendor);
    let mut w: Vec<u8> = Vec::new();
    push_u32_le(&mut w, 1);
    let mut inner: Vec<u8> = Vec::new();
    push_u32_le(&mut inner, 1);
    let mut k: usize = 0;
    while k < 60
        invariant
            k <= 60,
            inner@ == le_bytes32(1) + Seq::new(k as nat, |i: int| 0u8),
        decreases 60 - k,
    {
        inner.push(0);
        assert(inner@ =~= le_bytes32(1) + Seq::new((k + 1) as nat, |i: int| 0u8));
        k += 1;
    }
    push_rec(&mut w, 1, inner.as_slice());
    push_rec(&mut w, 3, b.processor_record.as_slice());
    match &b.controller_record {
        Some(c) => push_rec(&mut w, 2, c.as_slice()),
        None => {},
    }
    push_rec(&mut w, 4, b.param_list.as_slice());
    push_rec(&mut p, 53, w.as_slice());
    proof {
        assert(c1@ =~= cid1_patched(cid1@));
        assert(w@ =~= wrapper_bytes(*b));
    }
    assert(p@ =~= serum2_payload_spec(orig@, *b)->Ok_0);
    Ok(p)
}

// ---------------------------------------------------------------------------
// Splicing replaced payloads into the event stream

/// End of the FLdt event stream: the declared length, clamped to the file.
pub open spec fn stream_end(buf: Seq<u8>, dt_start: int, dtlen: int) -> int {
    if dt_start + dtlen < buf.len() {
        dt_start + dtlen
    } else {
        buf.len() as int
    }
}

/// Where event `i` ends: at the next event's offset, the last one at the
/// stream end.
pub open spec fn next_off(spans: Seq<(int, u8, Seq<u8>)>, i: int, end: int) -> int {
    if i + 1 < spans.len() {
        spans[i + 1].0
    } else {
        end
    }
}

/// The bytes emitted for event `i`: a replaced payload freshly framed
/// (event id 213, varint length, payload), any other event verbatim.
pub open spec fn piece(buf: Seq<u8>, spans: Seq<(int, u8, Seq<u8>)>, end: int, repl: Seq<Option<Seq<u8>>>, i: int) -> Seq<u8> {
    match repl[i] {
        Some(p) => seq![EV_PLUGIN_PARAMS] + varint_bytes(p.len()) + p,
        None => buf.subrange(spans[i].0, next_off(spans, i, end)),
    }
}

/// The emitted bytes of the first `n` events.
pub open spec fn pieces(buf: Seq<u8>, spans: Seq<(int, u8, Seq<u8>)>, end: int, repl: Seq<Option<Seq<u8>>>, n: int) -> Seq<u8>
    decreases n,
{
    if n <= 0 {
        Seq::empty()
    } else {
        pieces(buf, spans, end, repl, n - 1) + piece(buf, spans, end, repl, n - 1)
    }
}

/// The rewritten file: everything before the FLdt length field verbatim,
/// the new FLdt length, then every event (replaced ones re-framed). Bytes
/// after the event stream are not kept.
pub open spec fn splice_spec(
    buf: Seq<u8>,
    spans: Seq<(int, u8, Seq<u8>)>,
    end: int,
    dt_len_pos: int,
    repl: Seq<Option<Seq<u8>>>,
) -> Seq<u8> {
    let body = pieces(buf, spans, end, repl, spans.len() as int);
    buf.subrange(0, dt_len_pos) + le_bytes32((body.len() % 0x1_0000_0000) as int) + body
}

/// Event offsets increase and lie in `[pos, end)`.
pub proof fn lemma_event_offsets(buf: Seq<u8>, pos: int, end: int)
    requires
        0 <= pos,
        events_from(buf, pos, end) is Ok,
    ensures
        ({
            let s = events_from(buf, pos, end)->Ok_0;
            &&& forall|i: int| 0 <= i < s.len() ==> pos <= #[trigger] s[i].0 < end
            &&& forall|i: int| 0 <= i < s.len() - 1 ==> #[trigger] s[i].0 < s[i + 1].0
        }),
    decreases end - pos,
{
    if pos < end {
        let id = buf[pos];
        let (dlen, p) = match crate::flp::fixed_len(id) {
            Some(n) => (Some(n), pos + 1),
            None => crate::flp::varint(buf, pos + 1),
        };
        crate::flp::lemma_varint_bounds(buf, pos + 1, 0);
        match dlen {
            Some(n) => {
                if p + n <= end {
                    lemma_event_offsets(buf, p + n, end);
                    let rest = events_from(buf, p + n, end)->Ok_0;
                    let s = events_from(buf, pos, end)->Ok_0;
                    assert(s == seq![(pos, id, buf.subrange(p, p + n))] + rest);
                    assert forall|i: int| 0 <= i < s.len() implies pos <= #[trigger] s[i].0 < end by {
                        if i > 0 {
                            assert(s[i] == rest[i - 1]);
                        }
                    }
                    assert forall|i: int| 0 <= i < s.len() - 1 implies #[trigger] s[i].0 < s[i + 1].0 by {
                        assert(s[i + 1] == rest[i]);
                        if i > 0 {
                            assert(s[i] == rest[i - 1]);
                        }
                    }
                }
            },
            None => {},
        }
    }
}

pub open spec fn spans_view<'a>(v: Seq<(usize, Event<'a>)>) -> Seq<(int, u8, Seq<u8>)> {
    v.map_values(|e: (usize, Event<'a>)| span_view(e))
}

pub open spec fn repl_view(v: Seq<Option<Vec<u8>>>) -> Seq<Option<Seq<u8>>> {
    v.map_values(
        |o: Option<Vec<u8>>|
            match o {
                Some(x) => Some(x@),
                None => None,
            },
    )
}

/// Re-emit the event stream with the replacements, behind the bytes before
/// the FLdt length field and the new FLdt length.
fn splice<'a>(
    buf: &[u8],
    spans: &Vec<(usize, Event<'a>)>,
    end: usize,
    dt_len_pos: usize,
    repl: &Vec<Option<Vec<u8>>>,
) -> (r: Vec<u8>)
    requires
        repl@.len() == spans@.len(),
        dt_len_pos <= buf@.len(),
        end <= buf@.len(),
        forall|i: int| 0 <= i < spans@.len() ==> #[trigger] spans_view(spans@)[i].0 < end,
        forall|i: int| 0 <= i < spans@.len() - 1 ==> #[trigger] spans_view(spans@)[i].0 < spans_view(spans@)[i + 1].0,
    ensures
        r@ == splice_spec(buf@, spans_view(spans@), end as int, dt_len_pos as int, repl_view(repl@)),
{
    let ghost sv = spans_view(spans@);
    let ghost rv = repl_view(repl@);
    let mut body: Vec<u8> = Vec::new();
    let n = spans.len();
    let mut i: usize = 0;
    while i < n
        invariant
            i <= n,
            n == spans@.len(),
            repl@.len() == n,
            sv == spans_view(spans@),
            rv == repl_view(repl@),
            end <= buf@.len(),
            forall|j: int| 0 <= j < n ==> #[trigger] sv[j].0 < end,
            forall|j: int| 0 <= j < n - 1 ==> #[trigger] sv[j].0 < sv[j + 1].0,
            body@ == pieces(buf@, sv, end as int, rv, i as int),
        decreases n - i,
    {
        assert(sv[i as int].0 == spans@[i as int].0);
        match &repl[i] {
            Some(p) => {
                assert(rv[i as int] == Some(p@));
                body.push(EV_PLUGIN_PARAMS);
                push_varint(&mut body, p.len());
                extend_from(&mut body, p.as_slice());
            },
            None => {
                let start = spans[i].0;
                let stop = if i + 1 < n {
                    assert(sv[i + 1].0 == spans@[i + 1].0);
                    spans[i + 1].0
                } else {
                    end
                };
                extend_from(&mut body, slice_subrange(buf, start, stop));
            },
        }
        assert(body@ =~= pieces(buf@, sv, end as int, rv, i + 1));
        i += 1;
    }
    let mut out: Vec<u8> = Vec::new();
    extend_from(&mut out, slice_subrange(buf, 0, dt_len_pos));
    push_u32_le(&mut out, (body.len() as u64 % 4294967296) as u32);
    extend_from(&mut out, body.as_slice());
    assert(out@ =~= splice_spec(buf@, sv, end as int, dt_len_pos as int, rv));
    out
}

// ---------------------------------------------------------------------------
// Metadata patching (Serum instances inside an FLP)

/// One patched Serum instance, for the human report.
#[derive(Debug, Clone)]
pub struct PatchedInstance {
    pub channel: Option<u16>,
    pub channel_name: String,
    /// Preset name before the patch (may be empty when unreadable).
    pub old_preset_name: String,
    /// Preset name after the patch (equals the old one when no Name patch).
    pub new_preset_name: String,
}

/// Result of [`patch_serum_metadata`]: what was rewritten plus non-fatal notes.
#[derive(Debug)]
pub struct FlpPatchReport {
    pub patched: Vec<PatchedInstance>,
    pub warnings: Vec<String>,
}

/// A patched instance as plain values.
pub type PatchedView = (Option<u16>, Seq<char>, Seq<char>, Seq<char>);

pub open spec fn patched_view(p: PatchedInstance) -> PatchedView {
    (p.channel, p.channel_name@, p.old_preset_name@, p.new_preset_name@)
}

/// The channel bookkeeping shared by the walks: channel names by channel,
/// the current channel and the current FX track name.
pub open spec fn track_step(
    channels: Map<u16, Seq<char>>,
    cur: Option<u16>,
    fx: Seq<char>,
    id: u8,
    data: Seq<u8>,
) -> (Map<u16, Seq<char>>, Option<u16>, Seq<char>) {
    if id == EV_NEW_CHANNEL {
        if data.len() >= 2 {
            (channels, Some(le_u16(data, 0) as u16), fx)
        } else {
            (channels, cur, fx)
        }
    } else if id == EV_TEXT_CHANNEL_NAME {
        match cur {
            Some(c) => (channels.insert(c, text_spec(data)), cur, fx),
            None => (channels, cur, fx),
        }
    } else if id == EV_TEXT_FX_TRACK_NAME {
        (channels, cur, text_spec(data))
    } else {
        (channels, cur, fx)
    }
}

/// `-` for an empty label.
pub open spec fn display_spec(name: Seq<char>) -> Seq<char> {
    if name.len() == 0 {
        "-"@
    } else {
        name
    }
}

/// A preset name as the 32-byte state field keeps it: at most 31 UTF-8
/// bytes, cut at a character boundary.
pub open spec fn field_name(s: Seq<char>) -> Seq<char> {
    let b = encode_utf8(s);
    let cap = if b.len() < 31 {
        b.len() as int
    } else {
        31
    };
    utf8_lossy(b.subrange(0, boundary_at_most(b, cap)))
}

fn field_name_exec(s: &str) -> (r: String)
    ensures
        r@ == field_name(s@),
{
    let bytes = s.as_bytes();
    let mut take: usize = if bytes.len() < 31 {
        bytes.len()
    } else {
        31
    };
    let ghost cap = take as int;
    while take > 0 && !s.is_char_boundary(take)
        invariant
            take <= bytes@.len(),
            bytes@ == encode_utf8(s@),
            boundary_at_most(bytes@, cap) == boundary_at_most(bytes@, take as int),
        decreases take,
    {
        take -= 1;
    }
    string_from_chars(lossy_chars(slice_subrange(bytes, 0, take)).as_slice())
}

/// The walk state of a metadata patch: channel bookkeeping, the replacement
/// of each event seen (by event index), the patched instances and the
/// warnings.
pub type PatchState = (
    Map<u16, Seq<char>>,
    Option<u16>,
    Seq<char>,
    Seq<Option<Seq<u8>>>,
    Seq<PatchedView>,
    Seq<Seq<char>>,
);

/// What a patch does with one `PluginParams` event: nothing (`None`), a
/// warning, or a replacement payload with its report entry.
pub open spec fn patch_instance(
    channels: Map<u16, Seq<char>>,
    cur: Option<u16>,
    fx: Seq<char>,
    data: Seq<u8>,
    ps: Seq<PatchField>,
) -> Option<Result<(Seq<u8>, PatchedView), Seq<char>>> {
    match plugin_params(data) {
        Err(_) => None,
        Ok((name, filename, _v, state)) => if is_serum2_spec(name, filename) {
            None
        } else {
            let w = where_name(channels, cur, fx);
            if is_serum_fx_spec(name, filename) {
                Some(Err("Serum FX instance on channel '"@ + w + "' left untouched"@))
            } else if !is_serum1_synth_spec(name, filename) || state.len() == 0 {
                None
            } else {
                let old_name = match serum1_chunk_spec(state) {
                    Ok(c) => meta_spec(c.2).0,
                    Err(_) => Seq::empty(),
                };
                match patch_payload_spec(data, ps) {
                    Err(e) => Some(Err("instance on channel '"@ + display_spec(w) + "': "@ + e)),
                    Ok(p) => {
                        let new_name = match last_name(ps) {
                            Some(s) => field_name(s),
                            None => old_name,
                        };
                        Some(Ok((p, (cur, w, old_name, new_name))))
                    },
                }
            }
        },
    }
}

/// One event's effect on the patch walk.
pub open spec fn patch_step(st: PatchState, id: u8, data: Seq<u8>, ps: Seq<PatchField>) -> PatchState {
    let (channels, cur, fx, repl, patched, warns) = st;
    let (c2, cur2, fx2) = track_step(channels, cur, fx, id, data);
    if id == EV_PLUGIN_PARAMS {
        match patch_instance(channels, cur, fx, data, ps) {
            None => (channels, cur, fx, repl.push(None), patched, warns),
            Some(Err(m)) => (channels, cur, fx, repl.push(None), patched, warns.push(m)),
            Some(Ok((p, v))) => (channels, cur, fx, repl.push(Some(p)), patched.push(v), warns),
        }
    } else {
        (c2, cur2, fx2, repl.push(None), patched, warns)
    }
}

/// The patch walk over the first `n` events.
pub open spec fn patch_walk(spans: Seq<(int, u8, Seq<u8>)>, ps: Seq<PatchField>, n: int) -> PatchState
    decreases n,
{
    if n <= 0 {
        (Map::empty(), None, Seq::empty(), Seq::empty(), Seq::empty(), Seq::empty())
    } else {
        let st = patch_walk(spans, ps, n - 1);
        patch_step(st, spans[n - 1].1, spans[n - 1].2, ps)
    }
}

/// Patching an FLP: the rewritten file, the patched instances and the
/// warnings.
pub open spec fn patch_flp_spec(buf: Seq<u8>, ps: Seq<PatchField>) -> Result<
    (Seq<u8>, Seq<PatchedView>, Seq<Seq<char>>),
    Seq<char>,
> {
    if ps.len() == 0 {
        Err("nothing to patch (empty patch list)"@)
    } else {
        match flp_events(buf) {
            Err(e) => Err(e),
            Ok(spans) => match locate_spec(buf) {
                Err(e) => Err(e),
                Ok((_, dt_len_pos, dt_start, dtlen)) => {
                    let st = patch_walk(spans, ps, spans.len() as int);
                    Ok(
                        (
                            splice_spec(buf, spans, stream_end(buf, dt_start, dtlen), dt_len_pos, st.3),
                            st.4,
                            st.5,
                        ),
                    )
                },
            },
        }
    }
}

/// The events of a parsed FLP are those between the FLdt payload start and
/// the stream end, at increasing offsets inside the file.
pub proof fn lemma_stream(buf: Seq<u8>)
    requires
        flp_events(buf) is Ok,
        locate_spec(buf) is Ok,
    ensures
        ({
            let s = flp_events(buf)->Ok_0;
            let (_, dlp, dts, dtlen) = locate_spec(buf)->Ok_0;
            let end = stream_end(buf, dts, dtlen);
            &&& events_from(buf, dts, end) == Ok::<Seq<(int, u8, Seq<u8>)>, Seq<char>>(s)
            &&& 0 <= dlp && dlp + 4 == dts <= end <= buf.len()
            &&& forall|i: int| 0 <= i < s.len() ==> dts <= #[trigger] s[i].0 < end
            &&& forall|i: int| 0 <= i < s.len() - 1 ==> #[trigger] s[i].0 < s[i + 1].0
        }),
{
    let (_, dlp, dts, dtlen) = locate_spec(buf)->Ok_0;
    lemma_event_offsets(buf, dts, stream_end(buf, dts, dtlen));
}

pub open spec fn strings_view(v: Seq<String>) -> Seq<Seq<char>> {
    v.map_values(|s: String| s@)
}

pub open spec fn patched_views(v: Seq<PatchedInstance>) -> Seq<PatchedView> {
    v.map_values(|p: PatchedInstance| patched_view(p))
}

/// Decide and build the patch of one `PluginParams` event (see
/// [`patch_instance`]).
fn patch_one(
    channels: &HashMap<u16, String>,
    cur: Option<u16>,
    fx: &String,
    data: &[u8],
    patches: &[PatchField],
) -> (r: Option<Result<(Vec<u8>, PatchedInstance), String>>)
    ensures
        match (r, patch_instance(channels@.map_values(|s: String| s@), cur, fx@, data@, patches@)) {
            (None, None) => true,
            (Some(Err(a)), Some(Err(b))) => a@ == b,
            (Some(Ok((p, v))), Some(Ok((q, w)))) => p@ == q && patched_view(v) == w,
            _ => false,
        },
{
    let pp = match parse_plugin_params(data) {
        Ok(pp) => pp,
        Err(_) => return None,
    };
    if is_serum2(pp.name, pp.filename) {
        return None;
    }
    let w = channel_label(channels, cur, fx);
    if is_serum_fx(pp.name, pp.filename) {
        let mut m = string_of("Serum FX instance on channel '");
        push_str(&mut m, w.as_str());
        push_str(&mut m, "' left untouched");
        return Some(Err(m));
    }
    if !is_serum1_synth(pp.name, pp.filename) || pp.state.len() == 0 {
        return None;
    }
    let old_name = match serum1_chunk_from_state(pp.state) {
        Ok(c) => c.meta.preset_name,
        Err(_) => String::new(),
    };
    match patch_event_payload(data, patches) {
        Err(e) => {
            let mut m = string_of("instance on channel '");
            push_str(&mut m, display_name(w.as_str()).as_str());
            push_str(&mut m, "': ");
            push_str(&mut m, e.as_str());
            Some(Err(m))
        },
        Ok(p) => {
            let new_name = match find_last_name(patches) {
                Some(s) => field_name_exec(s.as_str()),
                None => old_name.clone(),
            };
            Some(
                Ok(
                    (
                        p,
                        PatchedInstance {
                            channel: cur,
                            channel_name: w,
                            old_preset_name: old_name,
                            new_preset_name: new_name,
                        },
                    ),
                ),
            )
        },
    }
}

/// Patch metadata in every Serum synth instance of an FLP, in memory.
///
/// For each Serum instance the inner cid-3 preset chunk is inflated, the
/// fields are rewritten ([`crate::fxp::patch_chunk_fields`]) and the chunk
/// is spliced back with fresh record framing and a fixed FLdt u32 length.
/// Non-plugin events and everything before the FLdt length stay
/// byte-identical. Instances whose state cannot be patched are skipped with
/// a warning (never aborts).
pub fn patch_serum_metadata(buf: &[u8], patches: &[PatchField]) -> (r: Result<(Vec<u8>, FlpPatchReport), String>)
    ensures
        match (r, patch_flp_spec(buf@, patches@)) {
            (Ok((out, rep)), Ok((o, pv, w))) => {
                &&& out@ == o
                &&& patched_views(rep.patched@) == pv
                &&& strings_view(rep.warnings@) == w
            },
            (Err(a), Err(b)) => a@ == b,
            _ => false,
        },
{
    if patches.len() == 0 {
        return Err(string_of("nothing to patch (empty patch list)"));
    }
    let spans = parse_event_spans(buf)?;
    let (_, dt_len_pos, dt_start, dtlen) = locate_chunks(buf)?;
    let ghost sv = spans_view(spans@);
    proof {
        lemma_stream(buf@);
    }
    let len = buf.len();
    let end = if dtlen < len - dt_start {
        dt_start + dtlen
    } else {
        len
    };
    let mut channels: HashMap<u16, String> = HashMap::new();
    let mut cur: Option<u16> = None;
    let mut fx = String::new();
    let mut repl: Vec<Option<Vec<u8>>> = Vec::new();
    let mut patched: Vec<PatchedInstance> = Vec::new();
    let mut warnings: Vec<String> = Vec::new();
    proof {
        assert(channels@.map_values(|s: String| s@) =~= Map::<u16, Seq<char>>::empty());
        assert(repl_view(repl@) =~= Seq::<Option<Seq<u8>>>::empty());
        assert(patched_views(patched@) =~= Seq::<PatchedView>::empty());
        assert(strings_view(warnings@) =~= Seq::<Seq<char>>::empty());
    }
    let n = spans.len();
    let mut i: usize = 0;
    while i < n
        invariant
            i <= n,
            n == spans@.len(),
            sv == spans_view(spans@),
            ({
                let st = patch_walk(sv, patches@, i as int);
                &&& channels@.map_values(|s: String| s@) == st.0
                &&& cur == st.1
                &&& fx@ == st.2
                &&& repl_view(repl@) == st.3
                &&& patched_views(patched@) == st.4
                &&& strings_view(warnings@) == st.5
            }),
            repl@.len() == i,
        decreases n - i,
    {
        let ghost before = patch_walk(sv, patches@, i as int);
        let ev = &spans[i].1;
        assert(sv[i as int] == (spans@[i as int].0 as int, ev.id, ev.data@));
        if ev.id == EV_PLUGIN_PARAMS {
            match patch_one(&channels, cur, &fx, ev.data, patches) {
                None => {
                    repl.push(None);
                },
                Some(Err(m)) => {
                    warnings.push(m);
                    repl.push(None);
                },
                Some(Ok((p, v))) => {
                    repl.push(Some(p));
                    patched.push(v);
                },
            }
        } else {
            if ev.id == EV_NEW_CHANNEL {
                if ev.data.len() >= 2 {
                    cur = Some(read_u16_le(ev.data, 0));
                }
            } else if ev.id == EV_TEXT_CHANNEL_NAME {
                if let Some(ch) = cur {
                    let name = text(ev.data);
                    let ghost nv = name@;
                    channels.insert(ch, name);
                    proof {
                        assert(channels@.map_values(|s: String| s@) =~= before.0.insert(ch, nv));
                    }
                }
            } else if ev.id == EV_TEXT_FX_TRACK_NAME {
                fx = text(ev.data);
            }
            repl.push(None);
        }
        proof {
            let st = patch_walk(sv, patches@, i + 1);
            assert(repl_view(repl@) =~= st.3);
            assert(patched_views(patched@) =~= st.4);
            assert(strings_view(warnings@) =~= st.5);
        }
        i += 1;
    }
    proof {
        assert(forall|j: int| 0 <= j < n ==> #[trigger] spans_view(spans@)[j].0 < end);
    }
    let out = splice(buf, &spans, end, dt_len_pos, &repl);
    Ok((out, FlpPatchReport { patched, warnings }))
}

// ---------------------------------------------------------------------------
// Conversion planning

/// One convertible Serum synth instance, located in the event stream.
#[derive(Debug)]
pub struct InstancePlan {
    /// Index into the parsed events.
    pub event_index: usize,
    /// Byte offset of the event id in the FLdt stream (diagnostics only).
    pub event_offset: usize,
    pub channel: Option<u16>,
    pub channel_name: String,
    pub plugin_name: String,
    /// The ORIGINAL event-213 payload (verbatim).
    pub payload: Vec<u8>,
    /// The original plugin filename (cid 55), decoded lossily.
    pub plugin_filename: String,
    /// Preset name recovered while planning (empty when the state could not
    /// be recovered).
    pub preset_name: String,
    /// The parsed Serum preset, captured during the same scan walk (`None`
    /// when parsing failed; the failure is reported as a warning).
    pub s1: Option<S1Preset>,
}

/// A plan as plain values: event index, offset in the stream, channel,
/// channel name, plugin name, payload, plugin filename, preset name, and
/// the preset chunk when it parsed.
pub type PlanView = (int, int, Option<u16>, Seq<char>, Seq<char>, Seq<u8>, Seq<char>, Seq<char>, Option<Seq<u8>>);

/// `p` holds the values `v`, its parsed preset the one parsed from `v`'s
/// chunk.
pub open spec fn plan_matches(p: InstancePlan, v: PlanView) -> bool {
    &&& p.event_index == v.0
    &&& p.event_offset == v.1
    &&& p.channel == v.2
    &&& p.channel_name@ == v.3
    &&& p.plugin_name@ == v.4
    &&& p.payload@ == v.5
    &&& p.plugin_filename@ == v.6
    &&& p.preset_name@ == v.7
    &&& match (p.s1, v.8) {
        (Some(pr), Some(ch)) => preset_of(ch, pr),
        (None, None) => true,
        _ => false,
    }
}

pub open spec fn msg_instance(w: Seq<char>, e: Seq<char>) -> Seq<char> {
    "instance on channel '"@ + display_spec(w) + "': "@ + e
}

/// What planning makes of event `i` at offset `off` (a `PluginParams`
/// event): a plan and / or a warning.
pub open spec fn plan_instance(
    channels: Map<u16, Seq<char>>,
    cur: Option<u16>,
    fx: Seq<char>,
    i: int,
    rel_off: int,
    data: Seq<u8>,
) -> (Option<PlanView>, Option<Seq<char>>) {
    match plugin_params(data) {
        Err(_) => (None, None),
        Ok((name, filename, _v, state)) => if is_serum2_spec(name, filename) {
            (None, None)
        } else {
            let w = where_name(channels, cur, fx);
            if is_serum_fx_spec(name, filename) {
                (
                    None,
                    Some(
                        "Serum FX instance on channel '"@ + w
                            + "' left untouched (only the Serum synth is converted)"@,
                    ),
                )
            } else if !is_serum1_synth_spec(name, filename) || state.len() == 0 {
                (None, None)
            } else {
                let pname = text_spec(name);
                let fname = utf8_lossy(filename);
                match serum1_chunk_spec(state) {
                    Ok(c) => {
                        let pn = meta_spec(c.2).0;
                        match parse_error(c.0) {
                            None => (Some((i, rel_off, cur, w, pname, data, fname, pn, Some(c.0))), None),
                            Some(e) => (
                                Some((i, rel_off, cur, w, pname, data, fname, pn, None)),
                                Some(msg_instance(w, e)),
                            ),
                        }
                    },
                    Err(e) => (
                        Some((i, rel_off, cur, w, pname, data, fname, Seq::empty(), None)),
                        Some(msg_instance(w, e)),
                    ),
                }
            }
        },
    }
}

/// The planning walk state: channel bookkeeping, plans, warnings.
pub type PlanState = (Map<u16, Seq<char>>, Option<u16>, Seq<char>, Seq<PlanView>, Seq<Seq<char>>);

pub open spec fn opt_push<T>(s: Seq<T>, o: Option<T>) -> Seq<T> {
    match o {
        Some(x) => s.push(x),
        None => s,
    }
}

/// The planning walk over the first `n` events of a stream starting at
/// `dt_start`.
pub open spec fn plan_walk(spans: Seq<(int, u8, Seq<u8>)>, dt_start: int, n: int) -> PlanState
    decreases n,
{
    if n <= 0 {
        (Map::empty(), None, Seq::empty(), Seq::empty(), Seq::empty())
    } else {
        let (channels, cur, fx, plans, warns) = plan_walk(spans, dt_start, n - 1);
        let (off, id, data) = spans[n - 1];
        if id == EV_PLUGIN_PARAMS {
            let (p, w) = plan_instance(channels, cur, fx, n - 1, off - dt_start, data);
            (channels, cur, fx, opt_push(plans, p), opt_push(warns, w))
        } else {
            let (c2, cur2, fx2) = track_step(channels, cur, fx, id, data);
            (c2, cur2, fx2, plans, warns)
        }
    }
}

/// Planning a conversion: the plans and warnings, or why the FLP does not
/// parse.
pub open spec fn scan_convertible_spec(buf: Seq<u8>) -> Result<(Seq<PlanView>, Seq<Seq<char>>), Seq<char>> {
    match flp_events(buf) {
        Err(e) => Err(e),
        Ok(spans) => match locate_spec(buf) {
            Err(e) => Err(e),
            Ok((_, _, dt_start, _)) => {
                let st = plan_walk(spans, dt_start, spans.len() as int);
                Ok((st.3, st.4))
            },
        },
    }
}

fn plan_one(
    channels: &HashMap<u16, String>,
    cur: Option<u16>,
    fx: &String,
    i: usize,
    rel_off: usize,
    data: &[u8],
) -> (r: (Option<InstancePlan>, Option<String>))
    ensures
        ({
            let (p, w) = plan_instance(channels@.map_values(|s: String| s@), cur, fx@, i as int, rel_off as int, data@);
            &&& match (r.0, p) {
                (Some(a), Some(b)) => plan_matches(a, b),
                (None, None) => true,
                _ => false,
            }
            &&& match (r.1, w) {
                (Some(a), Some(b)) => a@ == b,
                (None, None) => true,
                _ => false,
            }
        }),
{
    let pp = match parse_plugin_params(data) {
        Ok(pp) => pp,
        Err(_) => return (None, None),
    };
    if is_serum2(pp.name, pp.filename) {
        return (None, None);
    }
    let w = channel_label(channels, cur, fx);
    if is_serum_fx(pp.name, pp.filename) {
        let mut m = string_of("Serum FX instance on channel '");
        push_str(&mut m, w.as_str());
        push_str(&mut m, "' left untouched (only the Serum synth is converted)");
        return (None, Some(m));
    }
    if !is_serum1_synth(pp.name, pp.filename) || pp.state.len() == 0 {
        return (None, None);
    }
    let plugin_name = text(pp.name);
    let plugin_filename = string_from_chars(lossy_chars(pp.filename).as_slice());
    let mut payload: Vec<u8> = Vec::new();
    extend_from(&mut payload, data);
    assert(payload@ =~= data@);
    let (preset_name, s1, warn) = match serum1_chunk_from_state(pp.state) {
        Ok(chunk) => match parse_preset(chunk.chunk.as_slice()) {
            Ok(preset) => (chunk.meta.preset_name, Some(preset), None),
            Err(e) => {
                let mut m = string_of("instance on channel '");
                push_str(&mut m, display_name(w.as_str()).as_str());
                push_str(&mut m, "': ");
                push_str(&mut m, e.as_str());
                (chunk.meta.preset_name, None, Some(m))
            },
        },
        Err(e) => {
            let mut m = string_of("instance on channel '");
            push_str(&mut m, display_name(w.as_str()).as_str());
            push_str(&mut m, "': ");
            push_str(&mut m, e.as_str());
            (String::new(), None, Some(m))
        },
    };
    (
        Some(
            InstancePlan {
                event_index: i,
                event_offset: rel_off,
                channel: cur,
                channel_name: w,
                plugin_name,
                payload,
                plugin_filename,
                preset_name,
                s1,
            },
        ),
        warn,
    )
}

/// Walk the FLP events and locate every Serum SYNTH instance, also
/// returning warnings (one per Serum FX instance deliberately left
/// untouched, one per instance whose preset does not parse). Instances are
/// returned in file order, with the same channel / name bookkeeping as
/// [`crate::scan::scan_serum_instances`].
pub fn scan_convertible_detailed(buf: &[u8]) -> (r: Result<(Vec<InstancePlan>, Vec<String>), String>)
    ensures
        match (r, scan_convertible_spec(buf@)) {
            (Ok((plans, warns)), Ok((pv, w))) => {
                &&& plans@.len() == pv.len()
                &&& forall|k: int| 0 <= k < pv.len() ==> plan_matches(#[trigger] plans@[k], pv[k])
                &&& strings_view(warns@) == w
            },
            (Err(a), Err(b)) => a@ == b,
            _ => false,
        },
{
    let spans = parse_event_spans(buf)?;
    let (_, _, dt_start, _) = locate_chunks(buf)?;
    let ghost sv = spans_view(spans@);
    proof {
        lemma_stream(buf@);
    }
    let mut channels: HashMap<u16, String> = HashMap::new();
    let mut cur: Option<u16> = None;
    let mut fx = String::new();
    let mut plans: Vec<InstancePlan> = Vec::new();
    let mut warnings: Vec<String> = Vec::new();
    proof {
        assert(channels@.map_values(|s: String| s@) =~= Map::<u16, Seq<char>>::empty());
        assert(strings_view(warnings@) =~= Seq::<Seq<char>>::empty());
    }
    let n = spans.len();
    let mut i: usize = 0;
    while i < n
        invariant
            i <= n,
            n == spans@.len(),
            sv == spans_view(spans@),
            forall|j: int| 0 <= j < n ==> dt_start <= #[trigger] sv[j].0,
            ({
                let st = plan_walk(sv, dt_start as int, i as int);
                &&& channels@.map_values(|s: String| s@) == st.0
                &&& cur == st.1
                &&& fx@ == st.2
                &&& plans@.len() == st.3.len()
                &&& forall|k: int| 0 <= k < st.3.len() ==> plan_matches(#[trigger] plans@[k], st.3[k])
                &&& strings_view(warnings@) == st.4
            }),
        decreases n - i,
    {
        let ghost before = plan_walk(sv, dt_start as int, i as int);
        let off = spans[i].0;
        let ev = &spans[i].1;
        assert(sv[i as int] == (off as int, ev.id, ev.data@));
        assert(dt_start <= sv[i as int].0);
        if ev.id == EV_PLUGIN_PARAMS {
            let (p, w) = plan_one(&channels, cur, &fx, i, off - dt_start, ev.data);
            match p {
                Some(p) => {
                    plans.push(p);
                },
                None => {},
            }
            match w {
                Some(w) => {
                    warnings.push(w);
                },
                None => {},
            }
        } else {
            if ev.id == EV_NEW_CHANNEL {
                if ev.data.len() >= 2 {
                    cur = Some(read_u16_le(ev.data, 0));
                }
            } else if ev.id == EV_TEXT_CHANNEL_NAME {
                if let Some(ch) = cur {
                    let name = text(ev.data);
                    let ghost nv = name@;
                    channels.insert(ch, name);
                    proof {
                        assert(channels@.map_values(|s: String| s@) =~= before.0.insert(ch, nv));
                    }
                }
            } else if ev.id == EV_TEXT_FX_TRACK_NAME {
                fx = text(ev.data);
            }
        }
        proof {
            let st = plan_walk(sv, dt_start as int, i + 1);
            assert(strings_view(warnings@) =~= st.4);
        }
        i += 1;
    }
    Ok((plans, warnings))
}


// ---------------------------------------------------------------------------
// Bundle pieces

/// The last position in `s` holding `/` or `\\`, if any.
pub open spec fn last_sep(s: Seq<char>) -> Option<int>
    decreases s.len(),
{
    if s.len() == 0 {
        None
    } else if s.last() == '/' || s.last() == '\\' {
        Some(s.len() - 1)
    } else {
        last_sep(s.drop_last())
    }
}

proof fn lemma_last_sep_bounds(s: Seq<char>)
    ensures
        last_sep(s) matches Some(i) ==> 0 <= i < s.len(),
    decreases s.len(),
{
    if s.len() > 0 {
        lemma_last_sep_bounds(s.drop_last());
    }
}

/// The Serum2 plugin file name for an instance whose Serum file name is
/// `orig`: the (trimmed) directory prefix kept, the base name replaced by
/// `Serum2.vst3`.
pub open spec fn serum2_filename_spec(orig: Seq<char>) -> Seq<char> {
    let t = trim(orig);
    match last_sep(t) {
        Some(i) => t.subrange(0, i + 1) + "Serum2.vst3"@,
        None => "Serum2.vst3"@,
    }
}

/// Derive the Serum2 plugin file name from the original instance's file
/// name (see [`serum2_filename_spec`]), e.g. `/Library/.../Serum.vst3` to
/// `/Library/.../Serum2.vst3`, `C:\\VST\\Serum_x64.dll` to
/// `C:\\VST\\Serum2.vst3`.
pub fn serum2_filename(orig: &str) -> (r: String)
    ensures
        r@ == serum2_filename_spec(orig@),
{
    let cs = chars_of(orig);
    let t = trim_ws(cs.as_slice());
    let n = t.len();
    let mut i: usize = n;
    proof {
        assert(t@.subrange(0, n as int) =~= t@);
    }
    while i > 0 && t[i - 1] != '/' && t[i - 1] != '\\'
        invariant
            i <= n,
            n == t@.len(),
            last_sep(t@) == last_sep(t@.subrange(0, i as int)),
        decreases i,
    {
        assert(t@.subrange(0, i as int).drop_last() =~= t@.subrange(0, i - 1));
        i -= 1;
    }
    proof {
        assert(t@.subrange(0, n as int) =~= t@);
    }
    if i == 0 {
        assert(t@.subrange(0, 0) =~= Seq::<char>::empty());
        string_of("Serum2.vst3")
    } else {
        assert(last_sep(t@.subrange(0, i as int)) == Some(i - 1));
        let mut out = string_from_chars(slice_subrange(t.as_slice(), 0, i));
        push_str(&mut out, "Serum2.vst3");
        out
    }
}

/// The first position at or after `i` where `pat` occurs in `s`.
pub open spec fn find_from(s: Seq<char>, pat: Seq<char>, i: int) -> Option<int>
    decreases s.len() + 1 - i,
{
    if i < 0 || i + pat.len() > s.len() {
        None
    } else if s.subrange(i, i + pat.len()) == pat {
        Some(i)
    } else {
        find_from(s, pat, i + 1)
    }
}

proof fn lemma_find_from_bounds(s: Seq<char>, pat: Seq<char>, i: int)
    ensures
        find_from(s, pat, i) matches Some(j) ==> 0 <= i <= j && j + pat.len() <= s.len(),
    decreases s.len() + 1 - i,
{
    if !(i < 0 || i + pat.len() > s.len()) && s.subrange(i, i + pat.len()) != pat {
        lemma_find_from_bounds(s, pat, i + 1);
    }
}

fn find_chars(s: &[char], pat: &[char]) -> (r: Option<usize>)
    ensures
        match r {
            Some(j) => find_from(s@, pat@, 0) == Some(j as int),
            None => find_from(s@, pat@, 0) is None,
        },
{
    let n = s.len();
    let m = pat.len();
    if m > n {
        return None;
    }
    let mut i: usize = 0;
    while i <= n - m
        invariant
            n == s@.len(),
            m == pat@.len(),
            m <= n,
            find_from(s@, pat@, 0) == find_from(s@, pat@, i as int),
        decreases n - i,
    {
        let mut k: usize = 0;
        let mut same = true;
        while k < m
            invariant
                k <= m,
                i + m <= n,
                n == s@.len(),
                m == pat@.len(),
                same == (forall|x: int| 0 <= x < k ==> s@[i + x] == pat@[x]),
            decreases m - k,
        {
            if s[i + k] != pat[k] {
                same = false;
            }
            k += 1;
        }
        proof {
            if same {
                assert(s@.subrange(i as int, i + m) =~= pat@);
            } else {
                let x = choose|x: int| 0 <= x < m && s@[i + x] != pat@[x];
                assert(s@.subrange(i as int, i + m)[x] != pat@[x]);
            }
        }
        if same {
            return Some(i);
        }
        i += 1;
    }
    None
}

/// The value of a `"key":"string"` field in a flat JSON header: the text
/// after the first `"key":"` up to the next `"`.
pub open spec fn json_string_field_spec(json: Seq<char>, key: Seq<char>) -> Option<Seq<char>> {
    let pat = "\""@ + key + "\":\""@;
    match find_from(json, pat, 0) {
        None => None,
        Some(at) => {
            let rest = json.subrange(at + pat.len(), json.len() as int);
            match crate::naming::index_of(rest, '"', 0) {
                None => None,
                Some(end) => Some(rest.subrange(0, end)),
            }
        },
    }
}

/// The raw value of a `"key":token` field in a flat JSON header: the text
/// after the first `"key":` up to the next `,` or `}` (or the end),
/// trimmed.
pub open spec fn json_raw_field_spec(json: Seq<char>, key: Seq<char>) -> Option<Seq<char>> {
    let pat = "\""@ + key + "\":"@;
    match find_from(json, pat, 0) {
        None => None,
        Some(at) => {
            let rest = json.subrange(at + pat.len(), json.len() as int);
            let end = match index_of2(rest, ',', '}', 0) {
                Some(e) => e,
                None => rest.len() as int,
            };
            Some(trim(rest.subrange(0, end)))
        },
    }
}

/// The first position at or after `i` holding `a` or `b`.
pub open spec fn index_of2(s: Seq<char>, a: char, b: char, i: int) -> Option<int>
    decreases s.len() - i,
{
    if i < 0 || i >= s.len() {
        None
    } else if s[i] == a || s[i] == b {
        Some(i)
    } else {
        index_of2(s, a, b, i + 1)
    }
}

proof fn lemma_index_of2_bounds(s: Seq<char>, a: char, b: char, i: int)
    ensures
        index_of2(s, a, b, i) matches Some(j) ==> 0 <= i <= j < s.len(),
    decreases s.len() - i,
{
    if !(i < 0 || i >= s.len()) && !(s[i] == a || s[i] == b) {
        lemma_index_of2_bounds(s, a, b, i + 1);
    }
}

fn field_pattern(key: &str, tail: &str) -> (r: Vec<char>)
    ensures
        r@ == "\""@ + key@ + tail@,
{
    let mut p = string_of("\"");
    push_str(&mut p, key);
    push_str(&mut p, tail);
    chars_of(p.as_str())
}

/// Read a `"key":"string"` field (see [`json_string_field_spec`]).
pub fn json_string_field(json: &str, key: &str) -> (r: Option<String>)
    ensures
        match (r, json_string_field_spec(json@, key@)) {
            (Some(a), Some(b)) => a@ == b,
            (None, None) => true,
            _ => false,
        },
{
    let cs = chars_of(json);
    let pat = field_pattern(key, "\":\"");
    let at = match find_chars(cs.as_slice(), pat.as_slice()) {
        Some(a) => a,
        None => return None,
    };
    let clen = cs.len();
    proof {
        assert(find_from(cs@, pat@, 0) == Some(at as int));
        lemma_find_from_bounds(cs@, pat@, 0);
        assert(at + pat@.len() <= clen);
    }
    let start = at + pat.len();
    let rest = copy_chars(cs.as_slice(), start, cs.len());
    let mut k: usize = 0;
    while k < rest.len()
        invariant
            k <= rest@.len(),
            crate::naming::index_of(rest@, '"', 0) == crate::naming::index_of(rest@, '"', k as int),
            rest@ == json@.subrange(start as int, json@.len() as int),
            pat@ == "\""@ + key@ + "\":\""@,
            find_from(json@, pat@, 0) == Some(at as int),
            start == at + pat@.len(),
        decreases rest.len() - k,
    {
        if rest[k] == '"' {
            assert(crate::naming::index_of(rest@, '"', k as int) == Some(k as int));
            return Some(string_from_chars(slice_subrange(rest.as_slice(), 0, k)));
        }
        k += 1;
    }
    None
}

/// Read a raw `"key":token` field (see [`json_raw_field_spec`]).
pub fn json_raw_field(json: &str, key: &str) -> (r: Option<String>)
    ensures
        match (r, json_raw_field_spec(json@, key@)) {
            (Some(a), Some(b)) => a@ == b,
            (None, None) => true,
            _ => false,
        },
{
    let cs = chars_of(json);
    let pat = field_pattern(key, "\":");
    let at = match find_chars(cs.as_slice(), pat.as_slice()) {
        Some(a) => a,
        None => return None,
    };
    let clen = cs.len();
    proof {
        assert(find_from(cs@, pat@, 0) == Some(at as int));
        lemma_find_from_bounds(cs@, pat@, 0);
        assert(at + pat@.len() <= clen);
    }
    let start = at + pat.len();
    let rest = copy_chars(cs.as_slice(), start, cs.len());
    let mut k: usize = 0;
    while k < rest.len() && rest[k] != ',' && rest[k] != '}'
        invariant
            k <= rest@.len(),
            index_of2(rest@, ',', '}', 0) == index_of2(rest@, ',', '}', k as int),
        decreases rest.len() - k,
    {
        k += 1;
    }
    let t = trim_ws(slice_subrange(rest.as_slice(), 0, k));
    Some(string_from_chars(t.as_slice()))
}

/// The controller record for a preset: the template's zstd frame, body
/// size and format kept, the JSON header rebuilt with the frame's md5, the
/// preset's name, author and category, and the template's own product
/// version (`2.0.22` when it has none) and version (`8.0` when it has
/// none).
pub open spec fn controller_record_spec(template: Seq<u8>, name: Seq<char>, author: Seq<char>, category: Seq<char>) -> Result<
    Seq<u8>,
    Seq<char>,
> {
    match xfer_json_spec(template) {
        Err(e) => Err(e),
        Ok((json, uncomp, format, frame_start)) => {
            let frame = template.subrange(frame_start, template.len() as int);
            let pv = match json_string_field_spec(json, "productVersion"@) {
                Some(v) => v,
                None => "2.0.22"@,
            };
            let ver = match json_raw_field_spec(json, "version"@) {
                Some(v) => v,
                None => "8.0"@,
            };
            Ok(
                record_bytes(
                    controller_header_spec(hex_bytes(md5_digest(frame)), name, author, category, pv, ver),
                    frame,
                    uncomp,
                    format,
                ),
            )
        },
    }
}

/// Build the per-preset controller record from a template record (see
/// [`controller_record_spec`]).
pub fn wrap_controller_record(template: &[u8], preset: &S1Preset) -> (r: Result<Vec<u8>, String>)
    ensures
        match (
            r,
            controller_record_spec(
                template@,
                preset.meta.preset_name@,
                preset.meta.author@,
                preset.meta.category@,
            ),
        ) {
            (Ok(a), Ok(b)) => a@ == b,
            (Err(a), Err(b)) => a@ == b,
            _ => false,
        },
{
    let (json, uncomp, format, frame_start) = parse_xfer_json(template)?;
    let frame = slice_subrange(template, frame_start, template.len());
    let product_version = match json_string_field(json.as_str(), "productVersion") {
        Some(v) => v,
        None => string_of("2.0.22"),
    };
    let version = match json_raw_field(json.as_str(), "version") {
        Some(v) => v,
        None => string_of("8.0"),
    };
    let md5 = md5_hex(frame);
    let header = controller_json_header(
        md5.as_str(),
        preset.meta.preset_name.as_str(),
        preset.meta.author.as_str(),
        preset.meta.category.as_str(),
        product_version.as_str(),
        version.as_str(),
    );
    Ok(wrap_controller_frame(header, frame, uncomp, format))
}

// ---------------------------------------------------------------------------
// Conversion (apply)

/// One successfully rewritten instance, for the human report.
#[derive(Debug, Clone)]
pub struct ConvertedInstance {
    pub channel: Option<u16>,
    pub channel_name: String,
    /// Preset name recovered from the original Serum state (may be empty).
    pub preset_name: String,
    pub new_payload_len: usize,
}

/// Result of [`apply`]: what was rewritten plus non-fatal notes.
#[derive(Debug)]
pub struct FlpConversionReport {
    pub converted: Vec<ConvertedInstance>,
    pub warnings: Vec<String>,
}

impl Default for FlpConversionReport {
    fn default() -> (r: Self)
        ensures
            r.converted@.len() == 0,
            r.warnings@.len() == 0,
    {
        FlpConversionReport { converted: Vec::new(), warnings: Vec::new() }
    }
}

/// A converted instance as plain values: channel, channel name, preset name
/// and the length of the new payload.
pub type ConvertedView = (Option<u16>, Seq<char>, Seq<char>, int);

pub open spec fn converted_view(c: ConvertedInstance) -> ConvertedView {
    (c.channel, c.channel_name@, c.preset_name@, c.new_payload_len as int)
}

pub open spec fn converted_views(v: Seq<ConvertedInstance>) -> Seq<ConvertedView> {
    v.map_values(|c: ConvertedInstance| converted_view(c))
}

/// Why plan `i` no longer describes the parsed events, if it does not: its
/// event is missing, is not a `PluginParams` event, or carries another
/// payload.
pub open spec fn plan_error(spans: Seq<(int, u8, Seq<u8>)>, i: int, p: InstancePlan) -> Option<Seq<char>> {
    let idx = p.event_index as int;
    if idx >= spans.len() {
        Some(
            "plan "@ + decimal(i as nat) + " references event "@ + decimal(idx as nat)
                + " but the file has "@ + decimal(spans.len()) + " events"@,
        )
    } else if spans[idx].1 != EV_PLUGIN_PARAMS {
        Some(
            "plan "@ + decimal(i as nat) + " references event "@ + decimal(idx as nat) + " (id "@
                + decimal(spans[idx].1 as nat) + "), not a PluginParams event"@,
        )
    } else if spans[idx].2 != p.payload@ {
        Some("plan "@ + decimal(i as nat) + " payload does not match the buffer (stale InstancePlan?)"@)
    } else {
        None
    }
}

/// The first plan error from plan `i` on.
pub open spec fn first_plan_error(spans: Seq<(int, u8, Seq<u8>)>, plans: Seq<InstancePlan>, i: int) -> Option<
    Seq<char>,
>
    decreases plans.len() - i,
{
    if i < 0 || i >= plans.len() {
        None
    } else {
        match plan_error(spans, i, plans[i]) {
            Some(e) => Some(e),
            None => first_plan_error(spans, plans, i + 1),
        }
    }
}

proof fn lemma_no_plan_error(spans: Seq<(int, u8, Seq<u8>)>, plans: Seq<InstancePlan>, i: int)
    requires
        0 <= i,
        first_plan_error(spans, plans, i) is None,
    ensures
        forall|k: int| i <= k < plans.len() ==> plan_error(spans, k, #[trigger] plans[k]) is None,
    decreases plans.len() - i,
{
    if i < plans.len() {
        lemma_no_plan_error(spans, plans, i + 1);
    }
}

pub open spec fn msg_no_bundle(name: Seq<char>) -> Seq<char> {
    "instance on channel '"@ + display_spec(name) + "' skipped (no Serum2 bundle supplied)"@
}

/// The state after one more plan: a plan without a bundle is skipped with a
/// warning; a payload that cannot be built, or a second plan for one event,
/// is an error; otherwise the event's replacement is recorded.
pub open spec fn apply_step(
    st: (Seq<Option<Seq<u8>>>, Seq<ConvertedView>, Seq<Seq<char>>),
    i: int,
    p: InstancePlan,
    bundle: Option<Serum2Bundle>,
) -> Result<(Seq<Option<Seq<u8>>>, Seq<ConvertedView>, Seq<Seq<char>>), Seq<char>> {
    let (repl, conv, warns) = st;
    let idx = p.event_index as int;
    match bundle {
        None => Ok((repl, conv, warns.push(msg_no_bundle(p.channel_name@)))),
        Some(b) => match serum2_payload_spec(p.payload@, b) {
            Err(e) => Err(e),
            Ok(np) => if repl[idx] is Some {
                Err("plan "@ + decimal(i as nat) + " duplicates event "@ + decimal(idx as nat))
            } else {
                Ok(
                    (
                        repl.update(idx, Some(np)),
                        conv.push((p.channel, p.channel_name@, p.preset_name@, np.len() as int)),
                        warns,
                    ),
                )
            },
        },
    }
}

/// The replacements, converted instances and warnings after the first `k`
/// plans (see [`apply_step`]), over `n` events.
pub open spec fn apply_walk(
    n: nat,
    plans: Seq<InstancePlan>,
    bundles: Seq<Option<Serum2Bundle>>,
    k: int,
) -> Result<(Seq<Option<Seq<u8>>>, Seq<ConvertedView>, Seq<Seq<char>>), Seq<char>>
    decreases k,
{
    if k <= 0 {
        Ok((Seq::new(n, |j: int| None::<Seq<u8>>), Seq::empty(), Seq::empty()))
    } else {
        match apply_walk(n, plans, bundles, k - 1) {
            Err(e) => Err(e),
            Ok(st) => apply_step(st, k - 1, plans[k - 1], bundles[k - 1]),
        }
    }
}

/// Once the walk has failed it stays failed with the same error.
proof fn lemma_apply_walk_err(
    n: nat,
    plans: Seq<InstancePlan>,
    bundles: Seq<Option<Serum2Bundle>>,
    k: int,
    m: int,
)
    requires
        0 <= k <= m,
        apply_walk(n, plans, bundles, k) is Err,
    ensures
        apply_walk(n, plans, bundles, m) == apply_walk(n, plans, bundles, k),
    decreases m - k,
{
    if k < m {
        lemma_apply_walk_err(n, plans, bundles, k, m - 1);
    }
}

/// Apply one plan to the running state (see [`apply_step`]).
fn apply_one(
    i: usize,
    p: &InstancePlan,
    bundle: &Option<Serum2Bundle>,
    repl: &mut Vec<Option<Vec<u8>>>,
    converted: &mut Vec<ConvertedInstance>,
    warnings: &mut Vec<String>,
) -> (r: Option<String>)
    requires
        (p.event_index as int) < old(repl)@.len(),
    ensures
        final(repl)@.len() == old(repl)@.len(),
        match (
            r,
            apply_step(
                (repl_view(old(repl)@), converted_views(old(converted)@), strings_view(old(warnings)@)),
                i as int,
                *p,
                *bundle,
            ),
        ) {
            (None, Ok(st)) => {
                &&& repl_view(final(repl)@) == st.0
                &&& converted_views(final(converted)@) == st.1
                &&& strings_view(final(warnings)@) == st.2
            },
            (Some(m), Err(e)) => m@ == e,
            _ => false,
        },
{
    let idx = p.event_index;
    match bundle {
        None => {
            let mut m = string_of("instance on channel '");
            push_str(&mut m, display_name(p.channel_name.as_str()).as_str());
            push_str(&mut m, "' skipped (no Serum2 bundle supplied)");
            let ghost ow = warnings@;
            warnings.push(m);
            proof {
                assert(strings_view(warnings@) =~= strings_view(ow).push(msg_no_bundle(p.channel_name@)));
            }
            None
        },
        Some(b) => {
            let payload = match build_serum2_payload(p.payload.as_slice(), b) {
                Ok(x) => x,
                Err(e) => {
                    return Some(e);
                },
            };
            assert(repl_view(repl@)[idx as int] == match repl@[idx as int] {
                Some(x) => Some(x@),
                None => None::<Seq<u8>>,
            });
            if repl[idx].is_some() {
                let mut m = string_of("plan ");
                push_decimal(&mut m, i as u64);
                push_str(&mut m, " duplicates event ");
                push_decimal(&mut m, idx as u64);
                return Some(m);
            }
            let plen = payload.len();
            let ghost pv = payload@;
            let ghost old_repl = repl@;
            let ghost oc = converted@;
            repl.set(idx, Some(payload));
            let c = ConvertedInstance {
                channel: p.channel,
                channel_name: p.channel_name.clone(),
                preset_name: p.preset_name.clone(),
                new_payload_len: plen,
            };
            converted.push(c);
            proof {
                assert(repl_view(repl@) =~= repl_view(old_repl).update(idx as int, Some(pv)));
                assert(converted_views(converted@) =~= converted_views(oc).push(
                    (p.channel, p.channel_name@, p.preset_name@, pv.len() as int),
                ));
            }
            None
        },
    }
}

/// What [`apply`] gives for a file, plans and bundles: the rewritten file,
/// the converted instances and the warnings, or the error.
pub open spec fn apply_spec(buf: Seq<u8>, plans: Seq<InstancePlan>, bundles: Seq<Option<Serum2Bundle>>) -> Result<
    (Seq<u8>, Seq<ConvertedView>, Seq<Seq<char>>),
    Seq<char>,
> {
    if plans.len() != bundles.len() {
        Err(
            "plans ("@ + decimal(plans.len()) + ") and bundles ("@ + decimal(bundles.len())
                + ") lengths differ"@,
        )
    } else {
        match flp_events(buf) {
            Err(e) => Err(e),
            Ok(spans) => match first_plan_error(spans, plans, 0) {
                Some(e) => Err(e),
                None => match locate_spec(buf) {
                    Err(e) => Err(e),
                    Ok((_, dt_len_pos, dt_start, dtlen)) => match apply_walk(
                        spans.len(),
                        plans,
                        bundles,
                        plans.len() as int,
                    ) {
                        Err(e) => Err(e),
                        Ok((repl, conv, warns)) => Ok(
                            (splice_spec(buf, spans, stream_end(buf, dt_start, dtlen), dt_len_pos, repl), conv, warns),
                        ),
                    },
                },
            },
        }
    }
}

/// Check plan `i` against the parsed events (see [`plan_error`]).
fn check_plan<'a>(spans: &Vec<(usize, Event<'a>)>, i: usize, p: &InstancePlan) -> (r: Option<String>)
    ensures
        match (r, plan_error(spans_view(spans@), i as int, *p)) {
            (None, None) => true,
            (Some(a), Some(b)) => a@ == b,
            _ => false,
        },
{
    let ghost sv = spans_view(spans@);
    let idx = p.event_index;
    if idx >= spans.len() {
        let mut m = string_of("plan ");
        push_decimal(&mut m, i as u64);
        push_str(&mut m, " references event ");
        push_decimal(&mut m, idx as u64);
        push_str(&mut m, " but the file has ");
        push_decimal(&mut m, spans.len() as u64);
        push_str(&mut m, " events");
        return Some(m);
    }
    let ev = &spans[idx].1;
    assert(sv[idx as int] == (spans@[idx as int].0 as int, ev.id, ev.data@));
    if ev.id != EV_PLUGIN_PARAMS {
        let mut m = string_of("plan ");
        push_decimal(&mut m, i as u64);
        push_str(&mut m, " references event ");
        push_decimal(&mut m, idx as u64);
        push_str(&mut m, " (id ");
        push_decimal(&mut m, ev.id as u64);
        push_str(&mut m, "), not a PluginParams event");
        return Some(m);
    }
    let same = ev.data.len() == p.payload.len() && has_at(ev.data, 0, p.payload.as_slice());
    proof {
        if ev.data@.len() == p.payload@.len() {
            assert(ev.data@.subrange(0, ev.data@.len() as int) =~= ev.data@);
        }
    }
    if !same {
        let mut m = string_of("plan ");
        push_decimal(&mut m, i as u64);
        push_str(&mut m, " payload does not match the buffer (stale InstancePlan?)");
        return Some(m);
    }
    None
}

/// Run every plan over `n` events (see [`apply_walk`]); each plan's event
/// index must be below `n`.
fn apply_plans(n: usize, plans: &[InstancePlan], bundles: &[Option<Serum2Bundle>]) -> (r: Result<
    (Vec<Option<Vec<u8>>>, Vec<ConvertedInstance>, Vec<String>),
    String,
>)
    requires
        plans@.len() == bundles@.len(),
        forall|k: int| 0 <= k < plans@.len() ==> (#[trigger] plans@[k]).event_index < n,
    ensures
        match (r, apply_walk(n as nat, plans@, bundles@, plans@.len() as int)) {
            (Ok((repl, conv, warns)), Ok(st)) => {
                &&& repl@.len() == n
                &&& repl_view(repl@) == st.0
                &&& converted_views(conv@) == st.1
                &&& strings_view(warns@) == st.2
            },
            (Err(a), Err(b)) => a@ == b,
            _ => false,
        },
{
    let np = plans.len();
    let mut repl: Vec<Option<Vec<u8>>> = Vec::new();
    let mut j: usize = 0;
    while j < n
        invariant
            j <= n,
            repl@.len() == j,
            forall|k: int| 0 <= k < j ==> (#[trigger] repl@[k]) is None,
        decreases n - j,
    {
        repl.push(None);
        j += 1;
    }
    proof {
        assert(repl_view(repl@) =~= Seq::new(n as nat, |k: int| None::<Seq<u8>>));
    }
    let mut converted: Vec<ConvertedInstance> = Vec::new();
    let mut warnings: Vec<String> = Vec::new();
    proof {
        assert(converted_views(converted@) =~= Seq::<ConvertedView>::empty());
        assert(strings_view(warnings@) =~= Seq::<Seq<char>>::empty());
    }
    let mut i: usize = 0;
    while i < np
        invariant
            i <= np,
            np == plans@.len(),
            np == bundles@.len(),
            repl@.len() == n,
            forall|k: int| 0 <= k < np ==> (#[trigger] plans@[k]).event_index < n,
            ({
                let st = apply_walk(n as nat, plans@, bundles@, i as int);
                &&& st is Ok
                &&& repl_view(repl@) == st->Ok_0.0
                &&& converted_views(converted@) == st->Ok_0.1
                &&& strings_view(warnings@) == st->Ok_0.2
            }),
        decreases np - i,
    {
        assert(plans@[i as int].event_index < n);
        match apply_one(i, &plans[i], &bundles[i], &mut repl, &mut converted, &mut warnings) {
            Some(m) => {
                proof {
                    lemma_apply_walk_err(n as nat, plans@, bundles@, i + 1, np as int);
                }
                return Err(m);
            },
            None => {},
        }
        i += 1;
    }
    Ok((repl, converted, warnings))
}

/// Rewrite every planned Serum instance into a Serum2 one.
///
/// The plans must still describe `buf` (same event, same payload); `plans`
/// and `bundles` pair up one to one, a `None` bundle skipping its instance
/// with a warning. Replaced events get fresh framing; every other event and
/// everything before the FLdt length stay byte-identical, the FLdt length
/// is rewritten and nothing follows the event stream.
pub fn apply(buf: &[u8], plans: &[InstancePlan], bundles: &[Option<Serum2Bundle>]) -> (r: Result<
    (Vec<u8>, FlpConversionReport),
    String,
>)
    ensures
        match (r, apply_spec(buf@, plans@, bundles@)) {
            (Ok((out, rep)), Ok((o, cv, w))) => {
                &&& out@ == o
                &&& converted_views(rep.converted@) == cv
                &&& strings_view(rep.warnings@) == w
            },
            (Err(a), Err(b)) => a@ == b,
            _ => false,
        },
{
    if plans.len() != bundles.len() {
        let mut m = string_of("plans (");
        push_decimal(&mut m, plans.len() as u64);
        push_str(&mut m, ") and bundles (");
        push_decimal(&mut m, bundles.len() as u64);
        push_str(&mut m, ") lengths differ");
        return Err(m);
    }
    let spans = parse_event_spans(buf)?;
    let ghost sv = spans_view(spans@);
    assert(flp_events(buf@) == Ok::<Seq<(int, u8, Seq<u8>)>, Seq<char>>(sv));
    let np = plans.len();
    let mut i: usize = 0;
    while i < np
        invariant
            i <= np,
            np == plans@.len(),
            np == bundles@.len(),
            sv == spans_view(spans@),
            flp_events(buf@) == Ok::<Seq<(int, u8, Seq<u8>)>, Seq<char>>(sv),
            first_plan_error(sv, plans@, 0) == first_plan_error(sv, plans@, i as int),
        decreases np - i,
    {
        match check_plan(&spans, i, &plans[i]) {
            Some(m) => {
                assert(first_plan_error(sv, plans@, i as int) == Some(m@));
                return Err(m);
            },
            None => {},
        }
        i += 1;
    }
    proof {
        lemma_no_plan_error(sv, plans@, 0);
    }
    let (_, dt_len_pos, dt_start, dtlen) = locate_chunks(buf)?;
    proof {
        lemma_stream(buf@);
    }
    let len = buf.len();
    let end = if dtlen < len - dt_start {
        dt_start + dtlen
    } else {
        len
    };
    let n = spans.len();
    proof {
        assert forall|k: int| 0 <= k < plans@.len() implies (#[trigger] plans@[k]).event_index < n by {
            assert(plan_error(sv, k, plans@[k]) is None);
        }
    }
    let (repl, converted, warnings) = apply_plans(n, plans, bundles)?;
    proof {
        assert(forall|k: int| 0 <= k < n ==> #[trigger] spans_view(spans@)[k].0 < end);
    }
    let out = splice(buf, &spans, end, dt_len_pos, &repl);
    Ok((out, FlpConversionReport { converted, warnings }))
}


// ---------------------------------------------------------------------------
// What a rewrite keeps

/// A nonempty stream's first event starts where the stream does.
pub proof fn lemma_first_event_at(buf: Seq<u8>, pos: int, end: int)
    requires
        0 <= pos,
        events_from(buf, pos, end) is Ok,
        events_from(buf, pos, end)->Ok_0.len() > 0,
    ensures
        pos < end,
        events_from(buf, pos, end)->Ok_0[0].0 == pos,
{
}

/// Events copied verbatim tile the file: the pieces of the first `k`
/// events, none of them replaced, are the bytes from the first event to
/// where event `k` ends.
proof fn lemma_pieces_verbatim(
    buf: Seq<u8>,
    s: Seq<(int, u8, Seq<u8>)>,
    end: int,
    repl: Seq<Option<Seq<u8>>>,
    k: int,
)
    requires
        1 <= k <= s.len(),
        repl.len() == s.len(),
        forall|i: int| 0 <= i < k ==> (#[trigger] repl[i]) is None,
        0 <= s[0].0,
        end <= buf.len(),
        forall|i: int| 0 <= i < s.len() ==> #[trigger] s[i].0 < end,
        forall|i: int| 0 <= i < s.len() - 1 ==> #[trigger] s[i].0 < s[i + 1].0,
    ensures
        s[0].0 <= s[k - 1].0,
        pieces(buf, s, end, repl, k) == buf.subrange(s[0].0, next_off(s, k - 1, end)),
    decreases k,
{
    if k == 1 {
        assert(pieces(buf, s, end, repl, 0) =~= Seq::<u8>::empty());
        assert(pieces(buf, s, end, repl, 1) =~= buf.subrange(s[0].0, next_off(s, 0, end)));
    } else {
        lemma_pieces_verbatim(buf, s, end, repl, k - 1);
        assert(s[k - 2].0 < s[k - 1].0);
        assert(next_off(s, k - 2, end) == s[k - 1].0);
        assert(repl[k - 1] is None);
        assert(s[k - 1].0 <= next_off(s, k - 1, end) <= buf.len());
        assert(buf.subrange(s[0].0, s[k - 1].0) + buf.subrange(s[k - 1].0, next_off(s, k - 1, end))
            =~= buf.subrange(s[0].0, next_off(s, k - 1, end)));
    }
}

/// With nothing replaced, the splice gives the file back, when the FLdt
/// length field counts exactly the bytes after it.
proof fn lemma_splice_unchanged(buf: Seq<u8>, repl: Seq<Option<Seq<u8>>>)
    requires
        flp_events(buf) is Ok,
        locate_spec(buf) is Ok,
        locate_spec(buf)->Ok_0.2 + locate_spec(buf)->Ok_0.3 == buf.len(),
        repl.len() == flp_events(buf)->Ok_0.len(),
        forall|i: int| 0 <= i < repl.len() ==> (#[trigger] repl[i]) is None,
    ensures
        ({
            let (_, dlp, dts, dtlen) = locate_spec(buf)->Ok_0;
            splice_spec(buf, flp_events(buf)->Ok_0, stream_end(buf, dts, dtlen), dlp, repl) == buf
        }),
{
    let s = flp_events(buf)->Ok_0;
    let (_, dlp, dts, dtlen) = locate_spec(buf)->Ok_0;
    let end = stream_end(buf, dts, dtlen);
    lemma_stream(buf);
    assert(end == buf.len());
    let body = pieces(buf, s, end, repl, s.len() as int);
    if s.len() == 0 {
        assert(body =~= Seq::<u8>::empty());
        assert(dts == end) by {
            if dts < end {
                let id = buf[dts];
                crate::flp::lemma_varint_bounds(buf, dts + 1, 0);
            }
        }
        assert(buf.subrange(dts, end) =~= body);
    } else {
        lemma_first_event_at(buf, dts, end);
        lemma_pieces_verbatim(buf, s, end, repl, s.len() as int);
        assert(body == buf.subrange(dts, end));
    }
    assert(body.len() == dtlen);
    crate::bytes::lemma_le_u32_bytes(buf, dlp);
    assert(locate_spec(buf)->Ok_0.3 == le_u32(buf, dlp));
    assert(buf.subrange(0, dlp) + buf.subrange(dlp, dlp + 4) + buf.subrange(dts, end) =~= buf);
}

/// With every bundle left out, [`apply`] converts nothing, warns once per
/// plan and gives the file back unchanged (when its FLdt length field
/// counts exactly the bytes after it).
pub proof fn lemma_apply_without_bundles(buf: Seq<u8>, plans: Seq<InstancePlan>, bundles: Seq<Option<Serum2Bundle>>)
    requires
        forall|i: int| 0 <= i < bundles.len() ==> (#[trigger] bundles[i]) is None,
        apply_spec(buf, plans, bundles) is Ok,
        locate_spec(buf) is Ok,
        locate_spec(buf)->Ok_0.2 + locate_spec(buf)->Ok_0.3 == buf.len(),
    ensures
        ({
            let (out, conv, warns) = apply_spec(buf, plans, bundles)->Ok_0;
            &&& out == buf
            &&& conv.len() == 0
            &&& warns.len() == plans.len()
        }),
{
    let s = flp_events(buf)->Ok_0;
    lemma_apply_walk_unbundled(s.len(), plans, bundles, plans.len() as int);
    let st = apply_walk(s.len(), plans, bundles, plans.len() as int)->Ok_0;
    lemma_splice_unchanged(buf, st.0);
}

proof fn lemma_apply_walk_unbundled(n: nat, plans: Seq<InstancePlan>, bundles: Seq<Option<Serum2Bundle>>, k: int)
    requires
        0 <= k <= bundles.len(),
        forall|i: int| 0 <= i < bundles.len() ==> (#[trigger] bundles[i]) is None,
    ensures
        apply_walk(n, plans, bundles, k) is Ok,
        ({
            let st = apply_walk(n, plans, bundles, k)->Ok_0;
            &&& st.0 == Seq::new(n, |j: int| None::<Seq<u8>>)
            &&& st.1.len() == 0
            &&& st.2.len() == k
        }),
    decreases k,
{
    if k > 0 {
        lemma_apply_walk_unbundled(n, plans, bundles, k - 1);
        assert(bundles[k - 1] is None);
    }
}

/// Replacements are recorded exactly for the patched instances: when no
/// instance was patched, nothing is replaced.
proof fn lemma_patch_walk_unpatched(spans: Seq<(int, u8, Seq<u8>)>, ps: Seq<PatchField>, n: int)
    requires
        0 <= n <= spans.len(),
        patch_walk(spans, ps, n).4.len() == 0,
    ensures
        patch_walk(spans, ps, n).3.len() == n,
        forall|i: int| 0 <= i < n ==> (#[trigger] patch_walk(spans, ps, n).3[i]) is None,
    decreases n,
{
    if n > 0 {
        let prev = patch_walk(spans, ps, n - 1);
        assert(prev.4.len() <= patch_walk(spans, ps, n).4.len());
        lemma_patch_walk_unpatched(spans, ps, n - 1);
        let st = patch_walk(spans, ps, n);
        assert forall|i: int| 0 <= i < n implies (#[trigger] st.3[i]) is None by {
            if i < n - 1 {
                assert(st.3[i] == prev.3[i]);
            }
        }
    }
}

/// When no Serum instance gets patched, [`patch_serum_metadata`] gives the
/// file back unchanged (when its FLdt length field counts exactly the
/// bytes after it).
pub proof fn lemma_patch_nothing_patched(buf: Seq<u8>, ps: Seq<PatchField>)
    requires
        patch_flp_spec(buf, ps) is Ok,
        patch_flp_spec(buf, ps)->Ok_0.1.len() == 0,
        locate_spec(buf) is Ok,
        locate_spec(buf)->Ok_0.2 + locate_spec(buf)->Ok_0.3 == buf.len(),
    ensures
        patch_flp_spec(buf, ps)->Ok_0.0 == buf,
{
    let s = flp_events(buf)->Ok_0;
    lemma_patch_walk_unpatched(s, ps, s.len() as int);
    lemma_splice_unchanged(buf, patch_walk(s, ps, s.len() as int).3);
}

} // verus!
