//! Building, validating and patching Serum `.fxp` preset files.
//!
//! File layout (all multi-byte header fields big-endian unless noted):
//!
//! ```text
//! 0x00  "CcnK"               chunk magic
//! 0x04  u32    byteSize      == whole file length
//! 0x08  "FPCh"               chunk preset magic
//! 0x0C  u32    version       == 1
//! 0x10  "XfsX"               fxProgramID (Serum's fourCC)
//! 0x14  u32    fxVersion     == 1
//! 0x18  u32    numParams     == 1
//! 0x1C  [28]   prgName       preset name, NUL padded
//! 0x38  u32    chunkSize     == file length - 60 (includes the trailer)
//! 0x3C  chunk: [zlib(preset state 172736 B)][zlib(wavetable)]... [u32 LE N]
//! ```
//!
//! The trailing `N` (little-endian) is the compressed size of the first zlib
//! stream; Serum2's importer uses it to slice the state out of the chunk.

use vstd::prelude::*;
use vstd::slice::slice_subrange;
use vstd::utf8::{encode_utf8, is_char_boundary};
use crate::bytes::{
    be_bytes32, be_u32, copy_range, extend_from, has_at, le_bytes32, le_u32, lemma_be_field, lemma_le_field,
    overwrite, push_u32_be, push_u32_le, read_u32_be, read_u32_le, set_u32_be,
};
use crate::serum::{
    ccnk_tag, ccnk_chunk, fpch_tag, locate_chunk, starts_bytes, tag_ccnk, tag_fpch, tag_vstw,
    serum1_chunk_spec, wrapper_cid3_from,
    SourceKind, OFF_AUTHOR, OFF_CATEGORY, OFF_PRESET_NAME, OFF_VERSION_F32, SERUM1_STATE_SIZE,
};
use crate::flp::{record_next, record_walk};
use crate::strs::{
    byte_list, decimal, hex_prefixed, push_byte_list, push_decimal, push_hex_prefixed, push_str,
    string_of,
};
use crate::zlibio::{
    inflate, inflate_spec, deflate_zlib_level1, zlib_level1_encode, split_chunk_spec, MAX_STREAM,
    read_limit,
};

verus! {

broadcast use vstd::string::group_string_axioms;

pub const FXP_HEADER_LEN: usize = 60;

#[derive(Debug, Clone, Copy, PartialEq, Eq, Structural)]
pub enum Severity {
    /// Serum2 refuses to import the file.
    Fatal,
    /// The file loads, but deviates from what genuine Serum writes.
    Warning,
}

#[derive(Debug)]
pub struct ValidationIssue {
    pub severity: Severity,
    pub message: String,
}

#[derive(Debug)]
pub struct ValidationReport {
    pub issues: Vec<ValidationIssue>,
}

/// An issue as a (severity, message) pair.
pub open spec fn issue_view(i: ValidationIssue) -> (Severity, Seq<char>) {
    (i.severity, i.message@)
}

impl View for ValidationReport {
    /// The issues in the order they were found.
    type V = Seq<(Severity, Seq<char>)>;

    open spec fn view(&self) -> Seq<(Severity, Seq<char>)> {
        self.issues@.map_values(|i: ValidationIssue| issue_view(i))
    }
}

impl Default for ValidationReport {
    fn default() -> (r: Self)
        ensures
            r@ == Seq::<(Severity, Seq<char>)>::empty(),
    {
        let r = ValidationReport { issues: Vec::new() };
        assert(r@ =~= Seq::<(Severity, Seq<char>)>::empty());
        r
    }
}

/// No issue in `v` is fatal.
pub open spec fn no_fatal(v: Seq<(Severity, Seq<char>)>) -> bool {
    forall|i: int| 0 <= i < v.len() ==> v[i].0 != Severity::Fatal
}

/// The messages of the issues of severity `sev`, in order.
pub open spec fn messages_of(v: Seq<(Severity, Seq<char>)>, sev: Severity) -> Seq<Seq<char>>
    decreases v.len(),
{
    if v.len() == 0 {
        Seq::empty()
    } else {
        let rest = messages_of(v.drop_last(), sev);
        if v.last().0 == sev {
            rest.push(v.last().1)
        } else {
            rest
        }
    }
}

/// Every issue is either fatal or a warning: a report is clean exactly when
/// it lists no fatal message, and its fatal and warning messages together
/// number its issues.
pub proof fn lemma_issue_counts(v: Seq<(Severity, Seq<char>)>)
    ensures
        no_fatal(v) <==> messages_of(v, Severity::Fatal).len() == 0,
        messages_of(v, Severity::Fatal).len() + messages_of(v, Severity::Warning).len() == v.len(),
    decreases v.len(),
{
    if v.len() > 0 {
        let w = v.drop_last();
        lemma_issue_counts(w);
        if no_fatal(v) {
            assert forall|i: int| 0 <= i < w.len() implies w[i].0 != Severity::Fatal by {
                assert(w[i] == v[i]);
            }
        } else {
            let k = choose|i: int| 0 <= i < v.len() && v[i].0 == Severity::Fatal;
            if k < w.len() {
                assert(w[k] == v[k]);
            }
        }
        if !no_fatal(w) {
            let k = choose|i: int| 0 <= i < w.len() && w[i].0 == Severity::Fatal;
            assert(v[k] == w[k]);
        }
        if no_fatal(w) && v.last().0 != Severity::Fatal {
            assert forall|i: int| 0 <= i < v.len() implies v[i].0 != Severity::Fatal by {
                if i < w.len() {
                    assert(w[i] == v[i]);
                }
            }
        }
    }
}

impl ValidationReport {
    fn fatal(&mut self, msg: String)
        ensures
            final(self)@ == old(self)@.push((Severity::Fatal, msg@)),
    {
        let ghost m = msg@;
        self.issues.push(ValidationIssue { severity: Severity::Fatal, message: msg });
        assert(self@ =~= old(self)@.push((Severity::Fatal, m)));
    }

    fn warn(&mut self, msg: String)
        ensures
            final(self)@ == old(self)@.push((Severity::Warning, msg@)),
    {
        let ghost m = msg@;
        self.issues.push(ValidationIssue { severity: Severity::Warning, message: msg });
        assert(self@ =~= old(self)@.push((Severity::Warning, m)));
    }

    /// No issue is fatal.
    pub fn is_ok(&self) -> (r: bool)
        ensures
            r == no_fatal(self@),
    {
        let mut i: usize = 0;
        while i < self.issues.len()
            invariant
                i <= self@.len(),
                self@.len() == self.issues@.len(),
                forall|j: int| 0 <= j < i ==> self@[j].0 != Severity::Fatal,
            decreases self.issues.len() - i,
        {
            if self.issues[i].severity == Severity::Fatal {
                assert(self@[i as int].0 == Severity::Fatal);
                return false;
            }
            i += 1;
        }
        true
    }

    fn messages(&self, sev: Severity) -> (r: Vec<&str>)
        ensures
            r@.map_values(|s: &str| s@) == messages_of(self@, sev),
    {
        let mut r: Vec<&str> = Vec::new();
        let mut i: usize = 0;
        while i < self.issues.len()
            invariant
                i <= self@.len(),
                self@.len() == self.issues@.len(),
                r@.map_values(|s: &str| s@) == messages_of(self@.take(i as int), sev),
            decreases self.issues.len() - i,
        {
            let ghost before = r@.map_values(|s: &str| s@);
            let issue = &self.issues[i];
            if issue.severity == sev {
                r.push(issue.message.as_str());
                assert(r@.map_values(|s: &str| s@) =~= before.push(issue.message@));
            }
            assert(self@.take(i + 1).drop_last() =~= self@.take(i as int));
            assert(self@.take(i + 1).last() == issue_view(*issue));
            i += 1;
        }
        assert(self@.take(self@.len() as int) =~= self@);
        r
    }

    /// The messages of the fatal issues, in order.
    pub fn fatals(&self) -> (r: Vec<&str>)
        ensures
            r@.map_values(|s: &str| s@) == messages_of(self@, Severity::Fatal),
    {
        self.messages(Severity::Fatal)
    }

    /// The messages of the warnings, in order.
    pub fn warnings(&self) -> (r: Vec<&str>)
        ensures
            r@.map_values(|s: &str| s@) == messages_of(self@, Severity::Warning),
    {
        self.messages(Severity::Warning)
    }
}

// ---------------------------------------------------------------------------
// Fixed-width text fields
/// The largest character boundary of `b` at or below `k` (0 at the least).
pub open spec fn boundary_at_most(b: Seq<u8>, k: int) -> int
    decreases k,
{
    if k <= 0 {
        0
    } else if is_char_boundary(b, k) {
        k
    } else {
        boundary_at_most(b, k - 1)
    }
}

pub proof fn lemma_boundary_at_most(b: Seq<u8>, k: int)
    ensures
        0 <= boundary_at_most(b, k),
        k >= 0 ==> boundary_at_most(b, k) <= k,
    decreases k,
{
    if k > 0 && !is_char_boundary(b, k) {
        lemma_boundary_at_most(b, k - 1);
    }
}

/// The UTF-8 text `b` as a NUL-padded field of `width` bytes: cut to at
/// most `width - 1` bytes on a character boundary, so at least one NUL
/// always ends it.
pub open spec fn field_bytes(b: Seq<u8>, width: int) -> Seq<u8> {
    let cap = if b.len() < width - 1 {
        b.len() as int
    } else {
        width - 1
    };
    let t = boundary_at_most(b, cap);
    b.subrange(0, t) + Seq::new((width - t) as nat, |i: int| 0u8)
}

pub proof fn lemma_field_bytes_len(b: Seq<u8>, width: int)
    requires
        width >= 1,
    ensures
        field_bytes(b, width).len() == width,
{
    let cap = if b.len() < width - 1 {
        b.len() as int
    } else {
        width - 1
    };
    lemma_boundary_at_most(b, cap);
}

/// A name whose UTF-8 form fits in 27 bytes is stored whole, followed by
/// NULs up to the field's 28 bytes.
pub proof fn lemma_short_name_field(name: Seq<char>)
    requires
        encode_utf8(name).len() < 28,
    ensures
        field_bytes(encode_utf8(name), 28) == encode_utf8(name) + Seq::new(
            (28 - encode_utf8(name).len()) as nat,
            |i: int| 0u8,
        ),
{
    let b = encode_utf8(name);
    vstd::utf8::encode_utf8_valid_utf8(name);
    vstd::utf8::is_char_boundary_start_end_of_seq(b);
    assert(boundary_at_most(b, b.len() as int) == b.len());
    assert(b.subrange(0, b.len() as int) =~= b);
}

/// Encode `value` into a NUL-padded field of `len` bytes, truncating on a
/// UTF-8 char boundary and always keeping at least one NUL terminator.
fn encode_field(value: &str, len: usize) -> (r: Vec<u8>)
    requires
        len >= 1,
    ensures
        r@ == field_bytes(encode_utf8(value@), len as int),
        r@.len() == len,
{
    let bytes = value.as_bytes();
    let mut take: usize = if bytes.len() < len - 1 {
        bytes.len()
    } else {
        len - 1
    };
    let ghost cap = take as int;
    while take > 0 && !value.is_char_boundary(take)
        invariant
            take <= cap,
            cap < len,
            cap <= bytes@.len(),
            bytes@ == encode_utf8(value@),
            boundary_at_most(encode_utf8(value@), cap) == boundary_at_most(
                encode_utf8(value@),
                take as int,
            ),
        decreases take,
    {
        take -= 1;
    }
    let mut out: Vec<u8> = Vec::with_capacity(len);
    extend_from(&mut out, slice_subrange(bytes, 0, take));
    let mut i: usize = take;
    while i < len
        invariant
            take <= i <= len,
            out@ == bytes@.subrange(0, take as int) + Seq::new(
                (i - take) as nat,
                |j: int| 0u8,
            ),
        decreases len - i,
    {
        out.push(0u8);
        assert(out@ =~= bytes@.subrange(0, take as int) + Seq::new(
            (i + 1 - take) as nat,
            |j: int| 0u8,
        ));
        i += 1;
    }
    proof {
        lemma_field_bytes_len(encode_utf8(value@), len as int);
    }
    out
}

// ---------------------------------------------------------------------------
// Assembling
/// `"XfsX"`, Serum's fxProgramID.
pub open spec fn tag_xfsx() -> Seq<u8> {
    seq![0x58u8, 0x66u8, 0x73u8, 0x58u8]
}

fn xfsx_tag() -> (v: Vec<u8>)
    ensures
        v@ == tag_xfsx(),
{
    let v = vec![0x58u8, 0x66u8, 0x73u8, 0x58u8];
    assert(v@ =~= tag_xfsx());
    v
}

/// The complete `.fxp` around `chunk` for a preset named by the UTF-8
/// bytes `name`; the two size fields hold their values modulo 2^32.
pub open spec fn fxp_bytes(chunk: Seq<u8>, name: Seq<u8>) -> Seq<u8> {
    tag_ccnk() + be_bytes32((chunk.len() + 60int) % 0x1_0000_0000) + tag_fpch() + be_bytes32(1)
        + tag_xfsx() + be_bytes32(1) + be_bytes32(1) + field_bytes(name, 28) + be_bytes32(
        chunk.len() as int % 0x1_0000_0000,
    ) + chunk
}

/// Assemble a complete Serum `.fxp` from a chunk (zlib streams + trailer).
pub fn build_fxp(chunk: &[u8], preset_name: &str) -> (r: Vec<u8>)
    ensures
        r@ == fxp_bytes(chunk@, encode_utf8(preset_name@)),
{
    let clen = chunk.len();
    let total = ((clen as u128 + 60) % 4294967296) as u32;
    let mut out: Vec<u8> = Vec::new();
    extend_from(&mut out, ccnk_tag().as_slice());
    push_u32_be(&mut out, total);
    extend_from(&mut out, fpch_tag().as_slice());
    push_u32_be(&mut out, 1);
    extend_from(&mut out, xfsx_tag().as_slice());
    push_u32_be(&mut out, 1);
    push_u32_be(&mut out, 1);
    // 28-byte NUL-padded preset name, cut on a char boundary.
    let name = encode_field(preset_name, 28);
    extend_from(&mut out, name.as_slice());
    push_u32_be(&mut out, (clen as u64 % 4294967296) as u32);
    extend_from(&mut out, chunk);
    out
}

/// The header of a built `.fxp` reads back exactly: magics, ids, the
/// 28-byte name field, both size fields, and the chunk at 0x3C.
#[verifier::spinoff_prover]
#[verifier::rlimit(40)]
pub proof fn lemma_fxp_layout(chunk: Seq<u8>, name: Seq<u8>)
    requires
        chunk.len() + 60 < 0x1_0000_0000,
    ensures
        ({
            let f = fxp_bytes(chunk, name);
            &&& f.len() == chunk.len() + 60
            &&& f.subrange(0, 4) == tag_ccnk()
            &&& be_u32(f, 4) == f.len()
            &&& f.subrange(8, 12) == tag_fpch()
            &&& be_u32(f, 12) == 1
            &&& f.subrange(16, 20) == tag_xfsx()
            &&& be_u32(f, 20) == 1
            &&& be_u32(f, 24) == 1
            &&& f.subrange(0x1C, 0x38) == field_bytes(name, 28)
            &&& be_u32(f, 0x38) == chunk.len()
            &&& f.subrange(0x3C, f.len() as int) == chunk
        }),
{
    let f = fxp_bytes(chunk, name);
    lemma_field_bytes_len(name, 28);
    let a = be_bytes32((chunk.len() + 60int) % 0x1_0000_0000);
    let one = be_bytes32(1);
    let c = be_bytes32(chunk.len() as int % 0x1_0000_0000);
    let nf = field_bytes(name, 28);
    assert(a.len() == 4 && one.len() == 4 && c.len() == 4);
    assert(f.subrange(0, 4) =~= tag_ccnk());
    assert(f.subrange(4, 8) =~= a);
    assert(f.subrange(8, 12) =~= tag_fpch());
    assert(f.subrange(12, 16) =~= one);
    assert(f.subrange(16, 20) =~= tag_xfsx());
    assert(f.subrange(20, 24) =~= one);
    assert(f.subrange(24, 28) =~= one);
    assert(f.subrange(0x1C, 0x38) =~= nf);
    assert(f.subrange(0x38, 0x3C) =~= c);
    assert(f.subrange(0x3C, f.len() as int) =~= chunk);
    lemma_be_field(f, 4, chunk.len() + 60int);
    lemma_be_field(f, 12, 1);
    lemma_be_field(f, 20, 1);
    lemma_be_field(f, 24, 1);
    lemma_be_field(f, 0x38, chunk.len() as int);
}

// ---------------------------------------------------------------------------
// Validating
/// One fatal issue when `c` holds.
pub open spec fn fatal_if(c: bool, m: Seq<char>) -> Seq<(Severity, Seq<char>)> {
    if c {
        seq![(Severity::Fatal, m)]
    } else {
        Seq::empty()
    }
}

/// One warning when `c` holds.
pub open spec fn warn_if(c: bool, m: Seq<char>) -> Seq<(Severity, Seq<char>)> {
    if c {
        seq![(Severity::Warning, m)]
    } else {
        Seq::empty()
    }
}

/// `"Xfs"`, the part of the fxProgramID the importer compares.
pub open spec fn tag_xfs() -> Seq<u8> {
    seq![0x58u8, 0x66u8, 0x73u8]
}

fn xfs_tag() -> (v: Vec<u8>)
    ensures
        v@ == tag_xfs(),
{
    let v = vec![0x58u8, 0x66u8, 0x73u8];
    assert(v@ =~= tag_xfs());
    v
}

pub open spec fn msg_file_small(n: nat) -> Seq<char> {
    "file too small ("@ + decimal(n) + " bytes, need >= 61)"@
}

pub open spec fn msg_no_ccnk() -> Seq<char> {
    "missing \"CcnK\" magic at offset 0"@
}

/// The preset version float, named by its IEEE-754 bits.
pub open spec fn version_text(bits: u32) -> Seq<char> {
    "f32 bits "@ + hex_prefixed(bits as nat)
}

/// The version float is inside `[0.002, 0.999]`. Positive `f32` values
/// order as their bit patterns do; `0x3B03126F` is `0.002f32` and
/// `0x3F7FBE77` is `0.999f32`; negative values, infinities and NaNs fall
/// outside.
pub open spec fn version_in_range(bits: u32) -> bool {
    0x3B03126F <= bits <= 0x3F7FBE77
}

/// Below `0.009f32` (bits `0x3C1374BC`), for an in-range version.
pub open spec fn version_very_old(bits: u32) -> bool {
    bits < 0x3C1374BC
}

/// Below `0.149f32` (bits `0x3E189375`), for an in-range version.
pub open spec fn version_old(bits: u32) -> bool {
    bits < 0x3E189375
}

/// The checks on a decompressed preset state: its size against the
/// 172,736 bytes Serum2 expects, and the version float at 0x4994.
pub open spec fn state_issues(state: Seq<u8>) -> Seq<(Severity, Seq<char>)> {
    let n = state.len();
    let size = if n > SERUM1_STATE_SIZE {
        seq![(Severity::Fatal, "decompressed state is "@ + decimal(n) + " bytes (max 172736)"@)]
    } else if n < SERUM1_STATE_SIZE {
        seq![
            (
                Severity::Warning,
                "decompressed state is "@ + decimal(n) + " bytes; Serum2 zero-pads to 172736"@,
            ),
        ]
    } else {
        Seq::empty()
    };
    let version = if n >= OFF_VERSION_F32 + 4 {
        let b = le_u32(state, OFF_VERSION_F32 as int) as u32;
        if !version_in_range(b) {
            seq![
                (
                    Severity::Fatal,
                    "preset version float at state+0x4994 is "@ + version_text(b)
                        + ", outside [0.002, 0.999]"@,
                ),
            ]
        } else if version_very_old(b) {
            seq![
                (
                    Severity::Warning,
                    "preset version "@ + version_text(b) + " triggers Serum2's old-patch warning"@,
                ),
            ]
        } else if version_old(b) {
            seq![
                (
                    Severity::Warning,
                    "preset version "@ + version_text(b)
                        + " sets Serum2's oldSerum1Preset compatibility flag"@,
                ),
            ]
        } else {
            Seq::empty()
        }
    } else {
        seq![(Severity::Warning, "state too short to contain a version float"@)]
    };
    size + version
}

/// The fatals a trailer value `n` draws.
pub open spec fn trailer_issues(n: int) -> Seq<(Severity, Seq<char>)> {
    fatal_if(n < 1, "trailer state length is 0"@) + fatal_if(
        n > 0xFFFFF,
        "trailer state length "@ + decimal(n as nat) + " above the import cap 0xFFFFF"@,
    ) + fatal_if(n / 0x1000000 > 3, "trailer state length has an out-of-range top byte"@)
}

/// The checks on the state blob `data[0x3C..0x3C + n]` (cut at the end of
/// `data`): inflated when it starts like a zlib stream, taken raw otherwise.
pub open spec fn blob_issues(data: Seq<u8>, n: int) -> Seq<(Severity, Seq<char>)> {
    let end = if 0x3C + n < data.len() {
        0x3C + n
    } else {
        data.len() as int
    };
    let blob = data.subrange(0x3C, end);
    let (pre, state) = if blob.len() > 0 && blob[0] == 0x78 {
        match inflate_spec(blob, MAX_STREAM as nat) {
            Err(e) => (
                seq![(Severity::Fatal, "state zlib stream does not inflate: "@ + e)],
                Seq::<u8>::empty(),
            ),
            Ok((st, c)) => (
                warn_if(
                    c != n,
                    "state stream consumes "@ + decimal(c) + " of "@ + decimal(n as nat)
                        + " trailer bytes"@,
                ),
                st,
            ),
        }
    } else {
        (Seq::empty(), blob)
    };
    pre + if state.len() > 0 || n == 0 {
        state_issues(state)
    } else {
        Seq::empty()
    }
}

/// The rules the Serum2 importer applies, and whether the file is sound
/// enough for the structural checks to follow.
pub open spec fn importer_issues(data: Seq<u8>) -> (Seq<(Severity, Seq<char>)>, bool) {
    importer_issues_after(true, data)
}

/// The issues the importer's rules add to a report that already holds a
/// fatal issue (`prior_ok` false) or none: the trailer and state checks run
/// only while the report as a whole is still free of fatals.
pub open spec fn importer_issues_after(prior_ok: bool, data: Seq<u8>) -> (
    Seq<(Severity, Seq<char>)>,
    bool,
) {
    let len = data.len();
    if len < 0x3D {
        (seq![(Severity::Fatal, msg_file_small(len))], false)
    } else if data.subrange(0, 4) != tag_ccnk() {
        (seq![(Severity::Fatal, msg_no_ccnk())], false)
    } else {
        let v = be_u32(data, 0x38);
        let head = fatal_if(
            data.subrange(0x10, 0x13) != tag_xfs(),
            "fxProgramID at 0x10 is "@ + byte_list(data.subrange(0x10, 0x14))
                + ", expected \"XfsX\""@,
        ) + fatal_if(v < 0x28, "chunkSize "@ + decimal(v as nat) + " below the minimum of 40"@)
            + fatal_if(
            v > 0x4000_0000,
            "chunkSize "@ + decimal(v as nat) + " above the maximum of 0x40000000"@,
        ) + fatal_if(
            v + 0x3C > len,
            "chunkSize "@ + decimal(v as nat) + " overruns the file ("@ + decimal(len)
                + " bytes)"@,
        );
        if head.len() > 0 || !prior_ok {
            (head, true)
        } else {
            let n = le_u32(data, 0x38 + v);
            let t = trailer_issues(n);
            if t.len() > 0 {
                (t, true)
            } else {
                (blob_issues(data, n), true)
            }
        }
    }
}

/// How genuine Serum files look: `byteSize`, `FPCh` and a `chunkSize` that
/// spans the rest of the file.
pub open spec fn structure_issues(data: Seq<u8>) -> Seq<(Severity, Seq<char>)> {
    let len = data.len();
    let byte_size = be_u32(data, 4);
    let v2 = be_u32(data, 0x38);
    warn_if(
        byte_size != len,
        "byteSize "@ + decimal(byte_size as nat) + " != file length "@ + decimal(len),
    ) + warn_if(
        data.subrange(8, 12) != tag_fpch(),
        "fxMagic is "@ + byte_list(data.subrange(8, 12)) + ", genuine files use \"FPCh\""@,
    ) + warn_if(
        0x3C + v2 != len,
        "file has "@ + decimal(len) + " bytes but header implies "@ + decimal((0x3C + v2) as nat),
    )
}

/// Everything [`validate_fxp`] reports on `data`.
pub open spec fn validate_spec(data: Seq<u8>) -> Seq<(Severity, Seq<char>)> {
    let (issues, go_on) = importer_issues(data);
    if go_on {
        issues + structure_issues(data)
    } else {
        issues
    }
}

/// A built `.fxp` looks like a genuine Serum file: its structure raises no
/// warning (both size fields describe it and its `fxMagic` is `FPCh`).
pub proof fn lemma_built_structure_clean(chunk: Seq<u8>, name: Seq<u8>)
    requires
        chunk.len() + 60 < 0x1_0000_0000,
    ensures
        structure_issues(fxp_bytes(chunk, name)) == Seq::<(Severity, Seq<char>)>::empty(),
{
    lemma_fxp_layout(chunk, name);
    let f = fxp_bytes(chunk, name);
    assert(warn_if(false, Seq::empty()) =~= Seq::<(Severity, Seq<char>)>::empty());
    assert(structure_issues(f) =~= Seq::<(Severity, Seq<char>)>::empty());
}

/// The checks read nothing of the 28-byte name field at 0x1C: two files
/// that differ only there get the same verdict.
proof fn lemma_verdict_outside_name(d1: Seq<u8>, d2: Seq<u8>)
    requires
        d1.len() == d2.len(),
        forall|i: int| 0 <= i < d1.len() && !(0x1C <= i < 0x38) ==> d1[i] == d2[i],
    ensures
        validate_spec(d1) == validate_spec(d2),
{
    let len = d1.len();
    if len >= 0x3D {
        assert(d1.subrange(0, 4) =~= d2.subrange(0, 4));
        assert(d1.subrange(0x10, 0x13) =~= d2.subrange(0x10, 0x13));
        assert(d1.subrange(0x10, 0x14) =~= d2.subrange(0x10, 0x14));
        assert(d1.subrange(8, 12) =~= d2.subrange(8, 12));
        assert(be_u32(d1, 0x38) == be_u32(d2, 0x38));
        assert(be_u32(d1, 4) == be_u32(d2, 4));
        let v = be_u32(d1, 0x38);
        if v >= 0x28 && v + 0x3C <= len {
            assert(le_u32(d1, 0x38 + v) == le_u32(d2, 0x38 + v));
            let n = le_u32(d1, 0x38 + v);
            let end = if 0x3C + n < len {
                0x3C + n
            } else {
                len as int
            };
            assert(d1.subrange(0x3C, end) =~= d2.subrange(0x3C, end));
        }
        assert(importer_issues(d1) == importer_issues(d2));
        assert(structure_issues(d1) == structure_issues(d2));
    }
}

/// The severities of the issues, in order.
pub open spec fn severities(v: Seq<(Severity, Seq<char>)>) -> Seq<Severity> {
    v.map_values(|x: (Severity, Seq<char>)| x.0)
}

/// Only the severities decide the verdict and the number of fatal
/// messages.
proof fn lemma_verdict_by_severities(a: Seq<(Severity, Seq<char>)>, b: Seq<(Severity, Seq<char>)>)
    requires
        severities(a) == severities(b),
    ensures
        no_fatal(a) == no_fatal(b),
        messages_of(a, Severity::Fatal).len() == messages_of(b, Severity::Fatal).len(),
    decreases a.len(),
{
    assert(a.len() == severities(a).len() && b.len() == severities(b).len());
    assert forall|i: int| 0 <= i < a.len() implies a[i].0 == b[i].0 by {
        assert(severities(a)[i] == a[i].0);
        assert(severities(b)[i] == b[i].0);
    }
    if a.len() > 0 {
        assert(severities(a.drop_last()) =~= severities(b.drop_last())) by {
            assert forall|i: int| 0 <= i < a.len() - 1 implies severities(a.drop_last())[i]
                == severities(b.drop_last())[i] by {
                assert(a.drop_last()[i] == a[i]);
                assert(b.drop_last()[i] == b[i]);
            }
        }
        lemma_verdict_by_severities(a.drop_last(), b.drop_last());
        lemma_no_fatal_concat(a.drop_last(), seq![a.last()]);
        lemma_no_fatal_concat(b.drop_last(), seq![b.last()]);
        assert(a =~= a.drop_last() + seq![a.last()]);
        assert(b =~= b.drop_last() + seq![b.last()]);
    }
}

/// Warnings added after a report change neither its verdict nor its fatal
/// messages.
proof fn lemma_warnings_after(a: Seq<(Severity, Seq<char>)>, s: Seq<(Severity, Seq<char>)>)
    requires
        forall|i: int| 0 <= i < s.len() ==> (#[trigger] s[i]).0 == Severity::Warning,
    ensures
        no_fatal(a + s) == no_fatal(a),
        messages_of(a + s, Severity::Fatal) == messages_of(a, Severity::Fatal),
    decreases s.len(),
{
    lemma_no_fatal_concat(a, s);
    if s.len() > 0 {
        let w = s.drop_last();
        assert forall|i: int| 0 <= i < w.len() implies (#[trigger] w[i]).0 == Severity::Warning by {
            assert(w[i] == s[i]);
        }
        lemma_warnings_after(a, w);
        assert((a + s).drop_last() =~= a + w);
        assert((a + s).last() == s.last());
    } else {
        assert(a + s =~= a);
    }
}

/// Changing bytes the importer does not check (the header's `byteSize`,
/// `fxMagic`, `version`, the last byte of `fxProgramID`, `fxVersion`,
/// `numParams` and the name) changes neither the verdict nor the number of
/// fatal messages.
pub proof fn lemma_verdict_outside_checked_fields(d1: Seq<u8>, d2: Seq<u8>)
    requires
        d1.len() == d2.len(),
        forall|i: int|
            0 <= i < d1.len() && !(4 <= i < 0x10) && !(0x13 <= i < 0x38) ==> d1[i] == d2[i],
    ensures
        no_fatal(validate_spec(d1)) == no_fatal(validate_spec(d2)),
        messages_of(validate_spec(d1), Severity::Fatal).len() == messages_of(
            validate_spec(d2),
            Severity::Fatal,
        ).len(),
{
    let len = d1.len();
    let (i1, g1) = importer_issues(d1);
    let (i2, g2) = importer_issues(d2);
    if len >= 0x3D {
        assert(d1.subrange(0, 4) =~= d2.subrange(0, 4));
        assert(d1.subrange(0x10, 0x13) =~= d2.subrange(0x10, 0x13));
        assert(be_u32(d1, 0x38) == be_u32(d2, 0x38));
        let v = be_u32(d1, 0x38);
        if v >= 0x28 && v + 0x3C <= len {
            assert(le_u32(d1, 0x38 + v) == le_u32(d2, 0x38 + v));
            let n = le_u32(d1, 0x38 + v);
            let end = if 0x3C + n < len {
                0x3C + n
            } else {
                len as int
            };
            assert(d1.subrange(0x3C, end) =~= d2.subrange(0x3C, end));
        }
    }
    assert(g1 == g2);
    assert(severities(i1) =~= severities(i2));
    lemma_verdict_by_severities(i1, i2);
    if g1 {
        let s1 = structure_issues(d1);
        let s2 = structure_issues(d2);
        assert(forall|i: int| 0 <= i < s1.len() ==> (#[trigger] s1[i]).0 == Severity::Warning);
        assert(forall|i: int| 0 <= i < s2.len() ==> (#[trigger] s2[i]).0 == Severity::Warning);
        lemma_warnings_after(i1, s1);
        lemma_warnings_after(i2, s2);
    }
}

/// What the importer refuses: a file under 61 bytes, without `CcnK`, with a
/// wrong `fxProgramID`, a `chunkSize` below 40, above 0x40000000 or past
/// the file's end, or a trailer state length of 0 or above 0xFFFFF, gets a
/// fatal issue.
pub proof fn lemma_refused_files(data: Seq<u8>)
    requires
        data.len() < 0x3D || data.subrange(0, 4) != tag_ccnk() || data.subrange(0x10, 0x13)
            != tag_xfs() || be_u32(data, 0x38) < 0x28 || be_u32(data, 0x38) > 0x4000_0000
            || be_u32(data, 0x38) + 0x3C > data.len() || le_u32(data, 0x38 + be_u32(data, 0x38)) < 1
            || le_u32(data, 0x38 + be_u32(data, 0x38)) > 0xFFFFF,
    ensures
        !no_fatal(validate_spec(data)),
{
    let (iss, go) = importer_issues(data);
    assert(iss.len() > 0 && iss[0].0 == Severity::Fatal);
    if go {
        lemma_no_fatal_concat(iss, structure_issues(data));
    }
}

// ---------------------------------------------------------------------------
// What a verdict and a recovery promise

/// A file that passes validation is one Serum2 can import: it has the
/// `CcnK` header, a `chunkSize` in 40..=0x40000000 within the file, a
/// trailer state length in 1..=0xFFFFF, and, when its state blob (the
/// trailer's length of bytes at 0x3C, cut at the file's end) starts like a
/// zlib stream, that stream decompresses.
pub proof fn lemma_pass_state_inflates(data: Seq<u8>)
    requires
        no_fatal(validate_spec(data)),
    ensures
        data.len() >= 0x3D,
        data.subrange(0, 4) == tag_ccnk(),
        ({
            let v = be_u32(data, 0x38);
            let n = le_u32(data, 0x38 + v);
            let end = if 0x3C + n < data.len() {
                0x3C + n
            } else {
                data.len() as int
            };
            let blob = data.subrange(0x3C, end);
            &&& 0x28 <= v <= 0x4000_0000
            &&& v + 0x3C <= data.len()
            &&& 1 <= n <= 0xFFFFF
            &&& blob.len() > 0 && blob[0] == 0x78 ==> inflate_spec(blob, MAX_STREAM as nat) is Ok
            &&& blob.len() > 0 && blob[0] == 0x78 ==> state_acceptable(
                inflate_spec(blob, MAX_STREAM as nat)->Ok_0.0,
            )
            &&& !(blob.len() > 0 && blob[0] == 0x78) ==> state_acceptable(blob)
        }),
{
    if data.len() < 0x3D || data.subrange(0, 4) != tag_ccnk() || data.subrange(0x10, 0x13)
        != tag_xfs() || be_u32(data, 0x38) < 0x28 || be_u32(data, 0x38) > 0x4000_0000
        || be_u32(data, 0x38) + 0x3C > data.len() || le_u32(data, 0x38 + be_u32(data, 0x38)) < 1
        || le_u32(data, 0x38 + be_u32(data, 0x38)) > 0xFFFFF {
        lemma_refused_files(data);
    } else {
        let v = be_u32(data, 0x38);
        let n = le_u32(data, 0x38 + v);
        let end = if 0x3C + n < data.len() {
            0x3C + n
        } else {
            data.len() as int
        };
        let blob = data.subrange(0x3C, end);
        let (iss, go) = importer_issues(data);
        assert(trailer_issues(n) =~= Seq::<(Severity, Seq<char>)>::empty());
        assert(iss == blob_issues(data, n));
        lemma_no_fatal_concat(iss, structure_issues(data));
        if blob.len() > 0 && blob[0] == 0x78 && inflate_spec(blob, MAX_STREAM as nat) is Err {
            assert(iss[0].0 == Severity::Fatal);
        } else {
            let (pre, state) = if blob.len() > 0 && blob[0] == 0x78 {
                let (st, c) = inflate_spec(blob, MAX_STREAM as nat)->Ok_0;
                (
                    warn_if(
                        c != n,
                        "state stream consumes "@ + decimal(c) + " of "@ + decimal(n as nat)
                            + " trailer bytes"@,
                    ),
                    st,
                )
            } else {
                (Seq::empty(), blob)
            };
            let rest = if state.len() > 0 || n == 0 {
                state_issues(state)
            } else {
                Seq::empty()
            };
            assert(iss == pre + rest);
            lemma_no_fatal_concat(pre, rest);
            if state.len() > 0 {
                lemma_state_issues_fatal(state);
            }
        }
    }
}

/// A decompressed state Serum2 accepts: at most 172,736 bytes, and, when it
/// holds the version float at 0x4994, a version in [0.002, 0.999] (the f32
/// bits 0x3B03126F..=0x3F7FBE77).
pub open spec fn state_acceptable(state: Seq<u8>) -> bool {
    &&& state.len() <= 172736
    &&& state.len() >= 0x4998 ==> 0x3B03126F <= le_u32(state, 0x4994) <= 0x3F7FBE77
}

proof fn lemma_state_issues_fatal(state: Seq<u8>)
    requires
        no_fatal(state_issues(state)),
    ensures
        state_acceptable(state),
{
    let n = state.len();
    let size = if n > SERUM1_STATE_SIZE {
        seq![(Severity::Fatal, "decompressed state is "@ + decimal(n) + " bytes (max 172736)"@)]
    } else if n < SERUM1_STATE_SIZE {
        seq![
            (
                Severity::Warning,
                "decompressed state is "@ + decimal(n) + " bytes; Serum2 zero-pads to 172736"@,
            ),
        ]
    } else {
        Seq::empty()
    };
    let version = state_issues(state).subrange(size.len() as int, state_issues(state).len() as int);
    assert(state_issues(state) =~= size + version);
    lemma_no_fatal_concat(size, version);
    if n > SERUM1_STATE_SIZE {
        assert(size[0].0 == Severity::Fatal);
    }
    if n >= OFF_VERSION_F32 + 4 {
        let b = le_u32(state, OFF_VERSION_F32 as int) as u32;
        assert(b == le_u32(state, OFF_VERSION_F32 as int));
        if !version_in_range(b) {
            assert(version[0].0 == Severity::Fatal);
        }
    }
}

/// A `CcnK` blob's first record, read as a VST3-wrapper record, claims more
/// bytes than there are: the wrapper walk finds no record from any of the
/// prologue offsets `start..=8`.
proof fn lemma_fxp_no_wrapper_from(f: Seq<u8>, start: int)
    requires
        60 <= f.len() < 0x1_0000_0000,
        f.subrange(8, 12) == tag_fpch(),
        be_u32(f, 12) == 1,
        f.subrange(16, 20) == tag_xfsx(),
        0 <= start <= 9,
    ensures
        wrapper_cid3_from(f, start) is None,
    decreases 9 - start,
{
    if start <= 8 {
        lemma_fxp_no_wrapper_from(f, start + 1);
        assert(f.subrange(8, 12)[0] == f[8] && f.subrange(8, 12)[3] == f[11]);
        assert(f.subrange(16, 20)[0] == f[16]);
        let rest = f.subrange(start, f.len() as int);
        assert(rest[8] == f[start + 8] && rest[9] == f[start + 9] && rest[10] == f[start + 10]
            && rest[11] == f[start + 11]);
        assert(crate::bytes::le_u32(rest, 8) >= 1);
        assert(record_next(rest, 0, false).0 is None);
        assert(record_walk(rest, 0, false).0.len() == 0);
    }
}

/// Where the chunk of a program file stored as a plugin state lies: after
/// its 60-byte header, found as a `CcnK` preset.
proof fn lemma_program_locates(f: Seq<u8>)
    requires
        60 <= f.len() < 0x1_0000_0000,
        f.subrange(0, 4) == tag_ccnk(),
        f.subrange(8, 12) == tag_fpch(),
        be_u32(f, 12) == 1,
        f.subrange(16, 20) == tag_xfsx(),
        be_u32(f, 0x38) == f.len() - 60,
    ensures
        locate_chunk(f) == Ok::<(Seq<u8>, SourceKind), Seq<char>>(
            (f.subrange(0x3C, f.len() as int), SourceKind::CcnKFxPreset),
        ),
{
    lemma_fxp_no_wrapper_from(f, 0);
    assert(f.subrange(0, 4)[0] == f[0]);
    assert(!starts_bytes(f, tag_vstw()));
    assert(starts_bytes(f, tag_ccnk()));
}

/// Where the chunk of a complete `.fxp` stored as a plugin state lies: the
/// bytes it wraps, found as a `CcnK` preset.
proof fn lemma_fxp_locates(c: Seq<u8>, name: Seq<u8>)
    requires
        c.len() + 60 < 0x1_0000_0000,
    ensures
        fxp_bytes(c, name).len() > 0,
        locate_chunk(fxp_bytes(c, name)) == Ok::<(Seq<u8>, SourceKind), Seq<char>>(
            (c, SourceKind::CcnKFxPreset),
        ),
{
    lemma_fxp_layout(c, name);
    lemma_program_locates(fxp_bytes(c, name));
}

/// A complete `.fxp` program file stored as a plugin state gives back,
/// as a `CcnK` preset, exactly the chunk it wraps, whatever the preset name
/// in its header, when the chunk is sound (its stream 0 carries the
/// trailer and decompresses to at most a full Serum state).
#[verifier::spinoff_prover]
pub proof fn lemma_fxp_state_recovers_chunk(c: Seq<u8>, name: Seq<u8>)
    requires
        c.len() + 60 < 0x1_0000_0000,
        split_chunk_spec(c) matches Ok((ss, trailer)) && trailer && ss[0].len() <= SERUM1_STATE_SIZE,
    ensures
        serum1_chunk_spec(fxp_bytes(c, name)) matches Ok((chunk, source, s0, _)) && chunk == c
            && source == SourceKind::CcnKFxPreset && s0 == split_chunk_spec(c)->Ok_0.0[0],
{
    lemma_fxp_locates(c, name);
}

/// What `extract` checks is what it writes: the Serum2 verdict on the
/// `.fxp` built around a chunk is the same whatever preset name its header
/// carries.
pub proof fn lemma_verdict_ignores_name(chunk: Seq<u8>, a: Seq<u8>, b: Seq<u8>)
    ensures
        validate_spec(fxp_bytes(chunk, a)) == validate_spec(fxp_bytes(chunk, b)),
{
    lemma_field_bytes_len(a, 28);
    lemma_field_bytes_len(b, 28);
    let d1 = fxp_bytes(chunk, a);
    let d2 = fxp_bytes(chunk, b);
    let h = tag_ccnk() + be_bytes32((chunk.len() + 60int) % 0x1_0000_0000) + tag_fpch() + be_bytes32(1)
        + tag_xfsx() + be_bytes32(1) + be_bytes32(1);
    let t = be_bytes32(chunk.len() as int % 0x1_0000_0000) + chunk;
    assert(d1 =~= h + field_bytes(a, 28) + t);
    assert(d2 =~= h + field_bytes(b, 28) + t);
    assert(h.len() == 0x1C);
    assert forall|i: int| 0 <= i < d1.len() && !(0x1C <= i < 0x38) implies d1[i] == d2[i] by {
        if i < 0x1C {
            assert(d1[i] == h[i] && d2[i] == h[i]);
        } else {
            assert(d1[i] == t[i - 0x38] && d2[i] == t[i - 0x38]);
        }
    }
    lemma_verdict_outside_name(d1, d2);
}

fn state_checks(state: &[u8], r: &mut ValidationReport)
    ensures
        final(r)@ == old(r)@ + state_issues(state@),
{
    let n = state.len();
    if n > SERUM1_STATE_SIZE {
        let mut m = string_of("decompressed state is ");
        push_decimal(&mut m, n as u64);
        push_str(&mut m, " bytes (max 172736)");
        r.fatal(m);
    } else if n < SERUM1_STATE_SIZE {
        let mut m = string_of("decompressed state is ");
        push_decimal(&mut m, n as u64);
        push_str(&mut m, " bytes; Serum2 zero-pads to 172736");
        r.warn(m);
    }
    let ghost mid = r@;
    if n >= OFF_VERSION_F32 + 4 {
        let b = read_u32_le(state, OFF_VERSION_F32);
        if !(0x3B03126F <= b && b <= 0x3F7FBE77) {
            let mut m = string_of("preset version float at state+0x4994 is f32 bits ");
            push_hex_prefixed(&mut m, b as u64);
            push_str(&mut m, ", outside [0.002, 0.999]");
            r.fatal(m);
        } else if b < 0x3C1374BC {
            let mut m = string_of("preset version f32 bits ");
            push_hex_prefixed(&mut m, b as u64);
            push_str(&mut m, " triggers Serum2's old-patch warning");
            r.warn(m);
        } else if b < 0x3E189375 {
            let mut m = string_of("preset version f32 bits ");
            push_hex_prefixed(&mut m, b as u64);
            push_str(&mut m, " sets Serum2's oldSerum1Preset compatibility flag");
            r.warn(m);
        }
    } else {
        r.warn(string_of("state too short to contain a version float"));
    }
    proof {
        reveal_strlit("preset version float at state+0x4994 is f32 bits ");
        reveal_strlit("preset version float at state+0x4994 is ");
        reveal_strlit("preset version f32 bits ");
        reveal_strlit("preset version ");
        reveal_strlit("f32 bits ");
        let b = le_u32(state@, OFF_VERSION_F32 as int) as u32;
        assert("preset version float at state+0x4994 is "@ + version_text(b) =~= "preset version float at state+0x4994 is f32 bits "@ + hex_prefixed(b as nat));
        assert("preset version "@ + version_text(b) =~= "preset version f32 bits "@ + hex_prefixed(b as nat));
        assert(r@ =~= old(r)@ + state_issues(state@));
    }
}

fn blob_checks(data: &[u8], n: u32, r: &mut ValidationReport)
    requires
        data@.len() >= 0x3C,
    ensures
        final(r)@ == old(r)@ + blob_issues(data@, n as int),
{
    let len = data.len();
    let end: usize = if (n as u64) + 0x3C < len as u64 {
        0x3C + n as usize
    } else {
        len
    };
    let blob = slice_subrange(data, 0x3C, end);
    let state: Vec<u8> = if blob.len() > 0 && blob[0] == 0x78 {
        match inflate(blob, MAX_STREAM) {
            Err(e) => {
                let mut m = string_of("state zlib stream does not inflate: ");
                push_str(&mut m, e.as_str());
                r.fatal(m);
                Vec::new()
            },
            Ok((st, c)) => {
                if c as u64 != n as u64 {
                    let mut m = string_of("state stream consumes ");
                    push_decimal(&mut m, c as u64);
                    push_str(&mut m, " of ");
                    push_decimal(&mut m, n as u64);
                    push_str(&mut m, " trailer bytes");
                    r.warn(m);
                }
                st
            },
        }
    } else {
        copy_range(blob, 0, blob.len())
    };
    proof {
        assert(blob@.subrange(0, blob@.len() as int) =~= blob@);
    }
    let ghost mid = r@;
    if state.len() > 0 || n == 0 {
        state_checks(state.as_slice(), r);
    }
    proof {
        assert(r@ =~= old(r)@ + blob_issues(data@, n as int));
    }
}

/// Rules of the Serum2 importer. Returns `false` when the file is too
/// malformed to continue (the report already carries the fatals); the
/// structural checks are skipped in that case.
fn check_importer_rules(data: &[u8], r: &mut ValidationReport) -> (go_on: bool)
    ensures
        ({
            let (iss, go) = importer_issues_after(no_fatal(old(r)@), data@);
            &&& final(r)@ == old(r)@ + iss
            &&& go_on == go
        }),
{
    let ghost prior = r@;
    let len = data.len();
    if len < 0x3D {
        let mut m = string_of("file too small (");
        push_decimal(&mut m, len as u64);
        push_str(&mut m, " bytes, need >= 61)");
        r.fatal(m);
        assert(r@ =~= prior + seq![(Severity::Fatal, msg_file_small(len as nat))]);
        return false;
    }
    if !has_at(data, 0, ccnk_tag().as_slice()) {
        r.fatal(string_of("missing \"CcnK\" magic at offset 0"));
        assert(r@ =~= prior + seq![(Severity::Fatal, msg_no_ccnk())]);
        return false;
    }
    let ghost v_spec = be_u32(data@, 0x38);
    if !has_at(data, 0x10, xfs_tag().as_slice()) {
        let mut m = string_of("fxProgramID at 0x10 is ");
        push_byte_list(&mut m, slice_subrange(data, 0x10, 0x14));
        push_str(&mut m, ", expected \"XfsX\"");
        r.fatal(m);
    }
    let v = read_u32_be(data, 0x38);
    if v < 0x28 {
        let mut m = string_of("chunkSize ");
        push_decimal(&mut m, v as u64);
        push_str(&mut m, " below the minimum of 40");
        r.fatal(m);
    }
    if v > 0x4000_0000 {
        let mut m = string_of("chunkSize ");
        push_decimal(&mut m, v as u64);
        push_str(&mut m, " above the maximum of 0x40000000");
        r.fatal(m);
    }
    if v as u64 + 0x3C > len as u64 {
        let mut m = string_of("chunkSize ");
        push_decimal(&mut m, v as u64);
        push_str(&mut m, " overruns the file (");
        push_decimal(&mut m, len as u64);
        push_str(&mut m, " bytes)");
        r.fatal(m);
    }
    let ghost head = r@.subrange(prior.len() as int, r@.len() as int);
    proof {
        assert(r@ =~= prior + head);
        assert(head.len() > 0 ==> head[0].0 == Severity::Fatal);
        lemma_no_fatal_concat(prior, head);
        if head.len() > 0 {
            assert(!no_fatal(head));
        }
    }
    if r.is_ok() {
        let off = 0x38 + v as usize;
        let n = read_u32_le(data, off);
        if n < 1 {
            r.fatal(string_of("trailer state length is 0"));
        }
        if n > 0xF_FFFF {
            let mut m = string_of("trailer state length ");
            push_decimal(&mut m, n as u64);
            push_str(&mut m, " above the import cap 0xFFFFF");
            r.fatal(m);
        }
        assert(n >> 24u32 == n / 16777216) by (bit_vector);
        if n >> 24 > 3 {
            r.fatal(string_of("trailer state length has an out-of-range top byte"));
        }
        let ghost tail = r@.subrange(prior.len() as int, r@.len() as int);
        proof {
            assert(r@ =~= prior + tail);
            assert(tail =~= trailer_issues(n as int));
            assert(tail.len() > 0 ==> tail[0].0 == Severity::Fatal);
            lemma_no_fatal_concat(prior, tail);
            if tail.len() > 0 {
                assert(!no_fatal(tail));
            }
        }
        if r.is_ok() {
            blob_checks(data, n, r);
            assert(r@ =~= prior + blob_issues(data@, n as int));
        }
    }
    true
}

/// A report is free of fatals exactly when both of its parts are.
proof fn lemma_no_fatal_concat(a: Seq<(Severity, Seq<char>)>, b: Seq<(Severity, Seq<char>)>)
    ensures
        no_fatal(a + b) <==> no_fatal(a) && no_fatal(b),
{
    if no_fatal(a + b) {
        assert forall|i: int| 0 <= i < a.len() implies a[i].0 != Severity::Fatal by {
            assert((a + b)[i] == a[i]);
        }
        assert forall|i: int| 0 <= i < b.len() implies b[i].0 != Severity::Fatal by {
            assert((a + b)[a.len() + i] == b[i]);
        }
    }
    if no_fatal(a) && no_fatal(b) {
        assert forall|i: int| 0 <= i < (a + b).len() implies (a + b)[i].0 != Severity::Fatal by {
            if i < a.len() {
                assert((a + b)[i] == a[i]);
            } else {
                assert((a + b)[i] == b[i - a.len()]);
            }
        }
    }
}

fn check_structure(data: &[u8], r: &mut ValidationReport)
    requires
        data@.len() >= 0x3D,
    ensures
        final(r)@ == old(r)@ + structure_issues(data@),
{
    let len = data.len();
    let byte_size = read_u32_be(data, 4) as usize;
    if byte_size != len {
        let mut m = string_of("byteSize ");
        push_decimal(&mut m, byte_size as u64);
        push_str(&mut m, " != file length ");
        push_decimal(&mut m, len as u64);
        r.warn(m);
    }
    if !has_at(data, 8, fpch_tag().as_slice()) {
        let mut m = string_of("fxMagic is ");
        push_byte_list(&mut m, slice_subrange(data, 8, 12));
        push_str(&mut m, ", genuine files use \"FPCh\"");
        r.warn(m);
    }
    let v2 = read_u32_be(data, 0x38) as u64;
    if 0x3C + v2 != len as u64 {
        let mut m = string_of("file has ");
        push_decimal(&mut m, len as u64);
        push_str(&mut m, " bytes but header implies ");
        push_decimal(&mut m, 0x3C + v2);
        r.warn(m);
    }
    assert(r@ =~= old(r)@ + structure_issues(data@));
}

/// Validate an fxp against the checks the Serum2 importer performs.
///
/// A file with no [`Severity::Fatal`] issue is accepted by the importer's
/// code path.
pub fn validate_fxp(data: &[u8]) -> (r: ValidationReport)
    ensures
        r@ == validate_spec(data@),
{
    let mut r = ValidationReport::default();
    if !check_importer_rules(data, &mut r) {
        return r;
    }
    check_structure(data, &mut r);
    r
}

/// Validate a bare chunk (zlib streams + trailer) against the Serum2 rules
/// by round-tripping it through the fxp container.
pub fn validate_chunk_report(chunk: &[u8]) -> (r: ValidationReport)
    ensures
        r@ == validate_spec(fxp_bytes(chunk@, Seq::empty())),
{
    proof {
        reveal_strlit("");
        assert(encode_utf8(""@) =~= Seq::<u8>::empty());
    }
    validate_fxp(build_fxp(chunk, "").as_slice())
}

// ---------------------------------------------------------------------------
// Patching metadata
/// One metadata field to rewrite in a Serum preset.
///
/// `Name` goes to BOTH the fxp header's `prgName` (28 B) and the state
/// blob's 32-byte field at 0x4972; `Author`/`Category` live only in the
/// state blob (48 B each at 0x49A0 / 0x49D0).
#[derive(Debug, Clone, PartialEq, Eq)]
pub enum PatchField {
    Name(String),
    Author(String),
    Category(String),
}

/// Where a patch writes inside the decompressed state, the field width,
/// and the bytes it writes.
pub open spec fn patch_target(p: PatchField) -> (int, int, Seq<u8>) {
    match p {
        PatchField::Name(s) => (OFF_PRESET_NAME as int, 32, field_bytes(encode_utf8(s@), 32)),
        PatchField::Author(s) => (OFF_AUTHOR as int, 48, field_bytes(encode_utf8(s@), 48)),
        PatchField::Category(s) => (OFF_CATEGORY as int, 48, field_bytes(encode_utf8(s@), 48)),
    }
}

pub open spec fn msg_field_no_fit(len: nat, off: int, flen: int) -> Seq<char> {
    "decompressed state is "@ + decimal(len) + " bytes; the field at "@ + hex_prefixed(
        off as nat,
    ) + "+"@ + decimal(flen as nat) + " does not fit"@
}

/// The patches applied to a decompressed state in order; the first field
/// that does not fit inside the state is an error.
pub open spec fn apply_patches(state: Seq<u8>, ps: Seq<PatchField>) -> Result<Seq<u8>, Seq<char>>
    decreases ps.len(),
{
    if ps.len() == 0 {
        Ok(state)
    } else {
        match apply_patches(state, ps.drop_last()) {
            Err(e) => Err(e),
            Ok(st) => {
                let (off, flen, bytes) = patch_target(ps.last());
                if off + flen > st.len() {
                    Err(msg_field_no_fit(st.len(), off, flen))
                } else {
                    Ok(st.subrange(0, off) + bytes + st.subrange(off + flen, st.len() as int))
                }
            },
        }
    }
}

/// One more patch on top of a successful prefix.
pub proof fn lemma_apply_step(state: Seq<u8>, ps: Seq<PatchField>, i: int, st: Seq<u8>)
    requires
        0 <= i < ps.len(),
        apply_patches(state, ps.take(i)) == Ok::<Seq<u8>, Seq<char>>(st),
    ensures
        ({
            let (off, flen, bytes) = patch_target(ps[i]);
            apply_patches(state, ps.take(i + 1)) == if off + flen > st.len() {
                Err::<Seq<u8>, Seq<char>>(msg_field_no_fit(st.len(), off, flen))
            } else {
                Ok(st.subrange(0, off) + bytes + st.subrange(off + flen, st.len() as int))
            }
        }),
{
    assert(ps.take(i + 1).drop_last() =~= ps.take(i));
    assert(ps.take(i + 1).last() == ps[i]);
}

/// Patches keep the state's length.
pub proof fn lemma_apply_len(state: Seq<u8>, ps: Seq<PatchField>)
    ensures
        apply_patches(state, ps) matches Ok(st) ==> st.len() == state.len(),
    decreases ps.len(),
{
    if ps.len() > 0 {
        lemma_apply_len(state, ps.drop_last());
        match apply_patches(state, ps.drop_last()) {
            Ok(st) => {
                let (off, flen, bytes) = patch_target(ps.last());
                lemma_field_bytes_len(encode_utf8(
                    match ps.last() {
                        PatchField::Name(s) => s@,
                        PatchField::Author(s) => s@,
                        PatchField::Category(s) => s@,
                    },
                ), flen);
            },
            Err(_) => {},
        }
    }
}

pub proof fn lemma_apply_err_extends(state: Seq<u8>, ps: Seq<PatchField>, k: int)
    requires
        0 <= k <= ps.len(),
        apply_patches(state, ps.take(k)) is Err,
    ensures
        apply_patches(state, ps) == apply_patches(state, ps.take(k)),
    decreases ps.len() - k,
{
    if k < ps.len() {
        assert(ps.take(k + 1).drop_last() =~= ps.take(k));
        lemma_apply_err_extends(state, ps, k + 1);
    } else {
        assert(ps.take(k) =~= ps);
    }
}

/// Patching a bare chunk: stream 0 inflated (its compressed size given by
/// the trailer), the patches applied, recompressed at zlib level 1; the
/// other streams kept verbatim and the trailer rebuilt.
pub open spec fn patch_chunk_spec(chunk: Seq<u8>, ps: Seq<PatchField>) -> Result<Seq<u8>, Seq<char>> {
    if ps.len() == 0 {
        Ok(chunk)
    } else if chunk.len() < 12 {
        Err("chunk too small to hold a state stream and trailer"@)
    } else {
        let trailer = le_u32(chunk, chunk.len() - 4);
        if trailer < 1 || trailer > chunk.len() - 4 {
            Err("chunk trailer "@ + decimal(trailer as nat) + " does not describe a stream-0 length"@)
        } else if chunk[0] != 0x78 {
            Err("chunk does not start with a zlib stream"@)
        } else {
            match inflate_spec(chunk.subrange(0, trailer), MAX_STREAM as nat) {
                Err(e) => Err(e),
                Ok((state, consumed)) => if consumed != trailer {
                    Err(
                        "chunk trailer ("@ + decimal(trailer as nat)
                            + ") does not match stream 0's compressed size ("@ + decimal(consumed)
                            + ")"@,
                    )
                } else {
                    match apply_patches(state, ps) {
                        Err(e) => Err(e),
                        Ok(st) => match zlib_level1_encode(st) {
                            Err(e) => Err("zlib compression failed: "@ + e),
                            Ok(z0) => Ok(
                                z0 + chunk.subrange(trailer, chunk.len() - 4) + le_bytes32(
                                    z0.len() as int % 0x1_0000_0000,
                                ),
                            ),
                        },
                    }
                },
            }
        }
    }
}

/// The state stream 0 of `chunk` holds (its compressed size given by the
/// trailer), with the patches applied.
pub open spec fn patched_state(chunk: Seq<u8>, ps: Seq<PatchField>) -> Option<Seq<u8>> {
    if chunk.len() < 4 {
        None
    } else {
        let trailer = le_u32(chunk, chunk.len() - 4);
        match inflate_spec(chunk.subrange(0, trailer), MAX_STREAM as nat) {
            Ok((state, _)) => match apply_patches(state, ps) {
                Ok(st) => Some(st),
                Err(_) => None,
            },
            Err(_) => None,
        }
    }
}

/// `out` is a chunk whose trailer gives the compressed size of its first
/// stream, and that stream inflates to `st`.
pub open spec fn chunk_reads_back(out: Seq<u8>, st: Seq<u8>) -> bool {
    out.len() >= 4 && out.len() < 0x1_0000_0000 && {
        let z = le_u32(out, out.len() - 4);
        &&& 1 <= z <= out.len() - 4
        &&& inflate_spec(out.subrange(0, z), MAX_STREAM as nat) == Ok::<(Seq<u8>, nat), Seq<char>>(
            (st, z as nat),
        )
    }
}

fn patch_bytes(p: &PatchField) -> (r: (usize, usize, Vec<u8>))
    ensures
        (r.0 as int, r.1 as int, r.2@) == patch_target(*p),
        r.2@.len() == r.1,
{
    match p {
        PatchField::Name(s) => (OFF_PRESET_NAME, 32, encode_field(s.as_str(), 32)),
        PatchField::Author(s) => (OFF_AUTHOR, 48, encode_field(s.as_str(), 48)),
        PatchField::Category(s) => (OFF_CATEGORY, 48, encode_field(s.as_str(), 48)),
    }
}

fn field_no_fit(len: usize, off: usize, flen: usize) -> (m: String)
    ensures
        m@ == msg_field_no_fit(len as nat, off as int, flen as int),
{
    let mut m = string_of("decompressed state is ");
    push_decimal(&mut m, len as u64);
    push_str(&mut m, " bytes; the field at ");
    push_hex_prefixed(&mut m, off as u64);
    push_str(&mut m, "+");
    push_decimal(&mut m, flen as u64);
    push_str(&mut m, " does not fit");
    m
}

/// Rewrite metadata inside a bare Serum chunk (`[streams...][u32 LE trailer]`,
/// the fxp `chunk` region): inflate stream 0, overwrite the target fields,
/// recompress at zlib level 1, keep every other stream verbatim and rebuild
/// the trailer as the new stream-0 length. `Name` here only touches the
/// 32-byte state field (no fxp header exists in a bare chunk).
pub fn patch_chunk_fields(chunk: &[u8], patches: &[PatchField]) -> (r: Result<Vec<u8>, String>)
    ensures
        match (r, patch_chunk_spec(chunk@, patches@)) {
            (Ok(a), Ok(b)) => a@ == b,
            (Err(a), Err(b)) => a@ == b,
            _ => false,
        },
        r matches Ok(out) ==> (patches@.len() > 0 && out@.len() < 0x1_0000_0000 ==> (
        patched_state(chunk@, patches@) matches Some(st) && chunk_reads_back(out@, st))),
        r matches Ok(out) ==> (patches@.len() > 0 ==> {
            &&& out@.len() >= 6
            &&& out@[0] == 0x78
            &&& out@[1] == 0x01
            &&& out@.len() < 0x1_0000_0000 ==> out@.subrange(
                le_u32(out@, out@.len() - 4),
                out@.len() - 4,
            ) == chunk@.subrange(le_u32(chunk@, chunk@.len() - 4), chunk@.len() - 4)
        }),
{
    let len = chunk.len();
    if patches.len() == 0 {
        let out = copy_range(chunk, 0, len);
        assert(chunk@.subrange(0, len as int) =~= chunk@);
        return Ok(out);
    }
    if len < 12 {
        return Err(string_of("chunk too small to hold a state stream and trailer"));
    }
    let trailer = read_u32_le(chunk, len - 4) as usize;
    if trailer < 1 || trailer > len - 4 {
        let mut m = string_of("chunk trailer ");
        push_decimal(&mut m, trailer as u64);
        push_str(&mut m, " does not describe a stream-0 length");
        return Err(m);
    }
    if chunk[0] != 0x78 {
        return Err(string_of("chunk does not start with a zlib stream"));
    }
    let (mut state, consumed) = match inflate(slice_subrange(chunk, 0, trailer), MAX_STREAM) {
        Ok(x) => x,
        Err(e) => return Err(e),
    };
    if consumed != trailer {
        let mut m = string_of("chunk trailer (");
        push_decimal(&mut m, trailer as u64);
        push_str(&mut m, ") does not match stream 0's compressed size (");
        push_decimal(&mut m, consumed as u64);
        push_str(&mut m, ")");
        return Err(m);
    }
    let ghost state0 = state@;
    let mut i: usize = 0;

    proof {
        assert(patches@.take(0) =~= Seq::<PatchField>::empty());
    }
    while i < patches.len()
        invariant
            i <= patches@.len(),
            patches@.len() > 0,
            len == chunk@.len() >= 12,
            trailer == le_u32(chunk@, len - 4),
            1 <= trailer <= len - 4,
            chunk@[0] == 0x78,
            inflate_spec(chunk@.subrange(0, trailer as int), MAX_STREAM as nat) == Ok::<
                (Seq<u8>, nat),
                Seq<char>,
            >((state0, trailer as nat)),
            apply_patches(state0, patches@.take(i as int)) == Ok::<Seq<u8>, Seq<char>>(state@),
        decreases patches.len() - i,
    {
        let (off, flen, bytes) = patch_bytes(&patches[i]);
        proof {
            lemma_apply_step(state0, patches@, i as int, state@);
        }
        if off + flen > state.len() {
            let m = field_no_fit(state.len(), off, flen);
            proof {
                lemma_apply_err_extends(state0, patches@, i + 1);
            }
            return Err(m);
        }
        overwrite(&mut state, off, bytes.as_slice());
        i += 1;
    }
    proof {
        assert(patches@.take(patches@.len() as int) =~= patches@);
    }
    let z0 = match deflate_zlib_level1(state.as_slice()) {
        Ok(z) => z,
        Err(e) => {
            let mut m = string_of("zlib compression failed: ");
            push_str(&mut m, e.as_str());
            return Err(m);
        },
    };
    let mut out: Vec<u8> = Vec::new();
    extend_from(&mut out, z0.as_slice());
    extend_from(&mut out, slice_subrange(chunk, trailer, len - 4));
    let ghost before_trailer = out@;
    push_u32_le(&mut out, (z0.len() as u64 % 4294967296) as u32);
    proof {
        lemma_apply_len(state0, patches@);
        if out@.len() < 0x1_0000_0000 {
            assert(out@.subrange(out@.len() - 4, out@.len() as int) =~= le_bytes32(
                z0@.len() as int,
            ));
            lemma_le_field(out@, out@.len() - 4, z0@.len() as int);
            assert(out@.subrange(0, z0@.len() as int) =~= z0@);
            assert(out@.subrange(z0@.len() as int, out@.len() - 4) =~= chunk@.subrange(
                trailer as int,
                chunk@.len() - 4,
            ));
        }
    }
    Ok(out)
}

/// The text of the last `Name` patch, if any.
pub open spec fn last_name(ps: Seq<PatchField>) -> Option<Seq<char>>
    decreases ps.len(),
{
    if ps.len() == 0 {
        None
    } else {
        match ps.last() {
            PatchField::Name(s) => Some(s@),
            _ => last_name(ps.drop_last()),
        }
    }
}

/// Whether state offset `i` lies in one of the patchable fields (name,
/// author, category).
pub open spec fn in_patch_field(i: int) -> bool {
    ||| OFF_PRESET_NAME <= i < OFF_PRESET_NAME + 32
    ||| OFF_AUTHOR <= i < OFF_AUTHOR + 48
    ||| OFF_CATEGORY <= i < OFF_CATEGORY + 48
}

/// Patching touches nothing but the patched fields: the state keeps its
/// length, every byte outside the name, author and category fields keeps
/// its value, and the name field holds the last name written (or is kept).
pub proof fn lemma_patch_only_fields(state: Seq<u8>, ps: Seq<PatchField>)
    requires
        apply_patches(state, ps) is Ok,
    ensures
        ({
            let st = apply_patches(state, ps)->Ok_0;
            &&& st.len() == state.len()
            &&& forall|i: int| 0 <= i < state.len() && !in_patch_field(i) ==> #[trigger] st[i] == state[i]
            &&& st.subrange(OFF_PRESET_NAME as int, OFF_PRESET_NAME + 32) == match last_name(ps) {
                Some(n) => field_bytes(encode_utf8(n), 32),
                None => state.subrange(OFF_PRESET_NAME as int, OFF_PRESET_NAME + 32),
            }
        }),
    decreases ps.len(),
{
    if ps.len() > 0 {
        let prev = apply_patches(state, ps.drop_last());
        assert(prev is Ok);
        lemma_patch_only_fields(state, ps.drop_last());
        let s0 = prev->Ok_0;
        let (off, flen, bytes) = patch_target(ps.last());
        lemma_field_bytes_len(encode_utf8(
            match ps.last() {
                PatchField::Name(x) => x@,
                PatchField::Author(x) => x@,
                PatchField::Category(x) => x@,
            },
        ), flen);
        assert(bytes.len() == flen);
        let st = s0.subrange(0, off) + bytes + s0.subrange(off + flen, s0.len() as int);
        assert(apply_patches(state, ps)->Ok_0 == st);
        assert forall|i: int| 0 <= i < state.len() && !in_patch_field(i) implies #[trigger] st[i] == state[i] by {
            if i < off {
                assert(st[i] == s0[i]);
            } else {
                assert(i >= off + flen);
                assert(st[i] == s0[i]);
            }
        }
        let lo = OFF_PRESET_NAME as int;
        match ps.last() {
            PatchField::Name(_) => {
                assert(st.subrange(lo, lo + 32) =~= bytes);
            },
            _ => {
                assert(st.subrange(lo, lo + 32) =~= s0.subrange(lo, lo + 32));
            },
        }
    }
}

pub(crate) fn find_last_name(patches: &[PatchField]) -> (r: Option<&String>)
    ensures
        match (r, last_name(patches@)) {
            (Some(a), Some(b)) => a@ == b,
            (None, None) => true,
            _ => false,
        },
{
    let mut i = patches.len();
    proof {
        assert(patches@.take(i as int) =~= patches@);
    }
    while i > 0
        invariant
            i <= patches@.len(),
            last_name(patches@) == last_name(patches@.take(i as int)),
        decreases i,
    {
        proof {
            assert(patches@.take(i as int).drop_last() =~= patches@.take(i - 1));
            assert(patches@.take(i as int).last() == patches@[i - 1]);
        }
        if let PatchField::Name(s) = &patches[i - 1] {
            return Some(s);
        }
        i -= 1;
    }
    None
}

pub open spec fn msg_chunk_size_bad(v: nat, len: nat) -> Seq<char> {
    "chunkSize "@ + decimal(v) + " does not describe the file ("@ + decimal(len) + " bytes)"@
}

/// Patching a complete `.fxp`: the file afterwards, and the outcome. The
/// header name mirror is written before the chunk is patched, so it stays
/// when patching the chunk fails.
pub open spec fn patch_metadata_spec(fxp: Seq<u8>, ps: Seq<PatchField>) -> (
    Seq<u8>,
    Result<(), Seq<char>>,
) {
    let len = fxp.len();
    if ps.len() == 0 {
        (fxp, Ok(()))
    } else if len < 0x3D {
        (fxp, Err(msg_file_small(len)))
    } else if fxp.subrange(0, 4) != tag_ccnk() {
        (fxp, Err(msg_no_ccnk()))
    } else {
        let v = be_u32(fxp, 0x38);
        if v < 0x28 || 0x38 + v + 4 > len {
            (fxp, Err(msg_chunk_size_bad(v as nat, len)))
        } else {
            patch_sound_spec(fxp, ps)
        }
    }
}

/// [`patch_metadata_spec`] on a container whose header checks passed.
pub open spec fn patch_sound_spec(fxp: Seq<u8>, ps: Seq<PatchField>) -> (
    Seq<u8>,
    Result<(), Seq<char>>,
) {
    let v = be_u32(fxp, 0x38);
    let named = match last_name(ps) {
        Some(n) => fxp.subrange(0, 0x1C) + field_bytes(encode_utf8(n), 28) + fxp.subrange(
            0x38,
            fxp.len() as int,
        ),
        None => fxp,
    };
    match patch_chunk_spec(fxp.subrange(0x3C, 0x38 + v + 4), ps) {
        Err(e) => (named, Err(e)),
        Ok(nc) => (
            named.subrange(0, 4) + be_bytes32((0x3Cint + nc.len()) % 0x1_0000_0000)
                + named.subrange(8, 0x38) + be_bytes32(nc.len() as int % 0x1_0000_0000) + nc,
            Ok(()),
        ),
    }
}

/// Patch metadata in a complete `.fxp` file, in place in the buffer.
///
/// The container is validated first (errors on malformed input). A
/// [`PatchField::Name`] is mirrored into the header's 28-byte `prgName` at
/// 0x1C (truncated at 27 bytes on a UTF-8 boundary, NUL-padded) AND into the
/// state blob (see [`patch_chunk_fields`]); every patch recompresses stream 0
/// at zlib level 1 and rebuilds the chunk + trailer, then fixes `chunkSize`
/// (0x38, BE) and `byteSize` (0x04, BE = file length). No other bytes are
/// touched.
pub fn patch_metadata(fxp: &mut Vec<u8>, patches: &[PatchField]) -> (r: Result<(), String>)
    ensures
        ({
            let (after, outcome) = patch_metadata_spec(old(fxp)@, patches@);
            &&& final(fxp)@ == after
            &&& match (r, outcome) {
                (Ok(_), Ok(_)) => true,
                (Err(a), Err(b)) => a@ == b,
                _ => false,
            }
        }),
        r is Ok && patches@.len() > 0 && final(fxp)@.len() < 0x1_0000_0000 ==> fxp_patch_reads_back(
            old(fxp)@,
            patches@,
            final(fxp)@,
        ),
{
    if patches.len() == 0 {
        return Ok(());
    }
    let len = fxp.len();
    if len < 0x3D {
        let mut m = string_of("file too small (");
        push_decimal(&mut m, len as u64);
        push_str(&mut m, " bytes, need >= 61)");
        return Err(m);
    }
    if !has_at(fxp.as_slice(), 0, ccnk_tag().as_slice()) {
        return Err(string_of("missing \"CcnK\" magic at offset 0"));
    }
    let v = read_u32_be(fxp.as_slice(), 0x38) as usize;
    if v < 0x28 || v > len - 0x3C {
        let mut m = string_of("chunkSize ");
        push_decimal(&mut m, v as u64);
        push_str(&mut m, " does not describe the file (");
        push_decimal(&mut m, len as u64);
        push_str(&mut m, " bytes)");
        return Err(m);
    }
    patch_sound(fxp, patches, v)
}

#[verifier::spinoff_prover]
fn patch_sound(fxp: &mut Vec<u8>, patches: &[PatchField], v: usize) -> (r: Result<(), String>)
    requires
        patches@.len() > 0,
        old(fxp)@.len() >= 0x3D,
        old(fxp)@.subrange(0, 4) == tag_ccnk(),
        v == be_u32(old(fxp)@, 0x38),
        0x28 <= v,
        0x38 + v + 4 <= old(fxp)@.len(),
    ensures
        ({
            let (after, outcome) = patch_sound_spec(old(fxp)@, patches@);
            &&& final(fxp)@ == after
            &&& match (r, outcome) {
                (Ok(_), Ok(_)) => true,
                (Err(a), Err(b)) => a@ == b,
                _ => false,
            }
        }),
        r is Ok && final(fxp)@.len() < 0x1_0000_0000 ==> fxp_patch_reads_back(
            old(fxp)@,
            patches@,
            final(fxp)@,
        ),
{
    let _flen = fxp.len();
    let ghost orig = fxp@;
    write_name_mirror(fxp, patches);
    proof {
        match last_name(patches@) {
            Some(n) => {
                lemma_field_bytes_len(encode_utf8(n), 28);
            },
            None => {},
        }
        assert(fxp@.subrange(0x3C, 0x38 + v + 4) =~= orig.subrange(0x3C, 0x38 + v + 4));
    }
    // State blob patches: rebuild the chunk region.
    let chunk = copy_range(fxp.as_slice(), 0x3C, 0x38 + v + 4);
    let new_chunk = match patch_chunk_fields(chunk.as_slice(), patches) {
        Ok(c) => c,
        Err(e) => return Err(e),
    };
    let ghost named = fxp@;
    replace_chunk(fxp, new_chunk.as_slice());
    proof {
        if fxp@.len() < 0x1_0000_0000 {
            lemma_patch_reads_back(orig, patches@, named, new_chunk@);
        }
    }
    Ok(())
}

/// Header prgName mirror: the last `Name` patch wins.
fn write_name_mirror(fxp: &mut Vec<u8>, patches: &[PatchField])
    requires
        old(fxp)@.len() >= 0x3C,
    ensures
        final(fxp)@ == match last_name(patches@) {
            Some(n) => old(fxp)@.subrange(0, 0x1C) + field_bytes(encode_utf8(n), 28) + old(
                fxp,
            )@.subrange(0x38, old(fxp)@.len() as int),
            None => old(fxp)@,
        },
{
    if let Some(name) = find_last_name(patches) {
        let encoded = encode_field(name.as_str(), 28);
        overwrite(fxp, 0x1C, encoded.as_slice());
    }
}

#[verifier::spinoff_prover]
#[verifier::rlimit(60)]
proof fn lemma_patch_reads_back(orig: Seq<u8>, ps: Seq<PatchField>, named: Seq<u8>, nc: Seq<u8>)
    requires
        orig.len() >= 0x3D,
        orig.subrange(0, 4) == tag_ccnk(),
        0x38 + be_u32(orig, 0x38) + 4 <= orig.len(),
        named == match last_name(ps) {
            Some(n) => orig.subrange(0, 0x1C) + field_bytes(encode_utf8(n), 28) + orig.subrange(
                0x38,
                orig.len() as int,
            ),
            None => orig,
        },
        patched_state(orig.subrange(0x3C, 0x38 + be_u32(orig, 0x38) + 4), ps) matches Some(st)
            && chunk_reads_back(nc, st),
        0x3C + nc.len() < 0x1_0000_0000,
    ensures
        fxp_patch_reads_back(
            orig,
            ps,
            named.subrange(0, 4) + be_bytes32((0x3Cint + nc.len()) % 0x1_0000_0000)
                + named.subrange(8, 0x38) + be_bytes32(nc.len() as int % 0x1_0000_0000) + nc,
        ),
{
    let out = named.subrange(0, 4) + be_bytes32((0x3Cint + nc.len()) % 0x1_0000_0000)
        + named.subrange(8, 0x38) + be_bytes32(nc.len() as int % 0x1_0000_0000) + nc;
    let st = patched_state(orig.subrange(0x3C, 0x38 + be_u32(orig, 0x38) + 4), ps)->Some_0;
    lemma_field_bytes_len(
        match last_name(ps) {
            Some(n) => encode_utf8(n),
            None => Seq::empty(),
        },
        28,
    );
    assert(named.len() == orig.len());
    assert(named.subrange(0, 4) =~= orig.subrange(0, 4));
    lemma_replaced_reads_back(named, nc, st);
    assert(out.subrange(8, 0x1C) =~= named.subrange(8, 0x1C));
    assert(named.subrange(8, 0x1C) =~= orig.subrange(8, 0x1C));
    assert(out.subrange(0x1C, 0x38) =~= named.subrange(0x1C, 0x38));
    assert(named.subrange(0x1C, 0x38) =~= match last_name(ps) {
        Some(n) => field_bytes(encode_utf8(n), 28),
        None => orig.subrange(0x1C, 0x38),
    });
}

/// After a successful patch: both size fields describe the file, the
/// header outside the name field is kept, the name field holds the last
/// `Name` patch (or is kept), and inflating the preset state out of the
/// file gives the old state with the patches applied.
pub open spec fn fxp_patch_reads_back(before: Seq<u8>, ps: Seq<PatchField>, after: Seq<u8>) -> bool {
    &&& be_u32(after, 4) == after.len()
    &&& be_u32(after, 0x38) == after.len() - 0x3C
    &&& after.subrange(0, 4) == before.subrange(0, 4)
    &&& after.subrange(8, 0x1C) == before.subrange(8, 0x1C)
    &&& after.subrange(0x1C, 0x38) == match last_name(ps) {
        Some(n) => field_bytes(encode_utf8(n), 28),
        None => before.subrange(0x1C, 0x38),
    }
    &&& patched_state(before.subrange(0x3C, 0x38 + be_u32(before, 0x38) + 4), ps) matches Some(st)
        && inflate_state_spec(after) matches Ok((s, _)) && s == st
}

#[verifier::spinoff_prover]
#[verifier::rlimit(60)]
proof fn lemma_replaced_reads_back(named: Seq<u8>, nc: Seq<u8>, st: Seq<u8>)
    requires
        named.len() >= 0x3C,
        named.subrange(0, 4) == tag_ccnk(),
        chunk_reads_back(nc, st),
        0x3C + nc.len() < 0x1_0000_0000,
    ensures
        ({
            let out = named.subrange(0, 4) + be_bytes32((0x3Cint + nc.len()) % 0x1_0000_0000)
                + named.subrange(8, 0x38) + be_bytes32(nc.len() as int % 0x1_0000_0000) + nc;
            &&& be_u32(out, 4) == out.len()
            &&& be_u32(out, 0x38) == nc.len()
            &&& out.subrange(0, 4) == named.subrange(0, 4)
            &&& inflate_state_spec(out) == Ok::<(Seq<u8>, nat), Seq<char>>(
                (st, le_u32(nc, nc.len() - 4) as nat),
            )
        }),
{
    let out = named.subrange(0, 4) + be_bytes32((0x3Cint + nc.len()) % 0x1_0000_0000)
        + named.subrange(8, 0x38) + be_bytes32(nc.len() as int % 0x1_0000_0000) + nc;
    let a = be_bytes32((0x3Cint + nc.len()) % 0x1_0000_0000);
    let c = be_bytes32(nc.len() as int % 0x1_0000_0000);
    assert(read_limit(MAX_STREAM as nat) == MAX_STREAM + 1);
    assert(a.len() == 4 && c.len() == 4);
    assert(out.subrange(4, 8) =~= a);
    assert(out.subrange(0x38, 0x3C) =~= c);
    assert(out.subrange(0, 4) =~= named.subrange(0, 4));
    lemma_be_field(out, 4, 0x3Cint + nc.len());
    lemma_be_field(out, 0x38, nc.len() as int);
    let z = le_u32(nc, nc.len() - 4);
    assert(out.subrange(0x3C, out.len() as int) =~= nc);
    assert(le_u32(out, 0x38int + nc.len()) == z) by {
        let k = nc.len() - 4;
        assert(out[0x3C + k] == nc[k] && out[0x3C + k + 1] == nc[k + 1] && out[0x3C + k + 2]
            == nc[k + 2] && out[0x3C + k + 3] == nc[k + 3]);
    }
    assert(out.subrange(0x3C, 0x3C + z) =~= nc.subrange(0, z));
}

/// Replaces everything after the 60-byte header with `chunk` and fixes
/// `chunkSize` (0x38) and `byteSize` (0x04).
fn replace_chunk(fxp: &mut Vec<u8>, chunk: &[u8])
    requires
        old(fxp)@.len() >= 0x3C,
    ensures
        final(fxp)@ == old(fxp)@.subrange(0, 4) + be_bytes32((0x3Cint + chunk@.len()) % 0x1_0000_0000)
            + old(fxp)@.subrange(8, 0x38) + be_bytes32(chunk@.len() as int % 0x1_0000_0000)
            + chunk@,
{
    fxp.truncate(0x3C);
    extend_from(fxp, chunk);
    let total = fxp.len();
    set_u32_be(fxp, 0x38, (chunk.len() as u64 % 4294967296) as u32);
    set_u32_be(fxp, 4, (total as u64 % 4294967296) as u32);
    assert(fxp@ =~= old(fxp)@.subrange(0, 4) + be_bytes32((0x3Cint + chunk@.len()) % 0x1_0000_0000)
        + old(fxp)@.subrange(8, 0x38) + be_bytes32(chunk@.len() as int % 0x1_0000_0000) + chunk@);
}

/// Inflating the preset state out of a complete fxp file: the state and
/// the input bytes its stream consumed.
pub open spec fn inflate_state_spec(data: Seq<u8>) -> Result<(Seq<u8>, nat), Seq<char>> {
    if data.len() < 0x40 || data.subrange(0, 4) != tag_ccnk() {
        Err("not an fxp file"@)
    } else {
        let v = be_u32(data, 0x38);
        if 0x38 + v + 4 > data.len() {
            Err("chunkSize overruns file"@)
        } else {
            let n = le_u32(data, 0x38 + v);
            let end = if 0x3C + n < data.len() {
                0x3C + n
            } else {
                data.len() as int
            };
            inflate_spec(data.subrange(0x3C, end), MAX_STREAM as nat)
        }
    }
}

/// Inflate the preset state out of a complete fxp file.
pub fn inflate_state(data: &[u8]) -> (r: Result<(Vec<u8>, usize), String>)
    ensures
        match (r, inflate_state_spec(data@)) {
            (Ok(a), Ok(b)) => a.0@ == b.0 && a.1 == b.1,
            (Err(a), Err(b)) => a@ == b,
            _ => false,
        },
{
    let len = data.len();
    if len < 0x40 || !has_at(data, 0, ccnk_tag().as_slice()) {
        return Err(string_of("not an fxp file"));
    }
    let v = read_u32_be(data, 0x38) as usize;
    if v > len - 0x3C {
        return Err(string_of("chunkSize overruns file"));
    }
    let n = read_u32_le(data, 0x38 + v) as usize;
    let end = if n < len - 0x3C {
        0x3C + n
    } else {
        len
    };
    inflate(slice_subrange(data, 0x3C, end), MAX_STREAM)
}

} // verus!
