//! What the command-line commands compute between reading their inputs and
//! writing their outputs: the report entries of `list` and `extract`, the
//! `validate` verdict of one file, and the patch list of `patch`.

use vstd::prelude::*;
use crate::fxp::{
    fxp_bytes, messages_of, no_fatal, validate_chunk_report, validate_fxp, validate_spec, PatchField,
    Severity, ValidationIssue, ValidationReport,
};
use crate::report::{ExtractEntry, ExtractStatus, PresetEntry, ValidateInputReport};
use crate::scan::Instance;
use crate::serum::{SourceKind, OFF_PRESET_NAME};
use crate::strs::{
    decimal, lossy_chars, push_decimal, string_from_chars, string_of, trim, trim_chars, trim_end_k, trim_ws,
    utf8_lossy, Strip,
};
use vstd::slice::slice_subrange;

verus! {

broadcast use vstd::string::group_string_axioms;

/// The name a chunk source is reported under.
pub open spec fn source_name_spec(k: SourceKind) -> Seq<char> {
    match k {
        SourceKind::FlVst3Wrapper => "FlVst3Wrapper"@,
        SourceKind::RawZlib => "RawZlib"@,
        SourceKind::CcnKFxPreset => "CcnKFxPreset"@,
        SourceKind::VstWFxPreset => "VstWFxPreset"@,
    }
}

/// The name a chunk source is reported under (see [`source_name_spec`]).
pub fn source_name(k: SourceKind) -> (r: String)
    ensures
        r@ == source_name_spec(k),
{
    match k {
        SourceKind::FlVst3Wrapper => string_of("FlVst3Wrapper"),
        SourceKind::RawZlib => string_of("RawZlib"),
        SourceKind::CcnKFxPreset => string_of("CcnKFxPreset"),
        SourceKind::VstWFxPreset => string_of("VstWFxPreset"),
    }
}

pub open spec fn strings_view(v: Seq<String>) -> Seq<Seq<char>> {
    v.map_values(|s: String| s@)
}

/// Owned copies of borrowed messages, in order.
fn owned(v: &Vec<&str>) -> (r: Vec<String>)
    ensures
        strings_view(r@) == v@.map_values(|s: &str| s@),
{
    let mut r: Vec<String> = Vec::new();
    let mut i: usize = 0;
    while i < v.len()
        invariant
            i <= v@.len(),
            strings_view(r@) == v@.take(i as int).map_values(|s: &str| s@),
        decreases v.len() - i,
    {
        let ghost before = r@;
        let t = string_of(v[i]);
        r.push(t);
        assert(v@.take(i + 1) =~= v@.take(i as int).push(v@[i as int]));
        assert(strings_view(r@) =~= strings_view(before).push(v@[i as int]@));
        assert(strings_view(r@) =~= v@.take(i + 1).map_values(|s: &str| s@));
        i += 1;
    }
    assert(v@.take(v@.len() as int) =~= v@);
    r
}

/// The Serum2 verdict on a recovered chunk: the checks of the `.fxp` that
/// would be built from it.
pub open spec fn chunk_verdict(chunk: Seq<u8>) -> Seq<(Severity, Seq<char>)> {
    validate_spec(fxp_bytes(chunk, Seq::empty()))
}

/// The decompressed size of the first stream, 0 when there is none.
pub open spec fn first_size(s: Seq<usize>) -> int {
    if s.len() > 0 {
        s[0] as int
    } else {
        0
    }
}

fn first_or_zero(s: &Vec<usize>) -> (r: usize)
    ensures
        r as int == first_size(s@),
{
    if s.len() > 0 {
        s[0]
    } else {
        0
    }
}

/// The `list` entry of the `index`-th instance (zero-based; the report keeps
/// it modulo 2^32), with the chunk's content hash and whether an earlier
/// instance had the same chunk.
pub fn preset_entry(index: usize, inst: &Instance, hash: u64, duplicate: bool) -> (r: PresetEntry)
    ensures
        r.index as int == index as int % 0x1_0000_0000,
        r.channel == inst.channel,
        r.channel_name@ == inst.channel_name@,
        r.plugin_name@ == inst.plugin_name@,
        r.preset_name@ == inst.chunk.meta.preset_name@,
        r.author@ == inst.chunk.meta.author@,
        r.category@ == inst.chunk.meta.category@,
        r.version_f32_bits == inst.chunk.meta.version_f32_bits,
        r.state_bytes as int == first_size(inst.chunk.stream_sizes@),
        r.chunk_bytes == inst.chunk.chunk@.len(),
        r.source@ == source_name_spec(inst.chunk.source),
        r.duplicate == duplicate,
        r.content_hash@ == decimal(hash as nat),
        r.valid == no_fatal(chunk_verdict(inst.chunk.chunk@)),
        strings_view(r.warnings@) == messages_of(chunk_verdict(inst.chunk.chunk@), Severity::Warning),
        strings_view(r.errors@) == messages_of(chunk_verdict(inst.chunk.chunk@), Severity::Fatal),
{
    let report = validate_chunk_report(inst.chunk.chunk.as_slice());
    let mut content_hash = String::new();
    push_decimal(&mut content_hash, hash);
    let valid = report.is_ok();
    let warnings = owned(&report.warnings());
    let errors = owned(&report.fatals());
    PresetEntry {
        index: ((index as u64) % 0x1_0000_0000) as u32,
        channel: inst.channel,
        channel_name: inst.channel_name.clone(),
        plugin_name: inst.plugin_name.clone(),
        preset_name: inst.chunk.meta.preset_name.clone(),
        author: inst.chunk.meta.author.clone(),
        category: inst.chunk.meta.category.clone(),
        version_f32_bits: inst.chunk.meta.version_f32_bits,
        state_bytes: first_or_zero(&inst.chunk.stream_sizes),
        chunk_bytes: inst.chunk.chunk.len(),
        source: source_name(inst.chunk.source),
        duplicate,
        content_hash,
        valid,
        warnings,
        errors,
    }
}

/// The `extract` entry of the `index`-th instance (zero-based; kept modulo
/// 2^32), given the verdict on its chunk, what happened to it and the path
/// written.
pub fn extract_entry(
    index: usize,
    inst: &Instance,
    verdict: &ValidationReport,
    status: ExtractStatus,
    path: Option<String>,
) -> (r: ExtractEntry)
    ensures
        r.index as int == index as int % 0x1_0000_0000,
        r.channel == inst.channel,
        r.channel_name@ == inst.channel_name@,
        r.preset_name@ == inst.chunk.meta.preset_name@,
        r.author@ == inst.chunk.meta.author@,
        r.category@ == inst.chunk.meta.category@,
        r.version_f32_bits == inst.chunk.meta.version_f32_bits,
        r.state_bytes as int == first_size(inst.chunk.stream_sizes@),
        r.chunk_bytes == inst.chunk.chunk@.len(),
        r.source@ == source_name_spec(inst.chunk.source),
        r.status == status,
        r.path == path,
        r.valid == no_fatal(verdict@),
        strings_view(r.warnings@) == messages_of(verdict@, Severity::Warning),
        strings_view(r.errors@) == messages_of(verdict@, Severity::Fatal),
{
    let valid = verdict.is_ok();
    let warnings = owned(&verdict.warnings());
    let errors = owned(&verdict.fatals());
    ExtractEntry {
        index: ((index as u64) % 0x1_0000_0000) as u32,
        channel: inst.channel,
        channel_name: inst.channel_name.clone(),
        preset_name: inst.chunk.meta.preset_name.clone(),
        author: inst.chunk.meta.author.clone(),
        category: inst.chunk.meta.category.clone(),
        version_f32_bits: inst.chunk.meta.version_f32_bits,
        state_bytes: first_or_zero(&inst.chunk.stream_sizes),
        chunk_bytes: inst.chunk.chunk.len(),
        source: source_name(inst.chunk.source),
        status,
        path,
        valid,
        warnings,
        errors,
    }
}

/// The issue `validate` adds for a file not named `.fxp`.
pub open spec fn ext_message() -> Seq<char> {
    "file extension is not .fxp (Serum2 only offers the import for .fxp names)"@
}

/// The `validate` verdict on a file: the Serum2 import checks, plus a fatal
/// issue when the file is not named `.fxp`.
pub open spec fn named_verdict(data: Seq<u8>, ext_ok: bool) -> Seq<(Severity, Seq<char>)> {
    if ext_ok {
        validate_spec(data)
    } else {
        validate_spec(data).push((Severity::Fatal, ext_message()))
    }
}

/// Check a file the way `validate` does (see [`named_verdict`]).
pub fn validate_named(data: &[u8], ext_ok: bool) -> (r: ValidationReport)
    ensures
        r@ == named_verdict(data@, ext_ok),
{
    let mut report = validate_fxp(data);
    if !ext_ok {
        let ghost before = report@;
        report.issues.push(
            ValidationIssue {
                severity: Severity::Fatal,
                message: string_of("file extension is not .fxp (Serum2 only offers the import for .fxp names)"),
            },
        );
        assert(report@ =~= before.push((Severity::Fatal, ext_message())));
    }
    report
}

/// The preset name shown for a decompressed state, when the state reaches
/// past the name field's start: the 32-byte field decoded lossily, its
/// trailing NULs and then its surrounding whitespace trimmed (a NUL inside
/// the name stays).
pub open spec fn state_preset_name_spec(state: Seq<u8>) -> Option<Seq<char>> {
    if state.len() > OFF_PRESET_NAME {
        let end = if OFF_PRESET_NAME + 32 < state.len() {
            OFF_PRESET_NAME + 32
        } else {
            state.len() as int
        };
        Some(trim(trim_end_k(utf8_lossy(state.subrange(OFF_PRESET_NAME as int, end)), Strip::Nul)))
    } else {
        None
    }
}

/// The preset name of a decompressed state (see [`state_preset_name_spec`]).
/// A state that ends inside the name field is not accepted.
pub fn state_preset_name(state: &[u8]) -> (r: Option<String>)
    requires
        state@.len() > OFF_PRESET_NAME ==> state@.len() >= OFF_PRESET_NAME + 32,
    ensures
        match (r, state_preset_name_spec(state@)) {
            (Some(a), Some(b)) => a@ == b,
            (None, None) => true,
            _ => false,
        },
        state@.len() > OFF_PRESET_NAME && vstd::utf8::valid_utf8(
            state@.subrange(OFF_PRESET_NAME as int, OFF_PRESET_NAME + 32),
        ) ==> r is Some && r.unwrap()@ == trim(
            trim_end_k(
                vstd::utf8::decode_utf8(state@.subrange(OFF_PRESET_NAME as int, OFF_PRESET_NAME + 32)),
                Strip::Nul,
            ),
        ),
{
    if state.len() > OFF_PRESET_NAME {
        let field = slice_subrange(state, OFF_PRESET_NAME, OFF_PRESET_NAME + 32);
        let s = lossy_chars(field);
        let t = trim_chars(s.as_slice(), Strip::Nul, false, true);
        Some(string_from_chars(trim_ws(t.as_slice()).as_slice()))
    } else {
        None
    }
}

/// The `validate` entry of one file from its verdict and the preset name
/// read from it; the name is kept only for a valid file.
pub fn validate_input_report(input: String, verdict: &ValidationReport, preset_name: Option<String>) -> (r:
    ValidateInputReport)
    ensures
        r.input@ == input@,
        r.valid == no_fatal(verdict@),
        strings_view(r.errors@) == messages_of(verdict@, Severity::Fatal),
        strings_view(r.warnings@) == messages_of(verdict@, Severity::Warning),
        r.preset_name == (if no_fatal(verdict@) {
            preset_name
        } else {
            None
        }),
{
    let valid = verdict.is_ok();
    let errors = owned(&verdict.fatals());
    let warnings = owned(&verdict.warnings());
    ValidateInputReport {
        input,
        valid,
        errors,
        warnings,
        preset_name: if valid {
            preset_name
        } else {
            None
        },
    }
}

/// The patch list of `patch`: name, author and category, each when given,
/// in that order; an error when none is.
pub open spec fn patch_fields_spec(name: Option<Seq<char>>, author: Option<Seq<char>>, category: Option<Seq<char>>) -> Result<
    Seq<(u8, Seq<char>)>,
    Seq<char>,
> {
    let l = match name {
        Some(s) => seq![(0u8, s)],
        None => Seq::empty(),
    } + match author {
        Some(s) => seq![(1u8, s)],
        None => Seq::empty(),
    } + match category {
        Some(s) => seq![(2u8, s)],
        None => Seq::empty(),
    };
    if l.len() == 0 {
        Err("nothing to patch: pass --name and/or --author and/or --category"@)
    } else {
        Ok(l)
    }
}

/// A patch as its field (0 name, 1 author, 2 category) and text.
pub open spec fn patch_view(p: PatchField) -> (u8, Seq<char>) {
    match p {
        PatchField::Name(s) => (0u8, s@),
        PatchField::Author(s) => (1u8, s@),
        PatchField::Category(s) => (2u8, s@),
    }
}

pub open spec fn opt_view(o: Option<String>) -> Option<Seq<char>> {
    match o {
        Some(s) => Some(s@),
        None => None,
    }
}

/// Build the patch list of `patch` (see [`patch_fields_spec`]).
pub fn patch_fields(name: Option<String>, author: Option<String>, category: Option<String>) -> (r: Result<
    Vec<PatchField>,
    String,
>)
    ensures
        match (r, patch_fields_spec(opt_view(name), opt_view(author), opt_view(category))) {
            (Ok(v), Ok(l)) => v@.map_values(|p: PatchField| patch_view(p)) == l,
            (Err(a), Err(b)) => a@ == b,
            _ => false,
        },
{
    let ghost l = patch_fields_spec(opt_view(name), opt_view(author), opt_view(category));
    let mut patches: Vec<PatchField> = Vec::new();
    let ghost e0: Seq<(u8, Seq<char>)> = match opt_view(name) {
        Some(s) => seq![(0u8, s)],
        None => Seq::empty(),
    };
    let ghost e1: Seq<(u8, Seq<char>)> = match opt_view(author) {
        Some(s) => seq![(1u8, s)],
        None => Seq::empty(),
    };
    let ghost e2: Seq<(u8, Seq<char>)> = match opt_view(category) {
        Some(s) => seq![(2u8, s)],
        None => Seq::empty(),
    };
    match name {
        Some(s) => patches.push(PatchField::Name(s)),
        None => {},
    }
    assert(patches@.map_values(|p: PatchField| patch_view(p)) =~= e0);
    let ghost v1 = patches@;
    match author {
        Some(s) => patches.push(PatchField::Author(s)),
        None => {},
    }
    assert(patches@.map_values(|p: PatchField| patch_view(p)) =~= v1.map_values(
        |p: PatchField| patch_view(p),
    ) + e1);
    let ghost v2 = patches@;
    match category {
        Some(s) => patches.push(PatchField::Category(s)),
        None => {},
    }
    assert(patches@.map_values(|p: PatchField| patch_view(p)) =~= v2.map_values(
        |p: PatchField| patch_view(p),
    ) + e2);
    if patches.len() == 0 {
        return Err(string_of("nothing to patch: pass --name and/or --author and/or --category"));
    }
    Ok(patches)
}

/// Whether a file starts like an FL Studio project (`FLhd`).
pub fn is_flp_header(buf: &[u8]) -> (r: bool)
    ensures
        r == (buf@.len() >= 4 && buf@.subrange(0, 4) == seq![0x46u8, 0x4Cu8, 0x68u8, 0x64u8]),
{
    if buf.len() < 4 {
        return false;
    }
    let r = buf[0] == 0x46 && buf[1] == 0x4C && buf[2] == 0x68 && buf[3] == 0x64;
    proof {
        let s = buf@.subrange(0, 4);
        if r {
            assert(s =~= seq![0x46u8, 0x4Cu8, 0x68u8, 0x64u8]);
        } else {
            assert(s[0] == buf@[0] && s[1] == buf@[1] && s[2] == buf@[2] && s[3] == buf@[3]);
        }
    }
    r
}

} // verus!
