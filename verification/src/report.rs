//! Structured, machine-readable reports for the CLI subcommands.
//!
//! Every command collects its results into one of the `*Report` types here
//! ([`ListReport`], [`ExtractReport`], [`ValidateReport`],
//! [`ConvertReport`]) while it runs; the CLI then serializes the report
//! instead of printing human-readable lines. Float fields are carried as
//! their IEEE-754 bit patterns.

use vstd::prelude::*;
use crate::strs::{decimal, push_decimal, push_str, string_of};

verus! {

/// Shared behavior of the top-level per-command reports: a command that
/// ran to completion but must still exit non-zero ("validation failed",
/// "no presets extracted", ...) reports that through [`CommandReport::error`]
/// while still carrying its full results. Aborting errors are not
/// represented here.
pub trait CommandReport {
    /// Terminal error message, when the process must exit non-zero.
    fn error(&self) -> Option<&str>;
}

/// The terminal error of a report that may carry one, as a borrowed text.
pub open spec fn error_view(e: Option<String>) -> Option<Seq<char>> {
    match e {
        Some(s) => Some(s@),
        None => None,
    }
}

fn borrow_error(e: &Option<String>) -> (r: Option<&str>)
    ensures
        match r {
            Some(s) => error_view(*e) == Some(s@),
            None => error_view(*e) is None,
        },
{
    match e {
        Some(s) => Some(s.as_str()),
        None => None,
    }
}

/// One Serum instance found by a scan (`channel` is `None` when unknown).
#[derive(Debug)]
pub struct PresetEntry {
    /// Zero-based position in the scan order.
    pub index: u32,
    /// FL Studio channel number (`None` when unknown).
    pub channel: Option<u16>,
    /// Channel name (falls back to the FX track name).
    pub channel_name: String,
    /// Plugin display name as stored in the FLP.
    pub plugin_name: String,
    /// Preset name embedded in the Serum state (may be empty).
    pub preset_name: String,
    /// Author string embedded in the preset state.
    pub author: String,
    /// Category string embedded in the preset state.
    pub category: String,
    /// Bit pattern of the preset-format version float (e.g. `0.1631`).
    pub version_f32_bits: u32,
    /// Decompressed size of the first (preset state) zlib stream, in bytes.
    pub state_bytes: usize,
    /// Total size of the raw chunk payload embedded in the `.fxp`, in bytes.
    pub chunk_bytes: usize,
    /// How the chunk was recovered (`FlVst3Wrapper`, `RawZlib`,
    /// `CcnKFxPreset`, `VstWFxPreset`).
    pub source: String,
    /// True when an earlier instance had an identical chunk.
    pub duplicate: bool,
    /// Deterministic content hash of the chunk as a decimal string.
    pub content_hash: String,
    /// True when all Serum2 import checks pass (no fatal issues).
    pub valid: bool,
    /// Serum2 validation warnings (imports, but note).
    pub warnings: Vec<String>,
    /// Fatal Serum2 validation issues.
    pub errors: Vec<String>,
}

/// Result of `patch`.
#[derive(Debug)]
pub struct PatchReport {
    /// Input path as given on the command line.
    pub input: String,
    /// Output path written (or planned under `--dry-run`).
    pub output: String,
    /// True under `--dry-run` (no write performed).
    pub dry_run: bool,
    /// Patched Serum instances (1 for a standalone .fxp; the FLP path reports
    /// every rewritten instance).
    pub patched: u32,
    /// Warnings collected while re-validating the patched output.
    pub warnings: Vec<String>,
}

impl CommandReport for PatchReport {
    fn error(&self) -> (r: Option<&str>)
        ensures
            r is None,
    {
        None
    }
}

/// Per-input result of `list`.
#[derive(Debug)]
pub struct ListInputReport {
    /// Input FLP path as given on the command line.
    pub input: String,
    /// Discovered Serum instances, in file order.
    pub presets: Vec<PresetEntry>,
    /// Per-instance scan failures (never fatal).
    pub failed: Vec<String>,
    /// Number of Serum2 instances skipped during the scan.
    pub serum2_skipped: u32,
}

/// `list` output: per-input results plus a total.
#[derive(Debug)]
pub struct ListReport {
    /// One report per input file, in command-line order.
    pub inputs: Vec<ListInputReport>,
    /// Total number of Serum presets found across all inputs.
    pub preset_count: u32,
}

impl CommandReport for ListReport {
    fn error(&self) -> (r: Option<&str>)
        ensures
            r is None,
    {
        None
    }
}

/// What happened to one preset during `extract`.
#[derive(Debug, Clone, Copy, PartialEq, Eq, Structural)]
pub enum ExtractStatus {
    /// The `.fxp` was written.
    Written,
    /// Identical to an earlier preset in the same input, skipped.
    Duplicate,
    /// Target file exists and `--overwrite` was not given, skipped.
    Exists,
    /// Failed Serum2 validation and `--keep-invalid` was not given.
    Invalid,
}

/// Outcome of one extracted (or skipped) preset in `extract`.
#[derive(Debug)]
pub struct ExtractEntry {
    /// Zero-based position in the scan order.
    pub index: u32,
    /// FL Studio channel number (`None` when unknown).
    pub channel: Option<u16>,
    /// Channel name (falls back to the FX track name).
    pub channel_name: String,
    /// Preset name embedded in the Serum state (may be empty).
    pub preset_name: String,
    /// Author string embedded in the preset state.
    pub author: String,
    /// Category string embedded in the preset state.
    pub category: String,
    /// Bit pattern of the preset-format version float (e.g. `0.1631`).
    pub version_f32_bits: u32,
    /// Decompressed size of the first (preset state) zlib stream, in bytes.
    pub state_bytes: usize,
    /// Total size of the raw chunk payload embedded in the `.fxp`, in bytes.
    pub chunk_bytes: usize,
    /// How the chunk was recovered (`FlVst3Wrapper`, `RawZlib`, ...).
    pub source: String,
    /// What happened to this preset (see [`ExtractStatus`]).
    pub status: ExtractStatus,
    /// Written `.fxp` path (set only for [`ExtractStatus::Written`]).
    pub path: Option<String>,
    /// True when all Serum2 import checks pass (no fatal issues).
    pub valid: bool,
    /// Serum2 validation warnings (imports, but note).
    pub warnings: Vec<String>,
    /// Fatal Serum2 validation issues (non-empty when `valid == false`).
    pub errors: Vec<String>,
}

/// Per-input result of `extract`.
#[derive(Debug)]
pub struct ExtractInputReport {
    /// Input FLP path as given on the command line.
    pub input: String,
    /// Output directory the presets are written to.
    pub out_dir: String,
    /// Written / skipped presets, in scan order.
    pub entries: Vec<ExtractEntry>,
    /// Number of presets actually written.
    pub extracted_count: u32,
    /// Per-instance scan failures (never fatal).
    pub failed: Vec<String>,
    /// Number of Serum2 instances skipped during the scan.
    pub serum2_skipped: u32,
}

/// `extract` output: per-input results plus totals.
#[derive(Debug)]
pub struct ExtractReport {
    /// One report per input file, in command-line order.
    pub inputs: Vec<ExtractInputReport>,
    /// Total number of presets written across all inputs.
    pub extracted_count: u32,
    /// Total number of presets rejected by Serum2 validation.
    pub invalid_count: u32,
    /// Terminal error, present when the command must exit non-zero.
    pub error: Option<String>,
}

impl CommandReport for ExtractReport {
    fn error(&self) -> (r: Option<&str>)
        ensures
            match r {
                Some(s) => error_view(self.error) == Some(s@),
                None => self.error is None,
            },
    {
        borrow_error(&self.error)
    }
}

/// Per-file result of `validate`.
#[derive(Debug)]
pub struct ValidateInputReport {
    /// Input `.fxp` path as given on the command line.
    pub input: String,
    /// True when all Serum2 import checks pass (no fatal issues).
    pub valid: bool,
    /// Fatal issues (Serum2 refuses to import the file).
    pub errors: Vec<String>,
    /// Warnings (the file loads, but deviates from what Serum writes).
    pub warnings: Vec<String>,
    /// Embedded preset name, when the state could be decompressed.
    pub preset_name: Option<String>,
}

/// `validate` output: per-input results.
#[derive(Debug)]
pub struct ValidateReport {
    /// One report per input file, in command-line order.
    pub inputs: Vec<ValidateInputReport>,
    /// Terminal error, present when the command must exit non-zero.
    pub error: Option<String>,
}

impl CommandReport for ValidateReport {
    fn error(&self) -> (r: Option<&str>)
        ensures
            match r {
                Some(s) => error_view(self.error) == Some(s@),
                None => self.error is None,
            },
    {
        borrow_error(&self.error)
    }
}

/// One converted instance in `convert`.
#[derive(Debug)]
pub struct ConvertDetail {
    /// FL Studio channel number (`None` when unknown).
    pub channel: Option<u16>,
    /// Channel name (falls back to the FX track name).
    pub channel_name: String,
    /// Preset name recovered from the original Serum state (may be empty).
    pub preset_name: String,
    /// Size of the rewritten event-213 payload, in bytes.
    pub payload_len: usize,
    /// Human-readable notes.
    pub notes: Vec<String>,
}

/// Per-input result of `convert`.
#[derive(Debug)]
pub struct ConvertInputReport {
    /// Input FLP path as given on the command line.
    pub input: String,
    /// True when the plan was printed without writing anything.
    pub dry_run: bool,
    /// Written output FLP path (`None` on `--dry-run`).
    pub output: Option<String>,
    /// Size of the written FLP, in bytes (`None` on `--dry-run`).
    pub output_bytes: Option<usize>,
    /// Number of Serum instances rewritten as Serum2.
    pub converted_count: u32,
    /// Per-instance details, in scan order.
    pub details: Vec<ConvertDetail>,
    /// Non-fatal warnings.
    pub warnings: Vec<String>,
}

/// `convert` output: per-input results plus a total.
#[derive(Debug)]
pub struct ConvertReport {
    /// One report per input file, in command-line order.
    pub inputs: Vec<ConvertInputReport>,
    /// Total number of instances converted across all inputs.
    pub converted_count: u32,
    /// Terminal error, present when the command must exit non-zero.
    pub error: Option<String>,
}

impl CommandReport for ConvertReport {
    fn error(&self) -> (r: Option<&str>)
        ensures
            match r {
                Some(s) => error_view(self.error) == Some(s@),
                None => self.error is None,
            },
    {
        borrow_error(&self.error)
    }
}

/// What `extract` does with one preset: a duplicate is skipped first, then
/// an existing target without `--overwrite`, then an invalid preset
/// without `--keep-invalid`; everything else is written.
pub open spec fn extract_status_spec(
    duplicate: bool,
    target_exists: bool,
    overwrite: bool,
    valid: bool,
    keep_invalid: bool,
) -> ExtractStatus {
    if duplicate {
        ExtractStatus::Duplicate
    } else if target_exists && !overwrite {
        ExtractStatus::Exists
    } else if !valid && !keep_invalid {
        ExtractStatus::Invalid
    } else {
        ExtractStatus::Written
    }
}

/// Decide what `extract` does with one preset (see [`extract_status_spec`]);
/// whether the target exists is found out by the caller.
pub fn extract_status(
    duplicate: bool,
    target_exists: bool,
    overwrite: bool,
    valid: bool,
    keep_invalid: bool,
) -> (r: ExtractStatus)
    ensures
        r == extract_status_spec(duplicate, target_exists, overwrite, valid, keep_invalid),
{
    if duplicate {
        ExtractStatus::Duplicate
    } else if target_exists && !overwrite {
        ExtractStatus::Exists
    } else if !valid && !keep_invalid {
        ExtractStatus::Invalid
    } else {
        ExtractStatus::Written
    }
}

/// The terminal error of `extract`: invalid presets first, then "nothing
/// written".
pub open spec fn extract_error_spec(total_invalid: nat, total_extracted: nat) -> Option<Seq<char>> {
    if total_invalid > 0 {
        Some(decimal(total_invalid) + " preset(s) failed Serum2 validation (see above)"@)
    } else if total_extracted == 0 {
        Some("no presets extracted"@)
    } else {
        None
    }
}

/// The terminal error `extract` reports after processing every input.
pub fn extract_error(total_invalid: usize, total_extracted: usize) -> (r: Option<String>)
    ensures
        error_view(r) == extract_error_spec(total_invalid as nat, total_extracted as nat),
{
    if total_invalid > 0 {
        let mut s = String::new();
        push_decimal(&mut s, total_invalid as u64);
        push_str(&mut s, " preset(s) failed Serum2 validation (see above)");
        Some(s)
    } else if total_extracted == 0 {
        Some(string_of("no presets extracted"))
    } else {
        None
    }
}

/// The terminal error of `validate`: present exactly when some input had a
/// fatal issue.
pub fn validate_error(all_ok: bool) -> (r: Option<String>)
    ensures
        error_view(r) == (if all_ok { None } else { Some("validation failed"@) }),
{
    if all_ok {
        None
    } else {
        Some(string_of("validation failed"))
    }
}

} // verus!
