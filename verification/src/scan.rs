//! Reusable scanning logic plus small text / filename / hashing helpers.
//!
//! [`scan_serum_instances`] walks the FLP event stream once and collects
//! every usable Serum plugin instance (see [`Instance`]) together with
//! diagnostic counters ([`ScanStats`]).

use vstd::prelude::*;
use vstd::slice::slice_subrange;
use std::collections::HashMap;
use std::path::{Path, PathBuf};
use crate::bytes::{le_u16, read_u16_le};
use crate::flp::{
    event_view, flp_event_list, parse_events, parse_plugin_params, plugin_params, Event,
    EV_NEW_CHANNEL, EV_PLUGIN_PARAMS, EV_TEXT_CHANNEL_NAME, EV_TEXT_FX_TRACK_NAME,
};
use crate::serum::{
    chunk_view, is_serum1, is_serum1_spec, is_serum2, is_serum2_spec, recovered_view,
    serum1_chunk_from_state, serum1_chunk_spec, ChunkView, Serum1Chunk,
};
use crate::strs::{
    chars_of, copy_chars, decimal, digit_char, is_ctrl, lossy_chars, push_char, push_decimal,
    push_str, string_from_chars, string_of, trim, trim_chars, trim_k, trim_end_k, trim_start_k, trim_ws,
    utf8_lossy, Strip, first_kept, lemma_first_kept_bounds, lemma_last_kept_bounds, lemma_trim_k_unchanged, is_ws,
};

verus! {

broadcast use vstd::string::group_string_axioms;

/// Fallback channel label for report messages (`-` when empty).
pub fn display_name(name: &str) -> (r: String)
    ensures
        r@ == if name@.len() == 0 {
            "-"@
        } else {
            name@
        },
{
    if name.is_empty() {
        string_of("-")
    } else {
        string_of(name)
    }
}

/// Index of the first NUL in `s` (or its length).
pub open spec fn first_nul(s: Seq<u8>, i: int) -> int
    decreases s.len() - i,
{
    if i >= s.len() || i < 0 {
        s.len() as int
    } else if s[i] == 0 {
        i
    } else {
        first_nul(s, i + 1)
    }
}

pub proof fn lemma_first_nul_bounds(s: Seq<u8>, i: int)
    requires
        0 <= i <= s.len(),
    ensures
        i <= first_nul(s, i) <= s.len(),
    decreases s.len() - i,
{
    if i < s.len() && s[i] != 0 {
        lemma_first_nul_bounds(s, i + 1);
    }
}

/// Index of the first NUL byte of `b` (or its length).
pub fn find_nul(b: &[u8]) -> (r: usize)
    ensures
        r as int == first_nul(b@, 0),
        r <= b@.len(),
{
    let n = b.len();
    let mut i: usize = 0;
    while i < n && b[i] != 0
        invariant
            n == b@.len(),
            i <= n,
            first_nul(b@, 0) == first_nul(b@, i as int),
        decreases n - i,
    {
        i += 1;
    }
    i
}

/// A NUL-terminated fixed-width string field `buf[off..off + len]`, decoded
/// lossily; empty when the field lies outside `buf`.
pub open spec fn cstr_spec(buf: Seq<u8>, off: int, len: int, trimmed: bool) -> Seq<char> {
    if off + len > buf.len() {
        Seq::empty()
    } else {
        let field = buf.subrange(off, off + len);
        let s = utf8_lossy(field.subrange(0, first_nul(field, 0)));
        if trimmed {
            trim(s)
        } else {
            s
        }
    }
}

/// Read a NUL-terminated fixed-width string field at `buf[off..off+len]`.
/// Out-of-range fields read as empty; `trimmed` strips surrounding
/// whitespace.
pub fn cstr(buf: &[u8], off: usize, len: usize, trimmed: bool) -> (r: String)
    ensures
        r@ == cstr_spec(buf@, off as int, len as int, trimmed),
        off + len <= buf@.len() ==> ({
            let field = buf@.subrange(off as int, off + len);
            let head = field.subrange(0, first_nul(field, 0));
            vstd::utf8::valid_utf8(head) ==> r@ == if trimmed {
                trim(vstd::utf8::decode_utf8(head))
            } else {
                vstd::utf8::decode_utf8(head)
            }
        }),
{
    let n = buf.len();
    if off > n || len > n - off {
        return String::new();
    }
    let field = slice_subrange(buf, off, off + len);
    let nul = find_nul(field);
    let head = slice_subrange(field, 0, nul);
    let s = lossy_chars(head);
    if trimmed {
        string_from_chars(trim_ws(s.as_slice()).as_slice())
    } else {
        string_from_chars(s.as_slice())
    }
}

/// A NUL-terminated string at `state[off..off + len]` (clamped to the
/// state's end), for display: cut at its first NUL, decoded lossily, and
/// surrounding whitespace trimmed.
pub open spec fn state_str_spec(state: Seq<u8>, off: int, len: int) -> Seq<char> {
    let end = if off + len < state.len() {
        off + len
    } else {
        state.len() as int
    };
    let field = state.subrange(off, end);
    trim(utf8_lossy(field.subrange(0, first_nul(field, 0))))
}

/// The string field at `off` inside a decompressed state, for display.
pub fn state_str(state: &[u8], off: usize, len: usize) -> (r: String)
    requires
        off <= state@.len(),
        off + len <= usize::MAX,
    ensures
        r@ == state_str_spec(state@, off as int, len as int),
        ({
            let end = if off + len < state@.len() {
                off + len
            } else {
                state@.len() as int
            };
            let field = state@.subrange(off as int, end);
            let head = field.subrange(0, first_nul(field, 0));
            vstd::utf8::valid_utf8(head) ==> r@ == trim(vstd::utf8::decode_utf8(head))
        }),
{
    let end = if off + len < state.len() {
        off + len
    } else {
        state.len()
    };
    let field = slice_subrange(state, off, end);
    let nul = find_nul(field);
    let s = lossy_chars(slice_subrange(field, 0, nul));
    string_from_chars(trim_ws(s.as_slice()).as_slice())
}

/// The even-indexed bytes of `b` as characters (UTF-16LE code units below
/// 256 are the Latin-1 code points).
pub open spec fn low_bytes_as_chars(b: Seq<u8>) -> Seq<char> {
    Seq::new(b.len() / 2, |i: int| b[2 * i] as char)
}

/// High byte of the `i`-th UTF-16LE code unit.
pub open spec fn hi_byte(b: Seq<u8>, i: int) -> u8 {
    b[2 * i + 1]
}

/// Low byte of the `i`-th UTF-16LE code unit.
pub open spec fn lo_byte(b: Seq<u8>, i: int) -> u8 {
    b[2 * i]
}

/// Whether `b` looks like UTF-16LE text: an even length of at least 2, every
/// odd byte zero and some even byte non-zero.
pub open spec fn looks_utf16(b: Seq<u8>) -> bool {
    &&& b.len() >= 2
    &&& b.len() % 2 == 0
    &&& forall|i: int| 0 <= i < b.len() / 2 ==> #[trigger] hi_byte(b, i) == 0
    &&& exists|i: int| 0 <= i < b.len() / 2 && #[trigger] lo_byte(b, i) != 0
}

/// An FL Studio text event decoded: UTF-16LE when it looks like it, UTF-8
/// (lossy) otherwise; trailing NULs, then surrounding whitespace, trimmed.
pub open spec fn text_spec(b: Seq<u8>) -> Seq<char> {
    let s = if looks_utf16(b) {
        low_bytes_as_chars(b)
    } else {
        utf8_lossy(b)
    };
    trim(trim_end_k(s, Strip::Nul))
}

/// Decode an FL Studio text event: UTF-16LE when the bytes look like it
/// (NUL-interleaved ASCII), UTF-8 otherwise. Trailing NULs and whitespace
/// are trimmed.
pub fn text(bytes: &[u8]) -> (r: String)
    ensures
        r@ == text_spec(bytes@),
        !looks_utf16(bytes@) && vstd::utf8::valid_utf8(bytes@) ==> r@ == trim(
            trim_end_k(vstd::utf8::decode_utf8(bytes@), Strip::Nul),
        ),
{
    let n = bytes.len();
    let mut utf16 = n >= 2 && n % 2 == 0;
    let mut any_nonzero = false;
    if utf16 {
        let mut i: usize = 0;
        while i < n / 2
            invariant
                n == bytes@.len(),
                n % 2 == 0,
                i <= n / 2,
                utf16 == forall|j: int| 0 <= j < i ==> #[trigger] hi_byte(bytes@, j) == 0,
                any_nonzero == exists|j: int| 0 <= j < i && #[trigger] lo_byte(bytes@, j) != 0,
            decreases n / 2 - i,
        {
            if bytes[2 * i + 1] != 0 {
                utf16 = false;
            }
            if bytes[2 * i] != 0 {
                any_nonzero = true;
            }
            proof {
                assert(hi_byte(bytes@, i as int) == bytes@[2 * i + 1]);
                assert(lo_byte(bytes@, i as int) == bytes@[2 * i]);
                if !any_nonzero {
                    assert forall|j: int| 0 <= j < i + 1 implies !(#[trigger] lo_byte(bytes@, j) != 0) by {}
                }
            }
            i += 1;
        }
    }
    let decoded: Vec<char> = if utf16 && any_nonzero {
        let mut v: Vec<char> = Vec::new();
        let mut i: usize = 0;
        while i < n / 2
            invariant
                n == bytes@.len(),
                i <= n / 2,
                v@ == low_bytes_as_chars(bytes@).subrange(0, i as int),
            decreases n / 2 - i,
        {
            v.push(bytes[2 * i] as char);
            assert(low_bytes_as_chars(bytes@).subrange(0, i + 1) =~= low_bytes_as_chars(bytes@).subrange(0, i as int).push(bytes@[2 * i] as char));
            i += 1;
        }
        assert(v@ =~= low_bytes_as_chars(bytes@));
        v
    } else {
        lossy_chars(bytes)
    };
    assert(looks_utf16(bytes@) == (utf16 && any_nonzero));
    let no_nul = trim_chars(decoded.as_slice(), Strip::Nul, false, true);
    string_from_chars(trim_ws(no_nul.as_slice()).as_slice())
}

/// Deterministic content hash of a preset chunk (std `DefaultHasher`).
///
/// `DefaultHasher::new()` uses fixed keys, so equal inputs hash equally
/// within one build on one platform: good enough to dedupe identical
/// chunks. Nothing is claimed about the value: it depends on the platform
/// (the slice length is hashed in native `usize` width).
#[verifier::external_body]
pub fn hash_bytes(b: &[u8]) -> u64 {
    let mut h = std::collections::hash_map::DefaultHasher::new();
    std::hash::Hash::hash(b, &mut h);
    std::hash::Hasher::finish(&h)
}

/// Where a preset was first seen: the input's name and the preset's
/// 1-based index in it.
pub open spec fn place_view(p: (String, usize)) -> (Seq<char>, usize) {
    (p.0@, p.1)
}

/// The content hashes seen so far in one run of a command, each with where
/// it was first seen, for skipping and reporting duplicate presets.
pub struct SeenHashes {
    first: std::collections::HashMap<u64, (String, usize)>,
}

impl View for SeenHashes {
    type V = Map<u64, (Seq<char>, usize)>;

    closed spec fn view(&self) -> Map<u64, (Seq<char>, usize)> {
        self.first@.map_values(|p: (String, usize)| place_view(p))
    }
}

impl SeenHashes {
    /// Nothing seen yet.
    pub fn new() -> (r: Self)
        ensures
            r@ == Map::<u64, (Seq<char>, usize)>::empty(),
    {
        let r = SeenHashes { first: std::collections::HashMap::new() };
        assert(r@ =~= Map::<u64, (Seq<char>, usize)>::empty());
        r
    }

    /// Records that the preset `index` of input `file` has content hash `h`:
    /// `None` when `h` is new (it is recorded there), else where `h` was
    /// first seen (nothing is recorded).
    pub fn insert(&mut self, h: u64, file: &str, index: usize) -> (r: Option<(String, usize)>)
        ensures
            old(self)@.contains_key(h) ==> (r matches Some(p) && place_view(p) == old(self)@[h])
                && final(self)@ == old(self)@,
            !old(self)@.contains_key(h) ==> r is None && final(self)@ == old(self)@.insert(
                h,
                (file@, index),
            ),
    {
        broadcast use vstd::std_specs::hash::group_hash_axioms;

        match self.first.get(&h) {
            Some(p) => {
                let r = (p.0.clone(), p.1);
                Some(r)
            },
            None => {
                let ghost before = self.first@;
                self.first.insert(h, (string_of(file), index));
                proof {
                    assert(self@ =~= before.map_values(|p: (String, usize)| place_view(p)).insert(
                        h,
                        (file@, index),
                    ));
                }
                None
            },
        }
    }
}

/// A filename-hostile character: `/ \ : * ? " < > |` or a control code.
pub open spec fn hostile(c: char) -> bool {
    c == '/' || c == '\\' || c == ':' || c == '*' || c == '?' || c == '"' || c == '<' || c
        == '>' || c == '|' || is_ctrl(c)
}

/// Each hostile character replaced by `_`.
pub open spec fn map_hostile(s: Seq<char>) -> Seq<char> {
    s.map_values(|c: char| if hostile(c) { '_' } else { c })
}

/// A preset / channel name mapped to a safe file name base.
pub open spec fn sanitize_spec(name: Seq<char>) -> Seq<char> {
    let t = trim(trim_k(trim(map_hostile(name)), Strip::Dot));
    if t.len() == 0 {
        "Untitled"@
    } else if t.len() > 80 {
        t.take(80)
    } else {
        t
    }
}

/// A name that is already safe (non-empty, at most 80 characters, no
/// hostile character, no surrounding whitespace or dot) is kept as it is.
pub proof fn lemma_clean_name_kept(name: Seq<char>)
    requires
        0 < name.len() <= 80,
        forall|i: int| 0 <= i < name.len() ==> !hostile(#[trigger] name[i]),
        !is_ws(name[0]),
        !is_ws(name[name.len() - 1]),
        name[0] != '.',
        name[name.len() - 1] != '.',
    ensures
        sanitize_spec(name) == name,
{
    assert(map_hostile(name) =~= name);
    lemma_trim_k_unchanged(name, Strip::Whitespace);
    lemma_trim_k_unchanged(name, Strip::Dot);
}

/// Map a preset / channel name to a safe file name base: filesystem-hostile
/// characters become `_`, surrounding dots and whitespace are trimmed, the
/// result is capped at 80 chars and never empty (`Untitled`).
pub fn sanitize_filename(name: &str) -> (r: String)
    ensures
        r@ == sanitize_spec(name@),
        r@.len() > 0,
        r@.len() <= 80,
        forall|i: int| 0 <= i < r@.len() ==> !hostile(#[trigger] r@[i]),
{
    let v = chars_of(name);
    let mut mapped: Vec<char> = Vec::new();
    let mut i: usize = 0;
    while i < v.len()
        invariant
            v@ == name@,
            i <= v@.len(),
            mapped@ == map_hostile(v@.subrange(0, i as int)),
        decreases v.len() - i,
    {
        let c = v[i];
        let u = c as u32;
        let bad = c == '/' || c == '\\' || c == ':' || c == '*' || c == '?' || c == '"' || c
            == '<' || c == '>' || c == '|' || u <= 0x1F || (0x7F <= u && u <= 0x9F);
        mapped.push(if bad { '_' } else { c });
        assert(map_hostile(v@.subrange(0, i + 1)) =~= map_hostile(v@.subrange(0, i as int)).push(mapped@[i as int]));
        i += 1;
    }
    assert(v@.subrange(0, v@.len() as int) =~= v@);
    let t1 = trim_ws(mapped.as_slice());
    let t2 = trim_chars(t1.as_slice(), Strip::Dot, true, true);
    let t3 = trim_ws(t2.as_slice());
    proof {
        reveal_strlit("Untitled");
        assert forall|j: int| 0 <= j < mapped@.len() implies !hostile(#[trigger] mapped@[j]) by {
            assert(mapped@[j] == map_hostile(v@)[j]);
        }
        assert forall|i: int| 0 <= i < t3@.len() implies !hostile(#[trigger] t3@[i]) by {
            lemma_no_hostile_after_trims(mapped@, i);
        }
    }
    if t3.len() == 0 {
        string_of("Untitled")
    } else if t3.len() > 80 {
        let t = copy_chars(t3.as_slice(), 0, 80);
        assert(t@ =~= t3@.take(80));
        string_from_chars(t.as_slice())
    } else {
        string_from_chars(t3.as_slice())
    }
}

/// A sanitized name holds no filesystem-hostile character.
pub proof fn lemma_sanitize_safe(name: Seq<char>)
    ensures
        forall|i: int| 0 <= i < sanitize_spec(name).len() ==> !hostile(#[trigger] sanitize_spec(name)[i]),
{
    let m = map_hostile(name);
    assert forall|j: int| 0 <= j < m.len() implies !hostile(#[trigger] m[j]) by {}
    let t = trim(trim_k(trim(m), Strip::Dot));
    assert forall|i: int| 0 <= i < t.len() implies !hostile(#[trigger] t[i]) by {
        lemma_no_hostile_after_trims(m, i);
    }
    reveal_strlit("Untitled");
}

/// Trimming keeps a contiguous piece, so no hostile character reappears.
proof fn lemma_no_hostile_after_trims(m: Seq<char>, i: int)
    requires
        forall|j: int| 0 <= j < m.len() ==> !hostile(#[trigger] m[j]),
    ensures
        ({
            let t = trim(trim_k(trim(m), Strip::Dot));
            0 <= i < t.len() ==> !hostile(t[i])
        }),
{
    let p = |c: char| !hostile(c);
    lemma_trim_keeps(m, Strip::Whitespace, p);
    let a = trim(m);
    lemma_trim_keeps(a, Strip::Dot, p);
    let b = trim_k(a, Strip::Dot);
    lemma_trim_keeps(b, Strip::Whitespace, p);
}

/// A property of every character survives trimming.
pub proof fn lemma_trim_keeps(s: Seq<char>, k: Strip, p: spec_fn(char) -> bool)
    requires
        forall|j: int| 0 <= j < s.len() ==> p(#[trigger] s[j]),
    ensures
        forall|j: int| 0 <= j < trim_k(s, k).len() ==> p(#[trigger] trim_k(s, k)[j]),
{
    lemma_first_kept_bounds(s, k, 0);
    let a = trim_start_k(s, k);
    lemma_last_kept_bounds(a, k, a.len() as int);
    assert forall|j: int| 0 <= j < trim_k(s, k).len() implies p(#[trigger] trim_k(s, k)[j]) by {
        assert(trim_k(s, k)[j] == s[first_kept(s, k, 0) + j]);
    }
}

/// Human-readable byte count with one decimal: `n / unit` rounded half to
/// even at one decimal place, as `{:.1}` renders the exact quotient.
pub open spec fn fixed1(n: nat, unit: nat) -> Seq<char>
    recommends
        unit > 0,
{
    let q = (10 * n) / unit;
    let r = (10 * n) % unit;
    let t = if 2 * r > unit || (2 * r == unit && q % 2 == 1) {
        q + 1
    } else {
        q
    };
    decimal(t / 10) + seq!['.', digit_char((t % 10) as int)]
}

/// Human-readable byte count (`977 B`, `8.0 KiB`, `1.2 MiB`).
pub open spec fn format_bytes_spec(n: nat) -> Seq<char> {
    if n >= 1048576 {
        fixed1(n, 1048576) + " MiB"@
    } else if n >= 1024 {
        fixed1(n, 1024) + " KiB"@
    } else {
        decimal(n) + " B"@
    }
}

fn push_fixed1(s: &mut String, n: u64, unit: u64)
    requires
        0 < unit <= 1048576,
    ensures
        final(s)@ == old(s)@ + fixed1(n as nat, unit as nat),
{
    let n10 = 10 * (n as u128);
    let u = unit as u128;
    let q = n10 / u;
    let r = n10 % u;
    let t = if 2 * r > u || (2 * r == u && q % 2 == 1) {
        q + 1
    } else {
        q
    };
    assert(t / 10 <= n);
    push_decimal(s, (t / 10) as u64);
    push_char(s, '.');
    push_char(s, ((48 + t % 10) as u8) as char);
    assert(s@ =~= old(s)@ + fixed1(n as nat, unit as nat));
}

/// Human-readable byte count (`977 B`, `8.0 KiB`, `1.2 MiB`).
pub fn format_bytes(n: usize) -> (r: String)
    ensures
        r@ == format_bytes_spec(n as nat),
{
    let mut s = String::new();
    if n >= 1048576 {
        push_fixed1(&mut s, n as u64, 1048576);
        push_str(&mut s, " MiB");
    } else if n >= 1024 {
        push_fixed1(&mut s, n as u64, 1024);
        push_str(&mut s, " KiB");
    } else {
        push_decimal(&mut s, n as u64);
        push_str(&mut s, " B");
    }
    s
}

/// The directory name `<stem>_serum_fxp` for an FLP whose file stem is
/// `stem` (`output` when the path has none).
pub open spec fn out_dir_name_spec(stem: Option<Seq<char>>) -> Seq<char> {
    match stem {
        Some(s) => sanitize_spec(s) + "_serum_fxp"@,
        None => sanitize_spec("output"@) + "_serum_fxp"@,
    }
}

/// The default output directory name for an FLP with file stem `stem`.
pub fn out_dir_name(stem: Option<&str>) -> (r: String)
    ensures
        r@ == out_dir_name_spec(
            match stem {
                Some(s) => Some(s@),
                None => None,
            },
        ),
{
    let mut name = match stem {
        Some(s) => sanitize_filename(s),
        None => sanitize_filename("output"),
    };
    push_str(&mut name, "_serum_fxp");
    name
}

#[verifier::external_type_specification]
#[verifier::external_body]
pub struct ExPathBuf(PathBuf);

/// `Path::file_stem` of `p`, decoded lossily. Nothing is claimed: path
/// syntax is platform-specific.
#[verifier::external_body]
fn path_file_stem(p: &PathBuf) -> Option<String> {
    p.file_stem().map(|s| s.to_string_lossy().into_owned())
}

/// `Path::parent` of `p`, as an owned path. Nothing is claimed: path syntax
/// is platform-specific.
#[verifier::external_body]
fn path_parent(p: &PathBuf) -> Option<PathBuf> {
    p.parent().map(|d| d.to_path_buf())
}

/// `Path::join` of `dir` and `name`. Nothing is claimed: path syntax is
/// platform-specific.
#[verifier::external_body]
fn path_join(dir: &PathBuf, name: &str) -> PathBuf {
    dir.join(name)
}

/// `PathBuf::from` on `name`. Nothing is claimed: the type holds no view.
#[verifier::external_body]
fn path_from(name: &str) -> PathBuf {
    PathBuf::from(name)
}

/// Default output directory for an FLP: `<flp name>_serum_fxp` next to it.
/// The directory name is [`out_dir_name`]'s, proved there; nothing is stated
/// of the returned path itself, whose syntax is platform-specific.
pub fn default_out_dir(flp: &PathBuf) -> PathBuf {
    let stem = path_file_stem(flp);
    let name = match &stem {
        Some(s) => out_dir_name(Some(s.as_str())),
        None => out_dir_name(None),
    };
    match path_parent(flp) {
        Some(dir) => path_join(&dir, name.as_str()),
        None => path_from(name.as_str()),
    }
}

// ---------------------------------------------------------------------------
// Scanning an FLP for Serum instances
/// Diagnostics collected while scanning an FLP.
#[derive(Debug)]
pub struct ScanStats {
    /// Number of Serum 2 plugin instances encountered (never extracted).
    pub serum2_count: usize,
    /// Human-readable descriptions of Serum plugin states that could not
    /// be converted into a preset chunk. Per-instance failures never abort
    /// the scan; callers decide whether to surface them.
    pub failed: Vec<String>,
}

impl Default for ScanStats {
    fn default() -> (r: Self)
        ensures
            r.serum2_count == 0,
            r.failed@.len() == 0,
    {
        ScanStats { serum2_count: 0, failed: Vec::new() }
    }
}

/// A Serum instance discovered in an FLP.
#[derive(Debug)]
pub struct Instance {
    /// Numeric FL Studio channel the plugin was inserted on, if known.
    pub channel: Option<u16>,
    /// Channel name, falling back to the FX track name.
    pub channel_name: String,
    /// Plugin display name as stored in the FLP.
    pub plugin_name: String,
    /// Recovered Serum preset chunk plus parsed metadata.
    pub chunk: Serum1Chunk,
}

/// An instance as plain values: channel, channel name, plugin name, chunk.
pub type InstanceView = (Option<u16>, Seq<char>, Seq<char>, ChunkView);

pub open spec fn instance_view(i: Instance) -> InstanceView {
    (i.channel, i.channel_name@, i.plugin_name@, chunk_view(i.chunk))
}

/// The scanner's state: channel names by channel, the current channel, the
/// current FX track name, the instances found, the Serum2 count and the
/// failure messages.
pub type ScanView = (
    Map<u16, Seq<char>>,
    Option<u16>,
    Seq<char>,
    Seq<InstanceView>,
    nat,
    Seq<Seq<char>>,
);

/// The label of the current location: the current channel's name when it
/// has one, the FX track name otherwise.
pub open spec fn where_name(channels: Map<u16, Seq<char>>, cur: Option<u16>, fx: Seq<char>) -> Seq<char> {
    match cur {
        Some(c) => if channels.contains_key(c) {
            channels[c]
        } else {
            fx
        },
        None => fx,
    }
}

pub open spec fn msg_skipped(where_: Seq<char>, e: Seq<char>) -> Seq<char> {
    "skipped a Serum plugin state ("@ + where_ + "): "@ + e
}

/// One event's effect on the scanner.
pub open spec fn scan_step(st: ScanView, id: u8, data: Seq<u8>) -> ScanView {
    let (channels, cur, fx, insts, s2, failed) = st;
    if id == EV_NEW_CHANNEL {
        if data.len() >= 2 {
            (channels, Some(le_u16(data, 0) as u16), fx, insts, s2, failed)
        } else {
            st
        }
    } else if id == EV_TEXT_CHANNEL_NAME {
        match cur {
            Some(c) => (channels.insert(c, text_spec(data)), cur, fx, insts, s2, failed),
            None => st,
        }
    } else if id == EV_TEXT_FX_TRACK_NAME {
        (channels, cur, text_spec(data), insts, s2, failed)
    } else if id == EV_PLUGIN_PARAMS {
        match plugin_params(data) {
            Err(_) => st,
            Ok((name, filename, _vendor, state)) => if is_serum2_spec(name, filename) {
                (channels, cur, fx, insts, s2 + 1, failed)
            } else if !is_serum1_spec(name, filename) || state.len() == 0 {
                st
            } else {
                let w = where_name(channels, cur, fx);
                match serum1_chunk_spec(state) {
                    Ok(c) => (
                        channels,
                        cur,
                        fx,
                        insts.push((cur, w, text_spec(name), recovered_view(c))),
                        s2,
                        failed,
                    ),
                    Err(e) => (channels, cur, fx, insts, s2, failed.push(msg_skipped(w, e))),
                }
            },
        }
    } else {
        st
    }
}

/// The scanner's state after the events `evs`.
pub open spec fn scan_events(evs: Seq<(u8, Seq<u8>)>) -> ScanView
    decreases evs.len(),
{
    if evs.len() == 0 {
        (Map::empty(), None, Seq::empty(), Seq::empty(), 0, Seq::empty())
    } else {
        let st = scan_events(evs.drop_last());
        scan_step(st, evs.last().0, evs.last().1)
    }
}

/// Scanning an FLP: the instances in file order, the Serum2 count and the
/// failure messages; an FLP that does not parse is an error.
pub open spec fn scan_spec(buf: Seq<u8>) -> Result<(Seq<InstanceView>, nat, Seq<Seq<char>>), Seq<char>> {
    match flp_event_list(buf) {
        Err(e) => Err(e),
        Ok(evs) => {
            let st = scan_events(evs);
            Ok((st.3, st.4, st.5))
        },
    }
}

/// Whether an event is a Serum2 plugin: a `PluginParams` event whose
/// payload parses as a plugin that names Serum2.
pub open spec fn is_serum2_event(e: (u8, Seq<u8>)) -> bool {
    &&& e.0 == EV_PLUGIN_PARAMS
    &&& plugin_params(e.1) matches Ok((name, filename, _v, _s)) && is_serum2_spec(name, filename)
}

/// The state of a Serum plugin (not Serum2) that a scan tries to recover,
/// when the event is one: a `PluginParams` event whose payload parses as a
/// Serum plugin with a non-empty state.
pub open spec fn serum1_state_of(e: (u8, Seq<u8>)) -> Option<Seq<u8>> {
    if e.0 != EV_PLUGIN_PARAMS {
        None
    } else {
        match plugin_params(e.1) {
            Ok((name, filename, _v, state)) => if !is_serum2_spec(name, filename) && is_serum1_spec(
                name,
                filename,
            ) && state.len() > 0 {
                Some(state)
            } else {
                None
            },
            Err(_) => None,
        }
    }
}

/// Whether an event is a Serum plugin whose preset chunk is recovered.
pub open spec fn is_recovered_event(e: (u8, Seq<u8>)) -> bool {
    serum1_state_of(e) matches Some(st) && serum1_chunk_spec(st) is Ok
}

/// Whether an event is a Serum plugin whose preset chunk cannot be
/// recovered.
pub open spec fn is_failed_event(e: (u8, Seq<u8>)) -> bool {
    serum1_state_of(e) matches Some(st) && serum1_chunk_spec(st) is Err
}

proof fn lemma_scan_counts(evs: Seq<(u8, Seq<u8>)>)
    ensures
        scan_events(evs).4 == evs.filter(|e: (u8, Seq<u8>)| is_serum2_event(e)).len(),
        scan_events(evs).3.len() == evs.filter(|e: (u8, Seq<u8>)| is_recovered_event(e)).len(),
        scan_events(evs).5.len() == evs.filter(|e: (u8, Seq<u8>)| is_failed_event(e)).len(),
    decreases evs.len(),
{
    reveal(Seq::filter);
    if evs.len() > 0 {
        lemma_scan_counts(evs.drop_last());
    }
}

/// A scan accounts for every plugin of the project: its Serum2 count is the
/// number of `PluginParams` events whose plugin names Serum2, it lists one
/// instance per Serum plugin whose chunk is recovered and one failure per
/// Serum plugin whose chunk is not.
pub proof fn lemma_scan_accounts_plugins(buf: Seq<u8>)
    requires
        scan_spec(buf) is Ok,
    ensures
        flp_event_list(buf) is Ok,
        scan_spec(buf)->Ok_0.1 == flp_event_list(buf)->Ok_0.filter(
            |e: (u8, Seq<u8>)| is_serum2_event(e),
        ).len(),
        scan_spec(buf)->Ok_0.0.len() == flp_event_list(buf)->Ok_0.filter(
            |e: (u8, Seq<u8>)| is_recovered_event(e),
        ).len(),
        scan_spec(buf)->Ok_0.2.len() == flp_event_list(buf)->Ok_0.filter(
            |e: (u8, Seq<u8>)| is_failed_event(e),
        ).len(),
{
    lemma_scan_counts(flp_event_list(buf)->Ok_0);
}

pub(crate) fn channel_label(channels: &HashMap<u16, String>, cur: Option<u16>, fx: &String) -> (r: String)
    ensures
        r@ == where_name(channels@.map_values(|s: String| s@), cur, fx@),
{
    match cur {
        Some(c) => match channels.get(&c) {
            Some(name) => name.clone(),
            None => fx.clone(),
        },
        None => fx.clone(),
    }
}

/// Walk the events once, associating plugin params with channel / FX names.
///
/// Returns the discovered instances in file order plus [`ScanStats`].
/// Unparseable FLP data (zip archive, missing `FLhd`, truncated events, ...)
/// is a fatal `Err(String)` with a human-readable message; per-instance
/// conversion failures are only recorded in [`ScanStats::failed`].
pub fn scan_serum_instances(buf: &[u8]) -> (r: Result<(Vec<Instance>, ScanStats), String>)
    ensures
        match (r, scan_spec(buf@)) {
            (Ok((insts, stats)), Ok((iv, s2, failed))) => {
                &&& insts@.map_values(|i: Instance| instance_view(i)) == iv
                &&& stats.serum2_count == s2
                &&& stats.failed@.map_values(|s: String| s@) == failed
            },
            (Err(a), Err(b)) => a@ == b,
            _ => false,
        },
{
    let events = parse_events(buf)?;
    let ghost evs = events@.map_values(|e: Event| event_view(e));
    let mut channels: HashMap<u16, String> = HashMap::new();
    let mut cur_channel: Option<u16> = None;
    let mut cur_fx_name = String::new();
    let mut instances: Vec<Instance> = Vec::new();
    let mut stats = ScanStats::default();
    let mut i: usize = 0;
    proof {
        assert(evs.take(0) =~= Seq::<(u8, Seq<u8>)>::empty());
        assert(channels@.map_values(|s: String| s@) =~= Map::<u16, Seq<char>>::empty());
        assert(instances@.map_values(|i: Instance| instance_view(i)) =~= Seq::<InstanceView>::empty());
        assert(stats.failed@.map_values(|s: String| s@) =~= Seq::<Seq<char>>::empty());
    }
    while i < events.len()
        invariant
            i <= events@.len(),
            evs == events@.map_values(|e: Event| event_view(e)),
            stats.serum2_count <= i,
            ({
                let st = scan_events(evs.take(i as int));
                &&& channels@.map_values(|s: String| s@) == st.0
                &&& cur_channel == st.1
                &&& cur_fx_name@ == st.2
                &&& instances@.map_values(|i: Instance| instance_view(i)) == st.3
                &&& stats.serum2_count == st.4
                &&& stats.failed@.map_values(|s: String| s@) == st.5
            }),
        decreases events.len() - i,
    {
        let ev = &events[i];
        let ghost before = scan_events(evs.take(i as int));
        proof {
            assert(evs.take(i + 1).drop_last() =~= evs.take(i as int));
            assert(evs.take(i + 1).last() == event_view(*ev));
        }
        if ev.id == EV_NEW_CHANNEL {
            if ev.data.len() >= 2 {
                cur_channel = Some(read_u16_le(ev.data, 0));
            }
        } else if ev.id == EV_TEXT_CHANNEL_NAME {
            if let Some(ch) = cur_channel {
                let name = text(ev.data);
                let ghost nv = name@;
                channels.insert(ch, name);
                proof {
                    assert(channels@.map_values(|s: String| s@) =~= before.0.insert(ch, nv));
                }
            }
        } else if ev.id == EV_TEXT_FX_TRACK_NAME {
            cur_fx_name = text(ev.data);
        } else if ev.id == EV_PLUGIN_PARAMS {
            if let Ok(pp) = parse_plugin_params(ev.data) {
                if is_serum2(pp.name, pp.filename) {
                    stats.serum2_count += 1;
                } else if is_serum1(pp.name, pp.filename) && pp.state.len() > 0 {
                    match serum1_chunk_from_state(pp.state) {
                        Ok(chunk) => {
                            let channel = cur_channel;
                            let inst = Instance {
                                channel,
                                channel_name: channel_label(&channels, channel, &cur_fx_name),
                                plugin_name: text(pp.name),
                                chunk,
                            };
                            let ghost iv = instance_view(inst);
                            instances.push(inst);
                            proof {
                                assert(instances@.map_values(|i: Instance| instance_view(i))
                                    =~= before.3.push(iv));
                            }
                        },
                        Err(e) => {
                            let mut m = string_of("skipped a Serum plugin state (");
                            let w = channel_label(&channels, cur_channel, &cur_fx_name);
                            push_str(&mut m, w.as_str());
                            push_str(&mut m, "): ");
                            push_str(&mut m, e.as_str());
                            let ghost mv = m@;
                            stats.failed.push(m);
                            proof {
                                assert(stats.failed@.map_values(|s: String| s@) =~= before.5.push(
                                    mv,
                                ));
                            }
                        },
                    }
                }
            }
        }
        i += 1;
    }
    proof {
        assert(evs.take(events@.len() as int) =~= evs);
    }
    Ok((instances, stats))
}

} // verus!
