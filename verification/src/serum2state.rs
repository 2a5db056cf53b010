//! Serum2 `XferJson` state container assembly and parsing.
//!
//! Record layout (identical shape for processor, controller and preset
//! records):
//!
//! ```text
//! "XferJson\0" (9 bytes)
//! u64 LE  json header length
//! <json_len bytes>  JSON header, keys sorted, no NUL
//! u32 LE  uncompressed body size
//! u32 LE  format (2)
//! <one zstd frame>  (hash field in the JSON header = md5 of this frame)
//! ```

use vstd::prelude::*;
use vstd::arithmetic::power2::pow2;
use vstd::slice::slice_subrange;
use vstd::utf8::{decode_utf8, encode_scalar, encode_utf8, is_scalar, valid_utf8};
use crate::bytes::{
    copy_range, extend_from, has_at, le_bytes32, le_bytes64, le_u32, le_u64, push_u32_le,
    push_u64_le, read_u32_le, read_u64_le,
};
use crate::serum::{tag_xferjson, starts_bytes};
use crate::s2tree::{
    copy_val, decode_cbor, decode_spec, enc, enc_of, encode_cbor, entry_models, get_m,
    lemma_enc_of, lemma_get_model, lemma_entry_models_index, lemma_models_index,
    first_key_m, lemma_set_model, model, models_of, set_model, zstd_frame, zstd_level3, Val, ValModel,
};
use crate::strs::{
    decimal, hex2, hex4, push_char, push_decimal, push_decimal_wide, push_hex2, push_hex4, push_str, str_eq, string_of,
};

verus! {

broadcast use vstd::string::group_string_axioms;

// ---------------------------------------------------------------------------
// md5
/// The MD5 digest of `data` (`md-5`'s `Md5`).
pub uninterp spec fn md5_digest(data: Seq<u8>) -> Seq<u8>;

/// `md5::Md5::digest`-style hashing (`new`, `update`, `finalize`).
///
/// Claimed: the result is [`md5_digest`] of the input and is 16 bytes long
/// (MD5's output size).
#[verifier::external_body]
fn md5(data: &[u8]) -> (r: Vec<u8>)
    ensures
        r@ == md5_digest(data@),
        r@.len() == 16,
{
    let mut h = <md5::Md5 as md5::Digest>::new();
    md5::Digest::update(&mut h, data);
    md5::Digest::finalize(h).to_vec()
}

/// Bytes as lowercase hexadecimal, two digits each.
pub open spec fn hex_bytes(b: Seq<u8>) -> Seq<char>
    decreases b.len(),
{
    if b.len() == 0 {
        Seq::empty()
    } else {
        hex_bytes(b.drop_last()) + hex2(b.last() as nat)
    }
}

/// Lowercase hex MD5 of `data` (32 characters).
pub fn md5_hex(data: &[u8]) -> (r: String)
    ensures
        r@ == hex_bytes(md5_digest(data@)),
{
    let digest = md5(data);
    let mut out = String::new();
    let mut i: usize = 0;
    while i < digest.len()
        invariant
            i <= digest@.len(),
            out@ == hex_bytes(digest@.take(i as int)),
        decreases digest.len() - i,
    {
        push_hex2(&mut out, digest[i]);
        proof {
            assert(digest@.take(i + 1).drop_last() =~= digest@.take(i as int));
        }
        i += 1;
    }
    assert(digest@.take(digest@.len() as int) =~= digest@);
    out
}

// ---------------------------------------------------------------------------
// JSON text
/// JSON escaping of one character: quote, backslash and the named control
/// escapes, `\u00XX` for the other control characters.
pub open spec fn escape_char(c: char) -> Seq<char> {
    if c == '"' {
        seq!['\\', '"']
    } else if c == '\\' {
        seq!['\\', '\\']
    } else if c == '\n' {
        seq!['\\', 'n']
    } else if c == '\r' {
        seq!['\\', 'r']
    } else if c == '\t' {
        seq!['\\', 't']
    } else if c == '\u{8}' {
        seq!['\\', 'b']
    } else if c == '\u{c}' {
        seq!['\\', 'f']
    } else if (c as u32) < 0x20 {
        seq!['\\', 'u'] + hex4(c as nat)
    } else {
        seq![c]
    }
}

/// Minimal JSON string escaping of `s`.
pub open spec fn json_escape_spec(s: Seq<char>) -> Seq<char>
    decreases s.len(),
{
    if s.len() == 0 {
        Seq::empty()
    } else {
        json_escape_spec(s.drop_last()) + escape_char(s.last())
    }
}

fn push_escaped(out: &mut String, c: char)
    ensures
        final(out)@ == old(out)@ + escape_char(c),
{
    if c == '"' {
        push_char(out, '\\');
        push_char(out, '"');
    } else if c == '\\' {
        push_char(out, '\\');
        push_char(out, '\\');
    } else if c == '\n' {
        push_char(out, '\\');
        push_char(out, 'n');
    } else if c == '\r' {
        push_char(out, '\\');
        push_char(out, 'r');
    } else if c == '\t' {
        push_char(out, '\\');
        push_char(out, 't');
    } else if c == '\u{8}' {
        push_char(out, '\\');
        push_char(out, 'b');
    } else if c == '\u{c}' {
        push_char(out, '\\');
        push_char(out, 'f');
    } else if (c as u32) < 0x20 {
        push_char(out, '\\');
        push_char(out, 'u');
        push_hex4(out, c as u32);
    } else {
        push_char(out, c);
    }
    assert(out@ =~= old(out)@ + escape_char(c));
}

/// Appends the JSON-escaped form of `s`.
pub(crate) fn push_json_escaped(out: &mut String, s: &str)
    ensures
        final(out)@ == old(out)@ + json_escape_spec(s@),
{
    for c in it: s.chars()
        invariant
            it.seq() == s@,
            out@ == old(out)@ + json_escape_spec(s@.take(it.index() as int)),
    {
        let ghost k = it.index();
        push_escaped(out, c);
        proof {
            assert(s@.take(k + 1).drop_last() =~= s@.take(k as int));
            assert(s@.take(k + 1).last() == c);
            assert(out@ =~= old(out)@ + json_escape_spec(s@.take(k + 1)));
        }
    }
    assert(s@.take(s@.len() as int) =~= s@);
}

/// Minimal JSON string escaping (quotes, backslash, control chars).
pub fn json_escape(s: &str) -> (r: String)
    ensures
        r@ == json_escape_spec(s@),
{
    let mut out = String::new();
    push_json_escaped(&mut out, s);
    out
}

// ---------------------------------------------------------------------------
// JSON headers
/// Processor JSON header, keys sorted (`version` is the JSON number 9.0).
pub open spec fn processor_header_spec(md5: Seq<char>) -> Seq<char> {
    "{\"component\":\"processor\",\"hash\":\""@ + json_escape_spec(md5)
        + "\",\"product\":\"Serum2\",\"productVersion\":\"2.0.23\",\"url\":\"https://xferrecords.com/\",\"vendor\":\"Xfer Records\",\"version\":9.0}"@
}

/// Processor JSON header, keys sorted, byte-exact against the canonical
/// container builder (`version` is the JSON number 9.0).
pub fn processor_json_header(md5_hex_str: &str) -> (r: String)
    ensures
        r@ == processor_header_spec(md5_hex_str@),
{
    let mut out = string_of("{\"component\":\"processor\",\"hash\":\"");
    push_json_escaped(&mut out, md5_hex_str);
    push_str(
        &mut out,
        "\",\"product\":\"Serum2\",\"productVersion\":\"2.0.23\",\"url\":\"https://xferrecords.com/\",\"vendor\":\"Xfer Records\",\"version\":9.0}",
    );
    out
}

/// Controller JSON header, keys sorted; `version` verbatim, the other
/// fields JSON-escaped.
pub open spec fn controller_header_spec(
    md5: Seq<char>,
    name: Seq<char>,
    author: Seq<char>,
    description: Seq<char>,
    product_version: Seq<char>,
    version: Seq<char>,
) -> Seq<char> {
    "{\"component\":\"controller\",\"hash\":\""@ + json_escape_spec(md5)
        + "\",\"presetAuthor\":\""@ + json_escape_spec(author) + "\",\"presetDescription\":\""@
        + json_escape_spec(description) + "\",\"presetName\":\""@ + json_escape_spec(name)
        + "\",\"product\":\"Serum2\",\"productVersion\":\""@ + json_escape_spec(product_version)
        + "\",\"url\":\"https://xferrecords.com/\",\"vendor\":\"Xfer Records\",\"version\":"@
        + version + "}"@
}

/// Controller JSON header, keys sorted. `product_version` and `version` are
/// interpolated (callers pass e.g. `"2.0.22"` and `"8.0"`; `version` is a
/// JSON number and goes in verbatim). Free-text fields are JSON-escaped.
pub fn controller_json_header(
    md5_hex_str: &str,
    preset_name: &str,
    preset_author: &str,
    preset_description: &str,
    product_version: &str,
    version: &str,
) -> (r: String)
    ensures
        r@ == controller_header_spec(
            md5_hex_str@,
            preset_name@,
            preset_author@,
            preset_description@,
            product_version@,
            version@,
        ),
{
    let mut out = string_of("{\"component\":\"controller\",\"hash\":\"");
    push_json_escaped(&mut out, md5_hex_str);
    push_str(&mut out, "\",\"presetAuthor\":\"");
    push_json_escaped(&mut out, preset_author);
    push_str(&mut out, "\",\"presetDescription\":\"");
    push_json_escaped(&mut out, preset_description);
    push_str(&mut out, "\",\"presetName\":\"");
    push_json_escaped(&mut out, preset_name);
    push_str(&mut out, "\",\"product\":\"Serum2\",\"productVersion\":\"");
    push_json_escaped(&mut out, product_version);
    push_str(
        &mut out,
        "\",\"url\":\"https://xferrecords.com/\",\"vendor\":\"Xfer Records\",\"version\":",
    );
    push_str(&mut out, version);
    push_str(&mut out, "}");
    out
}

/// The quoted, escaped tags joined by commas (without the brackets).
pub open spec fn tag_items(tags: Seq<Seq<char>>) -> Seq<char>
    decreases tags.len(),
{
    if tags.len() == 0 {
        Seq::empty()
    } else if tags.len() == 1 {
        "\""@ + json_escape_spec(tags[0]) + "\""@
    } else {
        tag_items(tags.drop_last()) + ","@ + "\""@ + json_escape_spec(tags.last()) + "\""@
    }
}

/// A JSON array of the tags as strings.
pub open spec fn tags_json(tags: Seq<Seq<char>>) -> Seq<char> {
    "["@ + tag_items(tags) + "]"@
}

pub open spec fn strings_view(v: Seq<String>) -> Seq<Seq<char>> {
    v.map_values(|s: String| s@)
}

/// Appends the JSON array of `tags`.
pub fn push_tags_json(out: &mut String, tags: &[String])
    ensures
        final(out)@ == old(out)@ + tags_json(strings_view(tags@)),
{
    push_str(out, "[");
    let ghost tv = strings_view(tags@);
    let mut i: usize = 0;
    while i < tags.len()
        invariant
            i <= tags@.len(),
            tv == strings_view(tags@),
            out@ == old(out)@ + "["@ + tag_items(tv.take(i as int)),
        decreases tags.len() - i,
    {
        if i > 0 {
            push_str(out, ",");
        }
        push_str(out, "\"");
        push_json_escaped(out, tags[i].as_str());
        push_str(out, "\"");
        proof {
            assert(tv.take(i + 1).drop_last() =~= tv.take(i as int));
            assert(tv.take(i + 1).last() == tags@[i as int]@);
            if i == 0 {
                assert(tv.take(1)[0] == tags@[0]@);
            }
            assert(out@ =~= old(out)@ + "["@ + tag_items(tv.take(i + 1)));
        }
        i += 1;
    }
    assert(tv.take(tags@.len() as int) =~= tv);
    push_str(out, "]");
    assert(out@ =~= old(out)@ + tags_json(tv));
}

/// Serum2 preset-file JSON header, keys sorted; `version` verbatim, free
/// text escaped.
pub open spec fn preset_header_spec(
    md5: Seq<char>,
    name: Seq<char>,
    author: Seq<char>,
    description: Seq<char>,
    product: Seq<char>,
    product_version: Seq<char>,
    tags: Seq<Seq<char>>,
    version: Seq<char>,
) -> Seq<char> {
    "{\"fileType\":\"SerumPreset\",\"hash\":\""@ + json_escape_spec(md5)
        + "\",\"presetAuthor\":\""@ + json_escape_spec(author) + "\",\"presetDescription\":\""@
        + json_escape_spec(description) + "\",\"presetName\":\""@ + json_escape_spec(name)
        + "\",\"product\":\""@ + json_escape_spec(product) + "\",\"productVersion\":\""@
        + json_escape_spec(product_version) + "\",\"tags\":"@ + tags_json(tags)
        + ",\"url\":\"https://xferrecords.com/\",\"vendor\":\"Xfer Records\",\"version\":"@
        + version + "}"@
}

/// Serum2 preset-file JSON header, keys sorted (alphabetical), matching the
/// real factory presets. `version` is interpolated verbatim as a JSON
/// number ("9.0"); free text is escaped.
pub fn preset_json_header(
    md5_hex_str: &str,
    preset_name: &str,
    preset_author: &str,
    preset_description: &str,
    product: &str,
    product_version: &str,
    tags: &[String],
    version: &str,
) -> (r: String)
    ensures
        r@ == preset_header_spec(
            md5_hex_str@,
            preset_name@,
            preset_author@,
            preset_description@,
            product@,
            product_version@,
            strings_view(tags@),
            version@,
        ),
{
    let mut out = string_of("{\"fileType\":\"SerumPreset\",\"hash\":\"");
    push_json_escaped(&mut out, md5_hex_str);
    push_str(&mut out, "\",\"presetAuthor\":\"");
    push_json_escaped(&mut out, preset_author);
    push_str(&mut out, "\",\"presetDescription\":\"");
    push_json_escaped(&mut out, preset_description);
    push_str(&mut out, "\",\"presetName\":\"");
    push_json_escaped(&mut out, preset_name);
    push_str(&mut out, "\",\"product\":\"");
    push_json_escaped(&mut out, product);
    push_str(&mut out, "\",\"productVersion\":\"");
    push_json_escaped(&mut out, product_version);
    push_str(&mut out, "\",\"tags\":");
    push_tags_json(&mut out, tags);
    push_str(
        &mut out,
        ",\"url\":\"https://xferrecords.com/\",\"vendor\":\"Xfer Records\",\"version\":",
    );
    push_str(&mut out, version);
    push_str(&mut out, "}");
    out
}

// ---------------------------------------------------------------------------
// Records
/// `"XferJson\0"`
pub open spec fn record_magic() -> Seq<u8> {
    tag_xferjson().push(0u8)
}

pub(crate) fn record_magic_bytes() -> (v: Vec<u8>)
    ensures
        v@ == record_magic(),
{
    let v = vec![0x58u8, 0x66u8, 0x65u8, 0x72u8, 0x4Au8, 0x73u8, 0x6Fu8, 0x6Eu8, 0u8];
    assert(v@ =~= record_magic());
    v
}

/// A complete record: magic, the header's UTF-8 length (u64 LE), the
/// header, the body length and format (u32 LE each), the frame.
pub open spec fn record_bytes(header: Seq<char>, frame: Seq<u8>, body_len: u32, format: u32) -> Seq<u8> {
    record_magic() + le_bytes64(encode_utf8(header).len() as int) + encode_utf8(header)
        + le_bytes32(body_len as int) + le_bytes32(format as int) + frame
}

fn assemble(header: &str, frame: &[u8], body_len: u32, format: u32) -> (r: Vec<u8>)
    ensures
        r@ == record_bytes(header@, frame@, body_len, format),
{
    let mut out: Vec<u8> = Vec::new();
    extend_from(&mut out, record_magic_bytes().as_slice());
    let hb = header.as_bytes();
    push_u64_le(&mut out, hb.len() as u64);
    extend_from(&mut out, hb);
    push_u32_le(&mut out, body_len);
    push_u32_le(&mut out, format);
    extend_from(&mut out, frame);
    out
}

/// Build a complete processor `XferJson` record from a CBOR body tree:
/// encode canonically, wrap in a zstd frame, md5 the frame, assemble.
/// `bodyLen` = uncompressed CBOR byte length (modulo 2^32), `format` = 2,
/// `productVersion` = "2.0.23", `version` = 9.0. A compressor error comes
/// back as `Err`.
pub fn build_processor_record(body: &Val) -> (r: Result<Vec<u8>, String>)
    ensures
        match (r, zstd_level3(enc(*body))) {
            (Ok(rec), Ok(frame)) => rec@ == record_bytes(
                processor_header_spec(hex_bytes(md5_digest(frame))),
                frame,
                (enc(*body).len() % 0x1_0000_0000) as u32,
                2,
            ),
            (Err(a), Err(b)) => a@ == "zstd: "@ + b,
            _ => false,
        },
{
    let cbor = encode_cbor(body);
    let frame = zstd_frame(cbor.as_slice())?;
    let hash = md5_hex(frame.as_slice());
    let header = processor_json_header(hash.as_str());
    Ok(assemble(header.as_str(), frame.as_slice(), (cbor.len() as u64 % 4294967296) as u32, 2))
}

/// Wrap a given (unmodified) zstd frame, e.g. lifted from a real Serum2
/// controller instance, into a complete `XferJson` record. The caller is
/// responsible for the header text (including its `hash` field) and the
/// declared uncompressed size.
pub fn wrap_controller_frame(json_header: String, frame: &[u8], body_len: u32, format: u32) -> (r: Vec<u8>)
    ensures
        r@ == record_bytes(json_header@, frame@, body_len, format),
{
    assemble(json_header.as_str(), frame, body_len, format)
}

// ---------------------------------------------------------------------------
// Reading JSON string fields
/// `String::from_utf8(v).ok()`; claimed: `Some` exactly when `v` is valid
/// UTF-8 (std's definition, which vstd's `valid_utf8` states), holding the
/// decoded text.
#[verifier::external_body]
pub(crate) fn string_from_utf8(v: Vec<u8>) -> (r: Option<String>)
    ensures
        match r {
            Some(s) => valid_utf8(v@) && s@ == decode_utf8(v@),
            None => !valid_utf8(v@),
        },
{
    String::from_utf8(v).ok()
}

/// The first offset at or after `i` where `n` occurs in `h`.
pub open spec fn first_match(h: Seq<u8>, n: Seq<u8>, i: int) -> Option<int>
    decreases h.len() - i,
{
    if i < 0 || i + n.len() > h.len() {
        None
    } else if h.subrange(i, i + n.len()) == n {
        Some(i)
    } else if i >= h.len() {
        None
    } else {
        first_match(h, n, i + 1)
    }
}

pub proof fn lemma_first_match_bounds(h: Seq<u8>, n: Seq<u8>, i: int)
    ensures
        first_match(h, n, i) matches Some(p) ==> i <= p && p + n.len() <= h.len(),
    decreases h.len() - i,
{
    if !(i < 0 || i + n.len() > h.len()) && h.subrange(i, i + n.len()) != n && i < h.len() {
        lemma_first_match_bounds(h, n, i + 1);
    }
}

fn find_bytes(h: &[u8], n: &[u8]) -> (r: Option<usize>)
    ensures
        match r {
            Some(p) => first_match(h@, n@, 0) == Some(p as int),
            None => first_match(h@, n@, 0) is None,
        },
{
    let hl = h.len();
    let nl = n.len();
    if nl > hl {
        return None;
    }
    if nl == 0 {
        assert(h@.subrange(0, 0) =~= n@);
        return Some(0);
    }
    let mut i: usize = 0;
    while i <= hl - nl
        invariant
            hl == h@.len(),
            nl == n@.len() <= hl,
            nl > 0,
            i <= hl - nl + 1,
            first_match(h@, n@, 0) == first_match(h@, n@, i as int),
        decreases hl - nl + 1 - i,
    {
        if has_at(h, i, n) {
            return Some(i);
        }
        i += 1;
    }
    None
}

/// The value of an ASCII hexadecimal digit (`-1` for any other byte).
pub open spec fn hex_val(b: u8) -> int {
    if 0x30 <= b <= 0x39 {
        b - 0x30
    } else if 0x61 <= b <= 0x66 {
        b - 0x61 + 10
    } else if 0x41 <= b <= 0x46 {
        b - 0x41 + 10
    } else {
        -1
    }
}

/// `u32::from_str_radix(.., 16)` on the four bytes at `at`: an optional `+`
/// followed by hexadecimal digits only.
pub open spec fn parse_hex4(b: Seq<u8>, at: int) -> Option<u32> {
    let h0 = hex_val(b[at]);
    let h1 = hex_val(b[at + 1]);
    let h2 = hex_val(b[at + 2]);
    let h3 = hex_val(b[at + 3]);
    if b[at] == 0x2B {
        if h1 >= 0 && h2 >= 0 && h3 >= 0 {
            Some((h1 * 256 + h2 * 16 + h3) as u32)
        } else {
            None
        }
    } else if h0 >= 0 && h1 >= 0 && h2 >= 0 && h3 >= 0 {
        Some((h0 * 4096 + h1 * 256 + h2 * 16 + h3) as u32)
    } else {
        None
    }
}

fn hex_digit_value(b: u8) -> (r: Option<u32>)
    ensures
        match r {
            Some(v) => hex_val(b) >= 0 && v == hex_val(b),
            None => hex_val(b) < 0,
        },
{
    if 0x30 <= b && b <= 0x39 {
        Some((b - 0x30) as u32)
    } else if 0x61 <= b && b <= 0x66 {
        Some((b - 0x61 + 10) as u32)
    } else if 0x41 <= b && b <= 0x46 {
        Some((b - 0x41 + 10) as u32)
    } else {
        None
    }
}

fn hex4_at(b: &[u8], at: usize) -> (r: Option<u32>)
    requires
        at + 4 <= b@.len(),
    ensures
        r == parse_hex4(b@, at as int),
{
    let _n = b.len();
    let d1 = hex_digit_value(b[at + 1]);
    let d2 = hex_digit_value(b[at + 2]);
    let d3 = hex_digit_value(b[at + 3]);
    if b[at] == 0x2B {
        match (d1, d2, d3) {
            (Some(x1), Some(x2), Some(x3)) => Some(x1 * 256 + x2 * 16 + x3),
            _ => None,
        }
    } else {
        match (hex_digit_value(b[at]), d1, d2, d3) {
            (Some(x0), Some(x1), Some(x2), Some(x3)) => Some(x0 * 4096 + x1 * 256 + x2 * 16 + x3),
            _ => None,
        }
    }
}

/// Appends the UTF-8 encoding of the scalar `cp` (at most `0xFFFF`).
fn push_scalar(out: &mut Vec<u8>, cp: u32)
    requires
        is_scalar(cp),
        cp <= 0xFFFF,
    ensures
        final(out)@ == old(out)@ + encode_scalar(cp),
{
    if cp <= 0x7F {
        out.push((cp & 0x7F) as u8);
    } else if cp <= 0x7FF {
        out.push(0xC0 | ((cp >> 6) & 0x1F) as u8);
        out.push(0x80 | (cp & 0x3F) as u8);
    } else {
        out.push(0xE0 | ((cp >> 12) & 0x0F) as u8);
        out.push(0x80 | ((cp >> 6) & 0x3F) as u8);
        out.push(0x80 | (cp & 0x3F) as u8);
    }
    assert(out@ =~= old(out)@ + encode_scalar(cp));
}

/// The bytes of a JSON string body from `i` on (after the opening quote),
/// escapes resolved, up to the closing quote; `None` when the string does
/// not end or holds a bad escape.
pub open spec fn unescape(b: Seq<u8>, i: int, acc: Seq<u8>) -> Option<Seq<u8>>
    decreases b.len() - i,
{
    if i < 0 || i >= b.len() {
        None
    } else if b[i] == 0x22 {
        Some(acc)
    } else if b[i] == 0x5C {
        if i + 1 >= b.len() {
            None
        } else {
            let e = b[i + 1];
            if e == 0x22 {
                unescape(b, i + 2, acc.push(0x22))
            } else if e == 0x5C {
                unescape(b, i + 2, acc.push(0x5C))
            } else if e == 0x2F {
                unescape(b, i + 2, acc.push(0x2F))
            } else if e == 0x6E {
                unescape(b, i + 2, acc.push(0x0A))
            } else if e == 0x72 {
                unescape(b, i + 2, acc.push(0x0D))
            } else if e == 0x74 {
                unescape(b, i + 2, acc.push(0x09))
            } else if e == 0x62 {
                unescape(b, i + 2, acc.push(0x08))
            } else if e == 0x66 {
                unescape(b, i + 2, acc.push(0x0C))
            } else if e == 0x75 {
                if i + 6 > b.len() {
                    None
                } else {
                    match parse_hex4(b, i + 2) {
                        Some(cp) => if is_scalar(cp) {
                            unescape(b, i + 6, acc + encode_scalar(cp))
                        } else {
                            None
                        },
                        None => None,
                    }
                }
            } else {
                None
            }
        }
    } else {
        unescape(b, i + 1, acc.push(b[i]))
    }
}

/// The bytes searched for to find field `key`: `"key":"`.
pub open spec fn field_needle(key: Seq<char>) -> Seq<char> {
    "\""@ + key + "\":\""@
}

/// The string field `key` of a JSON header: the first `"key":"` found, its
/// value unescaped; `None` when missing, unterminated, badly escaped or not
/// UTF-8.
pub open spec fn json_field_spec(json: Seq<char>, key: Seq<char>) -> Option<Seq<char>> {
    let jb = encode_utf8(json);
    let nb = encode_utf8(field_needle(key));
    match first_match(jb, nb, 0) {
        None => None,
        Some(p) => match unescape(jb, p + nb.len(), Seq::empty()) {
            None => None,
            Some(out) => if valid_utf8(out) {
                Some(decode_utf8(out))
            } else {
                None
            },
        },
    }
}

pub open spec fn opt_string_view(o: Option<String>) -> Option<Seq<char>> {
    match o {
        Some(s) => Some(s@),
        None => None,
    }
}

/// Extract a JSON string field (`"key":"value"`) from a record header,
/// resolving the standard JSON escapes. Missing fields return `None`.
pub fn json_string_field(json: &str, key: &str) -> (r: Option<String>)
    ensures
        opt_string_view(r) == json_field_spec(json@, key@),
{
    let mut needle = string_of("\"");
    push_str(&mut needle, key);
    push_str(&mut needle, "\":\"");
    let nb = needle.as_str().as_bytes();
    let bytes = json.as_bytes();
    let len = bytes.len();
    proof {
        assert(needle@ == field_needle(key@));
        lemma_first_match_bounds(bytes@, nb@, 0);
    }
    let start = match find_bytes(bytes, nb) {
        Some(p) => p + nb.len(),
        None => return None,
    };
    let mut out: Vec<u8> = Vec::new();
    let mut i = start;
    while i < len
        invariant
            len == bytes@.len(),
            unescape(bytes@, start as int, Seq::empty()) == unescape(bytes@, i as int, out@),
            json_field_spec(json@, key@) == match unescape(bytes@, start as int, Seq::empty()) {
                None => None,
                Some(o) => if valid_utf8(o) {
                    Some(decode_utf8(o))
                } else {
                    None
                },
            },
        decreases len - i,
    {
        let b = bytes[i];
        if b == 0x22 {
            return string_from_utf8(out);
        }
        if b == 0x5C {
            if i + 1 >= len {
                return None;
            }
            let e = bytes[i + 1];
            if e == 0x22 {
                out.push(0x22);
            } else if e == 0x5C {
                out.push(0x5C);
            } else if e == 0x2F {
                out.push(0x2F);
            } else if e == 0x6E {
                out.push(0x0A);
            } else if e == 0x72 {
                out.push(0x0D);
            } else if e == 0x74 {
                out.push(0x09);
            } else if e == 0x62 {
                out.push(0x08);
            } else if e == 0x66 {
                out.push(0x0C);
            } else if e == 0x75 {
                if len - i < 6 {
                    return None;
                }
                let cp = match hex4_at(bytes, i + 2) {
                    Some(v) => v,
                    None => return None,
                };
                if !(cp <= 0x7F || (0x80 <= cp && cp <= 0x7FF) || (0x800 <= cp && cp <= 0xFFFF
                    && !(0xD800 <= cp && cp <= 0xDFFF))) {
                    return None;
                }
                push_scalar(&mut out, cp);
                i = i + 4;
            } else {
                return None;
            }
            i = i + 2;
        } else {
            out.push(b);
            i = i + 1;
        }
    }
    None
}

/// Preset identity carried by a Serum2 controller record's JSON header.
#[derive(Debug, Clone, Default, PartialEq, Eq)]
pub struct ControllerMeta {
    pub preset_name: String,
    pub preset_author: String,
    pub preset_description: String,
}

/// A missing field reads as empty.
pub open spec fn field_or_empty(json: Seq<char>, key: Seq<char>) -> Seq<char> {
    match json_field_spec(json, key) {
        Some(v) => v,
        None => Seq::empty(),
    }
}

fn field_or_default(json: &str, key: &str) -> (r: String)
    ensures
        r@ == field_or_empty(json@, key@),
{
    match json_string_field(json, key) {
        Some(v) => v,
        None => String::new(),
    }
}

/// Parse `presetName` / `presetAuthor` / `presetDescription` out of a
/// controller record's JSON header (missing fields stay empty).
pub fn controller_meta_from_json(json: &str) -> (r: ControllerMeta)
    ensures
        r.preset_name@ == field_or_empty(json@, "presetName"@),
        r.preset_author@ == field_or_empty(json@, "presetAuthor"@),
        r.preset_description@ == field_or_empty(json@, "presetDescription"@),
{
    ControllerMeta {
        preset_name: field_or_default(json, "presetName"),
        preset_author: field_or_default(json, "presetAuthor"),
        preset_description: field_or_default(json, "presetDescription"),
    }
}

/// Preset identity for the authored body's metadata keys.
#[derive(Debug, Clone, Default)]
pub struct PresetFileMeta {
    pub preset_name: String,
    pub preset_author: String,
    pub preset_description: String,
}

/// Preset identity for the `.SerumPreset` JSON header.
#[derive(Debug, Clone, Default)]
pub struct PresetHeader {
    pub preset_name: String,
    pub preset_author: String,
    pub preset_description: String,
}

// ---------------------------------------------------------------------------
// State body -> authored preset body

/// The entries of a map model (empty for any other value).
pub open spec fn obj_entries(v: ValModel) -> Seq<(Seq<char>, ValModel)> {
    match v {
        ValModel::Obj(e) => e,
        _ => Seq::empty(),
    }
}

/// Copying the first `n` entries of `m`, the `component` key left out,
/// each through a keyed set (a later duplicate key overwrites in place).
pub open spec fn copy_entries_upto(m: Seq<(Seq<char>, ValModel)>, n: int) -> Seq<(Seq<char>, ValModel)>
    decreases n,
{
    if n <= 0 {
        Seq::empty()
    } else {
        let acc = copy_entries_upto(m, n - 1);
        if m[n - 1].0 == "component"@ {
            acc
        } else {
            set_model(acc, m[n - 1].0, m[n - 1].1)
        }
    }
}

/// A one-key UI map.
pub open spec fn ui1_model(key: Seq<char>, v: ValModel) -> ValModel {
    ValModel::Obj(seq![(key, v)])
}

/// `f32` zero.
pub open spec fn zero32() -> ValModel {
    ValModel::F32(0)
}

/// The `Osc` UI entry.
pub open spec fn osc_ui_model() -> ValModel {
    ValModel::Obj(
        seq![
            ("kUIParamAutoSyncSlicing"@, zero32()),
            ("kUIParamShowMarkerAnimations"@, zero32()),
            ("kUIParamZoomToStartEnd"@, zero32()),
        ],
    )
}

/// The `ClipPlayer` UI map: preview clip 1/12 as f64 (bits
/// `0x3FB5555555555555`), selected clip 0.
pub open spec fn clip_ui_model() -> ValModel {
    ValModel::Obj(
        seq![
            ("kUIParamPreviewClip"@, ValModel::F64(0x3FB5_5555_5555_5555)),
            ("kUIParamSelectedClip"@, zero32()),
        ],
    )
}

/// The `SpectralOsc` UI entry.
pub open spec fn spectral_ui_model() -> ValModel {
    ValModel::Obj(
        seq![("kUIParamDisplayXYInput"@, zero32()), ("kUIParamShowWaveformDisplay"@, zero32())],
    )
}

/// `n` copies of `v`.
pub open spec fn copies(v: ValModel, n: nat) -> ValModel {
    ValModel::Array(Seq::new(n, |i: int| v))
}

/// The authored `.SerumPreset` body made from a processor state body: the
/// state's entries but `component`, then the metadata keys, then the
/// engine-type UI keys with the corpus-consensus defaults (`SerumGUI`'s
/// `kUIParamShowKeyboard` is 1.0, bits `0x3F800000`; all others are 0).
pub open spec fn authored_spec(
    state: ValModel,
    name: Seq<char>,
    author: Seq<char>,
    description: Seq<char>,
) -> ValModel {
    let base = copy_entries_upto(obj_entries(state), obj_entries(state).len() as int);
    let e = set_model(base, "fileType"@, ValModel::Text("SerumPreset"@));
    let e = set_model(e, "presetName"@, ValModel::Text(name));
    let e = set_model(e, "presetAuthor"@, ValModel::Text(author));
    let e = set_model(e, "presetDescription"@, ValModel::Text(description));
    let e = set_model(e, "arpBankDisplayName"@, ValModel::Text(Seq::empty()));
    let e = set_model(e, "clipBankDisplayName"@, ValModel::Text(Seq::empty()));
    let e = set_model(e, "Filter"@, ui1_model("kUIParamMixOrGain"@, zero32()));
    let e = set_model(e, "ClipPlayer"@, clip_ui_model());
    let e = set_model(e, "SerumGUI"@, ui1_model("kUIParamShowKeyboard"@, ValModel::F32(0x3F80_0000)));
    let e = set_model(e, "WTOsc"@, copies(ui1_model("kUIParamWTOverviewMouseTag"@, zero32()), 3));
    let e = set_model(e, "Osc"@, copies(osc_ui_model(), 5));
    let e = set_model(
        e,
        "MultiSampleOsc"@,
        copies(ui1_model("kUIParamMultiSampleOverviewMouseTag"@, zero32()), 3),
    );
    let e = set_model(e, "SpectralOsc"@, copies(spectral_ui_model(), 3));
    let e = set_model(e, "GranularOsc"@, copies(ui1_model("kUIParamDisplayXYInput"@, zero32()), 3));
    ValModel::Obj(e)
}

/// Sets `key` in the map `out` (see [`set_model`]).
fn put(out: &mut Val, key: &str, val: Val)
    requires
        *old(out) is Obj,
    ensures
        *final(out) is Obj,
        model(*final(out)) == ValModel::Obj(set_model(obj_entries(model(*old(out))), key@, model(val))),
{
    let ghost m = (*out)->Obj_0@;
    let ghost vm = model(val);
    out.set(key, val);
    proof {
        let m2 = (*out)->Obj_0@;
        lemma_set_model(m, m2, key@, val);
    }
}

/// A one-key map `{key: v}`.
fn ui1(key: &str, v: Val) -> (r: Val)
    ensures
        r is Obj,
        model(r) == ui1_model(key@, model(v)),
{
    let mut m = Val::obj();
    assert(entry_models(m->Obj_0@) =~= Seq::empty());
    put(&mut m, key, v);
    assert(set_model(Seq::empty(), key@, model(v)) =~= seq![(key@, model(v))]);
    m
}

/// A map of `f32` zeros under the given keys (distinct).
fn zeros2(k1: &str, k2: &str) -> (r: Val)
    requires
        k1@ != k2@,
    ensures
        model(r) == ValModel::Obj(seq![(k1@, zero32()), (k2@, zero32())]),
{
    let mut m = ui1(k1, Val::F32(0));
    put(&mut m, k2, Val::F32(0));
    assert(first_key_m(seq![(k1@, zero32())], k2@, 1) is None);
    assert(first_key_m(seq![(k1@, zero32())], k2@, 0) is None);
    assert(set_model(seq![(k1@, zero32())], k2@, zero32()) =~= seq![(k1@, zero32()), (k2@, zero32())]);
    m
}

/// An array of `n` maps made by `make`'s model `v`, built one by one.
fn ui_array_of(kind: u8, n: usize) -> (r: Val)
    requires
        kind < 5,
    ensures
        model(r) == copies(ui_entry_model(kind), n as nat),
{
    let mut items: Vec<Val> = Vec::new();
    let mut i: usize = 0;
    while i < n
        invariant
            i <= n,
            kind < 5,
            items@.len() == i,
            forall|j: int| 0 <= j < i ==> #[trigger] model(items@[j]) == ui_entry_model(kind),
        decreases n - i,
    {
        items.push(ui_entry(kind));
        i += 1;
    }
    proof {
        lemma_models_index(items@);
        assert(models_of(items@) =~= Seq::new(n as nat, |j: int| ui_entry_model(kind)));
    }
    Val::Array(items)
}

/// The per-slot UI entries of the engine-type arrays.
pub open spec fn ui_entry_model(kind: u8) -> ValModel {
    if kind == 0 {
        ui1_model("kUIParamWTOverviewMouseTag"@, zero32())
    } else if kind == 1 {
        osc_ui_model()
    } else if kind == 2 {
        ui1_model("kUIParamMultiSampleOverviewMouseTag"@, zero32())
    } else if kind == 3 {
        spectral_ui_model()
    } else {
        ui1_model("kUIParamDisplayXYInput"@, zero32())
    }
}

fn ui_entry(kind: u8) -> (r: Val)
    requires
        kind < 5,
    ensures
        model(r) == ui_entry_model(kind),
{
    proof {
        reveal_strlit("kUIParamZoomToStartEnd");
        reveal_strlit("kUIParamAutoSyncSlicing");
        reveal_strlit("kUIParamShowMarkerAnimations");
        reveal_strlit("kUIParamZoomToStartEnd");
        reveal_strlit("kUIParamDisplayXYInput");
        reveal_strlit("kUIParamShowWaveformDisplay");
    }
    if kind == 0 {
        ui1("kUIParamWTOverviewMouseTag", Val::F32(0))
    } else if kind == 1 {
        assert("kUIParamAutoSyncSlicing"@.len() != "kUIParamShowMarkerAnimations"@.len());
        let mut m = zeros2("kUIParamAutoSyncSlicing", "kUIParamShowMarkerAnimations");
        put(&mut m, "kUIParamZoomToStartEnd", Val::F32(0));
        proof {
            let e = seq![
                ("kUIParamAutoSyncSlicing"@, zero32()),
                ("kUIParamShowMarkerAnimations"@, zero32()),
            ];
            let k3 = "kUIParamZoomToStartEnd"@;
            assert(first_key_m(e, k3, 2) is None);
            assert(first_key_m(e, k3, 1) is None);
            assert(first_key_m(e, k3, 0) is None);
            assert(set_model(e, "kUIParamZoomToStartEnd"@, zero32()) =~= obj_entries(osc_ui_model()));
        }
        m
    } else if kind == 2 {
        ui1("kUIParamMultiSampleOverviewMouseTag", Val::F32(0))
    } else if kind == 3 {
        assert("kUIParamDisplayXYInput"@.len() != "kUIParamShowWaveformDisplay"@.len());
        zeros2("kUIParamDisplayXYInput", "kUIParamShowWaveformDisplay")
    } else {
        ui1("kUIParamDisplayXYInput", Val::F32(0))
    }
}

/// Convert an instantiated processor state body (a CBOR map) into the
/// authored `.SerumPreset` body format:
///
/// - the state-only `component` key is dropped;
/// - every other key (the per-instance sections `Oscillator0..4`, `Env0..3`,
///   `LFO0..9`, `ModSlot0..63`, ... and the meta keys `product`,
///   `productVersion`, `version`, `tags`, ...) is copied 1:1;
/// - the metadata keys (`fileType`, `presetName`, `presetAuthor`,
///   `presetDescription`, `arpBankDisplayName`, `clipBankDisplayName`) are
///   added; the bank display names are empty (the state carries no bank
///   info);
/// - the 8 engine-type UI keys (`WTOsc`, `Osc`, `MultiSampleOsc`,
///   `SpectralOsc`, `GranularOsc`, `Filter`, `ClipPlayer`, `SerumGUI`) are
///   synthesized with the consensus default values (the only non-zero one
///   is `kUIParamShowKeyboard` = 1.0).
pub fn state_body_to_authored(state: &Val, meta: PresetFileMeta) -> (r: Val)
    ensures
        model(r) == authored_spec(
            model(*state),
            meta.preset_name@,
            meta.preset_author@,
            meta.preset_description@,
        ),
{
    let mut out = Val::obj();
    assert(obj_entries(model(out)) =~= Seq::empty());
    match state {
        Val::Obj(m) => {
            proof {
                lemma_entry_models_index(m@);
            }
            let ghost em = entry_models(m@);
            let mut i: usize = 0;
            while i < m.len()
                invariant
                    i <= m@.len(),
                    *state == Val::Obj(*m),
                    em == entry_models(m@),
                    em.len() == m@.len(),
                    forall|j: int| 0 <= j < m@.len() ==> #[trigger] em[j] == (m@[j].0@, model(m@[j].1)),
                    out is Obj,
                    model(out) == ValModel::Obj(copy_entries_upto(em, i as int)),
                decreases m.len() - i,
            {
                proof {
                    reveal_strlit("component");
                }
                assert(em[i as int] == (m@[i as int].0@, model(m@[i as int].1)));
                if !str_eq(m[i].0.as_str(), "component") {
                    put(&mut out, m[i].0.as_str(), copy_val(&m[i].1));
                }
                i += 1;
            }
        },
        _ => {},
    }
    put(&mut out, "fileType", Val::Text(string_of("SerumPreset")));
    put(&mut out, "presetName", Val::Text(meta.preset_name));
    put(&mut out, "presetAuthor", Val::Text(meta.preset_author));
    put(&mut out, "presetDescription", Val::Text(meta.preset_description));
    put(&mut out, "arpBankDisplayName", Val::Text(String::new()));
    put(&mut out, "clipBankDisplayName", Val::Text(String::new()));
    put(&mut out, "Filter", ui1("kUIParamMixOrGain", Val::F32(0)));
    let mut clip = ui1("kUIParamPreviewClip", Val::F64(0x3FB5_5555_5555_5555));
    put(&mut clip, "kUIParamSelectedClip", Val::F32(0));
    proof {
        reveal_strlit("kUIParamPreviewClip");
        reveal_strlit("kUIParamSelectedClip");
        let k2 = "kUIParamSelectedClip"@;
        let e = seq![("kUIParamPreviewClip"@, ValModel::F64(0x3FB5_5555_5555_5555))];
        assert("kUIParamPreviewClip"@.len() != k2.len());
        assert(first_key_m(e, k2, 1) is None);
        assert(first_key_m(e, k2, 0) is None);
        assert(set_model(e, k2, zero32()) =~= obj_entries(clip_ui_model()));
    }
    put(&mut out, "ClipPlayer", clip);
    put(&mut out, "SerumGUI", ui1("kUIParamShowKeyboard", Val::F32(0x3F80_0000)));
    put(&mut out, "WTOsc", ui_array_of(0, 3));
    put(&mut out, "Osc", ui_array_of(1, 5));
    put(&mut out, "MultiSampleOsc", ui_array_of(2, 3));
    put(&mut out, "SpectralOsc", ui_array_of(3, 3));
    put(&mut out, "GranularOsc", ui_array_of(4, 3));
    out
}

// ---------------------------------------------------------------------------
// Preset files

/// A numeric tree value as plain data: float bit patterns or integers.
#[derive(Debug, Clone, Copy, PartialEq, Eq, Structural)]
pub enum Number {
    F32(u32),
    F64(u64),
    UInt(u64),
    Int(i64),
}

/// The number a tree value holds, if it is numeric.
pub open spec fn number_of(v: Option<ValModel>) -> Option<Number> {
    match v {
        Some(ValModel::F32(b)) => Some(Number::F32(b)),
        Some(ValModel::F64(b)) => Some(Number::F64(b)),
        Some(ValModel::UInt(u)) => Some(Number::UInt(u)),
        Some(ValModel::Int(i)) => Some(Number::Int(i)),
        _ => None,
    }
}

/// 10^15, below which an integral header version prints with one decimal.
pub open spec fn int_print_limit() -> nat {
    1_000_000_000_000_000
}

/// Sign and magnitude of an `f32` (by its bits) that is integral with
/// magnitude below 10^15; `None` otherwise (fractional, infinite, NaN or
/// large). Fields: sign bit, 8-bit exponent `e`, 23-bit fraction `f`; the
/// value is `(2^23 + f) * 2^(e - 150)` for `e >= 1`.
pub open spec fn f32_integral(b: u32) -> Option<(bool, nat)> {
    let neg = b >= 0x8000_0000u32;
    let e = (b as nat / 0x80_0000) % 0x100;
    let f = b as nat % 0x80_0000;
    if e == 0 && f == 0 {
        Some((neg, 0))
    } else if 127 <= e < 150 {
        if f % pow2((150 - e) as nat) == 0 {
            Some((neg, (f + 0x80_0000) / pow2((150 - e) as nat)))
        } else {
            None
        }
    } else if 150 <= e < 255 {
        let v = (f + 0x80_0000) * pow2((e - 150) as nat);
        if v < int_print_limit() {
            Some((neg, v))
        } else {
            None
        }
    } else {
        None
    }
}

/// Sign and magnitude of an `f64` (by its bits) that is integral with
/// magnitude below 10^15; `None` otherwise. Fields: sign bit, 11-bit
/// exponent `e`, 52-bit fraction `f`; the value is
/// `(2^52 + f) * 2^(e - 1075)` for `e >= 1` (from `e = 1075` on it is at
/// least 2^52, above 10^15).
pub open spec fn f64_integral(b: u64) -> Option<(bool, nat)> {
    let neg = b >= 0x8000_0000_0000_0000u64;
    let e = (b as nat / 0x10_0000_0000_0000) % 0x800;
    let f = b as nat % 0x10_0000_0000_0000;
    if e == 0 && f == 0 {
        Some((neg, 0))
    } else if 1023 <= e < 1075 {
        let p = pow2((1075 - e) as nat);
        if f % p == 0 && (f + 0x10_0000_0000_0000) / p < int_print_limit() {
            Some((neg, (f + 0x10_0000_0000_0000) / p))
        } else {
            None
        }
    } else {
        None
    }
}

/// `{:.1}` of an integral number: sign, digits, `.0`.
pub open spec fn int_text(neg: bool, mag: nat) -> Seq<char> {
    (if neg {
        "-"@
    } else {
        Seq::empty()
    }) + decimal(mag) + ".0"@
}

/// The header `version` text when it is fixed without float printing:
/// `9.0` when there is no numeric version; one decimal for integral values
/// below 10^15 in magnitude. `None` when the value needs the shortest float
/// representation.
pub open spec fn version_text_spec(n: Option<Number>) -> Option<Seq<char>> {
    match n {
        None => Some("9.0"@),
        Some(Number::F32(b)) => match f32_integral(b) {
            Some((neg, m)) => Some(int_text(neg, m)),
            None => None,
        },
        Some(Number::F64(b)) => match f64_integral(b) {
            Some((neg, m)) => Some(int_text(neg, m)),
            None => None,
        },
        Some(Number::UInt(u)) => if u < int_print_limit() {
            Some(int_text(false, u as nat))
        } else {
            None
        },
        Some(Number::Int(i)) => if -int_print_limit() < i < int_print_limit() {
            Some(int_text(i < 0, (if i < 0 { -(i as int) } else { i as int }) as nat))
        } else {
            None
        },
    }
}

/// `2^k` for `k < 64`.
fn pow2_u64(k: u64) -> (r: u64)
    requires
        k < 64,
    ensures
        r == pow2(k as nat),
        r > 0,
{
    proof {
        vstd::arithmetic::power2::lemma_pow2_pos(k as nat);
        vstd::bits::lemma_u64_pow2_no_overflow(k as nat);
        vstd::bits::lemma_u64_shl_is_mul(1u64, k);
    }
    1u64 << k
}

fn f32_integral_exec(b: u32) -> (r: Option<(bool, u64)>)
    ensures
        match r {
            Some((neg, m)) => f32_integral(b) == Some((neg, m as nat)),
            None => f32_integral(b) is None,
        },
{
    let neg = b >= 0x8000_0000;
    let e = (b / 0x80_0000) % 0x100;
    let f = (b % 0x80_0000) as u64;
    if e == 0 && f == 0 {
        return Some((neg, 0));
    }
    if e >= 127 && e < 150 {
        let p = pow2_u64((150 - e) as u64);
        if f % p == 0 {
            return Some((neg, (f + 0x80_0000) / p));
        }
        return None;
    }
    if e >= 150 && e < 255 {
        let k = (e - 150) as u64;
        if k > 26 {
            proof {
                vstd::arithmetic::power2::lemma2_to64();
                if k > 27 {
                    vstd::arithmetic::power2::lemma_pow2_strictly_increases(27, k as nat);
                }
                assert((f + 0x80_0000) * pow2(k as nat) >= 0x80_0000 * 0x800_0000) by (nonlinear_arith)
                    requires
                        pow2(k as nat) >= 0x800_0000,
                        f >= 0,
                ;
            }
            return None;
        }
        let p = pow2_u64(k);
        proof {
            vstd::arithmetic::power2::lemma2_to64();
            if k < 26 {
                vstd::arithmetic::power2::lemma_pow2_strictly_increases(k as nat, 26);
            }
            assert((f + 0x80_0000) * p <= 0x100_0000 * 0x400_0000) by (nonlinear_arith)
                requires
                    p <= 0x400_0000,
                    f < 0x80_0000,
            ;
        }
        let v = (f + 0x80_0000) * p;
        if v < 1_000_000_000_000_000 {
            return Some((neg, v));
        }
        return None;
    }
    None
}

fn f64_integral_exec(b: u64) -> (r: Option<(bool, u64)>)
    ensures
        match r {
            Some((neg, m)) => f64_integral(b) == Some((neg, m as nat)),
            None => f64_integral(b) is None,
        },
{
    let neg = b >= 0x8000_0000_0000_0000;
    let e = (b / 0x10_0000_0000_0000) % 0x800;
    let f = b % 0x10_0000_0000_0000;
    if e == 0 && f == 0 {
        return Some((neg, 0));
    }
    if e >= 1023 && e < 1075 {
        let p = pow2_u64(1075 - e);
        if f % p == 0 && (f + 0x10_0000_0000_0000) / p < 1_000_000_000_000_000 {
            return Some((neg, (f + 0x10_0000_0000_0000) / p));
        }
    }
    None
}

/// Push `{:.1}` of an integral number.
fn push_int_text(out: &mut String, neg: bool, mag: u64)
    ensures
        final(out)@ == old(out)@ + int_text(neg, mag as nat),
{
    if neg {
        push_str(out, "-");
    }
    push_decimal(out, mag);
    push_str(out, ".0");
    proof {
        reveal_strlit("-");
        reveal_strlit(".0");
    }
    assert(final(out)@ =~= old(out)@ + int_text(neg, mag as nat));
}

/// The header `version` text when no float printing is needed (see
/// [`version_text_spec`]).
pub fn version_text(n: Option<Number>) -> (r: Option<String>)
    ensures
        match r {
            Some(t) => version_text_spec(n) == Some(t@),
            None => version_text_spec(n) is None,
        },
{
    let mut out = String::new();
    match n {
        None => {
            return Some(string_of("9.0"));
        },
        Some(Number::F32(b)) => match f32_integral_exec(b) {
            Some((neg, m)) => push_int_text(&mut out, neg, m),
            None => {
                return None;
            },
        },
        Some(Number::F64(b)) => match f64_integral_exec(b) {
            Some((neg, m)) => push_int_text(&mut out, neg, m),
            None => {
                return None;
            },
        },
        Some(Number::UInt(u)) => {
            if u < 1_000_000_000_000_000 {
                push_int_text(&mut out, false, u);
            } else {
                return None;
            }
        },
        Some(Number::Int(i)) => {
            if -1_000_000_000_000_000 < i && i < 1_000_000_000_000_000 {
                let mag: u64 = if i < 0 {
                    (-i) as u64
                } else {
                    i as u64
                };
                push_int_text(&mut out, i < 0, mag);
            } else {
                return None;
            }
        },
    }
    Some(out)
}

/// The number stored under `key` in `v`.
fn number_at(v: &Val, key: &str) -> (r: Option<Number>)
    ensures
        r == number_of(get_m(model(*v), key@)),
{
    proof {
        lemma_get_model(*v, key@);
    }
    match v.get(key) {
        Some(Val::F32(b)) => Some(Number::F32(*b)),
        Some(Val::F64(b)) => Some(Number::F64(*b)),
        Some(Val::UInt(u)) => Some(Number::UInt(*u)),
        Some(Val::Int(i)) => Some(Number::Int(*i)),
        _ => None,
    }
}

/// The text stored under `key` in `v`, or `default`.
pub open spec fn text_or(v: Option<ValModel>, default: Seq<char>) -> Seq<char> {
    match v {
        Some(ValModel::Text(t)) => t,
        _ => default,
    }
}

fn text_at_or(v: &Val, key: &str, default: &str) -> (r: String)
    ensures
        r@ == text_or(get_m(model(*v), key@), default@),
{
    proof {
        lemma_get_model(*v, key@);
    }
    match v.get(key) {
        Some(Val::Text(t)) => t.clone(),
        _ => string_of(default),
    }
}

/// The text items of an array, in order (other items skipped).
pub open spec fn text_items(items: Seq<ValModel>) -> Seq<Seq<char>>
    decreases items.len(),
{
    if items.len() == 0 {
        Seq::empty()
    } else {
        let head = text_items(items.drop_last());
        match items.last() {
            ValModel::Text(t) => head.push(t),
            _ => head,
        }
    }
}

/// The `tags` texts of an authored body.
pub open spec fn tags_of(a: ValModel) -> Seq<Seq<char>> {
    match get_m(a, "tags"@) {
        Some(ValModel::Array(items)) => text_items(items),
        _ => Seq::empty(),
    }
}

fn tags_at(v: &Val) -> (r: Vec<String>)
    ensures
        strings_view(r@) == tags_of(model(*v)),
{
    proof {
        lemma_get_model(*v, "tags"@);
    }
    let mut out: Vec<String> = Vec::new();
    match v.get("tags") {
        Some(Val::Array(items)) => {
            proof {
                lemma_models_index(items@);
            }
            let ghost ms = models_of(items@);
            let mut i: usize = 0;
            while i < items.len()
                invariant
                    i <= items@.len(),
                    ms == models_of(items@),
                    ms.len() == items@.len(),
                    forall|j: int| 0 <= j < items@.len() ==> #[trigger] ms[j] == model(items@[j]),
                    strings_view(out@) == text_items(ms.take(i as int)),
                decreases items.len() - i,
            {
                assert(ms.take(i + 1).drop_last() =~= ms.take(i as int));
                assert(ms[i as int] == model(items@[i as int]));
                match &items[i] {
                    Val::Text(t) => {
                        out.push(t.clone());
                        assert(strings_view(out@) =~= text_items(ms.take(i as int)).push(t@));
                    },
                    _ => {},
                }
                i += 1;
            }
            assert(ms.take(items@.len() as int) =~= ms);
        },
        _ => {},
    }
    out
}

/// How the header `version` text relates to the number printer: fixed
/// text where no float printing is needed, otherwise some output of
/// `print_number` for the number.
pub open spec fn version_chosen<F: Fn(Number) -> String>(print_number: F, n: Option<Number>, vt: Seq<char>) -> bool {
    match version_text_spec(n) {
        Some(t) => vt == t,
        None => n matches Some(x) && exists|s: String| s@ == vt && print_number.ensures((x,), s),
    }
}

/// The bytes of a `.SerumPreset` file for the authored body `a` whose
/// canonical CBOR is `body_len` bytes and whose zstd frame is `frame`.
pub open spec fn preset_file_spec(
    a: ValModel,
    frame: Seq<u8>,
    body_len: nat,
    name: Seq<char>,
    author: Seq<char>,
    description: Seq<char>,
    version: Seq<char>,
) -> Seq<u8> {
    record_bytes(
        preset_header_spec(
            hex_bytes(md5_digest(frame)),
            name,
            author,
            description,
            text_or(get_m(a, "product"@), "Serum2"@),
            text_or(get_m(a, "productVersion"@), "2.0.23"@),
            tags_of(a),
            version,
        ),
        frame,
        (body_len % 0x1_0000_0000) as u32,
        2,
    )
}

/// The outcome of building a preset file from the authored body `a`.
pub open spec fn preset_file_outcome<F: Fn(Number) -> String>(
    r: Result<Vec<u8>, String>,
    a: ValModel,
    header: PresetHeader,
    print_number: F,
) -> bool {
    match (r, zstd_level3(enc_of(a))) {
        (Ok(b), Ok(frame)) => exists|vt: Seq<char>|
            version_chosen(print_number, number_of(get_m(a, "version"@)), vt) && b@ == preset_file_spec(
                a,
                frame,
                enc_of(a).len(),
                header.preset_name@,
                header.preset_author@,
                header.preset_description@,
                vt,
            ),
        (Err(x), Err(e)) => x@ == "zstd: "@ + e,
        _ => false,
    }
}

/// Build a complete `.SerumPreset` file from an authored body: encode
/// canonically, wrap in a zstd frame, md5 the frame, assemble with the
/// preset JSON header. `tags`, `product`, `productVersion` and `version`
/// are taken from the body itself; missing values fall back to the
/// current-build constants (`"Serum2"` / `"2.0.23"` / `9.0`). An integral
/// `version` below 10^15 in magnitude prints with one decimal (`9.0`);
/// any other number is printed by `print_number` (the shortest float
/// representation). A compressor error comes back as `Err`.
pub fn build_preset_file<F: Fn(Number) -> String>(authored: &Val, header: PresetHeader, print_number: F) -> (r: Result<Vec<u8>, String>)
    requires
        forall|n: Number| print_number.requires((n,)),
    ensures
        preset_file_outcome(r, model(*authored), header, print_number),
{
    proof {
        lemma_enc_of(*authored);
    }
    let cbor = encode_cbor(authored);
    let frame = zstd_frame(cbor.as_slice())?;
    let product = text_at_or(authored, "product", "Serum2");
    let product_version = text_at_or(authored, "productVersion", "2.0.23");
    let n = number_at(authored, "version");
    let version = match version_text(n) {
        Some(t) => t,
        None => {
            let x = n.unwrap();
            print_number(x)
        },
    };
    let tags = tags_at(authored);
    let json = preset_json_header(
        md5_hex(frame.as_slice()).as_str(),
        header.preset_name.as_str(),
        header.preset_author.as_str(),
        header.preset_description.as_str(),
        product.as_str(),
        product_version.as_str(),
        tags.as_slice(),
        version.as_str(),
    );
    let out = assemble(json.as_str(), frame.as_slice(), (cbor.len() as u64 % 4294967296) as u32, 2);
    assert(version_chosen(print_number, n, version@));
    Ok(out)
}

/// What turning a processor record into a preset file gives: the record's
/// frame is decompressed, decoded, converted to the authored format and
/// re-encoded into a fresh container.
pub open spec fn preset_from_processor_outcome<F: Fn(Number) -> String>(
    r: Result<Vec<u8>, String>,
    processor: Seq<u8>,
    meta: ControllerMeta,
    print_number: F,
) -> bool {
    match xfer_json_spec(processor) {
        Err(e) => r matches Err(x) && x@ == e,
        Ok((_, _, _, foff)) => match zstd_decode(processor.subrange(foff, processor.len() as int)) {
            Err(e) => r matches Err(x) && x@ == "zstd: "@ + e,
            Ok(body) => match decode_spec(body) {
                Err(e) => r matches Err(x) && x@ == e,
                Ok(state) => preset_file_outcome(
                    r,
                    authored_spec(
                        state,
                        meta.preset_name@,
                        meta.preset_author@,
                        meta.preset_description@,
                    ),
                    PresetHeader {
                        preset_name: meta.preset_name,
                        preset_author: meta.preset_author,
                        preset_description: meta.preset_description,
                    },
                    print_number,
                ),
            },
        },
    }
}

/// One-shot `.SerumPreset` assembly from a Serum2 processor record (the
/// inner cid-3 `XferJson` payload of a plugin instance) plus the controller
/// metadata (preset name/author/description). The processor state body is
/// decompressed, converted to the authored format
/// ([`state_body_to_authored`]) and re-encoded into a fresh container
/// ([`build_preset_file`], recomputed md5).
pub fn preset_file_from_processor<F: Fn(Number) -> String>(
    processor: &[u8],
    meta: ControllerMeta,
    print_number: F,
) -> (r: Result<Vec<u8>, String>)
    requires
        forall|n: Number| print_number.requires((n,)),
    ensures
        preset_from_processor_outcome(r, processor@, meta, print_number),
{
    let (_, _, _, foff) = parse_xfer_json(processor)?;
    let body = decode_zstd(slice_subrange(processor, foff, processor.len()))?;
    let state = decode_cbor(body.as_slice())?;
    let ghost m = meta;
    let authored = state_body_to_authored(
        &state,
        PresetFileMeta {
            preset_name: meta.preset_name.clone(),
            preset_author: meta.preset_author.clone(),
            preset_description: meta.preset_description.clone(),
        },
    );
    build_preset_file(
        &authored,
        PresetHeader {
            preset_name: meta.preset_name,
            preset_author: meta.preset_author,
            preset_description: meta.preset_description,
        },
        print_number,
    )
}

// ---------------------------------------------------------------------------
// Parsing records
/// Parsing an `XferJson` record: the JSON text, the declared body size, the
/// format, and where the frame starts.
pub open spec fn xfer_json_spec(record: Seq<u8>) -> Result<(Seq<char>, u32, u32, int), Seq<char>> {
    let len = record.len();
    if len < 17 || record.subrange(0, 9) != record_magic() {
        Err(
            "XferJson: bad magic at byte 0 ("@ + decimal(len)
                + " bytes total), expected \"XferJson\\0\""@,
        )
    } else {
        let json_end = 17 + (le_u64(record, 9) as usize) as int;
        if json_end > usize::MAX {
            Err("XferJson: json length overflow"@)
        } else if len < json_end + 8 {
            Err(
                "XferJson: truncated record at byte "@ + decimal(len) + " (need "@ + decimal(
                    (json_end + 8) as nat,
                ) + " for JSON + u32 pair)"@,
            )
        } else {
            let jb = record.subrange(17, json_end);
            if !valid_utf8(jb) {
                Err("XferJson: JSON header is not valid UTF-8"@)
            } else {
                Ok(
                    (
                        decode_utf8(jb),
                        le_u32(record, json_end) as u32,
                        le_u32(record, json_end + 4) as u32,
                        json_end + 8,
                    ),
                )
            }
        }
    }
}

proof fn lemma_sub_left(a: Seq<u8>, b: Seq<u8>, lo: int, hi: int)
    requires
        0 <= lo <= hi <= a.len(),
    ensures
        (a + b).subrange(lo, hi) == a.subrange(lo, hi),
{
    assert((a + b).subrange(lo, hi) =~= a.subrange(lo, hi));
}

proof fn lemma_sub_right(a: Seq<u8>, b: Seq<u8>, lo: int, hi: int)
    requires
        a.len() <= lo <= hi <= a.len() + b.len(),
    ensures
        (a + b).subrange(lo, hi) == b.subrange(lo - a.len(), hi - a.len()),
{
    assert((a + b).subrange(lo, hi) =~= b.subrange(lo - a.len(), hi - a.len()));
}

/// Where the parts of an `XferJson` record stand.
proof fn lemma_record_layout(header: Seq<char>, frame: Seq<u8>, body_len: u32, format: u32)
    ensures
        ({
            let jb = encode_utf8(header);
            let je = 17 + jb.len() as int;
            let rec = record_bytes(header, frame, body_len, format);
            &&& rec.len() == je + 8 + frame.len()
            &&& rec.subrange(0, 9) == record_magic()
            &&& rec.subrange(9, 17) == le_bytes64(jb.len() as int)
            &&& rec.subrange(17, je) == jb
            &&& rec.subrange(je, je + 4) == le_bytes32(body_len as int)
            &&& rec.subrange(je + 4, je + 8) == le_bytes32(format as int)
            &&& rec.subrange(je + 8, rec.len() as int) == frame
        }),
{
    let jb = encode_utf8(header);
    let je = 17 + jb.len() as int;
    let p1 = record_magic() + le_bytes64(jb.len() as int);
    let p2 = p1 + jb;
    let p3 = p2 + le_bytes32(body_len as int);
    let p4 = p3 + le_bytes32(format as int);
    let rec = p4 + frame;
    assert(record_bytes(header, frame, body_len, format) == rec);
    assert(p1.len() == 17);
    assert(p4.len() == je + 8);
    lemma_sub_left(p4, frame, 0, 9);
    lemma_sub_left(p3, le_bytes32(format as int), 0, 9);
    lemma_sub_left(p2, le_bytes32(body_len as int), 0, 9);
    lemma_sub_left(p1, jb, 0, 9);
    lemma_sub_left(record_magic(), le_bytes64(jb.len() as int), 0, 9);
    assert(record_magic().subrange(0, 9) =~= record_magic());
    lemma_sub_left(p4, frame, 9, 17);
    lemma_sub_left(p3, le_bytes32(format as int), 9, 17);
    lemma_sub_left(p2, le_bytes32(body_len as int), 9, 17);
    lemma_sub_left(p1, jb, 9, 17);
    lemma_sub_right(record_magic(), le_bytes64(jb.len() as int), 9, 17);
    assert(le_bytes64(jb.len() as int).subrange(0, 8) =~= le_bytes64(jb.len() as int));
    lemma_sub_left(p4, frame, 17, je);
    lemma_sub_left(p3, le_bytes32(format as int), 17, je);
    lemma_sub_left(p2, le_bytes32(body_len as int), 17, je);
    lemma_sub_right(p1, jb, 17, je);
    assert(jb.subrange(0, jb.len() as int) =~= jb);
    lemma_sub_left(p4, frame, je, je + 4);
    lemma_sub_left(p3, le_bytes32(format as int), je, je + 4);
    lemma_sub_right(p2, le_bytes32(body_len as int), je, je + 4);
    assert(le_bytes32(body_len as int).subrange(0, 4) =~= le_bytes32(body_len as int));
    lemma_sub_left(p4, frame, je + 4, je + 8);
    lemma_sub_right(p3, le_bytes32(format as int), je + 4, je + 8);
    assert(le_bytes32(format as int).subrange(0, 4) =~= le_bytes32(format as int));
    lemma_sub_right(p4, frame, je + 8, rec.len() as int);
    assert(frame.subrange(0, frame.len() as int) =~= frame);
}

/// A record laid out as magic, JSON length, JSON, body size, format and
/// frame parses into those parts.
#[verifier::spinoff_prover]
#[verifier::rlimit(40)]
proof fn lemma_parse_laid_out(rec: Seq<u8>, header: Seq<char>, frame: Seq<u8>, body_len: u32, format: u32)
    requires
        encode_utf8(header).len() + 25 <= usize::MAX,
        ({
            let jb = encode_utf8(header);
            let je = 17 + jb.len() as int;
            &&& rec.len() == je + 8 + frame.len()
            &&& rec.subrange(0, 9) == record_magic()
            &&& rec.subrange(9, 17) == le_bytes64(jb.len() as int)
            &&& rec.subrange(17, je) == jb
            &&& rec.subrange(je, je + 4) == le_bytes32(body_len as int)
            &&& rec.subrange(je + 4, je + 8) == le_bytes32(format as int)
        }),
    ensures
        xfer_json_spec(rec) == Ok::<(Seq<char>, u32, u32, int), Seq<char>>(
            (header, body_len, format, 25 + encode_utf8(header).len() as int),
        ),
{
    let jb = encode_utf8(header);
    let jl = jb.len();
    let json_end: int = 17 + jl as int;
    let l64 = le_bytes64(jl as int);
    let lo = jl as int % 4294967296;
    let hi = jl as int / 4294967296;
    assert(0 <= hi < 4294967296 && lo + 4294967296 * hi == jl) by (nonlinear_arith)
        requires
            lo == jl as int % 4294967296,
            hi == jl as int / 4294967296,
            jl <= usize::MAX,
            usize::MAX < 4294967296 * 4294967296,
    ;
    assert(rec.subrange(9, 13) =~= rec.subrange(9, 17).subrange(0, 4));
    assert(rec.subrange(13, 17) =~= rec.subrange(9, 17).subrange(4, 8));
    assert(l64.subrange(0, 4) =~= le_bytes32(lo));
    assert(l64.subrange(4, 8) =~= le_bytes32(hi));
    crate::bytes::lemma_le_field(rec, 9, lo);
    crate::bytes::lemma_le_field(rec, 13, hi);
    assert(le_u64(rec, 9) == jl);
    assert(((le_u64(rec, 9) as u64) as usize) as int == jl);
    crate::bytes::lemma_le_field(rec, json_end, body_len as int);
    crate::bytes::lemma_le_field(rec, json_end + 4, format as int);
    vstd::utf8::encode_utf8_valid_utf8(header);
    vstd::utf8::encode_utf8_decode_utf8(header);
}

/// An `XferJson` record reads back: parsing what the wrapper assembles
/// gives its JSON header, body size and format, and the frame follows
/// right after them.
pub proof fn lemma_record_reads_back(header: Seq<char>, frame: Seq<u8>, body_len: u32, format: u32)
    requires
        encode_utf8(header).len() + 25 <= usize::MAX,
    ensures
        ({
            let rec = record_bytes(header, frame, body_len, format);
            let start = 25 + encode_utf8(header).len() as int;
            &&& xfer_json_spec(rec) == Ok::<(Seq<char>, u32, u32, int), Seq<char>>(
                (header, body_len, format, start),
            )
            &&& rec.subrange(start, rec.len() as int) == frame
        }),
{
    lemma_record_layout(header, frame, body_len, format);
    lemma_parse_laid_out(record_bytes(header, frame, body_len, format), header, frame, body_len, format);
}

/// Parse an `XferJson` record: returns
/// `(json_text, declared_uncompressed_size, format, frame_start_offset)`.
pub fn parse_xfer_json(record: &[u8]) -> (r: Result<(String, u32, u32, usize), String>)
    ensures
        match (r, xfer_json_spec(record@)) {
            (Ok(a), Ok(b)) => a.0@ == b.0 && a.1 == b.1 && a.2 == b.2 && a.3 == b.3,
            (Err(a), Err(b)) => a@ == b,
            _ => false,
        },
{
    let len = record.len();
    if len < 17 || !has_at(record, 0, record_magic_bytes().as_slice()) {
        let mut m = string_of("XferJson: bad magic at byte 0 (");
        push_decimal(&mut m, len as u64);
        push_str(&mut m, " bytes total), expected \"XferJson\\0\"");
        return Err(m);
    }
    let jlen = read_u64_le(record, 9) as usize;
    if jlen > usize::MAX - 17 {
        return Err(string_of("XferJson: json length overflow"));
    }
    let json_end = 17 + jlen;
    if json_end > usize::MAX - 8 || len < json_end + 8 {
        let mut m = string_of("XferJson: truncated record at byte ");
        push_decimal(&mut m, len as u64);
        push_str(&mut m, " (need ");
        push_decimal_wide(&mut m, json_end as u128 + 8);
        push_str(&mut m, " for JSON + u32 pair)");
        return Err(m);
    }
    let json = match string_from_utf8(copy_range(record, 17, json_end)) {
        Some(s) => s,
        None => return Err(string_of("XferJson: JSON header is not valid UTF-8")),
    };
    let uncomp = read_u32_le(record, json_end);
    let format = read_u32_le(record, json_end + 4);
    Ok((json, uncomp, format, json_end + 8))
}

// ---------------------------------------------------------------------------
// zstd frames
/// What `ruzstd`'s `StreamingDecoder` makes of `frame` read to its end: the
/// decompressed bytes, or the text of the error it stopped on (from
/// `StreamingDecoder::new` or from reading).
pub uninterp spec fn zstd_decode(frame: Seq<u8>) -> Result<Seq<u8>, Seq<char>>;

/// Decompresses one zstd frame with `ruzstd::decoding::StreamingDecoder`
/// (`new` over a `Cursor`, then `read_to_end`). Claimed: the outcome is
/// [`zstd_decode`] of the frame. The decoder's `assert!`s and
/// `unreachable!`s are not reached by any frame: a compressed literals
/// section has one or four streams (set from a two-bit field), the
/// literal-length and match-length codes come from tables built with their
/// largest code as bound (an RLE code above it is an error), and executing
/// the sequences grows the buffer by exactly the bytes it counts. Left
/// unsaid: an allocation that fails aborts, as everywhere.
#[verifier::external_body]
fn ruzstd_decode(frame: &[u8]) -> (r: Result<Vec<u8>, String>)
    ensures
        match (r, zstd_decode(frame@)) {
            (Ok(a), Ok(b)) => a@ == b,
            (Err(a), Err(b)) => a@ == b,
            _ => false,
        },
{
    let mut dec = match ruzstd::decoding::StreamingDecoder::new(std::io::Cursor::new(frame)) {
        Ok(d) => d,
        Err(e) => return Err(e.to_string()),
    };
    let mut out = Vec::new();
    match std::io::Read::read_to_end(&mut dec, &mut out) {
        Ok(_) => Ok(out),
        Err(e) => Err(e.to_string()),
    }
}

/// Decompress one zstd frame with the pure-Rust `ruzstd` decoder.
pub fn decode_zstd(frame: &[u8]) -> (r: Result<Vec<u8>, String>)
    ensures
        match (r, zstd_decode(frame@)) {
            (Ok(a), Ok(b)) => a@ == b,
            (Err(a), Err(b)) => a@ == "zstd: "@ + b,
            _ => false,
        },
{
    match ruzstd_decode(frame) {
        Ok(v) => Ok(v),
        Err(e) => {
            let mut m = string_of("zstd: ");
            push_str(&mut m, e.as_str());
            Err(m)
        },
    }
}

} // verus!
