//! `.SerumPreset` output container assembly (the native Serum2 preset file).
//!
//! Container layout:
//!
//! ```text
//! "XferJson\0" (9 bytes)
//! u64 LE  json header length
//! <json_len bytes>  JSON header, keys sorted, no NUL
//! u32 LE  uncompressed body size
//! u32 LE  format (2)
//! <one zstd frame>  (header `hash` = md5 of this frame)
//! ```
//!
//! Header keys (alphabetical): `fileType` ("SerumPreset"), `hash`,
//! `presetAuthor`, `presetDescription`, `presetName`, `product` ("Serum2"),
//! `productVersion`, `tags` (array), `url`, `vendor` ("Xfer Records"),
//! `version`.

use vstd::prelude::*;
use crate::serum2state::{
    hex_bytes, json_escape_spec, md5_digest, md5_hex, push_tags_json, record_bytes, strings_view,
    tags_json,
};
use crate::bytes::{extend_from, push_u32_le, push_u64_le};
use crate::serum2state::record_magic_bytes;
use crate::strs::{push_str, string_of};

verus! {

broadcast use vstd::string::group_string_axioms;

/// Preset-style JSON header: product `Serum2`, `productVersion` `2.0.23`,
/// `version` the JSON number `9.0`; free text and tags escaped.
pub open spec fn preset_header_text(
    md5: Seq<char>,
    name: Seq<char>,
    author: Seq<char>,
    description: Seq<char>,
    tags: Seq<Seq<char>>,
) -> Seq<char> {
    "{\"fileType\":\"SerumPreset\",\"hash\":\""@ + json_escape_spec(md5)
        + "\",\"presetAuthor\":\""@ + json_escape_spec(author) + "\",\"presetDescription\":\""@
        + json_escape_spec(description) + "\",\"presetName\":\""@ + json_escape_spec(name)
        + "\",\"product\":\"Serum2\",\"productVersion\":\"2.0.23\",\"tags\":"@ + tags_json(tags)
        + ",\"url\":\"https://xferrecords.com/\",\"vendor\":\"Xfer Records\",\"version\":9.0}"@
}

/// Preset-style JSON header, keys sorted (matches the factory-preset corpus).
/// `tags` entries are JSON-escaped; free-text fields too; `version` is the
/// JSON number `9.0`.
pub fn preset_json_header(
    md5_hex_str: &str,
    preset_name: &str,
    preset_author: &str,
    preset_description: &str,
    tags: &[String],
) -> (r: String)
    ensures
        r@ == preset_header_text(
            md5_hex_str@,
            preset_name@,
            preset_author@,
            preset_description@,
            strings_view(tags@),
        ),
{
    let mut out = string_of("{\"fileType\":\"SerumPreset\",\"hash\":\"");
    crate::serum2state::push_json_escaped(&mut out, md5_hex_str);
    push_str(&mut out, "\",\"presetAuthor\":\"");
    crate::serum2state::push_json_escaped(&mut out, preset_author);
    push_str(&mut out, "\",\"presetDescription\":\"");
    crate::serum2state::push_json_escaped(&mut out, preset_description);
    push_str(&mut out, "\",\"presetName\":\"");
    crate::serum2state::push_json_escaped(&mut out, preset_name);
    push_str(&mut out, "\",\"product\":\"Serum2\",\"productVersion\":\"2.0.23\",\"tags\":");
    push_tags_json(&mut out, tags);
    push_str(
        &mut out,
        ",\"url\":\"https://xferrecords.com/\",\"vendor\":\"Xfer Records\",\"version\":9.0}",
    );
    out
}

/// Wrap a given (unmodified) zstd frame into a complete `.SerumPreset`
/// container. The caller supplies the frame, its uncompressed size and the
/// preset metadata; the header `hash` is computed here as md5 of the frame.
pub fn build_preset_container(
    frame: &[u8],
    body_len: u32,
    preset_name: &str,
    preset_author: &str,
    preset_description: &str,
    tags: &[String],
) -> (r: Vec<u8>)
    ensures
        r@ == record_bytes(
            preset_header_text(
                hex_bytes(md5_digest(frame@)),
                preset_name@,
                preset_author@,
                preset_description@,
                strings_view(tags@),
            ),
            frame@,
            body_len,
            2,
        ),
{
    let hash = md5_hex(frame);
    let header = preset_json_header(
        hash.as_str(),
        preset_name,
        preset_author,
        preset_description,
        tags,
    );
    let mut out: Vec<u8> = Vec::new();
    extend_from(&mut out, record_magic_bytes().as_slice());
    let hb = header.as_str().as_bytes();
    push_u64_le(&mut out, hb.len() as u64);
    extend_from(&mut out, hb);
    push_u32_le(&mut out, body_len);
    push_u32_le(&mut out, 2);
    extend_from(&mut out, frame);
    out
}

} // verus!
