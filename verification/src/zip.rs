//! Minimal in-memory ZIP reader for zipped FL Studio "loop package" exports.
//!
//! - The End-of-Central-Directory record is located by a backwards scan,
//!   the Central Directory is walked, and each member's data is resolved
//!   through its Local File Header (sizes/offsets come from the Central
//!   Directory, so data-descriptor archives work).
//! - Stored (method 0) and Deflate (method 8) members are supported;
//!   deflate is inflated with `flate2`.
//! - Encrypted members (general-purpose flag bits 0 / 6) and Zip64 archives
//!   are rejected with explicit errors.
//! - The total decompressed size is capped at [`MAX_TOTAL_UNCOMPRESSED`],
//!   enforced both on the sizes declared in the Central Directory (before
//!   any allocation) and per member while inflating.
//! - Members are returned as raw bytes and never inspected further, so a
//!   zip-in-zip is never recursed into.

use vstd::prelude::*;
use vstd::slice::slice_subrange;
use crate::bytes::{copy_range, has_at, le_u16, le_u32, read_u16_le, read_u32_le};
use crate::strs::{
    chars_end_with, chars_of, decimal, ends_with, lossy_chars, push_decimal, push_str,
    string_from_chars, string_of, utf8_lossy,
};

verus! {

broadcast use vstd::string::group_string_axioms;

/// Sanity cap on the total decompressed size of one archive (all members
/// combined).
pub const MAX_TOTAL_UNCOMPRESSED: usize = 268435456;

/// One decompressed archive member.
#[derive(Debug)]
pub struct ZipMember {
    /// Member name as stored in the archive (directories included).
    pub name: String,
    /// Decompressed member bytes.
    pub data: Vec<u8>,
}

/// A member as its name and bytes.
pub open spec fn member_view(m: ZipMember) -> (Seq<char>, Seq<u8>) {
    (m.name@, m.data@)
}

/// Whether `buf` starts with the ZIP signature `PK`.
pub open spec fn is_zip_spec(buf: Seq<u8>) -> bool {
    buf.len() >= 2 && buf[0] == 0x50 && buf[1] == 0x4B
}

/// True when `buf` starts with the ZIP signature (`PK`).
pub fn is_zip(buf: &[u8]) -> (r: bool)
    ensures
        r == is_zip_spec(buf@),
{
    buf.len() >= 2 && buf[0] == 0x50 && buf[1] == 0x4B
}

pub open spec fn msg_truncated() -> Seq<char> {
    "truncated ZIP structure (field out of range)"@
}

/// Little-endian u16 at `off`, or an error when it lies outside `buf`.
pub fn u16le(buf: &[u8], off: usize) -> (r: Result<u16, String>)
    ensures
        match r {
            Ok(v) => off + 2 <= buf@.len() && v == le_u16(buf@, off as int),
            Err(e) => off + 2 > buf@.len() && e@ == msg_truncated(),
        },
{
    let n = buf.len();
    if off > n || 2 > n - off {
        return Err(string_of("truncated ZIP structure (field out of range)"));
    }
    Ok(read_u16_le(buf, off))
}

/// Little-endian u32 at `off`, or an error when it lies outside `buf`.
pub fn u32le(buf: &[u8], off: usize) -> (r: Result<u32, String>)
    ensures
        match r {
            Ok(v) => off + 4 <= buf@.len() && v == le_u32(buf@, off as int),
            Err(e) => off + 4 > buf@.len() && e@ == msg_truncated(),
        },
{
    let n = buf.len();
    if off > n || 4 > n - off {
        return Err(string_of("truncated ZIP structure (field out of range)"));
    }
    Ok(read_u32_le(buf, off))
}

/// `PK\x05\x06`
pub open spec fn sig_eocd() -> Seq<u8> {
    seq![0x50u8, 0x4Bu8, 0x05u8, 0x06u8]
}

/// `PK\x01\x02`
pub open spec fn sig_cd() -> Seq<u8> {
    seq![0x50u8, 0x4Bu8, 0x01u8, 0x02u8]
}

/// `PK\x03\x04`
pub open spec fn sig_lfh() -> Seq<u8> {
    seq![0x50u8, 0x4Bu8, 0x03u8, 0x04u8]
}

fn sig(b: u8, c: u8) -> (v: Vec<u8>)
    ensures
        v@ == seq![0x50u8, 0x4Bu8, b, c],
{
    let v = vec![0x50u8, 0x4Bu8, b, c];
    assert(v@ =~= seq![0x50u8, 0x4Bu8, b, c]);
    v
}

/// The End-of-Central-Directory record at or below `pos` (down to
/// `lowest`): the first offset holding the signature whose comment fits in
/// the buffer.
pub open spec fn eocd_scan(buf: Seq<u8>, pos: int, lowest: int) -> Option<int>
    decreases pos - lowest,
{
    if pos < lowest || pos < 0 || pos + 22 > buf.len() {
        None
    } else if buf.subrange(pos, pos + 4) == sig_eocd() && pos + 22 + le_u16(buf, pos + 20)
        <= buf.len() {
        Some(pos)
    } else if pos == lowest {
        None
    } else {
        eocd_scan(buf, pos - 1, lowest)
    }
}

pub proof fn lemma_eocd_scan_bound(buf: Seq<u8>, pos: int, lowest: int)
    ensures
        eocd_scan(buf, pos, lowest) matches Some(p) ==> 0 <= p && p + 22 <= buf.len(),
    decreases pos - lowest,
{
    if !(pos < lowest || pos < 0 || pos + 22 > buf.len()) && pos != lowest {
        lemma_eocd_scan_bound(buf, pos - 1, lowest);
    }
}

/// Where the End-of-Central-Directory record lies, scanning backwards over
/// the longest possible archive comment.
pub open spec fn find_eocd_spec(buf: Seq<u8>) -> Result<int, Seq<char>> {
    if buf.len() < 22 {
        Err("too small to be a ZIP archive"@)
    } else {
        let pos = buf.len() - 22;
        let lowest = if pos > 0xFFFF {
            pos - 0xFFFF
        } else {
            0
        };
        match eocd_scan(buf, pos, lowest) {
            Some(p) => Ok(p),
            None => Err("no ZIP End-of-Central-Directory record found (not a ZIP archive?)"@),
        }
    }
}

/// Locate the End-of-Central-Directory record (scanning backwards over the
/// maximum possible archive comment).
pub fn find_eocd(buf: &[u8]) -> (r: Result<usize, String>)
    ensures
        match (r, find_eocd_spec(buf@)) {
            (Ok(a), Ok(b)) => a == b,
            (Err(a), Err(b)) => a@ == b,
            _ => false,
        },
{
    let len = buf.len();
    if len < 22 {
        return Err(string_of("too small to be a ZIP archive"));
    }
    let mut pos = len - 22;
    let lowest = if pos > 0xFFFF {
        pos - 0xFFFF
    } else {
        0
    };
    let eocd = sig(0x05, 0x06);
    loop
        invariant_except_break
            len == buf@.len() >= 22,
            lowest <= pos <= len - 22,
            lowest == (if len - 22 > 0xFFFF {
                len - 22 - 0xFFFF
            } else {
                0
            }),
            eocd@ == sig_eocd(),
            eocd_scan(buf@, len - 22, lowest as int) == eocd_scan(buf@, pos as int, lowest as int),
        ensures
            eocd_scan(buf@, len - 22, lowest as int) is None,
            len == buf@.len() >= 22,
            lowest == (if len - 22 > 0xFFFF {
                len - 22 - 0xFFFF
            } else {
                0
            }),
        decreases pos,
    {
        if has_at(buf, pos, eocd.as_slice()) {
            let comment_len = match u16le(buf, pos + 20) {
                Ok(v) => v as usize,
                Err(e) => return Err(e),
            };
            if comment_len <= len - 22 - pos {
                return Ok(pos);
            }
        }
        if pos == lowest {
            break;
        }
        pos -= 1;
    }
    Err(string_of("no ZIP End-of-Central-Directory record found (not a ZIP archive?)"))
}

/// A Central Directory entry as plain values: compression method,
/// compressed size, uncompressed size, local header offset and name.
pub type EntryView = (u16, nat, nat, nat, Seq<char>);

struct CentralEntry {
    method: u16,
    compressed_size: usize,
    uncompressed_size: usize,
    local_offset: usize,
    name: Vec<char>,
}

spec fn entry_view(e: CentralEntry) -> EntryView {
    (e.method, e.compressed_size as nat, e.uncompressed_size as nat, e.local_offset as nat, e.name@)
}

/// `member '<name><what>`
pub open spec fn msg_member(name: Seq<char>, what: Seq<char>) -> Seq<char> {
    "member '"@ + name + what
}

fn member_msg(name: &[char], what: &str) -> (m: String)
    ensures
        m@ == msg_member(name@, what@),
{
    let mut m = string_of("member '");
    push_str(&mut m, string_from_chars(name).as_str());
    push_str(&mut m, what);
    m
}

/// The `k` Central Directory entries from `pos` on.
pub open spec fn entries_from(buf: Seq<u8>, pos: int, k: nat) -> Result<Seq<EntryView>, Seq<char>>
    decreases k,
{
    if k == 0 {
        Ok(Seq::empty())
    } else if !(pos + 4 <= buf.len() && buf.subrange(pos, pos + 4) == sig_cd()) {
        Err("corrupt ZIP central directory (bad entry signature)"@)
    } else if pos + 46 > buf.len() {
        Err(msg_truncated())
    } else {
        let flags = le_u16(buf, pos + 8) as u16;
        let method = le_u16(buf, pos + 10) as u16;
        let comp = le_u32(buf, pos + 20);
        let uncomp = le_u32(buf, pos + 24);
        let name_len = le_u16(buf, pos + 28);
        let extra_len = le_u16(buf, pos + 30);
        let comment_len = le_u16(buf, pos + 32);
        let local = le_u32(buf, pos + 42);
        if pos + 46 + name_len > buf.len() {
            Err("truncated ZIP central directory entry"@)
        } else {
            let name = utf8_lossy(buf.subrange(pos + 46, pos + 46 + name_len));
            if comp == 0xFFFF_FFFF || uncomp == 0xFFFF_FFFF || local == 0xFFFF_FFFF {
                Err(msg_member(name, "' uses Zip64 sizes/offsets (not supported)"@))
            } else if flags & 0x0001u16 != 0 || flags & 0x0040u16 != 0 {
                Err(msg_member(name, "' is encrypted (not supported)"@))
            } else {
                let next = pos + 46 + name_len + extra_len + comment_len;
                if next > usize::MAX {
                    Err("corrupt ZIP central directory (entry size overflow)"@)
                } else {
                    match entries_from(buf, next, (k - 1) as nat) {
                        Ok(rest) => Ok(
                            seq![(method, comp as nat, uncomp as nat, local as nat, name)] + rest,
                        ),
                        Err(e) => Err(e),
                    }
                }
            }
        }
    }
}

/// The Central Directory of the archive in `buf`.
pub open spec fn central_directory(buf: Seq<u8>) -> Result<Seq<EntryView>, Seq<char>> {
    match find_eocd_spec(buf) {
        Err(e) => Err(e),
        Ok(eocd) => {
            let total = le_u16(buf, eocd + 10);
            let cd_size = le_u32(buf, eocd + 12);
            let cd_offset = le_u32(buf, eocd + 16);
            if le_u16(buf, eocd + 4) != 0 || le_u16(buf, eocd + 6) != 0 {
                Err("multi-disk ZIP archives are not supported"@)
            } else if total == 0xFFFF || cd_size == 0xFFFF_FFFF || cd_offset == 0xFFFF_FFFF {
                Err("Zip64 ZIP archives are not supported"@)
            } else {
                entries_from(buf, cd_offset, total as nat)
            }
        },
    }
}

fn read_central_directory(buf: &[u8]) -> (r: Result<Vec<CentralEntry>, String>)
    ensures
        match (r, central_directory(buf@)) {
            (Ok(a), Ok(b)) => a@.map_values(|e: CentralEntry| entry_view(e)) == b,
            (Err(a), Err(b)) => a@ == b,
            _ => false,
        },
{
    let len = buf.len();
    let eocd = find_eocd(buf)?;
    proof {
        let pos = buf@.len() - 22;
        let lowest = if pos > 0xFFFF {
            pos - 0xFFFF
        } else {
            0
        };
        lemma_eocd_scan_bound(buf@, pos, lowest);
    }
    let total_entries = read_u16_le(buf, eocd + 10) as usize;
    let cd_size = read_u32_le(buf, eocd + 12) as usize;
    let cd_offset = read_u32_le(buf, eocd + 16) as usize;
    if read_u16_le(buf, eocd + 4) != 0 || read_u16_le(buf, eocd + 6) != 0 {
        return Err(string_of("multi-disk ZIP archives are not supported"));
    }
    if total_entries == 0xFFFF || cd_size == 0xFFFF_FFFF || cd_offset == 0xFFFF_FFFF {
        return Err(string_of("Zip64 ZIP archives are not supported"));
    }
    let cd = sig(0x01, 0x02);
    let mut entries: Vec<CentralEntry> = Vec::new();
    let mut pos = cd_offset;
    let mut j: usize = 0;
    proof {
        assert(entries@.map_values(|e: CentralEntry| entry_view(e)) =~= Seq::<EntryView>::empty());
    }
    while j < total_entries
        invariant
            len == buf@.len(),
            j <= total_entries,
            cd@ == sig_cd(),
            central_directory(buf@) == match entries_from(
                buf@,
                pos as int,
                (total_entries - j) as nat,
            ) {
                Ok(rest) => Ok(entries@.map_values(|e: CentralEntry| entry_view(e)) + rest),
                Err(e) => Err::<Seq<EntryView>, Seq<char>>(e),
            },
        decreases total_entries - j,
    {
        let ghost seen = entries@.map_values(|e: CentralEntry| entry_view(e));
        if !has_at(buf, pos, cd.as_slice()) {
            return Err(string_of("corrupt ZIP central directory (bad entry signature)"));
        }
        if pos > len || 46 > len - pos {
            return Err(string_of("truncated ZIP structure (field out of range)"));
        }
        let flags = read_u16_le(buf, pos + 8);
        let method = read_u16_le(buf, pos + 10);
        let compressed_size = read_u32_le(buf, pos + 20) as usize;
        let uncompressed_size = read_u32_le(buf, pos + 24) as usize;
        let name_len = read_u16_le(buf, pos + 28) as usize;
        let extra_len = read_u16_le(buf, pos + 30) as usize;
        let comment_len = read_u16_le(buf, pos + 32) as usize;
        let local_offset = read_u32_le(buf, pos + 42) as usize;
        if name_len > len - pos - 46 {
            return Err(string_of("truncated ZIP central directory entry"));
        }
        let name = lossy_chars(slice_subrange(buf, pos + 46, pos + 46 + name_len));
        if compressed_size == 0xFFFF_FFFF || uncompressed_size == 0xFFFF_FFFF || local_offset
            == 0xFFFF_FFFF {
            return Err(member_msg(name.as_slice(), "' uses Zip64 sizes/offsets (not supported)"));
        }
        if flags & 0x0001 != 0 || flags & 0x0040 != 0 {
            return Err(member_msg(name.as_slice(), "' is encrypted (not supported)"));
        }
        let step = 46 + name_len + extra_len + comment_len;
        if pos > usize::MAX - step {
            return Err(string_of("corrupt ZIP central directory (entry size overflow)"));
        }
        let ghost ev: EntryView = (
            method,
            compressed_size as nat,
            uncompressed_size as nat,
            local_offset as nat,
            name@,
        );
        entries.push(
            CentralEntry {
                method,
                compressed_size,
                uncompressed_size,
                local_offset,
                name,
            },
        );
        proof {
            let nv = entries@.map_values(|e: CentralEntry| entry_view(e));
            assert(nv =~= seen.push(ev));
            match entries_from(buf@, pos + step, (total_entries - j - 1) as nat) {
                Ok(rest) => {
                    assert(seen + (seq![ev] + rest) =~= nv + rest);
                },
                Err(_) => {},
            }
        }
        pos = pos + step;
        j += 1;
    }
    proof {
        assert(entries@.map_values(|e: CentralEntry| entry_view(e)) + Seq::<EntryView>::empty()
            =~= entries@.map_values(|e: CentralEntry| entry_view(e)));
    }
    Ok(entries)
}

// ---------------------------------------------------------------------------
// Member data
/// What `flate2`'s raw-deflate reader (`read::DeflateDecoder` over `raw`)
/// gives when asked to fill exactly `n` bytes (`Read::read_exact`): the
/// bytes, or the text of the error it failed with; after a success, what a
/// further one-byte `read` returned (the count read, or the error text).
pub uninterp spec fn deflate_exact(raw: Seq<u8>, n: nat) -> Result<
    (Seq<u8>, Result<nat, Seq<char>>),
    Seq<char>,
>;

pub open spec fn exact_view(r: Result<(Vec<u8>, Result<usize, String>), String>) -> Result<
    (Seq<u8>, Result<nat, Seq<char>>),
    Seq<char>,
> {
    match r {
        Ok((v, Ok(k))) => Ok((v@, Ok(k as nat))),
        Ok((v, Err(e))) => Ok((v@, Err(e@))),
        Err(e) => Err(e@),
    }
}

/// Reads exactly `n` bytes out of `flate2::read::DeflateDecoder` over
/// `raw` (`Read::read_exact` into an `n`-byte buffer), then, on success,
/// probes with one more one-byte `Read::read`.
///
/// Claimed: the outcome is [`deflate_exact`] of `(raw, n)`; a successful
/// `read_exact` filled all `n` bytes, and the probe read at most one byte
/// (what `Read::read` documents for a one-byte buffer).
#[verifier::external_body]
fn deflate_read_exact(raw: &[u8], n: usize) -> (r: Result<(Vec<u8>, Result<usize, String>), String>)
    ensures
        exact_view(r) == deflate_exact(raw@, n as nat),
        r matches Ok((v, probe)) ==> v@.len() == n && (probe matches Ok(k) ==> k <= 1),
{
    let mut dec = flate2::read::DeflateDecoder::new(raw);
    let mut out = vec![0u8; n];
    if let Err(e) = std::io::Read::read_exact(&mut dec, &mut out) {
        return Err(e.to_string());
    }
    let mut extra = [0u8; 1];
    let probe = match std::io::Read::read(&mut dec, &mut extra) {
        Ok(k) => Ok(k),
        Err(e) => Err(e.to_string()),
    };
    Ok((out, probe))
}

pub open spec fn msg_limit(max_total: nat) -> Seq<char> {
    "decompressed archive exceeds the sanity limit of "@ + decimal(max_total / 1048576) + " MiB"@
}

fn limit_msg(max_total: usize) -> (m: String)
    ensures
        m@ == msg_limit(max_total as nat),
{
    let mut m = string_of("decompressed archive exceeds the sanity limit of ");
    push_decimal(&mut m, (max_total / 1048576) as u64);
    push_str(&mut m, " MiB");
    m
}

/// Inflating a deflated member, pinned to its declared size: a stream
/// that ends short, fails, or yields more bytes is an error.
pub open spec fn inflate_member_spec(raw: Seq<u8>, name: Seq<char>, uncomp: nat, max_total: nat) -> Result<
    Seq<u8>,
    Seq<char>,
> {
    if uncomp > max_total {
        Err(msg_limit(max_total))
    } else {
        match deflate_exact(raw, uncomp) {
            Err(e) => Err(msg_member(name, "' failed to inflate: "@ + e)),
            Ok((out, probe)) => if probe matches Ok(k) && k > 0 {
                Err(msg_member(name, "' inflates to more bytes than declared"@))
            } else {
                Ok(out)
            },
        }
    }
}

/// Inflate a raw deflate stream and pin the result to the size declared in
/// the Central Directory (`read_exact` + one extra byte, so both a short and
/// an oversized stream are rejected while the allocation stays bounded).
fn inflate_member(raw: &[u8], entry: &CentralEntry, max_total: usize) -> (r: Result<Vec<u8>, String>)
    ensures
        match (r, inflate_member_spec(raw@, entry.name@, entry.uncompressed_size as nat, max_total as nat)) {
            (Ok(a), Ok(b)) => a@ == b,
            (Err(a), Err(b)) => a@ == b,
            _ => false,
        },
{
    if entry.uncompressed_size > max_total {
        return Err(limit_msg(max_total));
    }
    match deflate_read_exact(raw, entry.uncompressed_size) {
        Err(e) => {
            let mut m = member_msg(entry.name.as_slice(), "' failed to inflate: ");
            push_str(&mut m, e.as_str());
            Err(m)
        },
        Ok((out, probe)) => {
            if let Ok(k) = probe {
                if k > 0 {
                    return Err(member_msg(entry.name.as_slice(), "' inflates to more bytes than declared"));
                }
            }
            Ok(out)
        },
    }
}

/// A member's bytes, resolved through its Local File Header.
pub open spec fn member_data_spec(buf: Seq<u8>, e: EntryView, max_total: nat) -> Result<Seq<u8>, Seq<char>> {
    let (method, comp, uncomp, lfh_n, name) = e;
    let lfh = lfh_n as int;
    if !(lfh + 4 <= buf.len() && buf.subrange(lfh, lfh + 4) == sig_lfh()) {
        Err(msg_member(name, "' has a missing or corrupt local file header"@))
    } else if lfh + 30 > buf.len() {
        Err(msg_truncated())
    } else {
        let start = lfh + 30 + le_u16(buf, lfh + 26) + le_u16(buf, lfh + 28);
        let end = start + comp;
        if end > buf.len() {
            Err(msg_member(name, "' data overruns the archive"@))
        } else {
            let raw = buf.subrange(start, end);
            if method == 0 {
                if raw.len() != uncomp {
                    Err(msg_member(name, "' stored size mismatch"@))
                } else {
                    Ok(raw)
                }
            } else if method == 8 {
                inflate_member_spec(raw, name, uncomp, max_total)
            } else {
                Err(msg_member(name, "' uses unsupported compression method "@ + decimal(method as nat)))
            }
        }
    }
}

/// Decompress one member, resolving its data through the Local File Header.
fn member_data(buf: &[u8], entry: &CentralEntry, max_total: usize) -> (r: Result<Vec<u8>, String>)
    ensures
        match (r, member_data_spec(buf@, entry_view(*entry), max_total as nat)) {
            (Ok(a), Ok(b)) => a@ == b,
            (Err(a), Err(b)) => a@ == b,
            _ => false,
        },
{
    let len = buf.len();
    let lfh = entry.local_offset;
    if !has_at(buf, lfh, sig(0x03, 0x04).as_slice()) {
        return Err(member_msg(entry.name.as_slice(), "' has a missing or corrupt local file header"));
    }
    if 30 > len - lfh {
        return Err(string_of("truncated ZIP structure (field out of range)"));
    }
    let name_len = read_u16_le(buf, lfh + 26) as u128;
    let extra_len = read_u16_le(buf, lfh + 28) as u128;
    let start = lfh as u128 + 30 + name_len + extra_len;
    let end = start + entry.compressed_size as u128;
    if end > len as u128 {
        return Err(member_msg(entry.name.as_slice(), "' data overruns the archive"));
    }
    let raw = slice_subrange(buf, start as usize, end as usize);
    if entry.method == 0 {
        if raw.len() != entry.uncompressed_size {
            return Err(member_msg(entry.name.as_slice(), "' stored size mismatch"));
        }
        let out = copy_range(raw, 0, raw.len());
        assert(raw@.subrange(0, raw@.len() as int) =~= raw@);
        Ok(out)
    } else if entry.method == 8 {
        inflate_member(raw, entry, max_total)
    } else {
        let mut m = member_msg(entry.name.as_slice(), "' uses unsupported compression method ");
        push_decimal(&mut m, entry.method as u64);
        Err(m)
    }
}

// ---------------------------------------------------------------------------
// Unpacking
/// The declared uncompressed sizes summed with saturation at `usize::MAX`.
pub open spec fn declared_total(dir: Seq<EntryView>) -> nat
    decreases dir.len(),
{
    if dir.len() == 0 {
        0
    } else {
        let s = declared_total(dir.drop_last()) + dir.last().2;
        if s > usize::MAX {
            usize::MAX as nat
        } else {
            s
        }
    }
}

/// A directory entry (its name ends with `/`).
pub open spec fn is_dir_name(name: Seq<char>) -> bool {
    name.len() > 0 && name.last() == '/'
}

/// The members of `dir` in order, directories skipped; the first member
/// that fails to unpack is the error.
pub open spec fn members_of(buf: Seq<u8>, dir: Seq<EntryView>, max_total: nat) -> Result<
    Seq<(Seq<char>, Seq<u8>)>,
    Seq<char>,
>
    decreases dir.len(),
{
    if dir.len() == 0 {
        Ok(Seq::empty())
    } else {
        match members_of(buf, dir.drop_last(), max_total) {
            Err(e) => Err(e),
            Ok(ms) => {
                let e = dir.last();
                if is_dir_name(e.4) {
                    Ok(ms)
                } else {
                    match member_data_spec(buf, e, max_total) {
                        Err(x) => Err(x),
                        Ok(d) => Ok(ms.push((e.4, d))),
                    }
                }
            },
        }
    }
}

pub proof fn lemma_members_err_extends(buf: Seq<u8>, dir: Seq<EntryView>, max_total: nat, k: int)
    requires
        0 <= k <= dir.len(),
        members_of(buf, dir.take(k), max_total) is Err,
    ensures
        members_of(buf, dir, max_total) == members_of(buf, dir.take(k), max_total),
    decreases dir.len() - k,
{
    if k < dir.len() {
        assert(dir.take(k + 1).drop_last() =~= dir.take(k));
        lemma_members_err_extends(buf, dir, max_total, k + 1);
    } else {
        assert(dir.take(k) =~= dir);
    }
}

/// Unpacking an archive with a total decompressed-size cap.
pub open spec fn unzip_spec(buf: Seq<u8>, max_total: nat) -> Result<Seq<(Seq<char>, Seq<u8>)>, Seq<char>> {
    match central_directory(buf) {
        Err(e) => Err(e),
        Ok(dir) => if declared_total(dir) > max_total {
            Err(msg_limit(max_total))
        } else {
            members_of(buf, dir, max_total)
        },
    }
}

/// Unpack every supported member of the archive in `buf`.
pub fn unzip(buf: &[u8]) -> (r: Result<Vec<ZipMember>, String>)
    ensures
        match (r, unzip_spec(buf@, MAX_TOTAL_UNCOMPRESSED as nat)) {
            (Ok(a), Ok(b)) => a@.map_values(|m: ZipMember| member_view(m)) == b,
            (Err(a), Err(b)) => a@ == b,
            _ => false,
        },
{
    unzip_with_limit(buf, MAX_TOTAL_UNCOMPRESSED)
}

/// Like [`unzip`], but with an explicit total decompressed-size cap.
pub fn unzip_with_limit(buf: &[u8], max_total: usize) -> (r: Result<Vec<ZipMember>, String>)
    ensures
        match (r, unzip_spec(buf@, max_total as nat)) {
            (Ok(a), Ok(b)) => a@.map_values(|m: ZipMember| member_view(m)) == b,
            (Err(a), Err(b)) => a@ == b,
            _ => false,
        },
{
    let dir = read_central_directory(buf)?;
    let ghost dv = dir@.map_values(|e: CentralEntry| entry_view(e));
    let mut declared: usize = 0;
    let mut i: usize = 0;
    while i < dir.len()
        invariant
            i <= dir@.len(),
            dv == dir@.map_values(|e: CentralEntry| entry_view(e)),
            declared == declared_total(dv.take(i as int)),
        decreases dir.len() - i,
    {
        proof {
            assert(dv.take(i + 1).drop_last() =~= dv.take(i as int));
            assert(dv.take(i + 1).last() == entry_view(dir@[i as int]));
        }
        declared = declared.saturating_add(dir[i].uncompressed_size);
        i += 1;
    }
    proof {
        assert(dv.take(dir@.len() as int) =~= dv);
    }
    if declared > max_total {
        return Err(limit_msg(max_total));
    }
    let mut members: Vec<ZipMember> = Vec::new();
    let mut i: usize = 0;
    proof {
        assert(dv.take(0) =~= Seq::<EntryView>::empty());
        assert(members@.map_values(|m: ZipMember| member_view(m)) =~= Seq::<(Seq<char>, Seq<u8>)>::empty());
    }
    while i < dir.len()
        invariant
            i <= dir@.len(),
            dv == dir@.map_values(|e: CentralEntry| entry_view(e)),
            declared_total(dv) <= max_total,
            unzip_spec(buf@, max_total as nat) == members_of(buf@, dv, max_total as nat),
            members_of(buf@, dv.take(i as int), max_total as nat) == Ok::<
                Seq<(Seq<char>, Seq<u8>)>,
                Seq<char>,
            >(members@.map_values(|m: ZipMember| member_view(m))),
        decreases dir.len() - i,
    {
        let entry = &dir[i];
        let ghost before = members@.map_values(|m: ZipMember| member_view(m));
        proof {
            assert(dv.take(i + 1).drop_last() =~= dv.take(i as int));
            assert(dv.take(i + 1).last() == entry_view(*entry));
        }
        let n = entry.name.len();
        if n > 0 && entry.name[n - 1] == '/' {
            i += 1;
            continue;
        }
        let data = match member_data(buf, entry, max_total) {
            Ok(d) => d,
            Err(e) => {
                proof {
                    lemma_members_err_extends(buf@, dv, max_total as nat, i + 1);
                }
                return Err(e);
            },
        };
        let m = ZipMember { name: string_from_chars(entry.name.as_slice()), data };
        let ghost mv = member_view(m);
        members.push(m);
        proof {
            assert(members@.map_values(|m: ZipMember| member_view(m)) =~= before.push(mv));
        }
        i += 1;
    }
    proof {
        assert(dv.take(dir@.len() as int) =~= dv);
    }
    Ok(members)
}

/// What `str::to_lowercase` makes of `s` (full Unicode lowercase mapping).
pub uninterp spec fn unicode_lower(s: Seq<char>) -> Seq<char>;

/// `str::to_lowercase`; claimed: the result is [`unicode_lower`] of the
/// input.
#[verifier::external_body]
fn to_lowercase(s: &str) -> (r: String)
    ensures
        r@ == unicode_lower(s@),
{
    s.to_lowercase()
}

/// A `.flp` member name (compared in lowercase).
pub open spec fn is_flp_name(name: Seq<char>) -> bool {
    ends_with(unicode_lower(name), ".flp"@)
}

/// The members whose names pass `is_flp_name`, in order.
pub open spec fn flp_only(ms: Seq<(Seq<char>, Seq<u8>)>) -> Seq<(Seq<char>, Seq<u8>)>
    decreases ms.len(),
{
    if ms.len() == 0 {
        Seq::empty()
    } else if is_flp_name(ms.last().0) {
        flp_only(ms.drop_last()).push(ms.last())
    } else {
        flp_only(ms.drop_last())
    }
}

/// Unpack only the `*.flp` members (case-insensitive) of the archive.
pub fn unzip_flp_members(buf: &[u8]) -> (r: Result<Vec<ZipMember>, String>)
    ensures
        match (r, unzip_spec(buf@, MAX_TOTAL_UNCOMPRESSED as nat)) {
            (Ok(a), Ok(b)) => a@.map_values(|m: ZipMember| member_view(m)) == flp_only(b),
            (Err(a), Err(b)) => a@ == b,
            _ => false,
        },
{
    let mut members = unzip(buf)?;
    let ghost all = members@.map_values(|m: ZipMember| member_view(m));
    let n = members.len();
    let mut out: Vec<ZipMember> = Vec::new();
    let mut i: usize = 0;
    proof {
        assert(all.take(0) =~= Seq::<(Seq<char>, Seq<u8>)>::empty());
        assert(out@.map_values(|m: ZipMember| member_view(m)) =~= Seq::<(Seq<char>, Seq<u8>)>::empty());
        assert(members@.map_values(|m: ZipMember| member_view(m)) =~= all.subrange(0, n as int));
    }
    while i < n
        invariant
            i <= n == all.len(),
            members@.len() == n - i,
            members@.map_values(|m: ZipMember| member_view(m)) == all.subrange(i as int, n as int),
            out@.map_values(|m: ZipMember| member_view(m)) == flp_only(all.take(i as int)),
        decreases n - i,
    {
        let ghost before = out@.map_values(|m: ZipMember| member_view(m));
        let ghost rest = members@;
        proof {
            assert(rest.map_values(|m: ZipMember| member_view(m))[0] == member_view(rest[0]));
        }
        let m = members.remove(0);
        proof {
            assert(member_view(m) == all[i as int]);
            assert forall|k: int| 0 <= k < members@.len() implies member_view(#[trigger] members@[k])
                == all[i + 1 + k] by {
                assert(members@[k] == rest[k + 1]);
                assert(rest.map_values(|m: ZipMember| member_view(m))[k + 1] == member_view(
                    rest[k + 1],
                ));
            }
            assert(members@.map_values(|m: ZipMember| member_view(m)) =~= all.subrange(i + 1, n as int));
            assert(all.take(i + 1).drop_last() =~= all.take(i as int));
            assert(all.take(i + 1).last() == all[i as int]);
        }
        let lower = to_lowercase(m.name.as_str());
        let lc = chars_of(lower.as_str());
        if chars_end_with(lc.as_slice(), ".flp") {
            let ghost mv = member_view(m);
            out.push(m);
            proof {
                assert(out@.map_values(|m: ZipMember| member_view(m)) =~= before.push(mv));
            }
        }
        i += 1;
    }
    proof {
        assert(all.take(n as int) =~= all);
    }
    Ok(out)
}


/// One FLP document to process: a plain FLP file, or one `*.flp` member of
/// a zipped loop package.
#[derive(Debug)]
pub struct FlpInput {
    /// The input's name; `<input>#<member>` for an archive member.
    pub name: String,
    /// The document's bytes.
    pub data: Vec<u8>,
    /// True for a member of a zipped loop package.
    pub from_archive: bool,
}

/// A document as its name, bytes and whether it came from an archive.
pub open spec fn input_view(d: FlpInput) -> (Seq<char>, Seq<u8>, bool) {
    (d.name@, d.data@, d.from_archive)
}

/// The documents an input holds: the input itself, or for a zipped loop
/// package every `*.flp` member in archive order, named
/// `<input>#<member>`; an archive without one is an error.
pub open spec fn flp_inputs_spec(name: Seq<char>, buf: Seq<u8>) -> Result<Seq<(Seq<char>, Seq<u8>, bool)>, Seq<char>> {
    if !is_zip_spec(buf) {
        Ok(seq![(name, buf, false)])
    } else {
        match unzip_spec(buf, MAX_TOTAL_UNCOMPRESSED as nat) {
            Err(e) => Err(name + ": "@ + e),
            Ok(all) => {
                let ms = flp_only(all);
                if ms.len() == 0 {
                    Err(name + ": ZIP archive without any .flp member"@)
                } else {
                    Ok(ms.map_values(|m: (Seq<char>, Seq<u8>)| (name + "#"@ + m.0, m.1, true)))
                }
            },
        }
    }
}

/// Resolve one input into the FLP documents to process (see
/// [`flp_inputs_spec`]); a zipped loop package is unpacked in memory.
pub fn flp_inputs(name: &str, buf: &[u8]) -> (r: Result<Vec<FlpInput>, String>)
    ensures
        match (r, flp_inputs_spec(name@, buf@)) {
            (Ok(a), Ok(b)) => a@.map_values(|d: FlpInput| input_view(d)) == b,
            (Err(a), Err(b)) => a@ == b,
            _ => false,
        },
{
    if !is_zip(buf) {
        let mut v: Vec<FlpInput> = Vec::new();
        let data = copy_range(buf, 0, buf.len());
        assert(data@ =~= buf@);
        v.push(FlpInput { name: string_of(name), data, from_archive: false });
        assert(v@.map_values(|d: FlpInput| input_view(d)) =~= seq![(name@, buf@, false)]);
        return Ok(v);
    }
    let mut members = match unzip_flp_members(buf) {
        Ok(m) => m,
        Err(e) => {
            let mut m = string_of(name);
            push_str(&mut m, ": ");
            push_str(&mut m, e.as_str());
            proof {
                reveal_strlit(": ");
            }
            return Err(m);
        },
    };
    let ghost ms = members@.map_values(|m: ZipMember| member_view(m));
    if members.len() == 0 {
        let mut m = string_of(name);
        push_str(&mut m, ": ZIP archive without any .flp member");
        return Err(m);
    }
    let n = members.len();
    let mut out: Vec<FlpInput> = Vec::new();
    let mut i: usize = 0;
    proof {
        assert(members@.map_values(|m: ZipMember| member_view(m)) =~= ms.subrange(0, n as int));
    }
    while i < n
        invariant
            i <= n == ms.len(),
            members@.len() == n - i,
            members@.map_values(|m: ZipMember| member_view(m)) == ms.subrange(i as int, n as int),
            out@.map_values(|d: FlpInput| input_view(d)) == ms.take(i as int).map_values(
                |m: (Seq<char>, Seq<u8>)| (name@ + "#"@ + m.0, m.1, true),
            ),
        decreases n - i,
    {
        let ghost rest = members@;
        let ghost before = out@.map_values(|d: FlpInput| input_view(d));
        proof {
            assert(rest.map_values(|m: ZipMember| member_view(m))[0] == member_view(rest[0]));
        }
        let m = members.remove(0);
        proof {
            assert(member_view(m) == ms[i as int]);
            assert forall|k: int| 0 <= k < members@.len() implies member_view(#[trigger] members@[k]) == ms[i + 1 + k] by {
                assert(members@[k] == rest[k + 1]);
                assert(rest.map_values(|m: ZipMember| member_view(m))[k + 1] == member_view(rest[k + 1]));
            }
            assert(members@.map_values(|m: ZipMember| member_view(m)) =~= ms.subrange(i + 1, n as int));
        }
        let mut dn = string_of(name);
        push_str(&mut dn, "#");
        push_str(&mut dn, m.name.as_str());
        let ghost dv = (dn@, m.data@, true);
        out.push(FlpInput { name: dn, data: m.data, from_archive: true });
        proof {
            reveal_strlit("#");
            assert(ms.take(i + 1) =~= ms.take(i as int).push(ms[i as int]));
            assert(out@.map_values(|d: FlpInput| input_view(d)) =~= before.push(dv));
            assert(out@.map_values(|d: FlpInput| input_view(d)) =~= ms.take(i + 1).map_values(
                |m: (Seq<char>, Seq<u8>)| (name@ + "#"@ + m.0, m.1, true),
            ));
        }
        i += 1;
    }
    proof {
        assert(ms.take(n as int) =~= ms);
    }
    Ok(out)
}

} // verus!
