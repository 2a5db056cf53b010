//! Minimal FL Studio project (.flp) event-stream parser.
//!
//! An FLP file is `"FLhd"` + u32 LE length + header payload, then
//! `"FLdt"` + u32 LE length + the event stream. Each event starts with a
//! one-byte id whose value selects the framing of its data:
//! `0..64` one byte, `64..128` two bytes, `128..192` four bytes, `>= 192`
//! a varint length (7 bits per byte, little-endian groups, high bit =
//! continuation) followed by that many bytes.

use vstd::prelude::*;
use vstd::slice::slice_subrange;
use crate::bytes::{has_at, le_u32, le_u64, read_u32_le, read_u64_le};
use crate::strs::{decimal, hex_prefixed, push_decimal, push_hex_prefixed, push_str, string_of};

verus! {

pub const EV_NEW_CHANNEL: u8 = 64;

pub const EV_TEXT_CHANNEL_NAME: u8 = 203;

pub const EV_TEXT_FX_TRACK_NAME: u8 = 204;

pub const EV_PLUGIN_PARAMS: u8 = 213;

/// A single parsed FLP event.
pub struct Event<'a> {
    pub id: u8,
    pub data: &'a [u8],
}

/// Abstract event: id and payload.
pub open spec fn event_view(e: Event) -> (u8, Seq<u8>) {
    (e.id, e.data@)
}

/// Abstract event with the byte offset of its id.
pub open spec fn span_view(e: (usize, Event)) -> (int, u8, Seq<u8>) {
    (e.0 as int, e.1.id, e.1.data@)
}

// ---------------------------------------------------------------------------
// Varints
/// Value contributed by the `k`-th 7-bit group `b` of a varint, truncated to
/// 32 bits as the shifted `u32` is.
pub open spec fn varint_group(b: u8, k: nat) -> int {
    if k == 0 {
        b as int % 128
    } else if k == 1 {
        (b as int % 128) * 128
    } else if k == 2 {
        (b as int % 128) * 16384
    } else if k == 3 {
        (b as int % 128) * 2097152
    } else {
        (b as int % 16) * 268435456
    }
}

/// Reading a varint whose `k`-th group sits at `pos`: the value (if any)
/// and the position reached (also on failure).
pub open spec fn varint_from(buf: Seq<u8>, pos: int, k: nat) -> (Option<int>, int)
    decreases 5 - k,
{
    if k >= 5 || pos < 0 || pos >= buf.len() {
        (None, pos)
    } else {
        let b = buf[pos];
        let g = varint_group(b, k);
        if b < 128 {
            (Some(g), pos + 1)
        } else if k == 4 {
            (None, pos + 1)
        } else {
            let r = varint_from(buf, pos + 1, k + 1);
            match r.0 {
                Some(v) => (Some(g + v), r.1),
                None => (None, r.1),
            }
        }
    }
}

/// An FLP varint starting at `pos`.
pub open spec fn varint(buf: Seq<u8>, pos: int) -> (Option<int>, int) {
    varint_from(buf, pos, 0)
}

/// A varint value fits the weights still available, and reading it moves
/// forward by one to five bytes.
pub proof fn lemma_varint_bounds(buf: Seq<u8>, pos: int, k: nat)
    requires
        k <= 4,
    ensures
        varint_from(buf, pos, k).0 matches Some(v) ==> 0 <= v <= 0x1_0000_0000 - group_weight(k),
        pos <= varint_from(buf, pos, k).1 <= pos + 5 - k,
    decreases 5 - k,
{
    if k < 4 && 0 <= pos < buf.len() && buf[pos] >= 128 {
        lemma_varint_bounds(buf, pos + 1, k + 1);
    }
}

/// Weight of the `k`-th 7-bit group.
pub open spec fn group_weight(k: nat) -> int {
    if k == 0 {
        1
    } else if k == 1 {
        128
    } else if k == 2 {
        16384
    } else if k == 3 {
        2097152
    } else {
        268435456
    }
}

/// The `j`-th byte from `p0` has its continuation bit set.
pub open spec fn continues(buf: Seq<u8>, p0: int, j: int) -> bool {
    buf[p0 + j] >= 128
}

/// The 7-bit groups of the `k` bytes at `p0`, each at its weight
/// (`(b & 0x7F) << 7j`), summed without truncation.
pub open spec fn varint_groups(buf: Seq<u8>, p0: int, k: nat) -> int
    decreases k,
{
    if k == 0 {
        0
    } else {
        varint_groups(buf, p0, (k - 1) as nat) + (buf[p0 + k - 1] as int % 128) * group_weight(
            (k - 1) as nat,
        )
    }
}

/// The same groups as the reader adds them, the fifth cut to its low four
/// bits.
pub open spec fn varint_groups_cut(buf: Seq<u8>, p0: int, k: nat) -> int
    decreases k,
{
    if k == 0 {
        0
    } else {
        varint_groups_cut(buf, p0, (k - 1) as nat) + varint_group(buf[p0 + k - 1], (k - 1) as nat)
    }
}

proof fn lemma_varint_groups_small(buf: Seq<u8>, p0: int, k: nat)
    requires
        k <= 4,
    ensures
        0 <= varint_groups(buf, p0, k) < group_weight(k),
        varint_groups_cut(buf, p0, k) == varint_groups(buf, p0, k),
    decreases k,
{
    if k > 0 {
        lemma_varint_groups_small(buf, p0, (k - 1) as nat);
    }
}

/// The fifth group dropping its high bits is the sum taken modulo 2^32.
proof fn lemma_varint_groups_mod(buf: Seq<u8>, p0: int, k: nat)
    requires
        1 <= k <= 5,
    ensures
        varint_groups_cut(buf, p0, k) == varint_groups(buf, p0, k) % 0x1_0000_0000,
{
    if k <= 4 {
        lemma_varint_groups_small(buf, p0, k);
    } else {
        lemma_varint_groups_small(buf, p0, 4);
        let a = varint_groups(buf, p0, 4);
        let x = buf[p0 + 4] as int % 128;
        assert((a + x * 268435456) % 0x1_0000_0000 == a + (x % 16) * 268435456) by (nonlinear_arith)
            requires
                0 <= a < 268435456,
                0 <= x < 128,
        {
            let q = x / 16;
            let r = x % 16;
            assert(x == 16 * q + r);
            assert(a + x * 268435456 == (a + r * 268435456) + q * 0x1_0000_0000);
        }
        assert(buf[p0 + 4] as int % 128 % 16 == buf[p0 + 4] as int % 16);
    }
}

proof fn lemma_varint_from_law(buf: Seq<u8>, p0: int, k: nat)
    requires
        0 <= p0,
        k <= 4,
    ensures
        ({
            let (r, e) = varint_from(buf, p0 + k, k);
            &&& r is None <==> forall|j: int| k <= j < 5 && p0 + j < buf.len() ==> #[trigger] continues(buf, p0, j)
            &&& r matches Some(v) ==> {
                let n = e - p0;
                &&& k < n <= 5
                &&& buf[p0 + n - 1] < 128
                &&& p0 + n <= buf.len()
                &&& forall|j: int| k <= j < n - 1 ==> #[trigger] continues(buf, p0, j)
                &&& v == varint_groups_cut(buf, p0, n as nat) - varint_groups_cut(buf, p0, k)
            }
        }),
    decreases 5 - k,
{
    let pos = p0 + k;
    if pos >= buf.len() {
    } else if buf[pos] < 128 {
        assert(!continues(buf, p0, k as int));
        assert(varint_groups_cut(buf, p0, k + 1) == varint_groups_cut(buf, p0, k) + varint_group(
            buf[pos],
            k,
        ));
    } else if k == 4 {
        assert(continues(buf, p0, 4));
    } else {
        assert(continues(buf, p0, k as int));
        lemma_varint_from_law(buf, p0, k + 1);
        let (r, e) = varint_from(buf, pos + 1, k + 1);
        assert(p0 + (k + 1) == pos + 1);
        assert(varint_groups_cut(buf, p0, k + 1) == varint_groups_cut(buf, p0, k) + varint_group(
            buf[pos],
            k,
        ));
        if r is None {
            assert forall|j: int| k <= j < 5 && p0 + j < buf.len() implies #[trigger] continues(buf, p0, j) by {
                if j > k {
                }
            }
        } else {
            let n = e - p0;
            assert forall|j: int| k <= j < n - 1 implies #[trigger] continues(buf, p0, j) by {
                if j > k {
                }
            }
            if forall|j: int| k <= j < 5 && p0 + j < buf.len() ==> #[trigger] continues(buf, p0, j) {
                assert forall|j: int| k + 1 <= j < 5 && p0 + j < buf.len() implies #[trigger] continues(buf, p0, j) by {
                }
            }
        }
    }
}

/// An FLP varint read at `p0` in closed form: it fails exactly when none of
/// the (up to five) bytes from `p0` ends it (high bit clear); otherwise it
/// stops after the first such byte, the `n`-th, and its value is the sum of
/// the `n` 7-bit groups at weights `1, 2^7, .., 2^28`, modulo 2^32.
pub proof fn lemma_varint_law(buf: Seq<u8>, p0: int)
    requires
        0 <= p0,
    ensures
        ({
            let (r, e) = varint(buf, p0);
            &&& r is None <==> forall|j: int| 0 <= j < 5 && p0 + j < buf.len() ==> #[trigger] continues(buf, p0, j)
            &&& r matches Some(v) ==> {
                let n = e - p0;
                &&& 1 <= n <= 5
                &&& p0 + n <= buf.len()
                &&& buf[p0 + n - 1] < 128
                &&& forall|j: int| 0 <= j < n - 1 ==> #[trigger] continues(buf, p0, j)
                &&& v == varint_groups(buf, p0, n as nat) % 0x1_0000_0000
            }
        }),
{
    lemma_varint_from_law(buf, p0, 0);
    let (r, e) = varint(buf, p0);
    if r is Some {
        lemma_varint_groups_mod(buf, p0, (e - p0) as nat);
    }
}

/// Read an FLP varint (little-endian 7-bit groups, MSB = continuation) at
/// `*pos`, advancing `*pos` past the bytes read. At most five bytes are read;
/// bits beyond 32 are dropped.
pub fn read_varint(buf: &[u8], pos: &mut usize) -> (r: Option<u32>)
    ensures
        r matches Some(v) ==> varint(buf@, *old(pos) as int).0 == Some(v as int),
        r is None ==> varint(buf@, *old(pos) as int).0 is None,
        *final(pos) as int == varint(buf@, *old(pos) as int).1,
{
    let len = buf.len();
    let ghost start = *old(pos) as int;
    let mut value: u32 = 0;
    let mut k: u32 = 0;
    proof {
        lemma_varint_bounds(buf@, start, 0);
    }
    loop
        invariant
            len == buf@.len(),
            start == *old(pos) as int,
            k <= 4,
            0 <= value < group_weight(k as nat),
            ({
                let r = varint_from(buf@, *pos as int, k as nat);
                &&& varint(buf@, start).1 == r.1
                &&& varint(buf@, start).0 == match r.0 {
                    Some(v) => Some(value + v),
                    None => None::<int>,
                }
            }),
        decreases 5 - k,
    {
        proof {
            lemma_varint_bounds(buf@, *pos as int, k as nat);
        }
        if *pos >= len {
            assert(varint_from(buf@, *pos as int, k as nat) == (None::<int>, *pos as int));
            return None;
        }
        let b = buf[*pos];
        *pos = *pos + 1;
        let g: u32 = if k == 0 {
            (b % 128) as u32
        } else if k == 1 {
            (b % 128) as u32 * 128
        } else if k == 2 {
            (b % 128) as u32 * 16384
        } else if k == 3 {
            (b % 128) as u32 * 2097152
        } else {
            (b % 16) as u32 * 268435456
        };
        value = value + g;
        if b < 128 {
            return Some(value);
        }
        if k == 4 {
            return None;
        }
        proof {
            lemma_varint_bounds(buf@, *pos as int, (k + 1) as nat);
        }
        k = k + 1;
    }
}

// ---------------------------------------------------------------------------
// Event stream
/// Data length of a fixed-size event id (`None` for varint-framed ids).
pub open spec fn fixed_len(id: u8) -> Option<int> {
    if id < 64 {
        Some(1)
    } else if id < 128 {
        Some(2)
    } else if id < 192 {
        Some(4)
    } else {
        None
    }
}

pub open spec fn msg_truncated_varint(off: int) -> Seq<char> {
    "truncated varint at offset "@ + hex_prefixed(off as nat)
}

pub open spec fn msg_overrun(id: u8, off: int) -> Seq<char> {
    "event "@ + decimal(id as nat) + " at offset "@ + hex_prefixed(off as nat)
        + " overruns the FLdt chunk"@
}

/// The events found between `pos` and `end`: `(offset, id, data)` triples,
/// or the message of the first framing error.
pub open spec fn events_from(buf: Seq<u8>, pos: int, end: int) -> Result<
    Seq<(int, u8, Seq<u8>)>,
    Seq<char>,
>
    decreases end - pos,
{
    if pos >= end || pos < 0 {
        Ok(Seq::empty())
    } else {
        let id = buf[pos];
        let (dlen, p) = match fixed_len(id) {
            Some(n) => (Some(n), pos + 1),
            None => varint(buf, pos + 1),
        };
        proof {
            lemma_varint_bounds(buf, pos + 1, 0);
        }
        match dlen {
            None => Err(msg_truncated_varint(pos)),
            Some(n) => if p + n > end {
                Err(msg_overrun(id, pos))
            } else {
                match events_from(buf, p + n, end) {
                    Ok(rest) => Ok(seq![(pos, id, buf.subrange(p, p + n))] + rest),
                    Err(e) => Err(e),
                }
            },
        }
    }
}

pub open spec fn msg_too_small() -> Seq<char> {
    "file is too small to be an FLP"@
}

pub open spec fn msg_zip() -> Seq<char> {
    "this FLP is a ZIP archive (zipped loop package); extract the .flp member first"@
}

pub open spec fn msg_no_flhd() -> Seq<char> {
    "missing FLhd header (not an FLP file?)"@
}

pub open spec fn msg_no_fldt() -> Seq<char> {
    "missing FLdt chunk"@
}

pub open spec fn tag_flhd() -> Seq<u8> {
    seq![0x46u8, 0x4Cu8, 0x68u8, 0x64u8]
}

pub open spec fn tag_fldt() -> Seq<u8> {
    seq![0x46u8, 0x4Cu8, 0x64u8, 0x74u8]
}

/// Whether `buf` starts with the ZIP signature `PK`.
pub open spec fn starts_pk(buf: Seq<u8>) -> bool {
    buf.len() >= 2 && buf[0] == 0x50 && buf[1] == 0x4B
}

/// The whole FLP: the events of the `FLdt` chunk with their offsets.
pub open spec fn flp_events(buf: Seq<u8>) -> Result<Seq<(int, u8, Seq<u8>)>, Seq<char>> {
    if buf.len() < 8 {
        Err(msg_too_small())
    } else if starts_pk(buf) {
        Err(msg_zip())
    } else if buf.subrange(0, 4) != tag_flhd() {
        Err(msg_no_flhd())
    } else {
        let pos = 8 + le_u32(buf, 4);
        if buf.len() < pos + 8 || buf.subrange(pos, pos + 4) != tag_fldt() {
            Err(msg_no_fldt())
        } else {
            let start = pos + 8;
            let dend = start + le_u32(buf, pos + 4);
            let end = if dend < buf.len() {
                dend
            } else {
                buf.len() as int
            };
            events_from(buf, start, end)
        }
    }
}

/// Where the `i`-th event of `v` ends: at the next event, or at `end`.
pub open spec fn event_end(v: Seq<(int, u8, Seq<u8>)>, i: int, end: int) -> int {
    if i + 1 < v.len() {
        v[i + 1].0
    } else {
        end
    }
}

/// The `i`-th event of `v` is framed in `buf` as its id byte, its length
/// (implied by the id below 192, a varint from 192 on) and its data, which
/// runs up to where the event ends.
pub open spec fn event_framed(buf: Seq<u8>, v: Seq<(int, u8, Seq<u8>)>, i: int, end: int) -> bool {
    let (p, id, d) = v[i];
    let q = event_end(v, i, end);
    &&& 0 <= p < q - d.len() <= q <= end
    &&& buf[p] == id
    &&& d == buf.subrange(q - d.len(), q)
    &&& match fixed_len(id) {
        Some(n) => d.len() == n && q == p + 1 + n,
        None => varint(buf, p + 1) == (Some(d.len() as int), q - d.len()),
    }
}

/// The events read from `pos` up to `end` tile that span back to back.
pub proof fn lemma_events_tile(buf: Seq<u8>, pos: int, end: int)
    requires
        0 <= pos,
        end <= buf.len(),
    ensures
        events_from(buf, pos, end) matches Ok(v) ==> {
            &&& (v.len() == 0 <==> pos >= end)
            &&& v.len() > 0 ==> v[0].0 == pos
            &&& forall|i: int| 0 <= i < v.len() ==> #[trigger] event_framed(buf, v, i, end)
        },
    decreases end - pos,
{
    if pos < end {
        let id = buf[pos];
        let (dlen, p) = match fixed_len(id) {
            Some(n) => (Some(n), pos + 1),
            None => varint(buf, pos + 1),
        };
        lemma_varint_bounds(buf, pos + 1, 0);
        if let Some(n) = dlen {
            if p + n <= end {
                lemma_events_tile(buf, p + n, end);
                if let Ok(rest) = events_from(buf, p + n, end) {
                    let v = seq![(pos, id, buf.subrange(p, p + n))] + rest;
                    assert forall|i: int| 0 <= i < v.len() implies #[trigger] event_framed(buf, v, i, end) by {
                        if i == 0 {
                            assert(event_end(v, 0, end) == p + n);
                        } else {
                            assert(v[i] == rest[i - 1]);
                            assert(event_end(v, i, end) == event_end(rest, i - 1, end));
                            assert(event_framed(buf, rest, i - 1, end));
                        }
                    }
                }
            }
        }
    }
}

/// The events of an FLP file tile its `FLdt` data (cut to the file's end)
/// back to back, from just past the `FLdt` header.
pub proof fn lemma_flp_events_tile(buf: Seq<u8>)
    ensures
        flp_events(buf) matches Ok(v) ==> {
            let start = 16 + le_u32(buf, 4);
            let dend = start + le_u32(buf, 12 + le_u32(buf, 4));
            let end = if dend < buf.len() { dend } else { buf.len() as int };
            &&& (v.len() == 0 <==> start >= end)
            &&& v.len() > 0 ==> v[0].0 == start
            &&& forall|i: int| 0 <= i < v.len() ==> #[trigger] event_framed(buf, v, i, end)
        },
{
    if buf.len() >= 8 && !starts_pk(buf) && buf.subrange(0, 4) == tag_flhd() {
        let pos = 8 + le_u32(buf, 4);
        if buf.len() >= pos + 8 {
            let start = pos + 8;
            let dend = start + le_u32(buf, pos + 4);
            let end = if dend < buf.len() { dend } else { buf.len() as int };
            lemma_events_tile(buf, start, end);
        }
    }
}

/// What is not an FLP is refused: a file under 8 bytes, a ZIP (`PK`), one
/// without the `FLhd` magic, or one whose `FLdt` header is missing or cut.
pub proof fn lemma_flp_refused(buf: Seq<u8>)
    requires
        buf.len() < 8 || starts_pk(buf) || buf.subrange(0, 4) != tag_flhd() || buf.len() < 16
            + le_u32(buf, 4) || buf.subrange(8 + le_u32(buf, 4), 12 + le_u32(buf, 4)) != tag_fldt(),
    ensures
        flp_events(buf) is Err,
{
}

fn fldt_tag() -> (v: Vec<u8>)
    ensures
        v@ == tag_fldt(),
{
    let v = vec![0x46u8, 0x4Cu8, 0x64u8, 0x74u8];
    assert(v@ =~= tag_fldt());
    v
}

fn flhd_tag() -> (v: Vec<u8>)
    ensures
        v@ == tag_flhd(),
{
    let v = vec![0x46u8, 0x4Cu8, 0x68u8, 0x64u8];
    assert(v@ =~= tag_flhd());
    v
}

/// Like [`parse_events`], but also returns the byte offset of every event's
/// id within `buf` (the events sit back-to-back inside the FLdt payload).
pub fn parse_event_spans<'a>(buf: &'a [u8]) -> (r: Result<Vec<(usize, Event<'a>)>, String>)
    ensures
        match (r, flp_events(buf@)) {
            (Ok(v), Ok(s)) => v@.map_values(|e: (usize, Event<'a>)| span_view(e)) == s,
            (Err(e), Err(m)) => e@ == m,
            _ => false,
        },
{
    let len = buf.len();
    if len < 8 {
        return Err(string_of("file is too small to be an FLP"));
    }
    if buf[0] == 0x50 && buf[1] == 0x4B {
        return Err(
            string_of(
                "this FLP is a ZIP archive (zipped loop package); extract the .flp member first",
            ),
        );
    }
    if !has_at(buf, 0, flhd_tag().as_slice()) {
        return Err(string_of("missing FLhd header (not an FLP file?)"));
    }
    let hdrlen = read_u32_le(buf, 4) as usize;
    if len < 16 || hdrlen > len - 16 || !has_at(buf, 8 + hdrlen, fldt_tag().as_slice()) {
        return Err(string_of("missing FLdt chunk"));
    }
    let fldt = 8 + hdrlen;
    let dtlen = read_u32_le(buf, fldt + 4) as usize;
    let mut pos = fldt + 8;
    let end = if dtlen < len - pos {
        pos + dtlen
    } else {
        len
    };
    let ghost start = pos as int;
    let mut events: Vec<(usize, Event<'a>)> = Vec::new();
    while pos < end
        invariant
            len == buf@.len(),
            pos <= end <= len,
            flp_events(buf@) == events_from(buf@, start, end as int),
            events_from(buf@, start, end as int) == match events_from(buf@, pos as int, end as int) {
                Ok(rest) => Ok(events@.map_values(|e: (usize, Event<'a>)| span_view(e)) + rest),
                Err(m) => Err(m),
            },
        decreases end - pos,
    {
        let ev_offset = pos;
        let id = buf[pos];
        pos = pos + 1;
        let dlen: usize = if id < 64 {
            1
        } else if id < 128 {
            2
        } else if id < 192 {
            4
        } else {
            proof {
                lemma_varint_bounds(buf@, pos as int, 0);
            }
            match read_varint(buf, &mut pos) {
                Some(v) => v as usize,
                None => {
                    let mut msg = string_of("truncated varint at offset ");
                    push_hex_prefixed(&mut msg, ev_offset as u64);
                    return Err(msg);
                },
            }
        };
        if pos > end || dlen > end - pos {
            let mut msg = string_of("event ");
            push_decimal(&mut msg, id as u64);
            push_str(&mut msg, " at offset ");
            push_hex_prefixed(&mut msg, ev_offset as u64);
            push_str(&mut msg, " overruns the FLdt chunk");
            return Err(msg);
        }
        let data = slice_subrange(buf, pos, pos + dlen);
        let ghost old_events = events@.map_values(|e: (usize, Event<'a>)| span_view(e));
        events.push((ev_offset, Event { id, data }));
        proof {
            let nv = events@.map_values(|e: (usize, Event<'a>)| span_view(e));
            assert(nv =~= old_events.push((ev_offset as int, id, buf@.subrange(pos as int, pos + dlen))));
            match events_from(buf@, pos + dlen, end as int) {
                Ok(rest) => {
                    assert(old_events + (seq![(ev_offset as int, id, buf@.subrange(pos as int, pos + dlen))] + rest) =~= nv + rest);
                },
                Err(_) => {},
            }
        }
        pos = pos + dlen;
    }
    proof {
        assert(events@.map_values(|e: (usize, Event<'a>)| span_view(e)) + Seq::<(int, u8, Seq<u8>)>::empty() =~= events@.map_values(|e: (usize, Event<'a>)| span_view(e)));
    }
    Ok(events)
}

/// The events of an FLP file, without offsets.
pub open spec fn flp_event_list(buf: Seq<u8>) -> Result<Seq<(u8, Seq<u8>)>, Seq<char>> {
    match flp_events(buf) {
        Ok(s) => Ok(s.map_values(|t: (int, u8, Seq<u8>)| (t.1, t.2))),
        Err(e) => Err(e),
    }
}

/// Parse the event stream out of an (uncompressed) FLP file.
pub fn parse_events<'a>(buf: &'a [u8]) -> (r: Result<Vec<Event<'a>>, String>)
    ensures
        match (r, flp_event_list(buf@)) {
            (Ok(v), Ok(s)) => v@.map_values(|e: Event<'a>| event_view(e)) == s,
            (Err(e), Err(m)) => e@ == m,
            _ => false,
        },
{
    let spans = parse_event_spans(buf)?;
    let ghost sv = spans@.map_values(|e: (usize, Event<'a>)| span_view(e));
    let mut out: Vec<Event<'a>> = Vec::with_capacity(spans.len());
    let mut i: usize = 0;
    while i < spans.len()
        invariant
            i <= spans@.len(),
            out@.len() == i,
            forall|j: int| 0 <= j < i ==> #[trigger] out@[j] == spans@[j].1,
        decreases spans.len() - i,
    {
        let (_, ev) = &spans[i];
        out.push(Event { id: ev.id, data: ev.data });
        i += 1;
    }
    proof {
        assert(out@.map_values(|e: Event<'a>| event_view(e)) =~= sv.map_values(
            |t: (int, u8, Seq<u8>)| (t.1, t.2),
        ));
    }
    Ok(out)
}

// ---------------------------------------------------------------------------
// `[u32 cid][u64 LE size][data]` records
/// One step of a record walk over `buf` at `pos`: the record read (if any)
/// and the position and overrun flag afterwards.
pub open spec fn record_next(buf: Seq<u8>, pos: int, overran: bool) -> (
    Option<(u32, Seq<u8>)>,
    int,
    bool,
) {
    if overran || pos + 12 > buf.len() {
        (None, pos, overran)
    } else {
        let sz = le_u64(buf, pos + 4);
        if sz > usize::MAX {
            (None, pos, true)
        } else if sz > buf.len() - (pos + 12) {
            (None, pos, true)
        } else {
            (
                Some((le_u32(buf, pos) as u32, buf.subrange(pos + 12, pos + 12 + sz))),
                pos + 12 + sz,
                false,
            )
        }
    }
}

/// The records a walk from `pos` yields, and where it stops (position and
/// overrun flag).
pub open spec fn record_walk(buf: Seq<u8>, pos: int, overran: bool) -> (
    Seq<(u32, Seq<u8>)>,
    int,
    bool,
)
    decreases buf.len() - pos,
{
    let (r, p, o) = record_next(buf, pos, overran);
    match r {
        Some(rec) => if p > pos {
            let rest = record_walk(buf, p, o);
            (seq![rec] + rest.0, rest.1, rest.2)
        } else {
            (Seq::empty(), p, o)
        },
        None => (Seq::empty(), p, o),
    }
}

/// Iterator over a `[u32 cid][u64 LE size][data]` record sequence. Yields
/// `(cid, data)` for every complete record; stops (yields `None`) as soon as
/// the remaining bytes cannot form one.
pub struct Records<'a> {
    buf: &'a [u8],
    pos: usize,
    overran: bool,
}

impl<'a> View for Records<'a> {
    /// The walked buffer, the current position and the overrun flag.
    type V = (Seq<u8>, int, bool);

    closed spec fn view(&self) -> (Seq<u8>, int, bool) {
        (self.buf@, self.pos as int, self.overran)
    }
}

impl<'a> Records<'a> {
    /// The walk state satisfies `pos <= buf.len()`.
    pub closed spec fn wf(&self) -> bool {
        self.pos <= self.buf@.len()
    }

    /// A well-formed walk sits inside its buffer.
    pub proof fn lemma_wf(&self)
        requires
            self.wf(),
        ensures
            0 <= self@.1 <= self@.0.len(),
    {
    }

    pub fn new(buf: &'a [u8]) -> (r: Records<'a>)
        ensures
            r@ == (buf@, 0int, false),
            r.wf(),
    {
        Records { buf, pos: 0, overran: false }
    }

    /// Offset just past the last complete record consumed.
    pub fn pos(&self) -> (r: usize)
        ensures
            r as int == self@.1,
    {
        self.pos
    }

    /// Iteration stopped early: a record header was readable but its payload
    /// overran the buffer.
    pub fn overran(&self) -> (r: bool)
        ensures
            r == self@.2,
    {
        self.overran
    }

    /// The next complete record, if any.
    pub fn next(&mut self) -> (r: Option<(u32, &'a [u8])>)
        requires
            old(self).wf(),
        ensures
            final(self).wf(),
            final(self)@.0 == old(self)@.0,
            ({
                let (n, p, o) = record_next(old(self)@.0, old(self)@.1, old(self)@.2);
                &&& final(self)@.1 == p
                &&& final(self)@.2 == o
                &&& match (r, n) {
                    (Some(x), Some(y)) => x.0 == y.0 && x.1@ == y.1,
                    (None, None) => true,
                    _ => false,
                }
            }),
    {
        let len = self.buf.len();
        if self.overran || 12 > len - self.pos {
            return None;
        }
        let cid = read_u32_le(self.buf, self.pos);
        let sz = read_u64_le(self.buf, self.pos + 4);
        if sz > usize::MAX as u64 {
            self.overran = true;
            return None;
        }
        let sz = sz as usize;
        if sz > len - self.pos - 12 {
            self.overran = true;
            return None;
        }
        let data = slice_subrange(self.buf, self.pos + 12, self.pos + 12 + sz);
        self.pos = self.pos + 12 + sz;
        Some((cid, data))
    }
}

/// Record walk over `buf`; `None` when `buf` holds fewer than 4 bytes.
pub fn records<'a>(buf: &'a [u8]) -> (r: Option<Records<'a>>)
    ensures
        match r {
            Some(w) => buf@.len() >= 4 && w@ == (buf@, 0int, false) && w.wf(),
            None => buf@.len() < 4,
        },
{
    if buf.len() < 4 {
        None
    } else {
        Some(Records::new(buf))
    }
}

pub proof fn lemma_record_next_advances(buf: Seq<u8>, pos: int, overran: bool)
    requires
        0 <= pos <= buf.len(),
    ensures
        ({
            let (r, p, o) = record_next(buf, pos, overran);
            &&& pos <= p <= buf.len()
            &&& (r is Some ==> p >= pos + 12 && !o)
        }),
{
}

/// Walking one more record keeps the overall result.
pub proof fn lemma_record_walk_step(buf: Seq<u8>, pos: int, overran: bool)
    requires
        0 <= pos <= buf.len(),
    ensures
        ({
            let (r, p, o) = record_next(buf, pos, overran);
            let w = record_walk(buf, pos, overran);
            match r {
                Some(rec) => {
                    let rest = record_walk(buf, p, o);
                    w == (seq![rec] + rest.0, rest.1, rest.2)
                },
                None => w == (Seq::<(u32, Seq<u8>)>::empty(), p, o),
            }
        }),
{
    lemma_record_next_advances(buf, pos, overran);
}

/// The bytes `recs` take up as records: a 12-byte header plus the payload
/// each.
pub open spec fn records_span(recs: Seq<(u32, Seq<u8>)>) -> int
    decreases recs.len(),
{
    if recs.len() == 0 {
        0
    } else {
        12 + recs[0].1.len() + records_span(recs.drop_first())
    }
}

/// What a record walk from `pos` comes to: the records lie back to back
/// from `pos` (each its id, its size and its payload), the walk stops just
/// past the last of them, inside the buffer, and says it overran exactly
/// when a further header is readable whose size exceeds the bytes after
/// it; from there, no further record is read.
pub proof fn lemma_record_walk_law(buf: Seq<u8>, pos: int)
    requires
        0 <= pos <= buf.len(),
        buf.len() <= usize::MAX,
    ensures
        ({
            let (recs, p, o) = record_walk(buf, pos, false);
            &&& p == pos + records_span(recs)
            &&& p <= buf.len()
            &&& forall|i: int| 0 <= i < recs.len() ==> {
                let q = pos + records_span(#[trigger] recs.take(i));
                &&& le_u32(buf, q) as u32 == recs[i].0
                &&& le_u64(buf, q + 4) == recs[i].1.len()
                &&& buf.subrange(q + 12, q + 12 + recs[i].1.len()) == recs[i].1
            }
            &&& o == (p + 12 <= buf.len() && le_u64(buf, p + 4) > buf.len() - p - 12)
            &&& record_next(buf, p, o).0 is None
            &&& record_next(buf, p, o).1 == p
        }),
    decreases buf.len() - pos,
{
    let (r, p1, o1) = record_next(buf, pos, false);
    lemma_record_next_advances(buf, pos, false);
    match r {
        Some(rec) => {
            lemma_record_walk_law(buf, p1);
            let rest = record_walk(buf, p1, o1);
            let recs = seq![rec] + rest.0;
            assert(recs.drop_first() =~= rest.0);
            assert(records_span(recs) == 12 + rec.1.len() + records_span(rest.0));
            assert forall|i: int| 0 <= i < recs.len() implies {
                let q = pos + records_span(#[trigger] recs.take(i));
                &&& le_u32(buf, q) as u32 == recs[i].0
                &&& le_u64(buf, q + 4) == recs[i].1.len()
                &&& buf.subrange(q + 12, q + 12 + recs[i].1.len()) == recs[i].1
            } by {
                if i == 0 {
                    assert(recs.take(0) =~= Seq::<(u32, Seq<u8>)>::empty());
                } else {
                    assert(recs.take(i).drop_first() =~= rest.0.take(i - 1));
                    assert(recs.take(i)[0] == rec);
                    assert(rest.0.take(i - 1) == rest.0.take(i - 1));
                    assert(recs[i] == rest.0[i - 1]);
                }
            }
        },
        None => {},
    }
}

/// The payload of the last record with id `cid` (empty when none).
pub open spec fn last_payload(recs: Seq<(u32, Seq<u8>)>, cid: u32) -> Seq<u8>
    decreases recs.len(),
{
    if recs.len() == 0 {
        Seq::empty()
    } else if recs.last().0 == cid {
        recs.last().1
    } else {
        last_payload(recs.drop_last(), cid)
    }
}

/// `last_payload` in closed form: the payload of the record with id `cid`
/// that no later record of that id follows, and empty when no record has
/// that id.
pub proof fn lemma_last_payload(recs: Seq<(u32, Seq<u8>)>, cid: u32)
    ensures
        (forall|i: int| 0 <= i < recs.len() ==> (#[trigger] recs[i]).0 != cid) ==> last_payload(
            recs,
            cid,
        ) == Seq::<u8>::empty(),
        forall|i: int|
            0 <= i < recs.len() && (#[trigger] recs[i]).0 == cid && (forall|j: int|
                i < j < recs.len() ==> (#[trigger] recs[j]).0 != cid) ==> last_payload(recs, cid)
                == recs[i].1,
    decreases recs.len(),
{
    if recs.len() > 0 {
        let w = recs.drop_last();
        lemma_last_payload(w, cid);
        let n = recs.len() - 1;
        if forall|i: int| 0 <= i < recs.len() ==> (#[trigger] recs[i]).0 != cid {
            assert(recs[n].0 != cid);
            assert forall|i: int| 0 <= i < w.len() implies (#[trigger] w[i]).0 != cid by {
                assert(w[i] == recs[i]);
            }
        }
        assert forall|i: int|
            0 <= i < recs.len() && (#[trigger] recs[i]).0 == cid && (forall|j: int|
                i < j < recs.len() ==> (#[trigger] recs[j]).0 != cid) implies last_payload(recs, cid)
            == recs[i].1 by {
            if i < n {
                assert(recs[n].0 != cid);
                assert(w[i] == recs[i]);
                assert forall|j: int| i < j < w.len() implies (#[trigger] w[j]).0 != cid by {
                    assert(w[j] == recs[j]);
                }
            }
        }
    }
}

/// The chunks found inside a `PluginParams` (event 213) payload.
pub struct PluginParams<'a> {
    pub name: &'a [u8],
    pub filename: &'a [u8],
    pub vendor: &'a [u8],
    pub state: &'a [u8],
}

pub const PLUGIN_CHUNK_STATE: u32 = 53;

pub const PLUGIN_CHUNK_NAME: u32 = 54;

pub const PLUGIN_CHUNK_FILENAME: u32 = 55;

pub const PLUGIN_CHUNK_VENDOR: u32 = 56;

pub open spec fn msg_params_small() -> Seq<char> {
    "PluginParams payload too small"@
}

pub open spec fn msg_params_overrun() -> Seq<char> {
    "a plugin chunk overruns the PluginParams payload"@
}

/// The `(name, filename, vendor, state)` chunks of a `PluginParams`
/// payload: a u32 LE format version, then (from version 5 on) a record
/// sequence in which the last record of each id 54 / 55 / 56 / 53 wins;
/// older versions carry a bare state blob.
pub open spec fn plugin_params(data: Seq<u8>) -> Result<
    (Seq<u8>, Seq<u8>, Seq<u8>, Seq<u8>),
    Seq<char>,
> {
    if data.len() < 4 {
        Err(msg_params_small())
    } else if le_u32(data, 0) < 5 {
        Ok((Seq::empty(), Seq::empty(), Seq::empty(), data.subrange(4, data.len() as int)))
    } else {
        let w = record_walk(data.subrange(4, data.len() as int), 0, false);
        if w.2 {
            Err(msg_params_overrun())
        } else {
            Ok(
                (
                    last_payload(w.0, PLUGIN_CHUNK_NAME),
                    last_payload(w.0, PLUGIN_CHUNK_FILENAME),
                    last_payload(w.0, PLUGIN_CHUNK_VENDOR),
                    last_payload(w.0, PLUGIN_CHUNK_STATE),
                ),
            )
        }
    }
}

/// Parse the chunk sequence of a `PluginParams` event payload.
///
/// Layout: `u32 LE format version`, then a sequence of
/// `[u32 LE chunk id][u32 LE size lo][u32 LE size hi][data]` records.
/// Chunk ids 53..56 carry the plugin state / name / filename / vendor.
pub fn parse_plugin_params<'a>(data: &'a [u8]) -> (r: Result<PluginParams<'a>, String>)
    ensures
        match (r, plugin_params(data@)) {
            (Ok(p), Ok(s)) => (p.name@, p.filename@, p.vendor@, p.state@) == s,
            (Err(e), Err(m)) => e@ == m,
            _ => false,
        },
{
    let len = data.len();
    if len < 4 {
        return Err(string_of("PluginParams payload too small"));
    }
    let version = read_u32_le(data, 0);
    let rest = slice_subrange(data, 4, len);
    let empty = slice_subrange(data, 0, 0);
    let mut out = PluginParams { name: empty, filename: empty, vendor: empty, state: empty };
    if version < 5 {
        out.state = rest;
        return Ok(out);
    }
    let mut recs = Records::new(rest);
    let ghost total = record_walk(rest@, 0, false);
    let ghost mut seen: Seq<(u32, Seq<u8>)> = Seq::empty();
    proof {
        assert(empty@ =~= Seq::<u8>::empty());
    }
    loop
        invariant
            recs.wf(),
            recs@.0 == rest@,
            ({
                let w = record_walk(rest@, recs@.1, recs@.2);
                total == (seen + w.0, w.1, w.2)
            }),
            out.name@ == last_payload(seen, PLUGIN_CHUNK_NAME),
            out.filename@ == last_payload(seen, PLUGIN_CHUNK_FILENAME),
            out.vendor@ == last_payload(seen, PLUGIN_CHUNK_VENDOR),
            out.state@ == last_payload(seen, PLUGIN_CHUNK_STATE),
        ensures
            total == (seen, recs@.1, recs@.2),
            out.name@ == last_payload(seen, PLUGIN_CHUNK_NAME),
            out.filename@ == last_payload(seen, PLUGIN_CHUNK_FILENAME),
            out.vendor@ == last_payload(seen, PLUGIN_CHUNK_VENDOR),
            out.state@ == last_payload(seen, PLUGIN_CHUNK_STATE),
        decreases rest@.len() - recs@.1,
    {
        proof {
            lemma_record_walk_step(rest@, recs@.1, recs@.2);
            lemma_record_next_advances(rest@, recs@.1, recs@.2);
        }
        match recs.next() {
            Some((cid, payload)) => {
                let ghost rec = (cid, payload@);
                proof {
                    assert(seen.push(rec).drop_last() =~= seen);
                    let w = record_walk(rest@, recs@.1, recs@.2);
                    assert(seen + (seq![rec] + w.0) =~= seen.push(rec) + w.0);
                    seen = seen.push(rec);
                }
                if cid == PLUGIN_CHUNK_STATE {
                    out.state = payload;
                } else if cid == PLUGIN_CHUNK_NAME {
                    out.name = payload;
                } else if cid == PLUGIN_CHUNK_FILENAME {
                    out.filename = payload;
                } else if cid == PLUGIN_CHUNK_VENDOR {
                    out.vendor = payload;
                }
            },
            None => {
                proof {
                    assert(seen + Seq::<(u32, Seq<u8>)>::empty() =~= seen);
                }
                break;
            },
        }
    }
    if recs.overran() {
        return Err(string_of("a plugin chunk overruns the PluginParams payload"));
    }
    Ok(out)
}

} // verus!
