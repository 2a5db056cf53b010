//! Shared zlib inflate and Serum chunk stream splitting.
//!
//! All callers share one sanity cap, [`MAX_STREAM`] (32 MiB), on the
//! decompressed size of a single zlib stream.

use vstd::prelude::*;
use vstd::slice::slice_subrange;
use crate::bytes::{le_u32, read_u32_le};
use crate::strs::{push_str, string_of};

verus! {

/// Sanity cap on the decompressed size of a single zlib stream.
pub const MAX_STREAM: usize = 33554432;

/// What `flate2`'s zlib reader over `data`, read through `Read::take(n)`
/// with `read_to_end`, makes of it: the bytes read (at most `n`), the text
/// of the error `read_to_end` stopped on (if any), and the number of input
/// bytes its decompressor consumed.
pub uninterp spec fn zlib_take(data: Seq<u8>, n: nat) -> (Seq<u8>, Option<Seq<char>>, nat);

/// Reads `flate2::read::ZlibDecoder` over `data` through `Read::take(n)`
/// with `Read::read_to_end`; returns the bytes, the error text and
/// `total_in()`.
///
/// Claimed: the outcome is [`zlib_take`] of the arguments; at most `n`
/// bytes come out (`take`), and no more than `isize::MAX` (the most a `Vec`
/// of bytes can hold, as its documentation states); a read that ends without error short of `n`
/// bytes stopped on a read of 0 bytes from the decoder, which flate2
/// returns (for a non-empty buffer) only after the stream's end marker, so
/// it consumed between 1 and `data.len()` input bytes.
#[verifier::external_body]
pub(crate) fn zlib_read_at_most(data: &[u8], n: u64) -> (r: (Vec<u8>, Option<String>, usize))
    ensures
        (r.0@, opt_text(r.1), r.2 as nat) == zlib_take(data@, n as nat),
        r.0@.len() <= n,
        r.0@.len() <= isize::MAX,
        r.1 is None && r.0@.len() < n ==> 1 <= r.2 <= data@.len(),
{
    let mut dec = flate2::read::ZlibDecoder::new(data);
    let mut out = Vec::new();
    let err = match std::io::Read::read_to_end(&mut std::io::Read::take(&mut dec, n), &mut out) {
        Ok(_) => None,
        Err(e) => Some(e.to_string()),
    };
    (out, err, dec.total_in() as usize)
}

/// How many bytes a read capped at `max_out` takes: one more than the cap,
/// so that going past it shows (all a `u64` holds when the cap is its
/// largest value).
pub open spec fn read_limit(max_out: nat) -> nat {
    if max_out < u64::MAX {
        max_out + 1
    } else {
        u64::MAX as nat
    }
}

/// [`read_limit`] as a `u64`.
pub(crate) fn read_limit_u64(max_out: usize) -> (n: u64)
    ensures
        n as nat == read_limit(max_out as nat),
{
    let m = max_out as u64;
    if m < u64::MAX {
        m + 1
    } else {
        u64::MAX
    }
}

/// The text of an optional message.
pub open spec fn opt_text(e: Option<String>) -> Option<Seq<char>> {
    match e {
        Some(s) => Some(s@),
        None => None,
    }
}

pub open spec fn msg_not_zlib() -> Seq<char> {
    "not a zlib stream (expected 0x78 header byte)"@
}

pub open spec fn msg_stream_cap() -> Seq<char> {
    "decompressed stream exceeds sanity limit"@
}

/// Inflating one zlib stream at the start of `data`, capped at `max_out`
/// bytes: the decompressed bytes and the input bytes consumed.
pub open spec fn inflate_spec(data: Seq<u8>, max_out: nat) -> Result<(Seq<u8>, nat), Seq<char>> {
    if data.len() == 0 || data[0] != 0x78 {
        Err(msg_not_zlib())
    } else {
        let (out, err, consumed) = zlib_take(data, read_limit(max_out));
        if out.len() > max_out {
            Err(msg_stream_cap())
        } else {
            match err {
                Some(m) => Err("zlib error: "@ + m),
                None => Ok((out, consumed)),
            }
        }
    }
}

/// Inflate one zlib stream starting at `data[0]`.
/// Returns the decompressed bytes and the number of input bytes consumed.
pub fn inflate(data: &[u8], max_out: usize) -> (r: Result<(Vec<u8>, usize), String>)
    ensures
        match (r, inflate_spec(data@, max_out as nat)) {
            (Ok(a), Ok(b)) => a.0@ == b.0 && a.1 == b.1 && 1 <= a.1 <= data@.len(),
            (Err(a), Err(b)) => a@ == b,
            _ => false,
        },
{
    if data.len() == 0 || data[0] != 0x78 {
        return Err(string_of("not a zlib stream (expected 0x78 header byte)"));
    }
    let n = read_limit_u64(max_out);
    let (out, err, consumed) = zlib_read_at_most(data, n);
    if out.len() > max_out {
        return Err(string_of("decompressed stream exceeds sanity limit"));
    }
    match err {
        Some(e) => {
            let mut msg = string_of("zlib error: ");
            push_str(&mut msg, e.as_str());
            Err(msg)
        },
        None => Ok((out, consumed)),
    }
}

pub open spec fn msg_chunk_small() -> Seq<char> {
    "chunk too small to contain a zlib stream"@
}

pub open spec fn msg_chunk_no_zlib() -> Seq<char> {
    "chunk does not start with a zlib stream"@
}

pub open spec fn msg_chunk_no_streams() -> Seq<char> {
    "chunk contains no zlib streams"@
}

/// The zlib streams of `chunk` from `pos` on, and the position after the
/// last one. A failure in the first stream (at 0) is fatal; a later
/// failure ends the walk.
pub open spec fn streams_from(chunk: Seq<u8>, pos: int) -> (Result<Seq<Seq<u8>>, Seq<char>>, int)
    decreases chunk.len() - pos,
{
    if pos < 0 || chunk.len() - pos <= 4 {
        (Ok(Seq::empty()), pos)
    } else if chunk[pos] != 0x78 {
        if pos == 0 {
            (Err(msg_chunk_no_zlib()), pos)
        } else {
            (Ok(Seq::empty()), pos)
        }
    } else {
        match inflate_spec(chunk.subrange(pos, chunk.len() as int), MAX_STREAM as nat) {
            Err(e) => if pos == 0 {
                (Err(e), pos)
            } else {
                (Ok(Seq::empty()), pos)
            },
            Ok((out, consumed)) => if consumed >= 1 && pos + consumed <= chunk.len() {
                let (rest, end) = streams_from(chunk, pos + consumed);
                match rest {
                    Ok(s) => (Ok(seq![out] + s), end),
                    Err(e) => (Err(e), end),
                }
            } else {
                (Ok(seq![out]), pos)
            },
        }
    }
}

/// Splitting a Serum chunk: its streams, and whether it ends with a valid
/// trailer (the 4 bytes after the streams holding stream 0's compressed
/// size).
pub open spec fn split_chunk_spec(chunk: Seq<u8>) -> Result<(Seq<Seq<u8>>, bool), Seq<char>> {
    if chunk.len() < 8 {
        Err(msg_chunk_small())
    } else {
        let (r, end) = streams_from(chunk, 0);
        match r {
            Err(e) => Err(e),
            Ok(s) => if s.len() == 0 {
                Err(msg_chunk_no_streams())
            } else {
                let trailer_ok = chunk.len() - end == 4 && match inflate_spec(
                    chunk,
                    MAX_STREAM as nat,
                ) {
                    Ok((_, c)) => le_u32(chunk, chunk.len() - 4) == c,
                    Err(_) => false,
                };
                Ok((s, trailer_ok))
            },
        }
    }
}

/// Split a Serum chunk into its zlib streams and validate the trailer.
///
/// Layout: `[zlib stream 0][zlib stream 1]...[u32 LE trailer]` where the
/// trailer equals the compressed size of stream 0 (the preset state; the
/// remaining streams carry embedded wavetable / noise data). A minimal zlib
/// stream is 8 bytes, so a 4-byte tail can only be the trailer. A failure in
/// any stream after the first ends the stream walk (a chunk boundary may
/// carry non-stream bytes); a failure in the first stream is fatal.
pub fn split_chunk(chunk: &[u8]) -> (r: Result<(Vec<Vec<u8>>, bool), String>)
    ensures
        match (r, split_chunk_spec(chunk@)) {
            (Ok(a), Ok(b)) => a.0@.map_values(|v: Vec<u8>| v@) == b.0 && a.1 == b.1,
            (Err(a), Err(b)) => a@ == b,
            _ => false,
        },
{
    let len = chunk.len();
    if len < 8 {
        return Err(string_of("chunk too small to contain a zlib stream"));
    }
    let candidate_trailer = read_u32_le(chunk, len - 4) as usize;
    let mut pos: usize = 0;
    let mut streams: Vec<Vec<u8>> = Vec::new();
    let mut s0_len: usize = 0;
    proof {
        assert(chunk@.subrange(0, len as int) =~= chunk@);
    }
    loop
        invariant
            len == chunk@.len() >= 8,
            chunk@.subrange(0, len as int) == chunk@,
            pos <= len,
            pos == 0 <==> streams@.len() == 0,
            streams@.len() > 0 ==> (inflate_spec(chunk@, MAX_STREAM as nat) matches Ok((_, c))
                && c == s0_len),
            ({
                let (r, end) = streams_from(chunk@, pos as int);
                streams_from(chunk@, 0) == match r {
                    Ok(s) => (Ok(streams@.map_values(|v: Vec<u8>| v@) + s), end),
                    Err(e) => (Err(e), end),
                }
            }),
        ensures
            pos <= len,
            streams@.len() > 0 ==> (inflate_spec(chunk@, MAX_STREAM as nat) matches Ok((_, c))
                && c == s0_len),
            streams_from(chunk@, 0) == (
                Ok::<Seq<Seq<u8>>, Seq<char>>(streams@.map_values(|v: Vec<u8>| v@)),
                pos as int,
            ),
        decreases len - pos,
    {
        let ghost old_streams = streams@.map_values(|v: Vec<u8>| v@);
        if len - pos <= 4 {
            proof {
                assert(old_streams + Seq::<Seq<u8>>::empty() =~= old_streams);
            }
            break;
        }
        if chunk[pos] != 0x78 {
            if pos == 0 {
                return Err(string_of("chunk does not start with a zlib stream"));
            }
            proof {
                assert(old_streams + Seq::<Seq<u8>>::empty() =~= old_streams);
            }
            break;
        }
        let rest = slice_subrange(chunk, pos, len);
        match inflate(rest, MAX_STREAM) {
            Err(e) => {
                if pos == 0 {
                    return Err(e);
                }
                proof {
                    assert(old_streams + Seq::<Seq<u8>>::empty() =~= old_streams);
                }
                break;
            },
            Ok((out, consumed)) => {
                let ghost ov = out@;
                if pos == 0 {
                    s0_len = consumed;
                }
                streams.push(out);
                proof {
                    let nv = streams@.map_values(|v: Vec<u8>| v@);
                    assert(nv =~= old_streams.push(ov));
                    let (r, end) = streams_from(chunk@, pos + consumed);
                    match r {
                        Ok(s) => {
                            assert(old_streams + (seq![ov] + s) =~= nv + s);
                        },
                        Err(_) => {},
                    }
                }
                pos = pos + consumed;
            },
        }
    }
    let has_trailer = len - pos == 4 && candidate_trailer == s0_len;
    Ok((streams, has_trailer))
}

/// What `flate2`'s zlib encoder at level 1 (`write::ZlibEncoder` over a
/// `Vec`, `Compression::new(1)`, `write_all` then `finish`) makes of
/// `data`: the compressed bytes, or the text of the I/O error it failed
/// with.
pub uninterp spec fn zlib_level1_encode(data: Seq<u8>) -> Result<Seq<u8>, Seq<char>>;

/// Compresses `data` with `flate2::write::ZlibEncoder` at level 1.
///
/// Claimed: the result is [`zlib_level1_encode`] of the input; a successful
/// output is one zlib stream whose header is `0x78 0x01` (miniz_oxide, the
/// default backend, writes CMF `0x78` for its 32 KiB window and, for the
/// greedy single-probe parsing of level 1, FLEVEL 0 with FCHECK 1) which
/// flate2's zlib reader decodes back to `data` without error, consuming all
/// of it (zlib is lossless and the stream ends with its Adler-32 trailer),
/// whenever the read may take more than `data.len()` bytes (so that it
/// reaches the end marker).
#[verifier::external_body]
pub(crate) fn deflate_zlib_level1(data: &[u8]) -> (r: Result<Vec<u8>, String>)
    ensures
        match (r, zlib_level1_encode(data@)) {
            (Ok(a), Ok(b)) => {
                &&& a@ == b
                &&& b.len() >= 2
                &&& b[0] == 0x78
                &&& b[1] == 0x01
                &&& forall|n: nat| n > data@.len() ==> #[trigger] zlib_take(b, n) == (
                    data@,
                    None::<Seq<char>>,
                    b.len(),
                )
            },
            (Err(a), Err(b)) => a@ == b,
            _ => false,
        },
{
    let mut enc = flate2::write::ZlibEncoder::new(Vec::new(), flate2::Compression::new(1));
    if let Err(e) = std::io::Write::write_all(&mut enc, data) {
        return Err(e.to_string());
    }
    match enc.finish() {
        Ok(v) => Ok(v),
        Err(e) => Err(e.to_string()),
    }
}

} // verus!
