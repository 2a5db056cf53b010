//! What a rewritten FLP reads back as: the framing that a rewrite emits
//! parses again into the events it was built from.

use vstd::prelude::*;
use crate::bytes::{le_bytes32, le_u32};
use crate::flp::{events_from, fixed_len, flp_events, group_weight, varint, varint_from, varint_group};
use crate::fxp::PatchField;
use crate::flpconv::{
    apply_spec, apply_walk, first_plan_error, locate_spec, next_off, patch_flp_spec, patch_payload_spec,
    patch_walk, piece, pieces, plan_error, serum2_payload_spec, splice_spec, stream_end, varint_bytes,
    InstancePlan, Serum2Bundle,
};
use crate::flp::{plugin_params, EV_PLUGIN_PARAMS};
use crate::serum::{is_serum1_synth_spec, is_serum2_spec, is_serum_fx_spec};

verus! {

/// The varint a rewrite emits for `m` reads back as `m`: placed as the
/// `k`-th group onwards, it contributes `m` times that group's weight and
/// is read to its last byte.
proof fn lemma_varint_roundtrip(s: Seq<u8>, pos: int, k: nat, m: nat)
    requires
        k <= 4,
        m * group_weight(k) < 0x1_0000_0000,
        0 <= pos,
        pos + varint_bytes(m).len() <= s.len(),
        s.subrange(pos, pos + varint_bytes(m).len()) == varint_bytes(m),
    ensures
        varint_from(s, pos, k) == (Some(m * group_weight(k)), pos + varint_bytes(m).len()),
    decreases m,
{
    let vb = varint_bytes(m);
    assert(s[pos] == s.subrange(pos, pos + vb.len())[0]);
    if m < 128 {
        assert(vb =~= seq![m as u8]);
        assert(s[pos] == m as u8);
        if k == 4 {
            assert(m < 16) by (nonlinear_arith)
                requires
                    m * 268435456 < 0x1_0000_0000,
            ;
        }
    } else {
        let rest = varint_bytes(m / 128);
        assert(vb =~= seq![(m % 128 + 128) as u8] + rest);
        assert(s[pos] == (m % 128 + 128) as u8);
        if k == 4 {
            assert(false) by (nonlinear_arith)
                requires
                    m * 268435456 < 0x1_0000_0000,
                    m >= 128,
            ;
        }
        let w = group_weight(k);
        let w1 = group_weight(k + 1);
        assert(w1 == 128 * w);
        assert((m / 128) * w1 <= m * w && m * w == (m % 128) * w + (m / 128) * w1) by (nonlinear_arith)
            requires
                w1 == 128 * w,
                w >= 1,
        ;
        assert(s.subrange(pos + 1, pos + 1 + rest.len()) =~= vb.subrange(1, vb.len() as int));
        assert(vb.subrange(1, vb.len() as int) =~= rest);
        lemma_varint_roundtrip(s, pos + 1, k + 1, m / 128);
        assert(varint_group(s[pos], k) == (m % 128) * w);
    }
}

/// A varint reads the same wherever its bytes stand.
proof fn lemma_varint_local(s1: Seq<u8>, p1: int, s2: Seq<u8>, p2: int, k: nat)
    requires
        k <= 5,
        0 <= p1,
        0 <= p2,
        varint_from(s1, p1, k).0 is Some,
        varint_from(s1, p1, k).1 <= s1.len(),
        p2 + (varint_from(s1, p1, k).1 - p1) <= s2.len(),
        s1.subrange(p1, varint_from(s1, p1, k).1) == s2.subrange(p2, p2 + (varint_from(s1, p1, k).1 - p1)),
    ensures
        varint_from(s2, p2, k) == (varint_from(s1, p1, k).0, p2 + (varint_from(s1, p1, k).1 - p1)),
    decreases 5 - k,
{
    let r = varint_from(s1, p1, k);
    let l = r.1 - p1;
    assert(k < 5 && p1 < s1.len());
    if s1[p1] >= 128 && k < 4 {
        crate::flp::lemma_varint_bounds(s1, p1 + 1, k + 1);
    }
    assert(r.1 > p1);
    assert(s1[p1] == s1.subrange(p1, r.1)[0]);
    assert(s2[p2] == s2.subrange(p2, p2 + l)[0]);
    if s1[p1] >= 128 {
        let r1 = varint_from(s1, p1 + 1, k + 1);
        assert(s1.subrange(p1 + 1, r.1) =~= s1.subrange(p1, r.1).subrange(1, l));
        assert(s2.subrange(p2 + 1, p2 + l) =~= s2.subrange(p2, p2 + l).subrange(1, l));
        lemma_varint_local(s1, p1 + 1, s2, p2 + 1, k + 1);
    }
}


/// The header of the event at `pos`: the payload length it declares (if
/// it reads) and where the payload starts.
pub open spec fn event_header(buf: Seq<u8>, pos: int) -> (Option<int>, int) {
    match fixed_len(buf[pos]) {
        Some(n) => (Some(n), pos + 1),
        None => varint(buf, pos + 1),
    }
}

/// Every parsed event is its id, a header that reads, and a payload that
/// ends where the next event (or the stream) begins.
proof fn lemma_event_shape(buf: Seq<u8>, pos: int, end: int)
    requires
        0 <= pos,
        events_from(buf, pos, end) is Ok,
    ensures
        ({
            let s = events_from(buf, pos, end)->Ok_0;
            forall|i: int|
                0 <= i < s.len() ==> {
                    let h = #[trigger] event_header(buf, s[i].0);
                    &&& h.0 is Some
                    &&& 0 <= h.0->0
                    &&& s[i].1 == buf[s[i].0]
                    &&& s[i].0 < h.1
                    &&& s[i].2 == buf.subrange(h.1, h.1 + h.0->0)
                    &&& h.1 + h.0->0 == next_off(s, i, end)
                }
        }),
    decreases end - pos,
{
    if pos < end {
        let id = buf[pos];
        let (dlen, p) = event_header(buf, pos);
        crate::flp::lemma_varint_bounds(buf, pos + 1, 0);
        match dlen {
            Some(n) => {
                if p + n <= end {
                    lemma_event_shape(buf, p + n, end);
                    let rest = events_from(buf, p + n, end)->Ok_0;
                    let s = events_from(buf, pos, end)->Ok_0;
                    assert(s == seq![(pos, id, buf.subrange(p, p + n))] + rest);
                    if rest.len() > 0 {
                        crate::flpconv::lemma_first_event_at(buf, p + n, end);
                    }
                    assert forall|i: int| 0 <= i < s.len() implies {
                        let h = #[trigger] event_header(buf, s[i].0);
                        &&& h.0 is Some
                        &&& 0 <= h.0->0
                        &&& s[i].1 == buf[s[i].0]
                        &&& s[i].0 < h.1
                        &&& s[i].2 == buf.subrange(h.1, h.1 + h.0->0)
                        &&& h.1 + h.0->0 == next_off(s, i, end)
                    } by {
                        if i > 0 {
                            assert(s[i] == rest[i - 1]);
                            assert(next_off(s, i, end) == next_off(rest, i - 1, end));
                            let h = event_header(buf, rest[i - 1].0);
                            assert(h.0 is Some);
                        }
                    }
                }
            },
            None => {},
        }
    }
}


/// The events a rewrite should read back as: event `i` at the new offset
/// `start` plus the length of what precedes it; a replaced one as a
/// `PluginParams` event with its new payload, any other unchanged.
pub open spec fn reread_events(
    buf: Seq<u8>,
    s: Seq<(int, u8, Seq<u8>)>,
    end: int,
    repl: Seq<Option<Seq<u8>>>,
    start: int,
) -> Seq<(int, u8, Seq<u8>)> {
    Seq::new(
        s.len(),
        |i: int|
            (
                start + pieces(buf, s, end, repl, i).len(),
                match repl[i] {
                    Some(_) => crate::flp::EV_PLUGIN_PARAMS,
                    None => s[i].1,
                },
                match repl[i] {
                    Some(p) => p,
                    None => s[i].2,
                },
            ),
    )
}

/// The emitted bytes of the first `k` events open those of the first `m`.
proof fn lemma_pieces_prefix(buf: Seq<u8>, s: Seq<(int, u8, Seq<u8>)>, end: int, repl: Seq<Option<Seq<u8>>>, k: int, m: int)
    requires
        0 <= k <= m,
    ensures
        pieces(buf, s, end, repl, k).len() <= pieces(buf, s, end, repl, m).len(),
        pieces(buf, s, end, repl, m).subrange(0, pieces(buf, s, end, repl, k).len() as int) == pieces(
            buf,
            s,
            end,
            repl,
            k,
        ),
    decreases m - k,
{
    if k < m {
        lemma_pieces_prefix(buf, s, end, repl, k, m - 1);
        let a = pieces(buf, s, end, repl, m - 1);
        let pk = pieces(buf, s, end, repl, k);
        assert((a + piece(buf, s, end, repl, m - 1)).subrange(0, pk.len() as int) =~= a.subrange(
            0,
            pk.len() as int,
        ));
    } else {
        let pk = pieces(buf, s, end, repl, k);
        assert(pk.subrange(0, pk.len() as int) =~= pk);
    }
}

/// From event `k` on, the rewritten stream reads back as the expected
/// events.
#[verifier::spinoff_prover]
#[verifier::rlimit(60)]
proof fn lemma_reread_from(
    buf: Seq<u8>,
    s: Seq<(int, u8, Seq<u8>)>,
    end: int,
    repl: Seq<Option<Seq<u8>>>,
    start: int,
    out: Seq<u8>,
    pos0: int,
    k: int,
)
    requires
        0 <= pos0,
        events_from(buf, pos0, end) == Ok::<Seq<(int, u8, Seq<u8>)>, Seq<char>>(s),
        end <= buf.len(),
        repl.len() == s.len(),
        forall|i: int| 0 <= i < s.len() ==> (#[trigger] repl[i] matches Some(p) ==> p.len() < 0x1_0000_0000),
        0 <= start,
        out.len() == start + pieces(buf, s, end, repl, s.len() as int).len(),
        out.subrange(start, out.len() as int) == pieces(buf, s, end, repl, s.len() as int),
        0 <= k <= s.len(),
    ensures
        events_from(out, start + pieces(buf, s, end, repl, k).len(), out.len() as int) == Ok::<
            Seq<(int, u8, Seq<u8>)>,
            Seq<char>,
        >(reread_events(buf, s, end, repl, start).subrange(k, s.len() as int)),
    decreases s.len() - k,
{
    let n = s.len() as int;
    let e = reread_events(buf, s, end, repl, start);
    let whole = pieces(buf, s, end, repl, n);
    let pk = pieces(buf, s, end, repl, k);
    let pos = start + pk.len();
    if k == n {
        assert(e.subrange(k, n) =~= Seq::<(int, u8, Seq<u8>)>::empty());
    } else {
        lemma_reread_from(buf, s, end, repl, start, out, pos0, k + 1);
        lemma_pieces_prefix(buf, s, end, repl, k + 1, n);
        let pc = piece(buf, s, end, repl, k);
        let pk1 = pieces(buf, s, end, repl, k + 1);
        assert(pk1 == pk + pc);
        let nxt = start + pk1.len();
        // The bytes of event k in the output are its piece.
        assert(out.subrange(pos, nxt) =~= pc) by {
            assert(whole.subrange(0, pk1.len() as int) == pk1);
            assert forall|j: int| 0 <= j < pc.len() implies out.subrange(pos, nxt)[j] == pc[j] by {
                assert(out[pos + j] == out.subrange(start, out.len() as int)[pk.len() + j]);
                assert(whole[pk.len() + j] == pk1[pk.len() + j]);
            }
        }
        lemma_event_shape(buf, pos0, end);
        crate::flpconv::lemma_event_offsets(buf, pos0, end);
        let rest = events_from(out, nxt, out.len() as int);
        match repl[k] {
            Some(p) => {
                let vb = varint_bytes(p.len());
                assert(pc == seq![crate::flp::EV_PLUGIN_PARAMS] + vb + p);
                assert(out[pos] == pc[0]);
                assert(out.subrange(pos + 1, pos + 1 + vb.len()) =~= pc.subrange(1, 1 + vb.len() as int));
                assert(pc.subrange(1, 1 + vb.len() as int) =~= vb);
                lemma_varint_roundtrip(out, pos + 1, 0, p.len());
                assert(out.subrange(pos + 1 + vb.len(), nxt) =~= pc.subrange(1 + vb.len() as int, pc.len() as int));
                assert(pc.subrange(1 + vb.len() as int, pc.len() as int) =~= p);
                assert(e[k] == (pos, crate::flp::EV_PLUGIN_PARAMS, p));
            },
            None => {
                let h = event_header(buf, s[k].0);
                let dl = h.0->0;
                let nx = next_off(s, k, end);
                assert(pc == buf.subrange(s[k].0, nx));
                assert(out[pos] == buf[s[k].0]) by {
                    assert(out[pos] == pc[0]);
                }
                match fixed_len(buf[s[k].0]) {
                    Some(fl) => {},
                    None => {
                        let r = varint_from(buf, s[k].0 + 1, 0);
                        assert(buf.subrange(s[k].0 + 1, r.1) =~= out.subrange(pos + 1, pos + 1 + (r.1 - (s[k].0 + 1)))) by {
                            let lb = buf.subrange(s[k].0 + 1, r.1);
                            let lo = out.subrange(pos + 1, pos + 1 + (r.1 - (s[k].0 + 1)));
                            assert forall|j: int| 0 <= j < r.1 - (s[k].0 + 1) implies #[trigger] lb[j] == lo[j] by {
                                assert(out[pos + 1 + j] == out.subrange(pos, nxt)[1 + j]);
                                assert(pc[1 + j] == buf[s[k].0 + 1 + j]);
                            }
                        }
                        lemma_varint_local(buf, s[k].0 + 1, out, pos + 1, 0);
                    },
                }
                let p2 = pos + (h.1 - s[k].0);
                assert(event_header(out, pos) == (h.0, p2));
                assert(out.subrange(p2, p2 + dl) =~= s[k].2) by {
                    assert forall|j: int| 0 <= j < dl implies out.subrange(p2, p2 + dl)[j] == s[k].2[j] by {
                        assert(out[p2 + j] == out.subrange(pos, nxt)[h.1 - s[k].0 + j]);
                        assert(pc[h.1 - s[k].0 + j] == buf[h.1 + j]);
                    }
                }
                assert(e[k] == (pos, s[k].1, s[k].2));
            },
        }
        assert(e.subrange(k, n) =~= seq![e[k]] + e.subrange(k + 1, n));
    }
}


/// A file that keeps everything before the FLdt length field and whose
/// new length field counts exactly the bytes after it is read as the
/// events from the FLdt payload start to its end.
#[verifier::spinoff_prover]
proof fn lemma_reread_header(buf: Seq<u8>, out: Seq<u8>, newlen: int)
    requires
        flp_events(buf) is Ok,
        locate_spec(buf) is Ok,
        0 <= newlen < 0x1_0000_0000,
        out.len() == locate_spec(buf)->Ok_0.2 + newlen,
        out.subrange(0, locate_spec(buf)->Ok_0.1) == buf.subrange(0, locate_spec(buf)->Ok_0.1),
        out.subrange(locate_spec(buf)->Ok_0.1, locate_spec(buf)->Ok_0.1 + 4) == le_bytes32(newlen),
    ensures
        flp_events(out) == events_from(out, locate_spec(buf)->Ok_0.2, out.len() as int),
{
    let (hdrlen, dlp, dts, dtlen) = locate_spec(buf)->Ok_0;
    crate::flpconv::lemma_stream(buf);
    assert forall|i: int| 0 <= i < dlp implies out[i] == buf[i] by {
        assert(out[i] == out.subrange(0, dlp)[i]);
        assert(buf[i] == buf.subrange(0, dlp)[i]);
    }
    assert(out.subrange(0, 4) =~= buf.subrange(0, 4));
    assert(le_u32(out, 4) == le_u32(buf, 4));
    let pos = 8 + le_u32(buf, 4);
    assert(pos + 4 == dlp);
    assert(out.subrange(pos, pos + 4) =~= buf.subrange(pos, pos + 4));
    crate::bytes::lemma_le_field(out, dlp, newlen);
}

/// A rewritten file reads back as the events it was built from: as many as
/// before, each at its new offset, every replaced one as a `PluginParams`
/// event carrying its new payload and every other one unchanged. This
/// holds while each new payload and the new FLdt length fit their 32-bit
/// fields.
pub proof fn lemma_splice_reparses(buf: Seq<u8>, repl: Seq<Option<Seq<u8>>>)
    requires
        flp_events(buf) is Ok,
        locate_spec(buf) is Ok,
        repl.len() == flp_events(buf)->Ok_0.len(),
        forall|i: int| 0 <= i < repl.len() ==> (#[trigger] repl[i] matches Some(p) ==> p.len() < 0x1_0000_0000),
        ({
            let s = flp_events(buf)->Ok_0;
            let (_, _, dts, dtlen) = locate_spec(buf)->Ok_0;
            pieces(buf, s, stream_end(buf, dts, dtlen), repl, s.len() as int).len() < 0x1_0000_0000
        }),
    ensures
        ({
            let s = flp_events(buf)->Ok_0;
            let (_, dlp, dts, dtlen) = locate_spec(buf)->Ok_0;
            let end = stream_end(buf, dts, dtlen);
            flp_events(splice_spec(buf, s, end, dlp, repl)) == Ok::<Seq<(int, u8, Seq<u8>)>, Seq<char>>(
                reread_events(buf, s, end, repl, dts),
            )
        }),
{
    let s = flp_events(buf)->Ok_0;
    let (hdrlen, dlp, dts, dtlen) = locate_spec(buf)->Ok_0;
    let end = stream_end(buf, dts, dtlen);
    crate::flpconv::lemma_stream(buf);
    let body = pieces(buf, s, end, repl, s.len() as int);
    let lb = le_bytes32((body.len() % 0x1_0000_0000) as int);
    let out = splice_spec(buf, s, end, dlp, repl);
    assert(out == buf.subrange(0, dlp) + lb + body);
    crate::bytes::lemma_le_bytes32(body.len() as int);
    assert(out.len() == dts + body.len());
    assert(out.subrange(0, dlp) =~= buf.subrange(0, dlp));
    assert(out.subrange(dlp, dlp + 4) =~= lb);
    lemma_reread_header(buf, out, body.len() as int);
    assert(out.subrange(dts, out.len() as int) =~= body);
    assert(pieces(buf, s, end, repl, 0) =~= Seq::<u8>::empty());
    lemma_reread_from(buf, s, end, repl, dts, out, dts, 0);
    let e = reread_events(buf, s, end, repl, dts);
    assert(e.subrange(0, s.len() as int) =~= e);
}


/// Each emitted piece fits inside the whole body.
proof fn lemma_piece_within(buf: Seq<u8>, s: Seq<(int, u8, Seq<u8>)>, end: int, repl: Seq<Option<Seq<u8>>>, i: int)
    requires
        0 <= i < s.len(),
    ensures
        piece(buf, s, end, repl, i).len() <= pieces(buf, s, end, repl, s.len() as int).len(),
{
    lemma_pieces_prefix(buf, s, end, repl, i + 1, s.len() as int);
}

/// The rewrite of a file under 4 GiB meets the bounds of
/// [`lemma_splice_reparses`].
proof fn lemma_small_rewrite(buf: Seq<u8>, repl: Seq<Option<Seq<u8>>>)
    requires
        flp_events(buf) is Ok,
        locate_spec(buf) is Ok,
        repl.len() == flp_events(buf)->Ok_0.len(),
        ({
            let s = flp_events(buf)->Ok_0;
            let (_, dlp, dts, dtlen) = locate_spec(buf)->Ok_0;
            splice_spec(buf, s, stream_end(buf, dts, dtlen), dlp, repl).len() < 0x1_0000_0000
        }),
    ensures
        forall|i: int| 0 <= i < repl.len() ==> (#[trigger] repl[i] matches Some(p) ==> p.len() < 0x1_0000_0000),
        ({
            let s = flp_events(buf)->Ok_0;
            let (_, _, dts, dtlen) = locate_spec(buf)->Ok_0;
            pieces(buf, s, stream_end(buf, dts, dtlen), repl, s.len() as int).len() < 0x1_0000_0000
        }),
{
    let s = flp_events(buf)->Ok_0;
    let (_, dlp, dts, dtlen) = locate_spec(buf)->Ok_0;
    let end = stream_end(buf, dts, dtlen);
    crate::flpconv::lemma_stream(buf);
    let body = pieces(buf, s, end, repl, s.len() as int);
    assert forall|i: int| 0 <= i < repl.len() implies (#[trigger] repl[i] matches Some(p) ==> p.len() < 0x1_0000_0000) by {
        lemma_piece_within(buf, s, end, repl, i);
    }
}

/// Where the plans with a bundle put their new payloads: each such plan's
/// event gets the payload built for it, and no other event is replaced.
proof fn lemma_apply_walk_repl(n: nat, plans: Seq<InstancePlan>, bundles: Seq<Option<Serum2Bundle>>, k: int)
    requires
        0 <= k <= plans.len(),
        k <= bundles.len(),
        forall|j: int| 0 <= j < k ==> (#[trigger] plans[j]).event_index < n,
        apply_walk(n, plans, bundles, k) is Ok,
    ensures
        ({
            let repl = apply_walk(n, plans, bundles, k)->Ok_0.0;
            &&& repl.len() == n
            &&& forall|j: int|
                0 <= j < k ==> (#[trigger] bundles[j] matches Some(b) ==> repl[plans[j].event_index as int]
                    == Some(serum2_payload_spec(plans[j].payload@, b)->Ok_0))
            &&& forall|x: int|
                0 <= x < n && (#[trigger] repl[x]) is Some ==> exists|j: int|
                    0 <= j < k && (#[trigger] bundles[j]) is Some && plans[j].event_index == x
        }),
    decreases k,
{
    if k > 0 {
        let prev = apply_walk(n, plans, bundles, k - 1);
        assert(prev is Ok);
        lemma_apply_walk_repl(n, plans, bundles, k - 1);
        let r0 = prev->Ok_0.0;
        let repl = apply_walk(n, plans, bundles, k)->Ok_0.0;
        match bundles[k - 1] {
            None => {
                assert forall|x: int| 0 <= x < n && (#[trigger] repl[x]) is Some implies exists|j: int|
                    0 <= j < k && (#[trigger] bundles[j]) is Some && plans[j].event_index == x by {
                    let j = choose|j: int| 0 <= j < k - 1 && (#[trigger] bundles[j]) is Some && plans[j].event_index == x;
                    assert(0 <= j < k && bundles[j] is Some && plans[j].event_index == x);
                }
            },
            Some(b) => {
                let idx = plans[k - 1].event_index as int;
                let np = serum2_payload_spec(plans[k - 1].payload@, b)->Ok_0;
                assert(r0[idx] is None);
                assert(repl == r0.update(idx, Some(np)));
                assert forall|j: int| 0 <= j < k implies (#[trigger] bundles[j] matches Some(bj) ==> repl[plans[j].event_index as int]
                    == Some(serum2_payload_spec(plans[j].payload@, bj)->Ok_0)) by {
                    if j < k - 1 && bundles[j] is Some {
                        assert(r0[plans[j].event_index as int] is Some);
                        assert(plans[j].event_index as int != idx);
                    }
                }
                assert forall|x: int| 0 <= x < n && (#[trigger] repl[x]) is Some implies exists|j: int|
                    0 <= j < k && (#[trigger] bundles[j]) is Some && plans[j].event_index == x by {
                    if x == idx {
                        assert(bundles[k - 1] is Some && plans[k - 1].event_index == x);
                    } else {
                        assert(r0[x] is Some);
                        let j = choose|j: int| 0 <= j < k - 1 && (#[trigger] bundles[j]) is Some && plans[j].event_index == x;
                        assert(0 <= j < k && bundles[j] is Some && plans[j].event_index == x);
                    }
                }
            },
        }
    }
}

proof fn lemma_plans_in_range(spans: Seq<(int, u8, Seq<u8>)>, plans: Seq<InstancePlan>, i: int)
    requires
        0 <= i,
        first_plan_error(spans, plans, i) is None,
    ensures
        forall|j: int| i <= j < plans.len() ==> (#[trigger] plans[j]).event_index < spans.len(),
    decreases plans.len() - i,
{
    if i < plans.len() {
        lemma_plans_in_range(spans, plans, i + 1);
        assert(plan_error(spans, i, plans[i]) is None);
    }
}

/// A converted file (under 4 GiB) reads back as the original events: as
/// many, each instance converted with a bundle as a `PluginParams` event
/// carrying the Serum2 payload built for it, and every event no plan
/// converted unchanged.
pub proof fn lemma_apply_reparses(buf: Seq<u8>, plans: Seq<InstancePlan>, bundles: Seq<Option<Serum2Bundle>>)
    requires
        apply_spec(buf, plans, bundles) is Ok,
        apply_spec(buf, plans, bundles)->Ok_0.0.len() < 0x1_0000_0000,
    ensures
        ({
            let s = flp_events(buf)->Ok_0;
            let out = apply_spec(buf, plans, bundles)->Ok_0.0;
            &&& flp_events(out) is Ok
            &&& flp_events(out)->Ok_0.len() == s.len()
            &&& forall|j: int|
                0 <= j < plans.len() ==> (#[trigger] bundles[j] matches Some(b) ==> {
                    let e = flp_events(out)->Ok_0[plans[j].event_index as int];
                    &&& e.1 == crate::flp::EV_PLUGIN_PARAMS
                    &&& e.2 == serum2_payload_spec(plans[j].payload@, b)->Ok_0
                })
            &&& forall|x: int|
                0 <= x < s.len() && (forall|j: int|
                    0 <= j < plans.len() && (#[trigger] bundles[j]) is Some ==> plans[j].event_index != x)
                    ==> {
                    let e = #[trigger] flp_events(out)->Ok_0[x];
                    e.1 == s[x].1 && e.2 == s[x].2
                }
        }),
{
    let s = flp_events(buf)->Ok_0;
    let n = s.len();
    lemma_plans_in_range(s, plans, 0);
    lemma_apply_walk_repl(n, plans, bundles, plans.len() as int);
    let repl = apply_walk(n, plans, bundles, plans.len() as int)->Ok_0.0;
    lemma_small_rewrite(buf, repl);
    lemma_splice_reparses(buf, repl);
    let (_, dlp, dts, dtlen) = locate_spec(buf)->Ok_0;
    let end = stream_end(buf, dts, dtlen);
    let e = reread_events(buf, s, end, repl, dts);
    assert forall|x: int|
        0 <= x < s.len() && (forall|j: int|
            0 <= j < plans.len() && (#[trigger] bundles[j]) is Some ==> plans[j].event_index != x) implies {
        let ev = #[trigger] e[x];
        ev.1 == s[x].1 && ev.2 == s[x].2
    } by {
        if repl[x] is Some {
            let j = choose|j: int| 0 <= j < plans.len() && (#[trigger] bundles[j]) is Some && plans[j].event_index == x;
            assert(false);
        }
    }
}

/// A patched file (under 4 GiB) reads back as the original events: as
/// many, with the same ids, and every event other than a `PluginParams`
/// one unchanged.
pub proof fn lemma_patch_reparses(buf: Seq<u8>, ps: Seq<PatchField>)
    requires
        patch_flp_spec(buf, ps) is Ok,
        patch_flp_spec(buf, ps)->Ok_0.0.len() < 0x1_0000_0000,
    ensures
        ({
            let s = flp_events(buf)->Ok_0;
            let out = patch_flp_spec(buf, ps)->Ok_0.0;
            &&& flp_events(out) is Ok
            &&& flp_events(out)->Ok_0.len() == s.len()
            &&& forall|x: int| 0 <= x < s.len() ==> (#[trigger] flp_events(out)->Ok_0[x]).1 == s[x].1
            &&& forall|x: int|
                0 <= x < s.len() && s[x].1 != crate::flp::EV_PLUGIN_PARAMS ==> (#[trigger] flp_events(
                    out,
                )->Ok_0[x]).2 == s[x].2
        }),
{
    let s = flp_events(buf)->Ok_0;
    let n = s.len() as int;
    lemma_patch_walk_ids(s, ps, n);
    let repl = patch_walk(s, ps, n).3;
    lemma_small_rewrite(buf, repl);
    lemma_splice_reparses(buf, repl);
}

/// The patch walk replaces only `PluginParams` events.
proof fn lemma_patch_walk_ids(spans: Seq<(int, u8, Seq<u8>)>, ps: Seq<PatchField>, n: int)
    requires
        0 <= n <= spans.len(),
    ensures
        patch_walk(spans, ps, n).3.len() == n,
        forall|i: int|
            0 <= i < n && (#[trigger] patch_walk(spans, ps, n).3[i]) is Some ==> spans[i].1
                == crate::flp::EV_PLUGIN_PARAMS,
    decreases n,
{
    if n > 0 {
        lemma_patch_walk_ids(spans, ps, n - 1);
        let prev = patch_walk(spans, ps, n - 1);
        let st = patch_walk(spans, ps, n);
        assert forall|i: int| 0 <= i < n && (#[trigger] st.3[i]) is Some implies spans[i].1
            == crate::flp::EV_PLUGIN_PARAMS by {
            if i < n - 1 {
                assert(st.3[i] == prev.3[i]);
            }
        }
    }
}

/// The payload a metadata patch gives the `PluginParams` payload `data`:
/// for a Serum synth plugin (neither Serum2 nor Serum FX) with a non-empty
/// state whose payload patches, the patched payload; nothing otherwise.
pub open spec fn synth_patch(data: Seq<u8>, ps: Seq<PatchField>) -> Option<Seq<u8>> {
    match plugin_params(data) {
        Ok((name, filename, _v, state)) => if !is_serum2_spec(name, filename) && !is_serum_fx_spec(
            name,
            filename,
        ) && is_serum1_synth_spec(name, filename) && state.len() > 0 {
            match patch_payload_spec(data, ps) {
                Ok(p) => Some(p),
                Err(_) => None,
            }
        } else {
            None
        },
        Err(_) => None,
    }
}

/// Whether an event is a Serum synth instance that a patch rewrites.
pub open spec fn patched_event(e: (int, u8, Seq<u8>), ps: Seq<PatchField>) -> bool {
    e.1 == EV_PLUGIN_PARAMS && synth_patch(e.2, ps) is Some
}

/// Whether an event is a Serum instance a patch leaves alone with a
/// warning: a Serum FX plugin, or a Serum synth with a non-empty state whose
/// payload does not patch.
pub open spec fn warned_event(e: (int, u8, Seq<u8>), ps: Seq<PatchField>) -> bool {
    e.1 == EV_PLUGIN_PARAMS && match plugin_params(e.2) {
        Ok((name, filename, _v, state)) => !is_serum2_spec(name, filename) && (is_serum_fx_spec(
            name,
            filename,
        ) || (is_serum1_synth_spec(name, filename) && state.len() > 0 && patch_payload_spec(
            e.2,
            ps,
        ) is Err)),
        Err(_) => false,
    }
}

/// What the patch walk decides for each event: the patched payload of
/// every Serum synth instance that patches, nothing for any other event,
/// and one report entry per rewritten instance.
proof fn lemma_patch_walk_repl(spans: Seq<(int, u8, Seq<u8>)>, ps: Seq<PatchField>, n: int)
    requires
        0 <= n <= spans.len(),
    ensures
        patch_walk(spans, ps, n).3.len() == n,
        forall|i: int|
            0 <= i < n ==> #[trigger] patch_walk(spans, ps, n).3[i] == (if spans[i].1 == EV_PLUGIN_PARAMS {
                synth_patch(spans[i].2, ps)
            } else {
                None
            }),
        patch_walk(spans, ps, n).4.len() == spans.take(n).filter(
            |e: (int, u8, Seq<u8>)| patched_event(e, ps),
        ).len(),
        patch_walk(spans, ps, n).5.len() == spans.take(n).filter(
            |e: (int, u8, Seq<u8>)| warned_event(e, ps),
        ).len(),
    decreases n,
{
    reveal(Seq::filter);
    if n > 0 {
        lemma_patch_walk_repl(spans, ps, n - 1);
        let prev = patch_walk(spans, ps, n - 1);
        let st = patch_walk(spans, ps, n);
        assert(spans.take(n).drop_last() =~= spans.take(n - 1));
        assert(spans.take(n).last() == spans[n - 1]);
        assert forall|i: int| 0 <= i < n implies #[trigger] st.3[i] == (if spans[i].1 == EV_PLUGIN_PARAMS {
            synth_patch(spans[i].2, ps)
        } else {
            None
        }) by {
            if i < n - 1 {
                assert(st.3[i] == prev.3[i]);
            }
        }
    }
}

/// Patching rewrites every Serum synth instance of the project: the report
/// lists one patched instance per `PluginParams` event that patches (see
/// [`synth_patch`]) and one warning per Serum instance left alone (see
/// [`warned_event`]), and the patched file (under 4 GiB) reads back with as
/// many events, each such event carrying its patched payload and every
/// other `PluginParams` event its old one.
pub proof fn lemma_patch_every_instance(buf: Seq<u8>, ps: Seq<PatchField>)
    requires
        patch_flp_spec(buf, ps) is Ok,
    ensures
        ({
            let s = flp_events(buf)->Ok_0;
            let (out, pv, w) = patch_flp_spec(buf, ps)->Ok_0;
            &&& pv.len() == s.filter(|e: (int, u8, Seq<u8>)| patched_event(e, ps)).len()
            &&& w.len() == s.filter(|e: (int, u8, Seq<u8>)| warned_event(e, ps)).len()
            &&& out.len() < 0x1_0000_0000 ==> {
                &&& flp_events(out) is Ok
                &&& flp_events(out)->Ok_0.len() == s.len()
                &&& forall|x: int|
                    0 <= x < s.len() && s[x].1 == EV_PLUGIN_PARAMS ==> (#[trigger] flp_events(
                        out,
                    )->Ok_0[x]).2 == match synth_patch(s[x].2, ps) {
                        Some(p) => p,
                        None => s[x].2,
                    }
            }
        }),
{
    let s = flp_events(buf)->Ok_0;
    let n = s.len() as int;
    lemma_patch_walk_repl(s, ps, n);
    assert(s.take(n) =~= s);
    let repl = patch_walk(s, ps, n).3;
    let out = patch_flp_spec(buf, ps)->Ok_0.0;
    if out.len() < 0x1_0000_0000 {
        lemma_small_rewrite(buf, repl);
        lemma_splice_reparses(buf, repl);
        let (_, dlp, dts, dtlen) = locate_spec(buf)->Ok_0;
        let r = reread_events(buf, s, stream_end(buf, dts, dtlen), repl, dts);
        assert forall|x: int| 0 <= x < s.len() && s[x].1 == EV_PLUGIN_PARAMS implies (#[trigger] flp_events(
            out,
        )->Ok_0[x]).2 == match synth_patch(s[x].2, ps) {
            Some(p) => p,
            None => s[x].2,
        } by {
            assert(flp_events(out)->Ok_0[x] == r[x]);
            assert(repl[x] == synth_patch(s[x].2, ps));
        }
    }
}

} // verus!
