//! The canonical CBOR encoding reads back: decoding what the encoder wrote
//! succeeds, and encoding the decoded tree again gives the same bytes.

use vstd::prelude::*;
use vstd::utf8::{decode_utf8, encode_utf8, valid_utf8};
use crate::bytes::{be_bytes16, be_bytes32, be_bytes64};
use crate::s2tree::{
    be_value, canonical_order, dec_arg, dec_array, dec_item, dec_map, decode_spec, enc, enc_entries, enc_seq,
    enc_text, entry_models, f64_exact_f32, head, key_bytes, least_above, lex_lt, model, models_of, pow256,
    Val, ValModel,
};

verus! {

/// The value of big-endian bytes split in two.
proof fn lemma_be_value_concat(a: Seq<u8>, b: Seq<u8>)
    ensures
        be_value(a + b) == be_value(a) * pow256(b.len()) + be_value(b),
    decreases b.len(),
{
    if b.len() == 0 {
        assert(a + b =~= a);
        assert(pow256(0) == 1);
        assert(be_value(a) * 1 == be_value(a));
    } else {
        lemma_be_value_concat(a, b.drop_last());
        assert((a + b).drop_last() =~= a + b.drop_last());
        assert((a + b).last() == b.last());
        let x = be_value(a);
        let y = be_value(b.drop_last());
        let q = pow256((b.len() - 1) as nat);
        assert(be_value(a + b) == be_value(a + b.drop_last()) * 256 + b.last() as nat);
        assert(be_value(b) == y * 256 + b.last() as nat);
        assert(pow256(b.len()) == 256 * q);
        assert(be_value(a + b.drop_last()) == x * q + y);
        assert((x * q + y) * 256 + b.last() as nat == x * (256 * q) + (y * 256 + b.last() as nat))
            by (nonlinear_arith);
        assert(be_value(a + b) == x * pow256(b.len()) + be_value(b));
    }
}

proof fn lemma_be_value_2(v: int)
    requires
        0 <= v <= 0xFFFF,
    ensures
        be_value(be_bytes16(v)) == v,
{
    let s = be_bytes16(v);
    assert(s.drop_last() =~= seq![(v / 256 % 256) as u8]);
    assert(s.drop_last().drop_last() =~= Seq::<u8>::empty());
    reveal_with_fuel(be_value, 3);
    assert(be_value(s) == (v / 256 % 256) * 256 + v % 256);
}

proof fn lemma_be_value_4(v: int)
    requires
        0 <= v <= 0xFFFF_FFFF,
    ensures
        be_value(be_bytes32(v)) == v,
{
    let s = be_bytes32(v);
    let b0 = v / 16777216 % 256;
    let b1 = v / 65536 % 256;
    let b2 = v / 256 % 256;
    let b3 = v % 256;
    assert(s.drop_last().drop_last().drop_last() =~= seq![b0 as u8]);
    assert(s.drop_last().drop_last() =~= seq![b0 as u8, b1 as u8]);
    assert(s.drop_last() =~= seq![b0 as u8, b1 as u8, b2 as u8]);
    assert(s.drop_last().drop_last().drop_last().drop_last() =~= Seq::<u8>::empty());
    reveal_with_fuel(be_value, 5);
    assert(be_value(s) == ((b0 * 256 + b1) * 256 + b2) * 256 + b3);
    assert(((b0 * 256 + b1) * 256 + b2) * 256 + b3 == v) by (nonlinear_arith)
        requires
            0 <= v <= 0xFFFF_FFFF,
            b0 == v / 16777216 % 256,
            b1 == v / 65536 % 256,
            b2 == v / 256 % 256,
            b3 == v % 256,
    ;
}

proof fn lemma_be_value_8(v: int)
    requires
        0 <= v <= 0xFFFF_FFFF_FFFF_FFFF,
    ensures
        be_value(be_bytes64(v)) == v,
{
    let hi = v / 4294967296 % 4294967296;
    let lo = v % 4294967296;
    lemma_be_value_4(hi);
    lemma_be_value_4(lo);
    lemma_be_value_concat(be_bytes32(hi), be_bytes32(lo));
    assert(pow256(4) == 4294967296) by {
        reveal_with_fuel(pow256, 5);
    }
    assert(hi * 4294967296 + lo == v) by (nonlinear_arith)
        requires
            0 <= v <= 0xFFFF_FFFF_FFFF_FFFF,
            hi == v / 4294967296 % 4294967296,
            lo == v % 4294967296,
    ;
}

/// An item head reads back: its first byte carries the major type, and
/// its argument is the number it was written for.
pub proof fn lemma_head_reads_back(d: Seq<u8>, p: int, n: nat, major: u8)
    requires
        n <= 0xFFFF_FFFF_FFFF_FFFF,
        major < 8,
        0 <= p,
        p + head(n, major).len() <= d.len(),
        d.subrange(p, p + head(n, major).len()) == head(n, major),
    ensures
        p < d.len(),
        d[p] / 32 == major,
        dec_arg(d, p, d[p] % 32) == Ok::<(u64, int), Seq<char>>((n as u64, p + head(n, major).len())),
{
    let h = head(n, major);
    let maj = major as nat * 32;
    assert(d[p] == h[0]);
    let info: nat = if n < 24 {
        n
    } else if n <= 0xFF {
        24
    } else if n <= 0xFFFF {
        25
    } else if n <= 0xFFFF_FFFF {
        26
    } else {
        27
    };
    assert(h[0] == (maj + info) as u8);
    assert(d[p] as nat == major as nat * 32 + info);
    assert(d[p] % 32 == info && d[p] / 32 == major) by (nonlinear_arith)
        requires
            d[p] as nat == major as nat * 32 + info,
            info < 32,
    ;
    assert(d.subrange(p + 1, p + h.len()) =~= h.subrange(1, h.len() as int));
    if n < 24 {
    } else if n <= 0xFF {
        assert(h.subrange(1, h.len() as int) =~= seq![n as u8]);
        reveal_with_fuel(be_value, 2);
        assert(seq![n as u8].drop_last() =~= Seq::<u8>::empty());
    } else if n <= 0xFFFF {
        assert(h.subrange(1, h.len() as int) =~= be_bytes16(n as int));
        lemma_be_value_2(n as int);
    } else if n <= 0xFFFF_FFFF {
        assert(h.subrange(1, h.len() as int) =~= be_bytes32(n as int));
        lemma_be_value_4(n as int);
    } else {
        assert(h.subrange(1, h.len() as int) =~= be_bytes64(n as int));
        lemma_be_value_8(n as int);
    }
}


/// What decoding the canonical encoding of `v` gives: a non-negative `Int`
/// reads back as a `UInt`, an `F64` that is exactly an f32 as that `F32`,
/// and a map as its entries in canonical order.
pub open spec fn dec_model(v: Val) -> ValModel
    decreases v, 0nat,
{
    match v {
        Val::UInt(u) => ValModel::UInt(u),
        Val::Int(i) => if i >= 0 {
            ValModel::UInt(i as u64)
        } else {
            ValModel::Int(i)
        },
        Val::F32(b) => ValModel::F32(b),
        Val::F64(b) => match f64_exact_f32(b) {
            Some(f) => ValModel::F32(f),
            None => ValModel::F64(b),
        },
        Val::Text(t) => ValModel::Text(t@),
        Val::Bytes(b) => ValModel::Bytes(b@),
        Val::Bool(b) => ValModel::Bool(b),
        Val::Null => ValModel::Null,
        Val::Array(items) => ValModel::Array(dec_models(items@)),
        Val::Obj(m) => ValModel::Obj(dec_entries(m@, canonical_order(m@, None, m@.len()))),
    }
}

pub open spec fn dec_models(s: Seq<Val>) -> Seq<ValModel>
    decreases s, 0nat,
{
    if s.len() == 0 {
        Seq::empty()
    } else {
        dec_models(s.drop_last()).push(dec_model(s.last()))
    }
}

pub open spec fn dec_entries(m: Seq<(String, Val)>, order: Seq<int>) -> Seq<(Seq<char>, ValModel)>
    decreases m, order.len(),
{
    if order.len() == 0 {
        Seq::empty()
    } else {
        let j = order.last();
        if 0 <= j < m.len() {
            dec_entries(m, order.drop_last()).push((m[j].0@, dec_model(m[j].1)))
        } else {
            dec_entries(m, order.drop_last())
        }
    }
}

/// Every length in `v` fits a machine word, as it does for any tree held
/// in memory.
pub open spec fn fits(v: Val) -> bool
    decreases v, 0nat,
{
    match v {
        Val::Text(t) => encode_utf8(t@).len() <= usize::MAX,
        Val::Bytes(b) => b@.len() <= usize::MAX,
        Val::Array(items) => items@.len() <= usize::MAX && all_fit(items@),
        Val::Obj(m) => m@.len() <= usize::MAX && entries_fit(m@),
        _ => true,
    }
}

pub open spec fn all_fit(s: Seq<Val>) -> bool
    decreases s, 0nat,
{
    if s.len() == 0 {
        true
    } else {
        all_fit(s.drop_last()) && fits(s.last())
    }
}

pub open spec fn entries_fit(m: Seq<(String, Val)>) -> bool
    decreases m, 0nat,
{
    if m.len() == 0 {
        true
    } else {
        entries_fit(m.drop_last()) && encode_utf8(m.last().0@).len() <= usize::MAX && fits(m.last().1)
    }
}

proof fn lemma_all_fit_index(s: Seq<Val>)
    requires
        all_fit(s),
    ensures
        forall|i: int| 0 <= i < s.len() ==> fits(#[trigger] s[i]),
    decreases s.len(),
{
    if s.len() > 0 {
        lemma_all_fit_index(s.drop_last());
        assert forall|i: int| 0 <= i < s.len() implies fits(#[trigger] s[i]) by {
            if i < s.len() - 1 {
                assert(s[i] == s.drop_last()[i]);
            }
        }
    }
}

proof fn lemma_entries_fit_index(m: Seq<(String, Val)>)
    requires
        entries_fit(m),
    ensures
        forall|i: int| 0 <= i < m.len() ==> fits(#[trigger] m[i].1),
        forall|i: int| 0 <= i < m.len() ==> encode_utf8(#[trigger] m[i].0@).len() <= usize::MAX,
    decreases m.len(),
{
    if m.len() > 0 {
        let t = m.drop_last();
        lemma_entries_fit_index(t);
        assert forall|i: int| 0 <= i < m.len() implies fits(#[trigger] m[i].1) by {
            if i < m.len() - 1 {
                assert(m[i] == t[i]);
            }
        }
        assert forall|i: int| 0 <= i < m.len() implies encode_utf8(#[trigger] m[i].0@).len() <= usize::MAX by {
            if i < m.len() - 1 {
                assert(m[i] == t[i]);
            }
        }
    }
}

/// The canonical order picks entries of the map, at most `fuel` of them.
proof fn lemma_canonical_bounds(m: Seq<(String, Val)>, lower: Option<Seq<u8>>, fuel: nat)
    ensures
        canonical_order(m, lower, fuel).len() <= fuel,
        forall|i: int|
            0 <= i < canonical_order(m, lower, fuel).len() ==> 0 <= #[trigger] canonical_order(m, lower, fuel)[i]
                < m.len(),
    decreases fuel,
{
    if fuel > 0 {
        crate::s2tree::lemma_least_above_bounds(m, lower, m.len() as int);
        match least_above(m, lower, m.len() as int) {
            Some(j) => {
                lemma_canonical_bounds(m, Some(key_bytes(m, j)), (fuel - 1) as nat);
                let rest = canonical_order(m, Some(key_bytes(m, j)), (fuel - 1) as nat);
                assert(canonical_order(m, lower, fuel) == seq![j] + rest);
                assert forall|i: int| 0 <= i < canonical_order(m, lower, fuel).len() implies 0
                    <= #[trigger] canonical_order(m, lower, fuel)[i] < m.len() by {
                    if i > 0 {
                        assert(canonical_order(m, lower, fuel)[i] == rest[i - 1]);
                    }
                }
            },
            None => {},
        }
    }
}


/// A text item reads back as its characters.
proof fn lemma_dec_text(t: Seq<char>, d: Seq<u8>, p: int)
    requires
        encode_utf8(t).len() <= usize::MAX,
        0 <= p,
        p + enc_text(t).len() <= d.len(),
        d.subrange(p, p + enc_text(t).len()) == enc_text(t),
    ensures
        dec_item(d, p) == Ok::<(ValModel, int), Seq<char>>((ValModel::Text(t), p + enc_text(t).len())),
{
    let b = encode_utf8(t);
    let h = head(b.len(), 3);
    let e = enc_text(t);
    assert(e == h + b);
    assert(d.subrange(p, p + h.len()) =~= e.subrange(0, h.len() as int));
    assert(e.subrange(0, h.len() as int) =~= h);
    lemma_head_reads_back(d, p, b.len(), 3);
    let q = p + h.len();
    assert(((b.len() as u64) as usize) as nat == b.len());
    assert(d.subrange(q, q + b.len()) =~= e.subrange(h.len() as int, e.len() as int));
    assert(e.subrange(h.len() as int, e.len() as int) =~= b);
    vstd::utf8::encode_utf8_valid_utf8(t);
    vstd::utf8::encode_utf8_decode_utf8(t);
}

/// The encodings of the first `k` items open those of the first `n`.
proof fn lemma_enc_seq_prefix(s: Seq<Val>, k: int, n: int)
    requires
        0 <= k <= n <= s.len(),
    ensures
        enc_seq(s.take(k)).len() <= enc_seq(s.take(n)).len(),
        enc_seq(s.take(n)).subrange(0, enc_seq(s.take(k)).len() as int) == enc_seq(s.take(k)),
    decreases n - k,
{
    if k < n {
        lemma_enc_seq_prefix(s, k, n - 1);
        assert(s.take(n).drop_last() =~= s.take(n - 1));
        let a = enc_seq(s.take(n - 1));
        let pk = enc_seq(s.take(k));
        assert((a + enc(s.take(n).last())).subrange(0, pk.len() as int) =~= a.subrange(0, pk.len() as int));
    } else {
        let pk = enc_seq(s.take(k));
        assert(pk.subrange(0, pk.len() as int) =~= pk);
    }
}

/// The encodings of the first `k` picked entries open those of the first
/// `n`.
proof fn lemma_enc_entries_prefix(m: Seq<(String, Val)>, order: Seq<int>, k: int, n: int)
    requires
        0 <= k <= n <= order.len(),
    ensures
        enc_entries(m, order.take(k)).len() <= enc_entries(m, order.take(n)).len(),
        enc_entries(m, order.take(n)).subrange(0, enc_entries(m, order.take(k)).len() as int) == enc_entries(
            m,
            order.take(k),
        ),
    decreases n - k,
{
    if k < n {
        lemma_enc_entries_prefix(m, order, k, n - 1);
        assert(order.take(n).drop_last() =~= order.take(n - 1));
        let a = enc_entries(m, order.take(n - 1));
        let pk = enc_entries(m, order.take(k));
        let whole = enc_entries(m, order.take(n));
        assert(whole.subrange(0, a.len() as int) =~= a);
        assert(whole.subrange(0, pk.len() as int) =~= a.subrange(0, pk.len() as int));
    } else {
        let pk = enc_entries(m, order.take(k));
        assert(pk.subrange(0, pk.len() as int) =~= pk);
    }
}

/// The canonical encoding of `v` stands at `p` in `d`.
pub open spec fn enc_at(v: Val, d: Seq<u8>, p: int) -> bool {
    &&& 0 <= p
    &&& p + enc(v).len() <= d.len()
    &&& d.subrange(p, p + enc(v).len()) == enc(v)
}

/// Integers, booleans and null read back.
proof fn lemma_dec_small(v: Val, d: Seq<u8>, p: int)
    requires
        v is Null || v is Bool || v is UInt || v is Int,
        enc_at(v, d, p),
    ensures
        dec_item(d, p) == Ok::<(ValModel, int), Seq<char>>((dec_model(v), p + enc(v).len())),
{
    let e = enc(v);
    assert(d[p] == e[0]);
    match v {
        Val::UInt(u) => {
            lemma_head_reads_back(d, p, u as nat, 0);
        },
        Val::Int(i) => {
            if i >= 0 {
                lemma_head_reads_back(d, p, i as nat, 0);
            } else {
                lemma_head_reads_back(d, p, (-1 - i) as nat, 1);
            }
        },
        _ => {},
    }
}

/// Floats read back; an `F64` that is exactly an f32 as that `F32`.
proof fn lemma_dec_float(v: Val, d: Seq<u8>, p: int)
    requires
        v is F32 || v is F64,
        enc_at(v, d, p),
    ensures
        dec_item(d, p) == Ok::<(ValModel, int), Seq<char>>((dec_model(v), p + enc(v).len())),
{
    let e = enc(v);
    assert(d[p] == e[0]);
    match v {
        Val::F32(bits) => {
            assert(d.subrange(p + 1, p + 5) =~= e.subrange(1, 5));
            assert(e.subrange(1, 5) =~= be_bytes32(bits as int));
            lemma_be_value_4(bits as int);
        },
        Val::F64(bits) => {
            match f64_exact_f32(bits) {
                Some(f) => {
                    assert(d.subrange(p + 1, p + 5) =~= e.subrange(1, 5));
                    assert(e.subrange(1, 5) =~= be_bytes32(f as int));
                    lemma_be_value_4(f as int);
                },
                None => {
                    assert(d.subrange(p + 1, p + 9) =~= e.subrange(1, 9));
                    assert(e.subrange(1, 9) =~= be_bytes64(bits as int));
                    lemma_be_value_8(bits as int);
                },
            }
        },
        _ => {},
    }
}

/// Byte strings read back.
proof fn lemma_dec_bytes(v: Val, d: Seq<u8>, p: int)
    requires
        v is Bytes,
        fits(v),
        enc_at(v, d, p),
    ensures
        dec_item(d, p) == Ok::<(ValModel, int), Seq<char>>((dec_model(v), p + enc(v).len())),
{
    let e = enc(v);
    let b = v->Bytes_0;
    let h = head(b@.len(), 2);
    assert(d.subrange(p, p + h.len()) =~= e.subrange(0, h.len() as int));
    assert(e.subrange(0, h.len() as int) =~= h);
    lemma_head_reads_back(d, p, b@.len(), 2);
    let q = p + h.len();
    assert(((b@.len() as u64) as usize) as nat == b@.len());
    assert(d.subrange(q, q + b@.len()) =~= e.subrange(h.len() as int, e.len() as int));
    assert(e.subrange(h.len() as int, e.len() as int) =~= b@);
}

/// Decoding the canonical encoding of `v`, wherever it stands, gives
/// [`dec_model`] of `v` and ends right after it.
proof fn lemma_dec_enc(v: Val, d: Seq<u8>, p: int)
    requires
        fits(v),
        enc_at(v, d, p),
    ensures
        dec_item(d, p) == Ok::<(ValModel, int), Seq<char>>((dec_model(v), p + enc(v).len())),
    decreases v, 2nat,
{
    match v {
        Val::Text(t) => {
            lemma_dec_text(t@, d, p);
        },
        Val::Bytes(_) => {
            lemma_dec_bytes(v, d, p);
        },
        Val::F32(_) => {
            lemma_dec_float(v, d, p);
        },
        Val::F64(_) => {
            lemma_dec_float(v, d, p);
        },
        Val::Array(_) => {
            lemma_dec_arr(v, d, p);
        },
        Val::Obj(_) => {
            lemma_dec_obj(v, d, p);
        },
        _ => {
            lemma_dec_small(v, d, p);
        },
    }
}

proof fn lemma_dec_arr(v: Val, d: Seq<u8>, p: int)
    requires
        v is Array,
        fits(v),
        enc_at(v, d, p),
    ensures
        dec_item(d, p) == Ok::<(ValModel, int), Seq<char>>((dec_model(v), p + enc(v).len())),
    decreases v, 1nat,
{
    let e = enc(v);
    let items = v->Array_0;
    let n = items@.len();
    let h = head(n, 4);
    assert(d.subrange(p, p + h.len()) =~= e.subrange(0, h.len() as int));
    assert(e.subrange(0, h.len() as int) =~= h);
    lemma_head_reads_back(d, p, n, 4);
    let q = p + h.len();
    assert(((n as u64) as usize) as nat == n);
    let body = enc_seq(items@);
    assert(d.subrange(q, q + body.len()) =~= e.subrange(h.len() as int, e.len() as int));
    assert(e.subrange(h.len() as int, e.len() as int) =~= body);
    assert(decreases_to!(v => items));
    assert(decreases_to!(items => items@));
    lemma_dec_array_from(items@, d, q, 0);
    assert(items@.take(0) =~= Seq::<Val>::empty());
    assert(items@.take(n as int) =~= items@);
}

proof fn lemma_dec_obj(v: Val, d: Seq<u8>, p: int)
    requires
        v is Obj,
        fits(v),
        enc_at(v, d, p),
    ensures
        dec_item(d, p) == Ok::<(ValModel, int), Seq<char>>((dec_model(v), p + enc(v).len())),
    decreases v, 1nat,
{
    let e = enc(v);
    let m = v->Obj_0;
    let order = canonical_order(m@, None, m@.len());
    lemma_canonical_bounds(m@, None, m@.len());
    let n = order.len();
    let h = head(n, 5);
    assert(d.subrange(p, p + h.len()) =~= e.subrange(0, h.len() as int));
    assert(e.subrange(0, h.len() as int) =~= h);
    lemma_head_reads_back(d, p, n, 5);
    let q = p + h.len();
    assert(((n as u64) as usize) as nat == n);
    let body = enc_entries(m@, order);
    assert(d.subrange(q, q + body.len()) =~= e.subrange(h.len() as int, e.len() as int));
    assert(e.subrange(h.len() as int, e.len() as int) =~= body);
    assert(decreases_to!(v => m));
    assert(decreases_to!(m => m@));
    assert(order.take(n as int) =~= order);
    lemma_dec_map_from(m@, order, d, p, q, 0);
    assert(order.take(0) =~= Seq::<int>::empty());
}

/// The items from the `k`-th on decode in turn.
proof fn lemma_dec_array_from(items: Seq<Val>, d: Seq<u8>, q0: int, k: int)
    requires
        all_fit(items),
        0 <= q0,
        0 <= k <= items.len(),
        q0 + enc_seq(items).len() <= d.len(),
        d.subrange(q0, q0 + enc_seq(items).len()) == enc_seq(items),
    ensures
        dec_array(d, q0 + enc_seq(items.take(k)).len(), (items.len() - k) as nat, dec_models(items.take(k)))
            == Ok::<(Seq<ValModel>, int), Seq<char>>((dec_models(items), q0 + enc_seq(items).len())),
    decreases items, items.len() - k,
{
    let n = items.len() as int;
    assert(items.take(n) =~= items);
    if k < n {
        lemma_enc_seq_prefix(items, k + 1, n);
        lemma_enc_seq_prefix(items, k, k + 1);
        let pre = enc_seq(items.take(k));
        let pre1 = enc_seq(items.take(k + 1));
        assert(items.take(k + 1).drop_last() =~= items.take(k));
        assert(items.take(k + 1).last() == items[k]);
        assert(pre1 == pre + enc(items[k]));
        let whole = enc_seq(items);
        assert(d.subrange(q0 + pre.len(), q0 + pre1.len()) =~= enc(items[k])) by {
            assert forall|j: int| 0 <= j < enc(items[k]).len() implies d.subrange(q0 + pre.len(), q0 + pre1.len())[j]
                == enc(items[k])[j] by {
                assert(d[q0 + pre.len() + j] == d.subrange(q0, q0 + whole.len())[pre.len() + j]);
                assert(whole[pre.len() + j] == pre1[pre.len() + j]);
            }
        }
        lemma_all_fit_index(items);
        assert(decreases_to!(items => items[k]));
        lemma_dec_enc(items[k], d, q0 + pre.len());
        lemma_dec_array_from(items, d, q0, k + 1);
        assert(dec_models(items.take(k + 1)) == dec_models(items.take(k)).push(dec_model(items[k])));
    }
}

/// The picked entries from the `k`-th on decode in turn.
proof fn lemma_dec_map_from(m: Seq<(String, Val)>, order: Seq<int>, d: Seq<u8>, start: int, q0: int, k: int)
    requires
        entries_fit(m),
        forall|i: int| 0 <= i < order.len() ==> 0 <= #[trigger] order[i] < m.len(),
        0 <= q0,
        0 <= k <= order.len(),
        q0 + enc_entries(m, order).len() <= d.len(),
        d.subrange(q0, q0 + enc_entries(m, order).len()) == enc_entries(m, order),
    ensures
        dec_map(d, start, q0 + enc_entries(m, order.take(k)).len(), (order.len() - k) as nat, dec_entries(m, order.take(k)))
            == Ok::<(Seq<(Seq<char>, ValModel)>, int), Seq<char>>(
            (dec_entries(m, order), q0 + enc_entries(m, order).len()),
        ),
    decreases m, order.len() - k,
{
    let n = order.len() as int;
    assert(order.take(n) =~= order);
    if k < n {
        lemma_enc_entries_prefix(m, order, k + 1, n);
        lemma_enc_entries_prefix(m, order, k, k + 1);
        let j = order[k];
        let pre = enc_entries(m, order.take(k));
        let pre1 = enc_entries(m, order.take(k + 1));
        assert(order.take(k + 1).drop_last() =~= order.take(k));
        assert(order.take(k + 1).last() == j);
        let kt = enc_text(m[j].0@);
        let ve = enc(m[j].1);
        assert(pre1 == pre + kt + ve);
        let whole = enc_entries(m, order);
        let p1 = q0 + pre.len();
        let p2 = p1 + kt.len();
        assert(d.subrange(p1, p2) =~= kt) by {
            assert forall|x: int| 0 <= x < kt.len() implies d.subrange(p1, p2)[x] == kt[x] by {
                assert(d[p1 + x] == d.subrange(q0, q0 + whole.len())[pre.len() + x]);
                assert(whole[pre.len() + x] == pre1[pre.len() + x]);
            }
        }
        assert(d.subrange(p2, p2 + ve.len()) =~= ve) by {
            assert forall|x: int| 0 <= x < ve.len() implies d.subrange(p2, p2 + ve.len())[x] == ve[x] by {
                assert(d[p2 + x] == d.subrange(q0, q0 + whole.len())[pre.len() + kt.len() + x]);
                assert(whole[pre.len() + kt.len() + x] == pre1[pre.len() + kt.len() + x]);
            }
        }
        lemma_entries_fit_index(m);
        lemma_dec_text(m[j].0@, d, p1);
        assert(decreases_to!(m => m[j]));
        assert(decreases_to!(m[j] => m[j].1));
        lemma_dec_enc(m[j].1, d, p2);
        lemma_dec_map_from(m, order, d, start, q0, k + 1);
        assert(dec_entries(m, order.take(k + 1)) == dec_entries(m, order.take(k)).push((m[j].0@, dec_model(m[j].1))));
    }
}

/// Decoding a canonical encoding succeeds and gives [`dec_model`].
pub proof fn lemma_decode_enc(v: Val)
    requires
        fits(v),
    ensures
        decode_spec(enc(v)) == Ok::<ValModel, Seq<char>>(dec_model(v)),
{
    let e = enc(v);
    assert(e.subrange(0, e.len() as int) =~= e);
    lemma_dec_enc(v, e, 0);
}


// ---------------------------------------------------------------------------
// Byte order of keys

proof fn lemma_lex_irreflexive(a: Seq<u8>)
    ensures
        !lex_lt(a, a),
    decreases a.len(),
{
    if a.len() > 0 {
        lemma_lex_irreflexive(a.drop_first());
    }
}

proof fn lemma_lex_transitive(a: Seq<u8>, b: Seq<u8>, c: Seq<u8>)
    requires
        lex_lt(a, b),
        lex_lt(b, c),
    ensures
        lex_lt(a, c),
    decreases a.len(),
{
    if a.len() > 0 && b.len() > 0 && c.len() > 0 && a[0] == b[0] && b[0] == c[0] {
        lemma_lex_transitive(a.drop_first(), b.drop_first(), c.drop_first());
    }
}

proof fn lemma_lex_asymmetric(a: Seq<u8>, b: Seq<u8>)
    requires
        lex_lt(a, b),
    ensures
        !lex_lt(b, a),
{
    if lex_lt(b, a) {
        lemma_lex_transitive(a, b, a);
        lemma_lex_irreflexive(a);
    }
}

/// Keys strictly increase along the entries.
pub open spec fn keys_increase(m: Seq<(String, Val)>) -> bool {
    forall|i: int, j: int| 0 <= i < j < m.len() ==> lex_lt(#[trigger] key_bytes(m, i), #[trigger] key_bytes(m, j))
}

/// With increasing keys, the least key among the first `n` is the first.
proof fn lemma_least_first(m: Seq<(String, Val)>, n: int)
    requires
        keys_increase(m),
        1 <= n <= m.len(),
    ensures
        least_above(m, None, n) == Some(0int),
    decreases n,
{
    if n > 1 {
        lemma_least_first(m, n - 1);
        assert(lex_lt(key_bytes(m, 0), key_bytes(m, n - 1)));
    } else {
        assert(least_above(m, None, 0) is None);
    }
}

/// With increasing keys, the least key above key `i` is key `i + 1`.
proof fn lemma_least_next(m: Seq<(String, Val)>, i: int, n: int)
    requires
        keys_increase(m),
        0 <= i < m.len(),
        0 <= n <= m.len(),
    ensures
        least_above(m, Some(key_bytes(m, i)), n) == (if n > i + 1 {
            Some(i + 1)
        } else {
            None::<int>
        }),
    decreases n,
{
    if n > 0 {
        lemma_least_next(m, i, n - 1);
        let k = key_bytes(m, n - 1);
        if n - 1 < i {
            assert(lex_lt(key_bytes(m, n - 1), key_bytes(m, i)));
            lemma_lex_asymmetric(key_bytes(m, n - 1), key_bytes(m, i));
        } else if n - 1 == i {
            lemma_lex_irreflexive(key_bytes(m, i));
        } else if n - 1 == i + 1 {
            assert(lex_lt(key_bytes(m, i), key_bytes(m, i + 1)));
        } else {
            assert(lex_lt(key_bytes(m, i), key_bytes(m, n - 1)));
            assert(lex_lt(key_bytes(m, i + 1), key_bytes(m, n - 1)));
        }
    }
}

/// With increasing keys, the canonical order after key `i` is every later
/// entry in turn.
proof fn lemma_canonical_sorted_from(m: Seq<(String, Val)>, i: int, fuel: nat)
    requires
        keys_increase(m),
        0 <= i < m.len(),
        fuel >= m.len() - 1 - i,
    ensures
        canonical_order(m, Some(key_bytes(m, i)), fuel) == Seq::new((m.len() - 1 - i) as nat, |x: int| i + 1 + x),
    decreases m.len() - i,
{
    lemma_least_next(m, i, m.len() as int);
    if fuel == 0 {
        assert(Seq::new((m.len() - 1 - i) as nat, |x: int| i + 1 + x) =~= Seq::<int>::empty());
    } else if i + 1 < m.len() {
        lemma_canonical_sorted_from(m, i + 1, (fuel - 1) as nat);
        assert(seq![i + 1] + Seq::new((m.len() - 1 - (i + 1)) as nat, |x: int| i + 2 + x) =~= Seq::new(
            (m.len() - 1 - i) as nat,
            |x: int| i + 1 + x,
        ));
    } else {
        assert(Seq::new((m.len() - 1 - i) as nat, |x: int| i + 1 + x) =~= Seq::<int>::empty());
    }
}

/// With increasing keys, the canonical order keeps every entry in place.
proof fn lemma_canonical_sorted(m: Seq<(String, Val)>)
    requires
        keys_increase(m),
    ensures
        canonical_order(m, None, m.len()) == Seq::new(m.len(), |x: int| x),
{
    if m.len() > 0 {
        lemma_least_first(m, m.len() as int);
        lemma_canonical_sorted_from(m, 0, (m.len() - 1) as nat);
        assert(seq![0int] + Seq::new((m.len() - 1) as nat, |x: int| 1 + x) =~= Seq::new(m.len(), |x: int| x));
    } else {
        assert(Seq::new(m.len(), |x: int| x) =~= Seq::<int>::empty());
    }
}

/// The canonical order picks keys in strictly increasing order, all above
/// `lower`.
proof fn lemma_canonical_increasing(m: Seq<(String, Val)>, lower: Option<Seq<u8>>, fuel: nat)
    ensures
        ({
            let o = canonical_order(m, lower, fuel);
            &&& forall|i: int, j: int|
                0 <= i < j < o.len() ==> lex_lt(#[trigger] key_bytes(m, o[i]), #[trigger] key_bytes(m, o[j]))
            &&& forall|i: int| 0 <= i < o.len() ==> (lower matches Some(l) ==> lex_lt(l, #[trigger] key_bytes(m, o[i])))
        }),
    decreases fuel,
{
    if fuel > 0 {
        match least_above(m, lower, m.len() as int) {
            Some(j) => {
                lemma_least_above_pick(m, lower, m.len() as int);
                let kj = key_bytes(m, j);
                lemma_canonical_increasing(m, Some(kj), (fuel - 1) as nat);
                let rest = canonical_order(m, Some(kj), (fuel - 1) as nat);
                let o = canonical_order(m, lower, fuel);
                assert(o == seq![j] + rest);
                assert forall|a: int, b: int| 0 <= a < b < o.len() implies lex_lt(#[trigger] key_bytes(m, o[a]), #[trigger] key_bytes(m, o[b])) by {
                    assert(o[b] == rest[b - 1]);
                    if a > 0 {
                        assert(o[a] == rest[a - 1]);
                    }
                }
                assert forall|a: int| 0 <= a < o.len() implies (lower matches Some(l) ==> lex_lt(l, #[trigger] key_bytes(m, o[a]))) by {
                    if a > 0 {
                        assert(o[a] == rest[a - 1]);
                        match lower {
                            Some(l) => {
                                lemma_lex_transitive(l, kj, key_bytes(m, o[a]));
                            },
                            None => {},
                        }
                    }
                }
            },
            None => {},
        }
    }
}

/// A pick of `least_above` holds a key above `lower`.
proof fn lemma_least_above_pick(m: Seq<(String, Val)>, lower: Option<Seq<u8>>, n: int)
    ensures
        least_above(m, lower, n) matches Some(j) ==> (lower matches Some(l) ==> lex_lt(l, key_bytes(m, j))),
    decreases n,
{
    if n > 0 {
        lemma_least_above_pick(m, lower, n - 1);
    }
}


// ---------------------------------------------------------------------------
// Encoding what was decoded

proof fn lemma_dec_models_index(s: Seq<Val>)
    ensures
        dec_models(s).len() == s.len(),
        forall|i: int| 0 <= i < s.len() ==> #[trigger] dec_models(s)[i] == dec_model(s[i]),
    decreases s.len(),
{
    if s.len() > 0 {
        lemma_dec_models_index(s.drop_last());
    }
}

proof fn lemma_dec_entries_index(m: Seq<(String, Val)>, order: Seq<int>)
    requires
        forall|i: int| 0 <= i < order.len() ==> 0 <= #[trigger] order[i] < m.len(),
    ensures
        dec_entries(m, order).len() == order.len(),
        forall|i: int|
            0 <= i < order.len() ==> #[trigger] dec_entries(m, order)[i] == (m[order[i]].0@, dec_model(m[order[i]].1)),
    decreases order.len(),
{
    if order.len() > 0 {
        lemma_dec_entries_index(m, order.drop_last());
    }
}

/// A tree whose model is what decoding gave encodes as the original.
pub proof fn lemma_reencode(v: Val, w: Val)
    requires
        model(w) == dec_model(v),
    ensures
        enc(w) == enc(v),
    decreases v, 2nat,
{
    match v {
        Val::Array(_) => {
            lemma_reenc_arr(v, w);
        },
        Val::Obj(_) => {
            lemma_reenc_obj(v, w);
        },
        _ => {
            lemma_reenc_leaf(v, w);
        },
    }
}

proof fn lemma_reenc_leaf(v: Val, w: Val)
    requires
        !(v is Array || v is Obj),
        model(w) == dec_model(v),
    ensures
        enc(w) == enc(v),
{
    match w {
        Val::Text(t) => {
            assert(v is Text);
        },
        Val::F32(b) => {},
        Val::F64(b) => {},
        _ => {},
    }
}

proof fn lemma_reenc_arr(v: Val, w: Val)
    requires
        v is Array,
        model(w) == dec_model(v),
    ensures
        enc(w) == enc(v),
    decreases v, 1nat,
{
    let items = v->Array_0;
    let items2 = w->Array_0;
    crate::s2tree::lemma_models_index(items2@);
    lemma_dec_models_index(items@);
    assert(decreases_to!(v => items));
    assert(decreases_to!(items => items@));
    assert forall|i: int| 0 <= i < items@.len() implies model(#[trigger] items2@[i]) == dec_model(items@[i]) by {
        assert(models_of(items2@)[i] == dec_models(items@)[i]);
    }
    lemma_reenc_seq(items@, items2@);
}

proof fn lemma_reenc_seq(s1: Seq<Val>, s2: Seq<Val>)
    requires
        s1.len() == s2.len(),
        forall|i: int| 0 <= i < s1.len() ==> model(#[trigger] s2[i]) == dec_model(s1[i]),
    ensures
        enc_seq(s2) == enc_seq(s1),
    decreases s1, 0nat,
{
    if s1.len() > 0 {
        assert(decreases_to!(s1 => s1.drop_last()));
        assert forall|i: int| 0 <= i < s1.len() - 1 implies model(#[trigger] s2.drop_last()[i]) == dec_model(
            s1.drop_last()[i],
        ) by {
            assert(model(s2[i]) == dec_model(s1[i]));
        }
        lemma_reenc_seq(s1.drop_last(), s2.drop_last());
        assert(decreases_to!(s1 => s1[s1.len() - 1]));
        assert(model(s2[s1.len() - 1]) == dec_model(s1[s1.len() - 1]));
        lemma_reencode(s1.last(), s2.last());
    }
}

proof fn lemma_reenc_obj(v: Val, w: Val)
    requires
        v is Obj,
        model(w) == dec_model(v),
    ensures
        enc(w) == enc(v),
    decreases v, 1nat,
{
    let m = v->Obj_0;
    let m2 = w->Obj_0;
    let order = canonical_order(m@, None, m@.len());
    lemma_canonical_bounds(m@, None, m@.len());
    lemma_canonical_increasing(m@, None, m@.len());
    lemma_dec_entries_index(m@, order);
    crate::s2tree::lemma_entry_models_index(m2@);
    let l = m2@.len();
    assert(l == order.len());
    assert forall|i: int| 0 <= i < l implies #[trigger] key_bytes(m2@, i) == key_bytes(m@, order[i]) by {
        assert(entry_models(m2@)[i] == dec_entries(m@, order)[i]);
    }
    assert(keys_increase(m2@)) by {
        assert forall|i: int, j: int| 0 <= i < j < l implies lex_lt(#[trigger] key_bytes(m2@, i), #[trigger] key_bytes(m2@, j)) by {
            assert(key_bytes(m2@, i) == key_bytes(m@, order[i]));
            assert(key_bytes(m2@, j) == key_bytes(m@, order[j]));
        }
    }
    lemma_canonical_sorted(m2@);
    assert(decreases_to!(v => m));
    assert(decreases_to!(m => m@));
    lemma_reenc_entries(m@, order, m2@, l as int);
    assert(order.take(l as int) =~= order);
    assert(Seq::new(l, |x: int| x).take(l as int) =~= Seq::new(l, |x: int| x));
}

/// The first `k` entries of the sorted tree encode as the first `k`
/// canonical entries of the original.
proof fn lemma_reenc_entries(m: Seq<(String, Val)>, order: Seq<int>, m2: Seq<(String, Val)>, k: int)
    requires
        forall|i: int| 0 <= i < order.len() ==> 0 <= #[trigger] order[i] < m.len(),
        m2.len() == order.len(),
        entry_models(m2) == dec_entries(m, order),
        0 <= k <= order.len(),
    ensures
        enc_entries(m2, Seq::new(m2.len(), |x: int| x).take(k)) == enc_entries(m, order.take(k)),
    decreases m, k,
{
    if k > 0 {
        lemma_reenc_entries(m, order, m2, k - 1);
        let r = Seq::new(m2.len(), |x: int| x);
        assert(r.take(k).drop_last() =~= r.take(k - 1));
        assert(order.take(k).drop_last() =~= order.take(k - 1));
        assert(r.take(k).last() == k - 1);
        let j = order[k - 1];
        assert(order.take(k).last() == j);
        lemma_dec_entries_index(m, order);
        crate::s2tree::lemma_entry_models_index(m2);
        assert(entry_models(m2)[k - 1] == dec_entries(m, order)[k - 1]);
        assert(m2[k - 1].0@ == m[j].0@);
        assert(model(m2[k - 1].1) == dec_model(m[j].1));
        assert(decreases_to!(m => m[j]));
        assert(decreases_to!(m[j] => m[j].1));
        lemma_reencode(m[j].1, m2[k - 1].1);
    }
}

/// The canonical CBOR encoding reads back: decoding the encoding of any
/// tree (whose lengths fit a machine word) succeeds, and every tree
/// holding what decoding gave encodes to the very same bytes.
pub proof fn lemma_cbor_roundtrip(v: Val, w: Val)
    requires
        fits(v),
        model(w) == dec_model(v),
    ensures
        decode_spec(enc(v)) == Ok::<ValModel, Seq<char>>(model(w)),
        enc(w) == enc(v),
{
    lemma_decode_enc(v);
    lemma_reencode(v, w);
}

} // verus!
