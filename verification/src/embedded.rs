//! The embedded-stream keys of a converted Serum2 state tree: the SubOsc
//! phase, the noise oscillator's loop words, the custom tuning and the
//! embedded noise sample, all taken from the Serum preset state and the data
//! streams appended to it.

use vstd::prelude::*;
use crate::s2tree::{
    entry_models, first_key, first_key_m, lemma_set_model, model, models_of, set_model, Val, ValModel,
};
use crate::strs::{str_eq, string_of};
use crate::bytes::{extend_from, le_u32, le_u64, read_u32_le, read_u64_le};
use crate::s1state::{
    i32_at_spec, u32_at_spec, vec_views, S1Preset, NAME_FIELD_LEN, OFF_BOUNDARY64, OFF_LOOPBACK64,
    OFF_NOISE_NAME, OFF_OSC_WT_FRAMES, OFF_STORED_PHASE_POS, OFF_TUNING_LEN, OFF_TUNING_NAME,
    TUNING_NAME_MAX,
};
use crate::scan::{cstr, cstr_spec};
use vstd::slice::slice_subrange;

verus! {

// ---------------------------------------------------------------------------
// Nested map updates
/// The entries of a map (none for any other value).
pub open spec fn entries_of(v: ValModel) -> Seq<(Seq<char>, ValModel)> {
    match v {
        ValModel::Obj(e) => e,
        _ => Seq::empty(),
    }
}

/// The map under `key` as `obj_at` finds it: the value stored there, or a
/// new empty map.
pub open spec fn child_m(v: ValModel, key: Seq<char>) -> ValModel {
    match first_key_m(entries_of(v), key, 0) {
        Some(j) => entries_of(v)[j].1,
        None => ValModel::Obj(Seq::empty()),
    }
}

/// `v` as a map with `key` set to `c`.
pub open spec fn with_child_m(v: ValModel, key: Seq<char>, c: ValModel) -> ValModel {
    ValModel::Obj(set_model(entries_of(v), key, c))
}

/// `Val::set` on a model: a map gets `key` set, anything else is left.
pub open spec fn set_leaf_m(v: ValModel, key: Seq<char>, x: ValModel) -> ValModel {
    match v {
        ValModel::Obj(e) => ValModel::Obj(set_model(e, key, x)),
        _ => v,
    }
}

/// `v.obj_at(a).obj_at(b).set(key, x)` on models.
pub open spec fn nested_set_m(
    v: ValModel,
    a: Seq<char>,
    b: Seq<char>,
    key: Seq<char>,
    x: ValModel,
) -> ValModel {
    let c = child_m(v, a);
    with_child_m(v, a, with_child_m(c, b, set_leaf_m(child_m(c, b), key, x)))
}

proof fn lemma_first_key_m_same_keys(
    e1: Seq<(Seq<char>, ValModel)>,
    e2: Seq<(Seq<char>, ValModel)>,
    key: Seq<char>,
    i: int,
)
    requires
        e1.len() == e2.len(),
        forall|k: int| 0 <= k < e1.len() ==> (#[trigger] e1[k]).0 == e2[k].0,
    ensures
        first_key_m(e1, key, i) == first_key_m(e2, key, i),
    decreases e1.len() - i,
{
    if 0 <= i < e1.len() && e1[i].0 != key {
        lemma_first_key_m_same_keys(e1, e2, key, i + 1);
    }
}

proof fn lemma_first_key_m_bounds(e: Seq<(Seq<char>, ValModel)>, key: Seq<char>, i: int)
    ensures
        first_key_m(e, key, i) matches Some(j) ==> i <= j < e.len() && e[j].0 == key,
    decreases e.len() - i,
{
    if 0 <= i < e.len() && e[i].0 != key {
        lemma_first_key_m_bounds(e, key, i + 1);
    }
}

/// Takes the value under `key` out of the map `v` (leaving `Null` in its
/// place), or gives a new empty map when there is none; a non-map `v` is
/// left alone.
fn take_child(v: &mut Val, key: &str) -> (r: Val)
    ensures
        match *old(v) {
            Val::Obj(m) => *final(v) matches Val::Obj(m2) && match first_key(m@, key@, 0) {
                Some(j) => 0 <= j < m@.len() && m2@ == m@.update(j, (m@[j].0, Val::Null)) && r
                    == m@[j].1,
                None => m2@ == m@ && (r matches Val::Obj(e) && e@.len() == 0),
            },
            _ => *final(v) == *old(v) && (r matches Val::Obj(e) && e@.len() == 0),
        },
{
    if let Val::Obj(m) = v {
        match take_entry(m, key) {
            Some(c) => c,
            None => Val::obj(),
        }
    } else {
        Val::obj()
    }
}

/// Takes the value of the first entry under `key` out of `m`, leaving
/// `Null` in its place.
fn take_entry(m: &mut Vec<(String, Val)>, key: &str) -> (r: Option<Val>)
    ensures
        match first_key(old(m)@, key@, 0) {
            Some(j) => 0 <= j < old(m)@.len() && final(m)@ == old(m)@.update(
                j,
                (old(m)@[j].0, Val::Null),
            ) && r == Some(old(m)@[j].1),
            None => final(m)@ == old(m)@ && r is None,
        },
{
    proof {
        crate::s2tree::lemma_first_key_bounds(m@, key@, 0);
    }
    let ghost m0 = m@;
    let mut j: usize = 0;
    while j < m.len()
        invariant
            m@ == m0,
            m0 == old(m)@,
            j <= m@.len(),
            first_key(m0, key@, 0) == first_key(m0, key@, j as int),
        decreases m.len() - j,
    {
        if str_eq(m[j].0.as_str(), key) {
            assert(m0[j as int].0@ == key@);
            assert(first_key(m0, key@, j as int) == Some(j as int));
            let (k, c) = m.remove(j);
            m.insert(j, (k, Val::Null));
            assert(m@ =~= m0.update(j as int, (m0[j as int].0, Val::Null)));
            return Some(c);
        }
        j += 1;
    }
    None
}

/// What `take_child` does, in terms of models.
proof fn lemma_take_model(v: Val, v2: Val, key: Seq<char>, r: Val)
    requires
        match v {
            Val::Obj(m) => v2 matches Val::Obj(m2) && match first_key(m@, key, 0) {
                Some(j) => 0 <= j < m@.len() && m2@ == m@.update(j, (m@[j].0, Val::Null)) && r
                    == m@[j].1,
                None => m2@ == m@ && (r matches Val::Obj(e) && e@.len() == 0),
            },
            _ => v2 == v && (r matches Val::Obj(e) && e@.len() == 0),
        },
    ensures
        model(r) == child_m(model(v), key),
        match model(v) {
            ValModel::Obj(e) => model(v2) matches ValModel::Obj(e2) && e2.len() == e.len()
                && (forall|k: int| 0 <= k < e.len() ==> (#[trigger] e2[k]).0 == e[k].0)
                && match first_key_m(e, key, 0) {
                Some(j) => e2 == e.update(j, (e[j].0, ValModel::Null)),
                None => e2 == e,
            },
            _ => v2 == v,
        },
{
    assert(entry_models(Seq::<(String, Val)>::empty()) =~= Seq::empty());
    match v {
        Val::Obj(m) => {
            let m2 = v2->Obj_0;
            crate::s2tree::lemma_entry_models_index(m@);
            crate::s2tree::lemma_entry_models_index(m2@);
            crate::s2tree::lemma_first_key_model(m@, key, 0);
            let e0 = entry_models(m@);
            match first_key(m@, key, 0) {
                Some(j) => {
                    let e2 = e0.update(j, (e0[j].0, ValModel::Null));
                    assert forall|i: int| 0 <= i < m2@.len() implies entry_models(m2@)[i] == e2[i] by {
                        if i != j {
                            assert(m2@[i] == m@[i]);
                        }
                    }
                    assert(entry_models(m2@) =~= e2);
                },
                None => {
                    assert(r->Obj_0@ =~= Seq::<(String, Val)>::empty());
                },
            }
        },
        _ => {
            assert(r->Obj_0@ =~= Seq::<(String, Val)>::empty());
        },
    }
}


/// Puts `c` under `key`: a map gets the key set, anything else becomes the
/// map holding just that entry.
fn put_child(v: &mut Val, key: &str, c: Val)
    ensures
        model(*final(v)) == with_child_m(model(*old(v)), key@, model(c)),
{
    let ghost vc = c;
    if let Val::Obj(m) = v {
        let ghost m0 = m@;
        v.set(key, c);
        proof {
            lemma_set_model(m0, (*v)->Obj_0@, key@, vc);
        }
    } else {
        let mut m: Vec<(String, Val)> = Vec::new();
        m.push((string_of(key), c));
        *v = Val::Obj(m);
        proof {
            let mm = (*v)->Obj_0@;
            crate::s2tree::lemma_entry_models_index(mm);
            assert(entry_models(mm) =~= seq![(key@, model(vc))]);
            assert(set_model(Seq::empty(), key@, model(vc)) =~= seq![(key@, model(vc))]);
        }
    }
}

/// `Val::set` in terms of models.
pub fn set_leaf(v: &mut Val, key: &str, x: Val)
    ensures
        model(*final(v)) == set_leaf_m(model(*old(v)), key@, model(x)),
{
    let ghost vx = x;
    let ghost old_v = *v;
    v.set(key, x);
    proof {
        if let Val::Obj(m0) = old_v {
            lemma_set_model(m0@, (*v)->Obj_0@, key@, vx);
        }
    }
}

/// Setting a key again after its value was taken out is setting it in the
/// original.
proof fn lemma_put_after_take(orig: ValModel, taken: ValModel, key: Seq<char>, x: ValModel)
    requires
        match orig {
            ValModel::Obj(e) => taken matches ValModel::Obj(e2) && e2.len() == e.len() && (forall|k: int|
                0 <= k < e.len() ==> (#[trigger] e2[k]).0 == e[k].0) && match first_key_m(e, key, 0) {
                Some(j) => e2 == e.update(j, (e[j].0, ValModel::Null)),
                None => e2 == e,
            },
            _ => taken == orig,
        },
    ensures
        with_child_m(taken, key, x) == with_child_m(orig, key, x),
{
    if let ValModel::Obj(e) = orig {
        let e2 = entries_of(taken);
        lemma_first_key_m_same_keys(e, e2, key, 0);
        match first_key_m(e, key, 0) {
            Some(j) => {
                lemma_first_key_m_bounds(e, key, 0);
                assert(e2.update(j, (key, x)) =~= e.update(j, (key, x)));
            },
            None => {},
        }
    }
}

/// `v.obj_at(a).set(key, x)` on models.
pub open spec fn child_set_m(v: ValModel, a: Seq<char>, key: Seq<char>, x: ValModel) -> ValModel {
    with_child_m(v, a, set_leaf_m(child_m(v, a), key, x))
}

/// `root.obj_at(a).set(key, x)`, in terms of models.
pub fn child_set(root: &mut Val, a: &str, key: &str, x: Val)
    ensures
        model(*final(root)) == child_set_m(model(*old(root)), a@, key@, model(x)),
{
    let ghost r0 = *root;
    let mut o = take_child(root, a);
    proof {
        lemma_take_model(r0, *root, a@, o);
    }
    let ghost r1 = *root;
    set_leaf(&mut o, key, x);
    put_child(root, a, o);
    proof {
        lemma_put_after_take(model(r0), model(r1), a@, model(o));
    }
}

/// `root.obj_at(a).obj_at(b).set(key, x)`, in terms of models.
pub fn nested_set(root: &mut Val, a: &str, b: &str, key: &str, x: Val)
    ensures
        model(*final(root)) == nested_set_m(model(*old(root)), a@, b@, key@, model(x)),
{
    let ghost r0 = *root;
    let mut o = take_child(root, a);
    proof {
        lemma_take_model(r0, *root, a@, o);
    }
    let ghost r1 = *root;
    let ghost o0 = o;
    let mut s = take_child(&mut o, b);
    proof {
        lemma_take_model(o0, o, b@, s);
    }
    let ghost o1 = o;
    set_leaf(&mut s, key, x);
    put_child(&mut o, b, s);
    proof {
        lemma_put_after_take(model(o0), model(o1), b@, model(s));
    }
    put_child(root, a, o);
    proof {
        lemma_put_after_take(model(r0), model(r1), a@, model(o));
    }
}

// ---------------------------------------------------------------------------
// The appended data streams
/// The streams one after another.
pub open spec fn flat(ss: Seq<Seq<u8>>) -> Seq<u8>
    decreases ss.len(),
{
    if ss.len() == 0 {
        Seq::empty()
    } else {
        flat(ss.drop_last()) + ss.last()
    }
}

/// Up to `len` bytes of `c` from `skip` on (none when `skip` is past its
/// end).
pub open spec fn window(c: Seq<u8>, skip: int, len: int) -> Seq<u8> {
    if skip >= c.len() {
        Seq::empty()
    } else if skip + len < c.len() {
        c.subrange(skip, skip + len)
    } else {
        c.subrange(skip, c.len() as int)
    }
}

proof fn lemma_flat_prefix(ss: Seq<Seq<u8>>, i: int)
    requires
        0 <= i <= ss.len(),
    ensures
        flat(ss.take(i)).len() <= flat(ss).len(),
        flat(ss).subrange(0, flat(ss.take(i)).len() as int) == flat(ss.take(i)),
    decreases ss.len() - i,
{
    if i == ss.len() {
        assert(ss.take(i) =~= ss);
    } else {
        lemma_flat_prefix(ss, i + 1);
        assert(ss.take(i + 1).drop_last() =~= ss.take(i));
        let a = flat(ss.take(i));
        let b = flat(ss.take(i + 1));
        assert(b == a + ss[i]);
        assert(flat(ss).subrange(0, a.len() as int) =~= b.subrange(0, a.len() as int));
        assert(b.subrange(0, a.len() as int) =~= a);
    }
}

/// Up to `len` bytes of the streams taken as one, from byte `skip` on.
pub fn stream_window(streams: &Vec<Vec<u8>>, skip: u64, len: u64) -> (r: Vec<u8>)
    ensures
        r@ == window(flat(vec_views(streams@)), skip as int, len as int),
{
    let ghost ss = vec_views(streams@);
    let ghost skip0 = skip as int;
    let mut out: Vec<u8> = Vec::new();
    let mut skip = skip;
    let mut left = len;
    let mut i: usize = 0;
    while i < streams.len() && left > 0
        invariant
            ss == vec_views(streams@),
            0 <= skip0,
            i <= streams@.len(),
            ({
                let pre = flat(ss.take(i as int));
                if skip0 >= pre.len() {
                    &&& skip == skip0 - pre.len()
                    &&& out@.len() == 0
                    &&& left == len
                } else {
                    &&& skip == 0
                    &&& out@ == window(pre, skip0, len as int)
                    &&& left == len - out@.len()
                }
            }),
        decreases streams.len() - i,
    {
        let s = &streams[i];
        let ghost pre = flat(ss.take(i as int));
        proof {
            assert(ss.take(i + 1).drop_last() =~= ss.take(i as int));
            assert(ss[i as int] == s@);
        }
        let n = s.len() as u64;
        if skip >= n {
            skip = skip - n;
        } else {
            let avail = n - skip;
            let take = if left < avail {
                left
            } else {
                avail
            };
            let ghost before = out@;
            extend_from(&mut out, slice_subrange(s.as_slice(), skip as usize, (skip + take) as usize));
            proof {
                let pre2 = flat(ss.take(i + 1));
                assert(pre2 == pre + s@);
                let sl = s@.subrange(skip as int, skip + take);
                assert(out@ == before + sl);
                if skip0 >= pre.len() {
                    assert(before.len() == 0);
                    if left < avail {
                        assert(out@ =~= pre2.subrange(skip0, skip0 + len));
                    } else {
                        assert(out@ =~= pre2.subrange(skip0, pre2.len() as int));
                    }
                } else {
                    assert(skip == 0);
                    assert(before =~= pre.subrange(skip0, pre.len() as int));
                    if left < avail {
                        assert(out@ =~= pre2.subrange(skip0, skip0 + len));
                    } else {
                        assert(out@ =~= pre2.subrange(skip0, pre2.len() as int));
                    }
                }
                assert(out@ =~= window(pre2, skip0, len as int));
            }
            skip = 0;
            left = left - take;
        }
        i += 1;
    }
    proof {
        let pre = flat(ss.take(i as int));
        lemma_flat_prefix(ss, i as int);
        if i == streams@.len() {
            assert(ss.take(i as int) =~= ss);
        } else {
            let c = flat(ss);
            assert(c.subrange(0, pre.len() as int) == pre);
            if skip0 < pre.len() {
                assert(out@ =~= window(c, skip0, len as int));
            } else {
                assert(window(c, skip0, len as int) =~= Seq::<u8>::empty());
            }
        }
    }
    out
}

// ---------------------------------------------------------------------------
// Sample words
/// Doubling `m` until its bit 23 is set, counting the doublings.
pub open spec fn norm23(m: nat, k: nat) -> (nat, nat)
    decreases 0x1000000 - m,
{
    if m == 0 || m >= 0x800000 {
        (m, k)
    } else {
        norm23(2 * m, k + 1)
    }
}

/// `2^k`.
pub open spec fn p2(k: nat) -> nat
    decreases k,
{
    if k == 0 {
        1
    } else {
        2 * p2((k - 1) as nat)
    }
}

proof fn lemma_p2_large(k: nat)
    requires
        k >= 24,
    ensures
        p2(k) >= 0x1000000,
    decreases k,
{
    if k > 24 {
        lemma_p2_large((k - 1) as nat);
    } else {
        reveal_with_fuel(p2, 25);
    }
}

/// The f64 bit pattern of the IEEE single-precision value with bits `b`
/// (exact: every f32 value is an f64 value; a NaN keeps its sign and
/// payload and is made quiet).
pub open spec fn f32_to_f64_bits(b: u32) -> u64 {
    let s = b as nat / 0x8000_0000;
    let e = (b as nat / 0x80_0000) % 0x100;
    let m = b as nat % 0x80_0000;
    let sign64 = s * 0x8000_0000_0000_0000;
    if e == 0 {
        if m == 0 {
            sign64 as u64
        } else {
            let (mn, k) = norm23(m, 0);
            (sign64 + (897 - k) * 0x10_0000_0000_0000 + (mn - 0x80_0000) * 0x2000_0000) as u64
        }
    } else if e == 255 {
        if m == 0 {
            (sign64 + 0x7FF0_0000_0000_0000) as u64
        } else {
            let q = if m >= 0x40_0000 {
                m
            } else {
                m + 0x40_0000
            };
            (sign64 + 0x7FF0_0000_0000_0000 + q * 0x2000_0000) as u64
        }
    } else {
        (sign64 + (e + 896) * 0x10_0000_0000_0000 + m * 0x2000_0000) as u64
    }
}

/// Widens the f32 with bits `b` to the bits of the equal f64.
pub fn f32_to_f64(b: u32) -> (r: u64)
    ensures
        r == f32_to_f64_bits(b),
{
    let s = (b / 0x8000_0000) as u64;
    let e = ((b / 0x80_0000) % 0x100) as u64;
    let m = (b % 0x80_0000) as u64;
    let sign64: u64 = if s == 1 {
        0x8000_0000_0000_0000
    } else {
        0
    };
    assert(sign64 as nat == s as nat * 0x8000_0000_0000_0000);
    if e == 0 {
        if m == 0 {
            sign64
        } else {
            let mut mn: u64 = m;
            let mut k: u64 = 0;
            while mn < 0x80_0000
                invariant
                    0 < mn < 0x100_0000,
                    p2(k as nat) <= mn,
                    norm23(mn as nat, k as nat) == norm23(m as nat, 0),
                    k <= 64,
                decreases 0x100_0000 - mn,
            {
                if k >= 24 {
                    proof {
                        lemma_p2_large(k as nat);
                    }
                }
                mn = mn * 2;
                k = k + 1;
            }
            if k >= 24 {
                proof {
                    lemma_p2_large(k as nat);
                }
            }
            assert(k <= 23);
            sign64 + (897 - k) * 0x10_0000_0000_0000 + (mn - 0x80_0000) * 0x2000_0000
        }
    } else if e == 255 {
        if m == 0 {
            sign64 + 0x7FF0_0000_0000_0000
        } else {
            let q = if m >= 0x40_0000 {
                m
            } else {
                m + 0x40_0000
            };
            sign64 + 0x7FF0_0000_0000_0000 + q * 0x2000_0000
        }
    } else {
        sign64 + (e + 896) * 0x10_0000_0000_0000 + m * 0x2000_0000
    }
}

/// The samples of `col`: each whole 4-byte little-endian f32, widened to an
/// f64 value.
pub open spec fn samples(col: Seq<u8>) -> Seq<ValModel> {
    Seq::new(
        col.len() / 4,
        |i: int| ValModel::F64(f32_to_f64_bits(le_u32(col, 4 * i) as u32)),
    )
}

/// The bytes as unsigned integers.
pub open spec fn byte_values(b: Seq<u8>) -> Seq<ValModel> {
    Seq::new(b.len(), |i: int| ValModel::UInt(b[i] as u64))
}

fn sample_array(col: &[u8]) -> (r: Val)
    ensures
        model(r) == ValModel::Array(samples(col@)),
{
    let total = col.len();
    let n = total / 4;
    let mut items: Vec<Val> = Vec::new();
    let mut k: usize = 0;
    while k < n
        invariant
            total == col@.len(),
            n == col@.len() / 4,
            k <= n,
            items@.len() == k,
            forall|i: int| 0 <= i < k ==> model(#[trigger] items@[i]) == samples(col@)[i],
        decreases n - k,
    {
        assert(4 * k + 4 <= col@.len()) by (nonlinear_arith)
            requires
                k < n,
                n == col@.len() / 4,
        ;
        let w = read_u32_le(col, 4 * k);
        items.push(Val::F64(f32_to_f64(w)));
        k += 1;
    }
    proof {
        crate::s2tree::lemma_models_index(items@);
        assert(models_of(items@) =~= samples(col@));
    }
    Val::Array(items)
}

fn byte_array(b: &[u8]) -> (r: Val)
    ensures
        model(r) == ValModel::Array(byte_values(b@)),
{
    let mut items: Vec<Val> = Vec::new();
    let mut k: usize = 0;
    while k < b.len()
        invariant
            k <= b@.len(),
            items@.len() == k,
            forall|i: int| 0 <= i < k ==> model(#[trigger] items@[i]) == byte_values(b@)[i],
        decreases b.len() - k,
    {
        items.push(Val::UInt(b[k] as u64));
        k += 1;
    }
    proof {
        crate::s2tree::lemma_models_index(items@);
        assert(models_of(items@) =~= byte_values(b@));
    }
    Val::Array(items)
}

// ---------------------------------------------------------------------------
// The embedded-stream keys
/// Byte count of the embedded noise sample, a u32 at state offset 0x5544.
pub const OFF_NOISE_SIZE: usize = 0x5544;

/// The u64 at `b[off..off + 8]`; 0 when out of range.
pub open spec fn u64_or0(b: Seq<u8>, off: int) -> u64 {
    if 0 <= off && off + 8 <= b.len() {
        le_u64(b, off) as u64
    } else {
        0
    }
}

fn u64_at(b: &[u8], off: usize) -> (r: u64)
    ensures
        r == u64_or0(b@, off as int),
{
    if off <= b.len() && 8 <= b.len() - off {
        read_u64_le(b, off)
    } else {
        0
    }
}

fn u32_at(b: &[u8], off: usize) -> (r: u32)
    ensures
        r == u32_at_spec(b@, off as int),
{
    if off <= b.len() && 4 <= b.len() - off {
        read_u32_le(b, off)
    } else {
        0
    }
}

/// The wavetable bytes a frame count stands for: 0 for a negative count,
/// else the count rounded down to a multiple of 4.
pub open spec fn frame_bytes(f: i32) -> int {
    if f < 0 {
        0
    } else {
        f - f % 4
    }
}

fn frame_count(f: i32) -> (r: u64)
    ensures
        r == frame_bytes(f),
{
    if f < 0 {
        0
    } else {
        (f as u64) - (f as u64) % 4
    }
}

/// The wavetable bytes that lead the appended streams.
pub open spec fn frames_spec(blob: Seq<u8>) -> int {
    frame_bytes(i32_at_spec(blob, OFF_OSC_WT_FRAMES as int)) + frame_bytes(
        i32_at_spec(blob, OFF_OSC_WT_FRAMES + 4),
    )
}

/// The tuning data's length: the stored length when it lies in
/// `1..=0x8000`, else 0.
pub open spec fn tuning_len_spec(blob: Seq<u8>) -> int {
    let n = u32_at_spec(blob, OFF_TUNING_LEN as int);
    if 1 <= n <= 0x8000 {
        n as int
    } else {
        0
    }
}

/// The embedded-stream keys written into the tree `r0` from the state
/// `st`, the preset's blob and its appended streams `ss`:
/// `Oscillator4/SubOsc4/storedPhasePos` when nonzero; with a noise sample,
/// `Oscillator3/NoiseOsc3/loopback64` and `boundary64` when nonzero; with a
/// custom tuning, `tuningData` (its bytes, after the wavetable bytes of the
/// streams) and `tuningName`; with a noise sample, its two halves of f32
/// samples as `embeddedNoiseData` and its path.
pub open spec fn embedded_spec(r0: ValModel, st: Seq<u8>, blob: Seq<u8>, ss: Seq<Seq<u8>>) -> ValModel {
    let o4 = "Oscillator4"@;
    let o3 = "Oscillator3"@;
    let n3 = "NoiseOsc3"@;
    let sub = u64_or0(st, OFF_STORED_PHASE_POS as int);
    let r1 = if sub != 0 {
        nested_set_m(r0, o4, "SubOsc4"@, "storedPhasePos"@, ValModel::UInt(sub))
    } else {
        r0
    };
    let noise = u32_at_spec(st, OFF_NOISE_SIZE as int);
    let lb = u64_or0(st, OFF_LOOPBACK64 as int);
    let bd = u64_or0(st, OFF_BOUNDARY64 as int);
    let r2 = if noise > 0 && lb != 0 {
        nested_set_m(r1, o3, n3, "loopback64"@, ValModel::UInt(lb))
    } else {
        r1
    };
    let r3 = if noise > 0 && bd != 0 {
        nested_set_m(r2, o3, n3, "boundary64"@, ValModel::UInt(bd))
    } else {
        r2
    };
    let c = flat(ss);
    let fr = frames_spec(blob);
    let tl = tuning_len_spec(blob);
    let r4 = if tl > 0 {
        set_leaf_m(
            set_leaf_m(r3, "tuningData"@, ValModel::Array(byte_values(window(c, fr, tl)))),
            "tuningName"@,
            ValModel::Text(cstr_spec(blob, OFF_TUNING_NAME as int, TUNING_NAME_MAX as int, true)),
        )
    } else {
        r3
    };
    if noise > 0 {
        let col = window(c, fr + tl, noise as int);
        let h = col.len() / 2;
        let arr = ValModel::Array(
            seq![
                ValModel::Array(samples(col.subrange(0, h as int))),
                ValModel::Array(samples(col.subrange(h as int, (2 * h) as int))),
            ],
        );
        nested_set_m(
            nested_set_m(r4, o3, n3, "embeddedNoiseData"@, arr),
            o3,
            n3,
            "pathToNoiseSample"@,
            ValModel::Text(cstr_spec(st, OFF_NOISE_NAME as int, NAME_FIELD_LEN as int, true)),
        )
    } else {
        r4
    }
}

/// Writes the embedded-stream keys into `root` (see [`embedded_spec`]):
/// `st` is the preset state as the conversion holds it, `preset` the parsed
/// preset with its appended streams.
pub fn write_embedded_streams(root: &mut Val, st: &[u8], preset: &S1Preset)
    ensures
        model(*final(root)) == embedded_spec(
            model(*old(root)),
            st@,
            preset.blob@,
            vec_views(preset.streams@),
        ),
{
    let sub = u64_at(st, OFF_STORED_PHASE_POS);
    if sub != 0 {
        nested_set(root, "Oscillator4", "SubOsc4", "storedPhasePos", Val::UInt(sub));
    }
    let noise = u32_at(st, OFF_NOISE_SIZE);
    if noise > 0 {
        let lb = u64_at(st, OFF_LOOPBACK64);
        if lb != 0 {
            nested_set(root, "Oscillator3", "NoiseOsc3", "loopback64", Val::UInt(lb));
        }
        let bd = u64_at(st, OFF_BOUNDARY64);
        if bd != 0 {
            nested_set(root, "Oscillator3", "NoiseOsc3", "boundary64", Val::UInt(bd));
        }
    }
    let tuning = preset.tuning_bytes();
    let fr = preset.osc_wt_frames();
    let frames: u64 = frame_count(fr[0]) + frame_count(fr[1]);
    let tl: u64 = if tuning.len >= 1 && tuning.len <= 0x8000 {
        tuning.len as u64
    } else {
        0
    };
    if tl > 0 {
        let data = stream_window(&preset.streams, frames, tl);
        set_leaf(root, "tuningData", byte_array(data.as_slice()));
        set_leaf(root, "tuningName", Val::Text(tuning.name));
    }
    if noise > 0 {
        let col = stream_window(&preset.streams, frames + tl, noise as u64);
        let half = col.len() / 2;
        let a0 = sample_array(slice_subrange(col.as_slice(), 0, half));
        let a1 = sample_array(slice_subrange(col.as_slice(), half, 2 * half));
        let ghost m0 = model(a0);
        let ghost m1 = model(a1);
        let mut items: Vec<Val> = Vec::new();
        items.push(a0);
        items.push(a1);
        let arr = Val::Array(items);
        proof {
            crate::s2tree::lemma_models_index(items@);
            assert(models_of(items@) =~= seq![m0, m1]);
        }
        nested_set(root, "Oscillator3", "NoiseOsc3", "embeddedNoiseData", arr);
        let name = cstr(st, OFF_NOISE_NAME, NAME_FIELD_LEN, true);
        nested_set(root, "Oscillator3", "NoiseOsc3", "pathToNoiseSample", Val::Text(name));
    }
}

} // verus!
