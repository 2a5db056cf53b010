//! Serum2 state body tree: a deterministic CBOR (RFC 8949 subset) value tree
//! with encode/decode plus zstd frame compression.
//!
//! Canonical rules:
//! - map keys emitted in sorted byte-lexicographic order; duplicate keys
//!   collapse to the LAST inserted value at encode time;
//! - integers use minimal-length CBOR headers (major 0 for `UInt` and
//!   non-negative `Int`, major 1 for negative `Int` as `-1 - n`);
//! - `F32` always encodes as `0xFA` + big-endian f32; `F64` encodes as `0xFA`
//!   when the value is exactly an f32 (and is not NaN), otherwise `0xFB` +
//!   big-endian f64.
//!
//! Floating-point values are held as their IEEE-754 bit patterns
//! (`f32::to_bits` / `f64::to_bits`).

use vstd::prelude::*;
use vstd::arithmetic::power2::pow2;
use vstd::utf8::encode_utf8;
use crate::bytes::{
    be_bytes16, be_bytes32, be_bytes64, extend_from, push_u16_be, push_u32_be, push_u64_be,
};
use crate::strs::{decimal, push_decimal, push_str, str_eq, string_of};
use crate::bytes::{copy_range, le_u16, le_u32, le_u64, read_u16_le, read_u32_le, read_u64_le};
use crate::serum2state::string_from_utf8;
use vstd::utf8::{decode_utf8, valid_utf8};

verus! {

broadcast use vstd::string::group_string_axioms;

/// A decoded CBOR value tree. Map keys are kept as `String`s; encode order is
/// decided at encode time, not insertion time. `F32` / `F64` hold IEEE-754
/// bit patterns.
#[derive(Debug, PartialEq)]
pub enum Val {
    UInt(u64),
    Int(i64),
    F32(u32),
    F64(u64),
    Text(String),
    Bytes(Vec<u8>),
    Bool(bool),
    Null,
    Array(Vec<Val>),
    Obj(Vec<(String, Val)>),
}

/// A value tree as plain values: text as characters, bytes and arrays as
/// sequences, map entries as (key text, value) pairs.
pub enum ValModel {
    UInt(u64),
    Int(i64),
    F32(u32),
    F64(u64),
    Text(Seq<char>),
    Bytes(Seq<u8>),
    Bool(bool),
    Null,
    Array(Seq<ValModel>),
    Obj(Seq<(Seq<char>, ValModel)>),
}

/// The plain-value model of a tree.
pub open spec fn model(v: Val) -> ValModel
    decreases v, 0nat,
{
    match v {
        Val::UInt(u) => ValModel::UInt(u),
        Val::Int(i) => ValModel::Int(i),
        Val::F32(b) => ValModel::F32(b),
        Val::F64(b) => ValModel::F64(b),
        Val::Text(s) => ValModel::Text(s@),
        Val::Bytes(b) => ValModel::Bytes(b@),
        Val::Bool(b) => ValModel::Bool(b),
        Val::Null => ValModel::Null,
        Val::Array(items) => ValModel::Array(models_of(items@)),
        Val::Obj(m) => ValModel::Obj(entry_models(m@)),
    }
}

/// The models of a sequence of trees.
pub open spec fn models_of(s: Seq<Val>) -> Seq<ValModel>
    decreases s, 0nat,
{
    if s.len() == 0 {
        Seq::empty()
    } else {
        models_of(s.drop_last()).push(model(s.last()))
    }
}

/// The models of map entries.
pub open spec fn entry_models(m: Seq<(String, Val)>) -> Seq<(Seq<char>, ValModel)>
    decreases m, 0nat,
{
    if m.len() == 0 {
        Seq::empty()
    } else {
        entry_models(m.drop_last()).push((m.last().0@, model(m.last().1)))
    }
}

/// Index of the first entry with key `key` at or after `i`.
pub open spec fn first_key(m: Seq<(String, Val)>, key: Seq<char>, i: int) -> Option<int>
    decreases m.len() - i,
{
    if i < 0 || i >= m.len() {
        None
    } else if m[i].0@ == key {
        Some(i)
    } else {
        first_key(m, key, i + 1)
    }
}

pub proof fn lemma_first_key_bounds(m: Seq<(String, Val)>, key: Seq<char>, i: int)
    ensures
        first_key(m, key, i) matches Some(j) ==> 0 <= i <= j < m.len() && m[j].0@ == key,
    decreases m.len() - i,
{
    if !(i < 0 || i >= m.len()) && m[i].0@ != key {
        lemma_first_key_bounds(m, key, i + 1);
    }
}

fn find_key(m: &Vec<(String, Val)>, key: &str) -> (r: Option<usize>)
    ensures
        match r {
            Some(j) => first_key(m@, key@, 0) == Some(j as int),
            None => first_key(m@, key@, 0) is None,
        },
{
    let mut i: usize = 0;
    while i < m.len()
        invariant
            i <= m@.len(),
            first_key(m@, key@, 0) == first_key(m@, key@, i as int),
        decreases m.len() - i,
    {
        if str_eq(m[i].0.as_str(), key) {
            return Some(i);
        }
        i += 1;
    }
    None
}

impl Val {
    /// New empty map.
    pub fn obj() -> (r: Val)
        ensures
            r matches Val::Obj(m) && m@.len() == 0,
    {
        Val::Obj(Vec::new())
    }

    /// New empty array.
    pub fn arr() -> (r: Val)
        ensures
            r matches Val::Array(a) && a@.len() == 0,
    {
        Val::Array(Vec::new())
    }

    /// First value stored under `key` (map only).
    pub fn get(&self, key: &str) -> (r: Option<&Val>)
        ensures
            match *self {
                Val::Obj(m) => match first_key(m@, key@, 0) {
                    Some(j) => 0 <= j < m@.len() && r == Some(&m@[j].1),
                    None => r is None,
                },
                _ => r is None,
            },
    {
        match self {
            Val::Obj(m) => match find_key(m, key) {
                Some(j) => {
                    proof {
                        lemma_first_key_bounds(m@, key@, 0);
                    }
                    Some(&m[j].1)
                },
                None => None,
            },
            _ => None,
        }
    }

    /// Replace the value under `key` (its first entry), or append a new
    /// entry. No-op on non-map values.
    pub fn set(&mut self, key: &str, val: Val)
        ensures
            match *old(self) {
                Val::Obj(m) => *final(self) matches Val::Obj(m2) && match first_key(m@, key@, 0) {
                    Some(j) => m2@ == m@.update(j, (m@[j].0, val)),
                    None => m2@.len() == m@.len() + 1 && m2@.take(m@.len() as int) == m@
                        && m2@.last().0@ == key@ && m2@.last().1 == val,
                },
                _ => *final(self) == *old(self),
            },
    {
        if let Val::Obj(m) = self {
            proof {
                lemma_first_key_bounds(m@, key@, 0);
            }
            match find_key(m, key) {
                Some(j) => {
                    let k = m[j].0.clone();
                    m.set(j, (k, val));
                },
                None => {
                    m.push((string_of(key), val));
                    assert(m@.take(m@.len() - 1) =~= old(self)->Obj_0@);
                },
            }
        }
    }

    /// Append to an array; ignored on non-array values.
    pub fn push(&mut self, v: Val)
        ensures
            match *old(self) {
                Val::Array(a) => *final(self) matches Val::Array(a2) && a2@ == a@.push(v),
                _ => *final(self) == *old(self),
            },
    {
        if let Val::Array(a) = self {
            a.push(v);
        }
    }

    /// Mutable access to the value under `key` (its first entry) when
    /// `self` is a map; `None` otherwise.
    pub fn get_mut(&mut self, key: &str) -> (r: Option<&mut Val>)
        ensures
            match *old(self) {
                Val::Obj(m) => match first_key(m@, key@, 0) {
                    Some(j) => {
                        &&& r is Some
                        &&& *r->Some_0 == m@[j].1
                        &&& *final(self) matches Val::Obj(m2) && m2@ == m@.update(j, (m@[j].0, *final(r->Some_0)))
                    },
                    None => r is None && *final(self) == *old(self),
                },
                _ => r is None && *final(self) == *old(self),
            },
    {
        match self {
            Val::Obj(m) => match find_key(m, key) {
                Some(j) => {
                    proof {
                        lemma_first_key_bounds(m@, key@, 0);
                    }
                    Some(&mut m[j].1)
                },
                None => None,
            },
            _ => None,
        }
    }

    /// The value under `key`, inserted as `fresh` when `self` has no entry
    /// for it; `self` is made an empty map first when it is not a map.
    fn slot_at(&mut self, key: &str, fresh: Val) -> (r: &mut Val)
        ensures
            ({
                let m0 = match *old(self) {
                    Val::Obj(m) => m@,
                    _ => Seq::empty(),
                };
                &&& *final(self) matches Val::Obj(m2) && match first_key(m0, key@, 0) {
                    Some(j) => {
                        &&& *r == m0[j].1
                        &&& m2@ == m0.update(j, (m0[j].0, *final(r)))
                    },
                    None => {
                        &&& *r == fresh
                        &&& m2@.len() == m0.len() + 1
                        &&& m2@.take(m0.len() as int) == m0
                        &&& m2@.last().0@ == key@
                        &&& m2@.last().1 == *final(r)
                    },
                }
            }),
    {
        let is_obj = matches!(self, Val::Obj(_));
        if !is_obj {
            *self = Val::Obj(Vec::new());
            assert(self->Obj_0@ =~= Seq::<(String, Val)>::empty());
        }
        match self {
            Val::Obj(m) => {
                proof {
                    lemma_first_key_bounds(m@, key@, 0);
                }
                let idx = match find_key(m, key) {
                    Some(i) => i,
                    None => {
                        m.push((string_of(key), fresh));
                        m.len() - 1
                    },
                };
                &mut m[idx].1
            },
            other => {
                proof {
                    assert(false);
                }
                other
            },
        }
    }

    /// Get or insert an empty map under `key` and return it; `self` is made
    /// an empty map first when it is not a map.
    pub fn obj_at(&mut self, key: &str) -> (r: &mut Val)
        ensures
            ({
                let m0 = match *old(self) {
                    Val::Obj(m) => m@,
                    _ => Seq::empty(),
                };
                &&& *final(self) matches Val::Obj(m2) && match first_key(m0, key@, 0) {
                    Some(j) => {
                        &&& *r == m0[j].1
                        &&& m2@ == m0.update(j, (m0[j].0, *final(r)))
                    },
                    None => {
                        &&& *r matches Val::Obj(e) && e@.len() == 0
                        &&& m2@.len() == m0.len() + 1
                        &&& m2@.take(m0.len() as int) == m0
                        &&& m2@.last().0@ == key@
                        &&& m2@.last().1 == *final(r)
                    },
                }
            }),
    {
        self.slot_at(key, Val::Obj(Vec::new()))
    }

    /// Get or insert an empty array under `key` and return it; `self` is
    /// made an empty map first when it is not a map.
    pub fn arr_at(&mut self, key: &str) -> (r: &mut Val)
        ensures
            ({
                let m0 = match *old(self) {
                    Val::Obj(m) => m@,
                    _ => Seq::empty(),
                };
                &&& *final(self) matches Val::Obj(m2) && match first_key(m0, key@, 0) {
                    Some(j) => {
                        &&& *r == m0[j].1
                        &&& m2@ == m0.update(j, (m0[j].0, *final(r)))
                    },
                    None => {
                        &&& *r matches Val::Array(e) && e@.len() == 0
                        &&& m2@.len() == m0.len() + 1
                        &&& m2@.take(m0.len() as int) == m0
                        &&& m2@.last().0@ == key@
                        &&& m2@.last().1 == *final(r)
                    },
                }
            }),
    {
        self.slot_at(key, Val::Array(Vec::new()))
    }

    /// Text view.
    pub fn as_str(&self) -> (r: Option<&str>)
        ensures
            match *self {
                Val::Text(s) => r matches Some(t) && t@ == s@,
                _ => r is None,
            },
    {
        match self {
            Val::Text(s) => Some(s.as_str()),
            _ => None,
        }
    }

    /// Map view.
    pub fn as_map(&self) -> (r: Option<&Vec<(String, Val)>>)
        ensures
            match *self {
                Val::Obj(m) => r == Some(&m),
                _ => r is None,
            },
    {
        match self {
            Val::Obj(m) => Some(m),
            _ => None,
        }
    }
}

// ---------------------------------------------------------------------------
// Models, deep copies and keyed updates

/// The models of a sequence of trees, item by item.
pub proof fn lemma_models_index(s: Seq<Val>)
    ensures
        models_of(s).len() == s.len(),
        forall|i: int| 0 <= i < s.len() ==> #[trigger] models_of(s)[i] == model(s[i]),
    decreases s.len(),
{
    if s.len() > 0 {
        lemma_models_index(s.drop_last());
    }
}

/// The models of map entries, entry by entry.
pub proof fn lemma_entry_models_index(m: Seq<(String, Val)>)
    ensures
        entry_models(m).len() == m.len(),
        forall|i: int| 0 <= i < m.len() ==> #[trigger] entry_models(m)[i] == (m[i].0@, model(m[i].1)),
    decreases m.len(),
{
    if m.len() > 0 {
        lemma_entry_models_index(m.drop_last());
    }
}

/// Index of the first model entry with key `key` at or after `i`.
pub open spec fn first_key_m(m: Seq<(Seq<char>, ValModel)>, key: Seq<char>, i: int) -> Option<int>
    decreases m.len() - i,
{
    if i < 0 || i >= m.len() {
        None
    } else if m[i].0 == key {
        Some(i)
    } else {
        first_key_m(m, key, i + 1)
    }
}

/// Setting `key` in model entries: the first entry under `key` gets the
/// value, or a new entry is appended.
pub open spec fn set_model(m: Seq<(Seq<char>, ValModel)>, key: Seq<char>, v: ValModel) -> Seq<(Seq<char>, ValModel)> {
    match first_key_m(m, key, 0) {
        Some(j) => m.update(j, (key, v)),
        None => m.push((key, v)),
    }
}

pub proof fn lemma_first_key_model(m: Seq<(String, Val)>, key: Seq<char>, i: int)
    requires
        0 <= i,
    ensures
        first_key(m, key, i) == first_key_m(entry_models(m), key, i),
    decreases m.len() - i,
{
    lemma_entry_models_index(m);
    if i < m.len() && m[i].0@ != key {
        lemma_first_key_model(m, key, i + 1);
    }
}

/// What [`Val::set`] does to a map, in terms of models.
pub proof fn lemma_set_model(m: Seq<(String, Val)>, m2: Seq<(String, Val)>, key: Seq<char>, val: Val)
    requires
        match first_key(m, key, 0) {
            Some(j) => m2 == m.update(j, (m[j].0, val)),
            None => m2.len() == m.len() + 1 && m2.take(m.len() as int) == m && m2.last().0@ == key
                && m2.last().1 == val,
        },
    ensures
        entry_models(m2) == set_model(entry_models(m), key, model(val)),
{
    lemma_first_key_model(m, key, 0);
    lemma_first_key_bounds(m, key, 0);
    lemma_entry_models_index(m);
    lemma_entry_models_index(m2);
    match first_key(m, key, 0) {
        Some(j) => {
            assert(entry_models(m2) =~= entry_models(m).update(j, (key, model(val))));
        },
        None => {
            assert forall|i: int| 0 <= i < m.len() implies m2[i] == m[i] by {
                assert(m2.take(m.len() as int)[i] == m2[i]);
            }
            assert(entry_models(m2) =~= entry_models(m).push((key, model(val))));
        },
    }
}

/// The value stored under `key` in a map model (its first entry).
pub open spec fn get_m(v: ValModel, key: Seq<char>) -> Option<ValModel> {
    match v {
        ValModel::Obj(e) => match first_key_m(e, key, 0) {
            Some(j) => Some(e[j].1),
            None => None,
        },
        _ => None,
    }
}

/// [`Val::get`] in terms of models.
pub proof fn lemma_get_model(v: Val, key: Seq<char>)
    ensures
        match v {
            Val::Obj(m) => match first_key(m@, key, 0) {
                Some(j) => get_m(model(v), key) == Some(model(m@[j].1)),
                None => get_m(model(v), key) is None,
            },
            _ => get_m(model(v), key) is None,
        },
{
    match v {
        Val::Obj(m) => {
            lemma_first_key_model(m@, key, 0);
            lemma_first_key_bounds(m@, key, 0);
            lemma_entry_models_index(m@);
        },
        _ => {},
    }
}

/// The canonical encoding of any tree with model `m`.
pub open spec fn enc_of(m: ValModel) -> Seq<u8> {
    enc(choose|v: Val| model(v) == m)
}

/// A tree encodes as the encoding of its model.
pub proof fn lemma_enc_of(v: Val)
    ensures
        enc(v) == enc_of(model(v)),
{
    let w = choose|w: Val| model(w) == model(v);
    assert(model(w) == model(v));
    lemma_enc_model(v, w);
}

/// A deep copy of a tree (same model).
pub fn copy_val(v: &Val) -> (r: Val)
    ensures
        model(r) == model(*v),
    decreases v,
{
    match v {
        Val::UInt(u) => Val::UInt(*u),
        Val::Int(i) => Val::Int(*i),
        Val::F32(b) => Val::F32(*b),
        Val::F64(b) => Val::F64(*b),
        Val::Text(s) => Val::Text(s.clone()),
        Val::Bytes(b) => {
            let c = copy_range(b.as_slice(), 0, b.len());
            assert(c@ =~= b@);
            Val::Bytes(c)
        },
        Val::Bool(b) => Val::Bool(*b),
        Val::Null => Val::Null,
        Val::Array(items) => {
            let mut out: Vec<Val> = Vec::new();
            let mut i: usize = 0;
            while i < items.len()
                invariant
                    i <= items@.len(),
                    *v == Val::Array(*items),
                    out@.len() == i,
                    forall|j: int| 0 <= j < i ==> #[trigger] model(out@[j]) == model(items@[j]),
                decreases items.len() - i,
            {
                proof {
                    assert(decreases_to!(*v => (*v)->Array_0));
                    assert((*v)->Array_0 == *items);
                    assert(decreases_to!(*items => items@));
                    assert(decreases_to!(items@ => items@[i as int]));
                    assert(decreases_to!(*v => items@[i as int]));
                }
                let c = copy_val(&items[i]);
                out.push(c);
                i += 1;
            }
            proof {
                lemma_models_index(out@);
                lemma_models_index(items@);
                assert(models_of(out@) =~= models_of(items@));
            }
            Val::Array(out)
        },
        Val::Obj(m) => {
            let mut out: Vec<(String, Val)> = Vec::new();
            let mut i: usize = 0;
            while i < m.len()
                invariant
                    i <= m@.len(),
                    *v == Val::Obj(*m),
                    out@.len() == i,
                    forall|j: int|
                        0 <= j < i ==> #[trigger] out@[j].0@ == m@[j].0@ && model(out@[j].1) == model(
                            m@[j].1,
                        ),
                decreases m.len() - i,
            {
                proof {
                    assert(decreases_to!(*v => (*v)->Obj_0));
                    assert((*v)->Obj_0 == *m);
                    assert(decreases_to!(*m => m@));
                    assert(decreases_to!(m@ => m@[i as int]));
                    assert(decreases_to!(m@[i as int] => m@[i as int].1));
                    assert(decreases_to!(*v => m@[i as int].1));
                }
                let c = copy_val(&m[i].1);
                let k = m[i].0.clone();
                out.push((k, c));
                i += 1;
            }
            proof {
                lemma_entry_models_index(out@);
                lemma_entry_models_index(m@);
                assert(entry_models(out@) =~= entry_models(m@));
            }
            Val::Obj(out)
        },
    }
}

// ---------------------------------------------------------------------------
// Canonical encoding
/// A CBOR item head: major type `major` with argument `n`, minimal length.
pub open spec fn head(n: nat, major: u8) -> Seq<u8> {
    let maj = major as nat * 32;
    if n < 24 {
        seq![(maj + n) as u8]
    } else if n <= 0xFF {
        seq![(maj + 24) as u8, n as u8]
    } else if n <= 0xFFFF {
        seq![(maj + 25) as u8] + be_bytes16(n as int)
    } else if n <= 0xFFFF_FFFF {
        seq![(maj + 26) as u8] + be_bytes32(n as int)
    } else {
        seq![(maj + 27) as u8] + be_bytes64(n as int)
    }
}

fn write_head(out: &mut Vec<u8>, n: u64, major: u8)
    requires
        major < 8,
    ensures
        final(out)@ == old(out)@ + head(n as nat, major),
{
    let maj = major * 32;
    if n < 24 {
        out.push(maj + n as u8);
    } else if n <= 0xFF {
        out.push(maj + 24);
        out.push(n as u8);
    } else if n <= 0xFFFF {
        out.push(maj + 25);
        push_u16_be(out, n as u16);
    } else if n <= 0xFFFF_FFFF {
        out.push(maj + 26);
        push_u32_be(out, n as u32);
    } else {
        out.push(maj + 27);
        push_u64_be(out, n);
    }
    assert(out@ =~= old(out)@ + head(n as nat, major));
}

/// The f32 bit pattern of the f64 with bits `bits`, when that value is
/// exactly an f32 value; `None` for NaN and for values an f32 cannot hold
/// exactly. (Sign, 11-bit exponent and 52-bit mantissa fields; f32 normals
/// cover exponents -126..=127, f32 subnormals multiples of 2^-149.)
pub open spec fn f64_exact_f32(bits: u64) -> Option<u32> {
    let s = bits as nat / 0x8000_0000_0000_0000;
    let e = (bits as nat / 0x10_0000_0000_0000) % 0x800;
    let m = bits as nat % 0x10_0000_0000_0000;
    let sign32 = s * 0x8000_0000;
    if e == 0x7FF {
        if m == 0 {
            Some((sign32 + 0x7F80_0000) as u32)
        } else {
            None
        }
    } else if e == 0 {
        if m == 0 {
            Some(sign32 as u32)
        } else {
            None
        }
    } else if e > 1023 + 127 {
        None
    } else if e >= 1023 - 126 {
        if m % 0x2000_0000 == 0 {
            Some((sign32 + (e - 1023 + 127) * 0x80_0000 + m / 0x2000_0000) as u32)
        } else {
            None
        }
    } else {
        let shift = (1023 - 97 - e) as nat;
        let full = m + 0x10_0000_0000_0000;
        if shift > 52 {
            None
        } else if full % pow2(shift) == 0 {
            Some((sign32 + full / pow2(shift)) as u32)
        } else {
            None
        }
    }
}

/// The canonical encoding of a text string.
pub open spec fn enc_text(s: Seq<char>) -> Seq<u8> {
    head(encode_utf8(s).len(), 3) + encode_utf8(s)
}

/// The UTF-8 key of map entry `i`.
pub open spec fn key_bytes(m: Seq<(String, Val)>, i: int) -> Seq<u8> {
    encode_utf8(m[i].0@)
}

/// Byte-lexicographic order (a proper prefix comes first).
pub open spec fn lex_lt(a: Seq<u8>, b: Seq<u8>) -> bool
    decreases a.len(),
{
    if b.len() == 0 {
        false
    } else if a.len() == 0 {
        true
    } else if a[0] != b[0] {
        a[0] < b[0]
    } else {
        lex_lt(a.drop_first(), b.drop_first())
    }
}

/// Among the first `n` entries, the last one holding the least key above
/// `lower` (any key when `lower` is `None`).
pub open spec fn least_above(m: Seq<(String, Val)>, lower: Option<Seq<u8>>, n: int) -> Option<int>
    decreases n,
{
    if n <= 0 {
        None
    } else {
        let best = least_above(m, lower, n - 1);
        let k = key_bytes(m, n - 1);
        let above = match lower {
            None => true,
            Some(l) => lex_lt(l, k),
        };
        if !above {
            best
        } else {
            match best {
                None => Some(n - 1),
                Some(j) => if lex_lt(key_bytes(m, j), k) {
                    Some(j)
                } else {
                    Some(n - 1)
                },
            }
        }
    }
}

/// The entries a canonical map encoding writes: keys in increasing byte
/// order, each key once, with the last entry inserted under it (picking at
/// most `fuel` keys; a map has at most as many distinct keys as entries).
pub open spec fn canonical_order(m: Seq<(String, Val)>, lower: Option<Seq<u8>>, fuel: nat) -> Seq<int>
    decreases fuel,
{
    if fuel == 0 {
        Seq::empty()
    } else {
        match least_above(m, lower, m.len() as int) {
            None => Seq::empty(),
            Some(j) => seq![j] + canonical_order(m, Some(key_bytes(m, j)), (fuel - 1) as nat),
        }
    }
}

/// Canonical CBOR encoding of a value.
pub open spec fn enc(v: Val) -> Seq<u8>
    decreases v, 0nat,
{
    match v {
        Val::Null => seq![0xF6u8],
        Val::Bool(b) => seq![
            if b {
                0xF5u8
            } else {
                0xF4u8
            },
        ],
        Val::Text(s) => enc_text(s@),
        Val::Bytes(b) => head(b@.len(), 2) + b@,
        Val::UInt(u) => head(u as nat, 0),
        Val::Int(i) => if i >= 0 {
            head(i as nat, 0)
        } else {
            head((-1 - i) as nat, 1)
        },
        Val::F32(bits) => seq![0xFAu8] + be_bytes32(bits as int),
        Val::F64(bits) => match f64_exact_f32(bits) {
            Some(f) => seq![0xFAu8] + be_bytes32(f as int),
            None => seq![0xFBu8] + be_bytes64(bits as int),
        },
        Val::Array(items) => head(items@.len(), 4) + enc_seq(items@),
        Val::Obj(m) => {
            let order = canonical_order(m@, None, m@.len());
            head(order.len(), 5) + enc_entries(m@, order)
        },
    }
}

pub proof fn lemma_least_above_bounds(m: Seq<(String, Val)>, lower: Option<Seq<u8>>, n: int)
    ensures
        least_above(m, lower, n) matches Some(j) ==> 0 <= j < n,
    decreases n,
{
    if n > 0 {
        lemma_least_above_bounds(m, lower, n - 1);
    }
}

proof fn lemma_least_above_cong(m1: Seq<(String, Val)>, m2: Seq<(String, Val)>, lower: Option<Seq<u8>>, n: int)
    requires
        m1.len() == m2.len(),
        n <= m1.len(),
        forall|i: int| 0 <= i < m1.len() ==> key_bytes(m1, i) == key_bytes(m2, i),
    ensures
        least_above(m1, lower, n) == least_above(m2, lower, n),
    decreases n,
{
    if n > 0 {
        lemma_least_above_cong(m1, m2, lower, n - 1);
        lemma_least_above_bounds(m1, lower, n - 1);
        let best = least_above(m1, lower, n - 1);
        assert(key_bytes(m1, n - 1) == key_bytes(m2, n - 1));
        match best {
            Some(j) => {
                assert(key_bytes(m1, j) == key_bytes(m2, j));
            },
            None => {},
        }
    }
}

proof fn lemma_canonical_cong(m1: Seq<(String, Val)>, m2: Seq<(String, Val)>, lower: Option<Seq<u8>>, fuel: nat)
    requires
        m1.len() == m2.len(),
        forall|i: int| 0 <= i < m1.len() ==> key_bytes(m1, i) == key_bytes(m2, i),
    ensures
        canonical_order(m1, lower, fuel) == canonical_order(m2, lower, fuel),
    decreases fuel,
{
    if fuel > 0 {
        lemma_least_above_cong(m1, m2, lower, m1.len() as int);
        lemma_least_above_bounds(m1, lower, m1.len() as int);
        match least_above(m1, lower, m1.len() as int) {
            Some(j) => {
                assert(key_bytes(m1, j) == key_bytes(m2, j));
                lemma_canonical_cong(m1, m2, Some(key_bytes(m1, j)), (fuel - 1) as nat);
            },
            None => {},
        }
    }
}

/// Trees with equal models encode identically.
pub proof fn lemma_enc_model(v1: Val, v2: Val)
    requires
        model(v1) == model(v2),
    ensures
        enc(v1) == enc(v2),
    decreases v1, 0nat,
{
    match v1 {
        Val::Array(a1) => {
            let a2 = v2->Array_0;
            assert(decreases_to!(v1 => a1));
            assert(decreases_to!(a1 => a1@));
            lemma_models_index(a1@);
            lemma_models_index(a2@);
            lemma_enc_seq_model(a1@, a2@);
        },
        Val::Obj(m1) => {
            let m2 = v2->Obj_0;
            lemma_entry_models_index(m1@);
            lemma_entry_models_index(m2@);
            assert forall|i: int| 0 <= i < m1@.len() implies key_bytes(m1@, i) == key_bytes(m2@, i) by {
                assert(entry_models(m1@)[i] == entry_models(m2@)[i]);
            }
            lemma_canonical_cong(m1@, m2@, None, m1@.len());
            assert(decreases_to!(v1 => m1));
            assert(decreases_to!(m1 => m1@));
            lemma_enc_entries_model(m1@, m2@, canonical_order(m1@, None, m1@.len()));
        },
        _ => {},
    }
}

proof fn lemma_enc_seq_model(s1: Seq<Val>, s2: Seq<Val>)
    requires
        models_of(s1) == models_of(s2),
    ensures
        enc_seq(s1) == enc_seq(s2),
    decreases s1, 0nat,
{
    lemma_models_index(s1);
    lemma_models_index(s2);
    if s1.len() > 0 {
        assert(models_of(s1.drop_last()) =~= models_of(s1).drop_last());
        assert(models_of(s2.drop_last()) =~= models_of(s2).drop_last());
        assert(model(s1.last()) == models_of(s1).last());
        assert(model(s2.last()) == models_of(s2).last());
        assert(decreases_to!(s1 => s1.drop_last()));
        lemma_enc_seq_model(s1.drop_last(), s2.drop_last());
        assert(decreases_to!(s1 => s1[s1.len() - 1]));
        lemma_enc_model(s1.last(), s2.last());
    }
}

proof fn lemma_enc_entries_model(m1: Seq<(String, Val)>, m2: Seq<(String, Val)>, order: Seq<int>)
    requires
        entry_models(m1) == entry_models(m2),
    ensures
        enc_entries(m1, order) == enc_entries(m2, order),
    decreases m1, order.len(),
{
    lemma_entry_models_index(m1);
    lemma_entry_models_index(m2);
    if order.len() > 0 {
        lemma_enc_entries_model(m1, m2, order.drop_last());
        let j = order.last();
        if 0 <= j < m1.len() {
            assert(entry_models(m1)[j] == entry_models(m2)[j]);
            assert(decreases_to!(m1 => m1[j]));
            assert(decreases_to!(m1[j] => m1[j].1));
            lemma_enc_model(m1[j].1, m2[j].1);
        }
    }
}

/// The encodings of `s`'s items, concatenated.
pub open spec fn enc_seq(s: Seq<Val>) -> Seq<u8>
    decreases s, 0nat,
{
    if s.len() == 0 {
        Seq::empty()
    } else {
        enc_seq(s.drop_last()) + enc(s.last())
    }
}

/// The encodings of the entries `order` picks from `m`: key, then value.
pub open spec fn enc_entries(m: Seq<(String, Val)>, order: Seq<int>) -> Seq<u8>
    decreases m, order.len(),
{
    if order.len() == 0 {
        Seq::empty()
    } else {
        let j = order.last();
        if 0 <= j < m.len() {
            enc_entries(m, order.drop_last()) + enc_text(m[j].0@) + enc(m[j].1)
        } else {
            enc_entries(m, order.drop_last())
        }
    }
}

fn lex_less(a: &[u8], b: &[u8]) -> (r: bool)
    ensures
        r == lex_lt(a@, b@),
{
    let mut i: usize = 0;
    assert(a@.skip(0) =~= a@);
    assert(b@.skip(0) =~= b@);
    while i < a.len() && i < b.len() && a[i] == b[i]
        invariant
            i <= a@.len(),
            i <= b@.len(),
            lex_lt(a@, b@) == lex_lt(a@.skip(i as int), b@.skip(i as int)),
        decreases a.len() - i,
    {
        proof {
            assert(a@.skip(i as int).drop_first() =~= a@.skip(i + 1));
            assert(b@.skip(i as int).drop_first() =~= b@.skip(i + 1));
        }
        i += 1;
    }
    if i == b.len() {
        false
    } else if i == a.len() {
        true
    } else {
        a[i] < b[i]
    }
}

fn least_above_exec(m: &Vec<(String, Val)>, lower: Option<&[u8]>) -> (r: Option<usize>)
    ensures
        match r {
            Some(j) => least_above(
                m@,
                match lower {
                    Some(l) => Some(l@),
                    None => None,
                },
                m@.len() as int,
            ) == Some(j as int) && j < m@.len(),
            None => least_above(
                m@,
                match lower {
                    Some(l) => Some(l@),
                    None => None,
                },
                m@.len() as int,
            ) is None,
        },
{
    let ghost lv = match lower {
        Some(l) => Some(l@),
        None => None::<Seq<u8>>,
    };
    let mut best: Option<usize> = None;
    let mut i: usize = 0;
    while i < m.len()
        invariant
            i <= m@.len(),
            lv == match lower {
                Some(l) => Some(l@),
                None => None::<Seq<u8>>,
            },
            match best {
                Some(j) => least_above(m@, lv, i as int) == Some(j as int) && j < i,
                None => least_above(m@, lv, i as int) is None,
            },
        decreases m.len() - i,
    {
        let k = m[i].0.as_str().as_bytes();
        let above = match lower {
            None => true,
            Some(l) => lex_less(l, k),
        };
        if above {
            best = match best {
                None => Some(i),
                Some(j) => if lex_less(m[j].0.as_str().as_bytes(), k) {
                    Some(j)
                } else {
                    Some(i)
                },
            };
        }
        i += 1;
    }
    best
}

/// The indices of the entries a canonical encoding of `m` writes.
fn canonical_entries(m: &Vec<(String, Val)>) -> (r: Vec<usize>)
    ensures
        r@.map_values(|j: usize| j as int) == canonical_order(m@, None, m@.len()),
        forall|k: int| 0 <= k < r@.len() ==> r@[k] < m@.len(),
{
    let n = m.len();
    let mut sel: Vec<usize> = Vec::new();
    let mut lower: Option<usize> = None;
    let mut fuel: usize = n;
    proof {
        assert(sel@.map_values(|j: usize| j as int) =~= Seq::<int>::empty());
    }
    while fuel > 0
        invariant_except_break
            canonical_order(m@, None, n as nat) == sel@.map_values(|j: usize| j as int)
                + canonical_order(
                m@,
                match lower {
                    Some(j) => Some(key_bytes(m@, j as int)),
                    None => None,
                },
                fuel as nat,
            ),
        invariant
            n == m@.len(),
            fuel <= n,
            forall|k: int| 0 <= k < sel@.len() ==> sel@[k] < n,
            match lower {
                Some(j) => j < n,
                None => true,
            },
        ensures
            n == m@.len(),
            forall|k: int| 0 <= k < sel@.len() ==> sel@[k] < n,
            canonical_order(m@, None, n as nat) == sel@.map_values(|j: usize| j as int),
        decreases fuel,
    {
        let ghost before = sel@.map_values(|j: usize| j as int);
        let next = match lower {
            None => least_above_exec(m, None),
            Some(j) => least_above_exec(m, Some(m[j].0.as_str().as_bytes())),
        };
        match next {
            None => {
                proof {
                    assert(before + Seq::<int>::empty() =~= before);
                }
                break;
            },
            Some(j) => {
                sel.push(j);
                proof {
                    let lk = Some(key_bytes(m@, j as int));
                    assert(sel@.map_values(|x: usize| x as int) =~= before.push(j as int));
                    assert(before + (seq![j as int] + canonical_order(m@, lk, (fuel - 1) as nat))
                        =~= sel@.map_values(|x: usize| x as int) + canonical_order(
                        m@,
                        lk,
                        (fuel - 1) as nat,
                    ));
                }
                lower = Some(j);
                fuel -= 1;
            },
        }
    }
    sel
}

/// [`f64_exact_f32`], computed.
fn exact_f32_bits(bits: u64) -> (r: Option<u32>)
    ensures
        r == f64_exact_f32(bits),
{
    let s = bits / 0x8000_0000_0000_0000;
    let e = (bits / 0x10_0000_0000_0000) % 0x800;
    let m = bits % 0x10_0000_0000_0000;
    assert(s <= 1);
    let sign32: u32 = if s == 1 {
        0x8000_0000
    } else {
        0
    };
    assert(sign32 as nat == s as nat * 0x8000_0000);
    if e == 0x7FF {
        if m == 0 {
            Some(sign32 + 0x7F80_0000)
        } else {
            None
        }
    } else if e == 0 {
        if m == 0 {
            Some(sign32)
        } else {
            None
        }
    } else if e > 1023 + 127 {
        None
    } else if e >= 1023 - 126 {
        if m % 0x2000_0000 == 0 {
            let hi = (e + 127 - 1023) * 0x80_0000;
            let lo = m / 0x2000_0000;
            assert(hi <= 254 * 0x80_0000);
            assert(lo < 0x80_0000);
            Some(sign32 + (hi + lo) as u32)
        } else {
            None
        }
    } else {
        let shift = 1023 - 97 - e;
        let full = m + 0x10_0000_0000_0000;
        if shift > 52 {
            None
        } else {
            let p = 1u64 << shift;
            proof {
                vstd::bits::lemma_u64_pow2_no_overflow(shift as nat);
                vstd::bits::lemma_u64_shl_is_mul(1u64, shift);
                assert(p == pow2(shift as nat));
                vstd::arithmetic::power2::lemma2_to64();
                if shift > 30 {
                    vstd::arithmetic::power2::lemma_pow2_strictly_increases(30, shift as nat);
                }
                assert(p >= 0x4000_0000);
                assert(full / p < 0x80_0000) by (nonlinear_arith)
                    requires
                        full < 0x20_0000_0000_0000,
                        p >= 0x4000_0000,
                ;
            }
            if full % p == 0 {
                Some(sign32 + (full / p) as u32)
            } else {
                None
            }
        }
    }
}

/// Appends `0xFA` + the f32 bits, or `0xFB` + the f64 bits.
fn encode_f64_like(out: &mut Vec<u8>, bits: u64)
    ensures
        final(out)@ == old(out)@ + match f64_exact_f32(bits) {
            Some(f) => seq![0xFAu8] + be_bytes32(f as int),
            None => seq![0xFBu8] + be_bytes64(bits as int),
        },
{
    match exact_f32_bits(bits) {
        Some(f) => {
            out.push(0xFA);
            push_u32_be(out, f);
        },
        None => {
            out.push(0xFB);
            push_u64_be(out, bits);
        },
    }
    assert(out@ =~= old(out)@ + match f64_exact_f32(bits) {
        Some(f) => seq![0xFAu8] + be_bytes32(f as int),
        None => seq![0xFBu8] + be_bytes64(bits as int),
    });
}

fn encode_text(s: &String, out: &mut Vec<u8>)
    ensures
        final(out)@ == old(out)@ + enc_text(s@),
{
    let raw = s.as_str().as_bytes();
    write_head(out, raw.len() as u64, 3);
    extend_from(out, raw);
}

fn encode_val(v: &Val, out: &mut Vec<u8>)
    ensures
        final(out)@ == old(out)@ + enc(*v),
    decreases v,
{
    match v {
        Val::Null => {
            out.push(0xF6);
        },
        Val::Bool(b) => {
            out.push(
                if *b {
                    0xF5
                } else {
                    0xF4
                },
            );
        },
        Val::Text(s) => {
            encode_text(s, out);
        },
        Val::Bytes(b) => {
            write_head(out, b.len() as u64, 2);
            extend_from(out, b.as_slice());
        },
        Val::UInt(u) => {
            write_head(out, *u, 0);
        },
        Val::Int(i) => {
            if *i >= 0 {
                write_head(out, *i as u64, 0);
            } else {
                write_head(out, (-1 - *i) as u64, 1);
            }
        },
        Val::F32(bits) => {
            out.push(0xFA);
            push_u32_be(out, *bits);
        },
        Val::F64(bits) => {
            encode_f64_like(out, *bits);
        },
        Val::Array(items) => {
            write_head(out, items.len() as u64, 4);
            let ghost start = out@;
            let mut i: usize = 0;
            while i < items.len()
                invariant
                    i <= items@.len(),
                    *v == Val::Array(*items),
                    out@ == start + enc_seq(items@.take(i as int)),
                decreases items.len() - i,
            {
                proof {
                    assert(items@.take(i + 1).drop_last() =~= items@.take(i as int));
                    assert(items@.take(i + 1).last() == items@[i as int]);
                }
                proof {
                    assert(decreases_to!(*v => (*v)->Array_0));
                    assert((*v)->Array_0 == *items);
                    assert(decreases_to!(*items => items@));
                    assert(decreases_to!(items@ => items@[i as int]));
                    assert(decreases_to!(*v => items@[i as int]));
                }
                encode_val(&items[i], out);
                proof {
                    assert(out@ =~= start + enc_seq(items@.take(i + 1)));
                }
                i += 1;
            }
            proof {
                assert(items@.take(items@.len() as int) =~= items@);
            }
        },
        Val::Obj(m) => {
            let sel = canonical_entries(m);
            let ghost order = sel@.map_values(|j: usize| j as int);
            write_head(out, sel.len() as u64, 5);
            let ghost start = out@;
            let mut k: usize = 0;
            while k < sel.len()
                invariant
                    k <= sel@.len(),
                    *v == Val::Obj(*m),
                    order == sel@.map_values(|j: usize| j as int),
                    forall|x: int| 0 <= x < sel@.len() ==> sel@[x] < m@.len(),
                    out@ == start + enc_entries(m@, order.take(k as int)),
                decreases sel.len() - k,
            {
                let j = sel[k];
                proof {
                    assert(order.take(k + 1).drop_last() =~= order.take(k as int));
                    assert(order.take(k + 1).last() == j as int);
                }
                encode_text(&m[j].0, out);
                proof {
                    assert(decreases_to!(*v => (*v)->Obj_0));
                    assert((*v)->Obj_0 == *m);
                    assert(decreases_to!(*m => m@));
                    assert(decreases_to!(m@ => m@[j as int]));
                    assert(decreases_to!(m@[j as int] => m@[j as int].1));
                    assert(decreases_to!(*v => m@[j as int].1));
                }
                encode_val(&m[j].1, out);
                proof {
                    assert(out@ =~= start + enc_entries(m@, order.take(k + 1)));
                }
                k += 1;
            }
            proof {
                assert(order.take(sel@.len() as int) =~= order);
            }
        },
    }
    assert(out@ =~= old(out)@ + enc(*v));
}

/// Canonical CBOR encode (see module docs for the rules).
pub fn encode_cbor(v: &Val) -> (r: Vec<u8>)
    ensures
        r@ == enc(*v),
{
    let mut out: Vec<u8> = Vec::new();
    encode_val(v, &mut out);
    assert(out@ =~= enc(*v));
    out
}

// ---------------------------------------------------------------------------
// Decoding
/// Index of the highest set bit of `m` (for `1 <= m < 1024`).
pub open spec fn msb10(m: nat) -> nat {
    if m >= 512 {
        9
    } else if m >= 256 {
        8
    } else if m >= 128 {
        7
    } else if m >= 64 {
        6
    } else if m >= 32 {
        5
    } else if m >= 16 {
        4
    } else if m >= 8 {
        3
    } else if m >= 4 {
        2
    } else if m >= 2 {
        1
    } else {
        0
    }
}

/// The f64 bit pattern of the IEEE half-precision value with bits `h`
/// (exact: every half value is an f64 value; NaNs become the positive
/// quiet NaN `0x7FF8000000000000`).
pub open spec fn half_to_f64_bits(h: u16) -> u64 {
    let s = h as nat / 0x8000;
    let e = (h as nat / 0x400) % 0x20;
    let m = h as nat % 0x400;
    let sign64 = s * 0x8000_0000_0000_0000;
    if e == 0 {
        if m == 0 {
            sign64 as u64
        } else {
            let p = msb10(m);
            (sign64 + (p + 999) * 0x10_0000_0000_0000 + (m - pow2(p)) * pow2((52 - p) as nat)) as u64
        }
    } else if e == 31 {
        if m == 0 {
            (sign64 + 0x7FF0_0000_0000_0000) as u64
        } else {
            0x7FF8_0000_0000_0000u64
        }
    } else {
        (sign64 + (e + 1008) * 0x10_0000_0000_0000 + m * 0x400_0000_0000) as u64
    }
}

/// Big-endian value of a byte sequence.
pub open spec fn be_value(s: Seq<u8>) -> nat
    decreases s.len(),
{
    if s.len() == 0 {
        0
    } else {
        be_value(s.drop_last()) * 256 + s.last() as nat
    }
}

pub open spec fn msg_eof(p: int) -> Seq<char> {
    "cbor: unexpected end of input at byte "@ + decimal(p as nat)
}

pub open spec fn msg_trunc(what: Seq<char>, p: int, n: nat) -> Seq<char> {
    "cbor: truncated "@ + what + " at byte "@ + decimal(p as nat) + " (need "@ + decimal(n)
        + " more bytes)"@
}

/// The argument of the item head at `start` with additional info `info`,
/// and the position after it.
pub open spec fn dec_arg(d: Seq<u8>, start: int, info: u8) -> Result<(u64, int), Seq<char>> {
    let p = start + 1;
    if info <= 23 {
        Ok((info as u64, p))
    } else if info <= 27 {
        let n: nat = if info == 24 {
            1
        } else if info == 25 {
            2
        } else if info == 26 {
            4
        } else {
            8
        };
        if d.len() - p < n {
            Err(msg_trunc("argument"@, p, n))
        } else {
            Ok((be_value(d.subrange(p, p + n)) as u64, p + n))
        }
    } else if info == 31 {
        Err("cbor: indefinite length item at byte "@ + decimal(start as nat) + " not supported"@)
    } else {
        Err(
            "cbor: reserved additional info "@ + decimal(info as nat) + " at byte "@ + decimal(
                start as nat,
            ),
        )
    }
}

/// The variant name of a model (for error messages).
pub open spec fn kind_name(v: ValModel) -> Seq<char> {
    match v {
        ValModel::UInt(_) => "UInt"@,
        ValModel::Int(_) => "Int"@,
        ValModel::F32(_) => "F32"@,
        ValModel::F64(_) => "F64"@,
        ValModel::Text(_) => "Text"@,
        ValModel::Bytes(_) => "Bytes"@,
        ValModel::Bool(_) => "Bool"@,
        ValModel::Null => "Null"@,
        ValModel::Array(_) => "Array"@,
        ValModel::Obj(_) => "Obj"@,
    }
}

/// The item at `p`: its model and the position after it.
pub open spec fn dec_item(d: Seq<u8>, p: int) -> Result<(ValModel, int), Seq<char>>
    decreases d.len() - p, 0nat,
{
    if p < 0 || p >= d.len() {
        Err(msg_eof(p))
    } else {
        let b = d[p];
        let major = b / 32;
        let info = b % 32;
        match dec_arg(d, p, info) {
            Err(e) => Err(e),
            Ok((arg, q)) => if major == 0 {
                Ok((ValModel::UInt(arg), q))
            } else if major == 1 {
                if arg <= i64::MAX {
                    Ok((ValModel::Int((-1 - arg) as i64), q))
                } else {
                    Err(
                        "cbor: negative integer -1-("@ + decimal(arg as nat) + ") at byte "@
                            + decimal(p as nat) + " out of i64 range"@,
                    )
                }
            } else if major == 2 {
                let n = (arg as usize) as nat;
                if d.len() - q < n {
                    Err(msg_trunc("byte string"@, q, n))
                } else {
                    Ok((ValModel::Bytes(d.subrange(q, q + n)), q + n))
                }
            } else if major == 3 {
                let n = (arg as usize) as nat;
                if d.len() - q < n {
                    Err(msg_trunc("text string"@, q, n))
                } else if !valid_utf8(d.subrange(q, q + n)) {
                    Err("cbor: invalid UTF-8 text at byte "@ + decimal(p as nat))
                } else {
                    Ok((ValModel::Text(decode_utf8(d.subrange(q, q + n))), q + n))
                }
            } else if major == 4 {
                match dec_array(d, q, (arg as usize) as nat, Seq::empty()) {
                    Ok((items, r)) => Ok((ValModel::Array(items), r)),
                    Err(e) => Err(e),
                }
            } else if major == 5 {
                match dec_map(d, p, q, (arg as usize) as nat, Seq::empty()) {
                    Ok((entries, r)) => Ok((ValModel::Obj(entries), r)),
                    Err(e) => Err(e),
                }
            } else if major == 6 {
                dec_item(d, q)
            } else if info == 20 {
                Ok((ValModel::Bool(false), q))
            } else if info == 21 {
                Ok((ValModel::Bool(true), q))
            } else if info == 22 || info == 23 {
                Ok((ValModel::Null, q))
            } else if info == 25 {
                Ok((ValModel::F64(half_to_f64_bits(arg as u16)), q))
            } else if info == 26 {
                Ok((ValModel::F32(arg as u32), q))
            } else if info == 27 {
                Ok((ValModel::F64(arg), q))
            } else {
                Err(
                    "cbor: unsupported simple value (info "@ + decimal(info as nat) + ") at byte "@
                        + decimal(p as nat),
                )
            },
        }
    }
}

/// `n` more array items from `p` on, after the items `acc`.
pub open spec fn dec_array(d: Seq<u8>, p: int, n: nat, acc: Seq<ValModel>) -> Result<
    (Seq<ValModel>, int),
    Seq<char>,
>
    decreases d.len() - p, n + 1,
{
    if n == 0 {
        Ok((acc, p))
    } else if p < 0 || p > d.len() {
        Err(msg_eof(p))
    } else {
        match dec_item(d, p) {
            Err(e) => Err(e),
            Ok((v, q)) => if q < p || q > d.len() {
                Err(msg_eof(q))
            } else {
                dec_array(d, q, (n - 1) as nat, acc.push(v))
            },
        }
    }
}

/// `n` more map entries from `p` on (the map's head at `start`), after the
/// entries `acc`; every key must be a text string.
pub open spec fn dec_map(
    d: Seq<u8>,
    start: int,
    p: int,
    n: nat,
    acc: Seq<(Seq<char>, ValModel)>,
) -> Result<(Seq<(Seq<char>, ValModel)>, int), Seq<char>>
    decreases d.len() - p, n + 1,
{
    if n == 0 {
        Ok((acc, p))
    } else if p < 0 || p > d.len() {
        Err(msg_eof(p))
    } else {
        match dec_item(d, p) {
            Err(e) => Err(e),
            Ok((k, q)) => match k {
                ValModel::Text(key) => if q < p || q > d.len() {
                    Err(msg_eof(q))
                } else {
                    match dec_item(d, q) {
                        Err(e) => Err(e),
                        Ok((v, r)) => if r < q || r > d.len() {
                            Err(msg_eof(r))
                        } else {
                            dec_map(d, start, r, (n - 1) as nat, acc.push((key, v)))
                        },
                    }
                },
                other => Err(
                    "cbor: non-text map key of kind "@ + kind_name(other) + " at byte "@ + decimal(
                        start as nat,
                    ),
                ),
            },
        }
    }
}

/// `256^i`
pub open spec fn pow256(i: nat) -> nat
    decreases i,
{
    if i == 0 {
        1
    } else {
        256 * pow256((i - 1) as nat)
    }
}

pub proof fn lemma_be_value_bound(s: Seq<u8>)
    ensures
        be_value(s) < pow256(s.len()),
    decreases s.len(),
{
    if s.len() > 0 {
        lemma_be_value_bound(s.drop_last());
        assert(be_value(s.drop_last()) * 256 + 256 <= pow256((s.len() - 1) as nat) * 256)
            by (nonlinear_arith)
            requires
                be_value(s.drop_last()) < pow256((s.len() - 1) as nat),
        ;
    }
}

/// The highest set bit `p` of `m`, `2^p` and `2^(52 - p)`.
fn msb_table(m: u64) -> (r: (u64, u64, u64))
    requires
        1 <= m < 1024,
    ensures
        r.0 as nat == msb10(m as nat),
        r.1 == pow2(r.0 as nat),
        r.2 == pow2((52 - r.0) as nat),
        r.1 <= m < 2 * r.1,
        r.1 * r.2 == 0x10_0000_0000_0000,
        r.0 <= 9,
{
    proof {
        vstd::arithmetic::power2::lemma2_to64();
        vstd::arithmetic::power2::lemma2_to64_rest();
    }
    if m >= 512 {
        (9, 512, 0x800_0000_0000)
    } else if m >= 256 {
        (8, 256, 0x1000_0000_0000)
    } else if m >= 128 {
        (7, 128, 0x2000_0000_0000)
    } else if m >= 64 {
        (6, 64, 0x4000_0000_0000)
    } else if m >= 32 {
        (5, 32, 0x8000_0000_0000)
    } else if m >= 16 {
        (4, 16, 0x1_0000_0000_0000)
    } else if m >= 8 {
        (3, 8, 0x2_0000_0000_0000)
    } else if m >= 4 {
        (2, 4, 0x4_0000_0000_0000)
    } else if m >= 2 {
        (1, 2, 0x8_0000_0000_0000)
    } else {
        (0, 1, 0x10_0000_0000_0000)
    }
}

fn half_to_f64(h: u16) -> (r: u64)
    ensures
        r == half_to_f64_bits(h),
{
    let s = (h / 0x8000) as u64;
    let e = ((h / 0x400) % 0x20) as u64;
    let m = (h % 0x400) as u64;
    let sign64: u64 = if s == 1 {
        0x8000_0000_0000_0000
    } else {
        0
    };
    assert(sign64 as nat == s as nat * 0x8000_0000_0000_0000);
    if e == 0 {
        if m == 0 {
            sign64
        } else {
            let (p, low, mult) = msb_table(m);
            let r = m - low;
            assert(r * mult < 0x10_0000_0000_0000) by (nonlinear_arith)
                requires
                    r < low,
                    low * mult == 0x10_0000_0000_0000,
            ;
            let scaled = r * mult;
            sign64 + (p + 999) * 0x10_0000_0000_0000 + scaled
        }
    } else if e == 31 {
        if m == 0 {
            sign64 + 0x7FF0_0000_0000_0000
        } else {
            0x7FF8_0000_0000_0000
        }
    } else {
        sign64 + (e + 1008) * 0x10_0000_0000_0000 + m * 0x400_0000_0000
    }
}

fn kind_name_of(v: &Val) -> (r: &'static str)
    ensures
        r@ == kind_name(model(*v)),
{
    match v {
        Val::UInt(_) => "UInt",
        Val::Int(_) => "Int",
        Val::F32(_) => "F32",
        Val::F64(_) => "F64",
        Val::Text(_) => "Text",
        Val::Bytes(_) => "Bytes",
        Val::Bool(_) => "Bool",
        Val::Null => "Null",
        Val::Array(_) => "Array",
        Val::Obj(_) => "Obj",
    }
}

fn eof_msg(p: usize) -> (m: String)
    ensures
        m@ == msg_eof(p as int),
{
    let mut m = string_of("cbor: unexpected end of input at byte ");
    push_decimal(&mut m, p as u64);
    m
}

struct Reader<'a> {
    d: &'a [u8],
    p: usize,
}

impl<'a> Reader<'a> {
    fn u8(&mut self) -> (r: Result<u8, String>)
        requires
            old(self).p <= old(self).d@.len(),
        ensures
            final(self).d == old(self).d,
            match r {
                Ok(b) => old(self).p < old(self).d@.len() && b == old(self).d@[old(self).p as int]
                    && final(self).p == old(self).p + 1,
                Err(e) => old(self).p >= old(self).d@.len() && e@ == msg_eof(old(self).p as int)
                    && final(self).p == old(self).p,
            },
    {
        if self.p >= self.d.len() {
            return Err(eof_msg(self.p));
        }
        let b = self.d[self.p];
        self.p += 1;
        Ok(b)
    }

    fn take(&mut self, n: usize, what: &str) -> (r: Result<&'a [u8], String>)
        requires
            old(self).p <= old(self).d@.len(),
        ensures
            final(self).d == old(self).d,
            match r {
                Ok(s) => n <= old(self).d@.len() - old(self).p && s@ == old(self).d@.subrange(
                    old(self).p as int,
                    old(self).p + n,
                ) && final(self).p == old(self).p + n,
                Err(e) => old(self).d@.len() - old(self).p < n && e@ == msg_trunc(
                    what@,
                    old(self).p as int,
                    n as nat,
                ) && final(self).p == old(self).p,
            },
    {
        if self.d.len() - self.p < n {
            let mut m = string_of("cbor: truncated ");
            push_str(&mut m, what);
            push_str(&mut m, " at byte ");
            push_decimal(&mut m, self.p as u64);
            push_str(&mut m, " (need ");
            push_decimal(&mut m, n as u64);
            push_str(&mut m, " more bytes)");
            return Err(m);
        }
        let s = vstd::slice::slice_subrange(self.d, self.p, self.p + n);
        self.p += n;
        Ok(s)
    }

    fn be_u(&mut self, n: usize, what: &str) -> (r: Result<u64, String>)
        requires
            old(self).p <= old(self).d@.len(),
            n <= 8,
        ensures
            final(self).d == old(self).d,
            match r {
                Ok(v) => n <= old(self).d@.len() - old(self).p && v == be_value(
                    old(self).d@.subrange(old(self).p as int, old(self).p + n),
                ) && final(self).p == old(self).p + n,
                Err(e) => old(self).d@.len() - old(self).p < n && e@ == msg_trunc(
                    what@,
                    old(self).p as int,
                    n as nat,
                ) && final(self).p == old(self).p,
            },
    {
        let s = self.take(n, what)?;
        let mut v: u64 = 0;
        let mut i: usize = 0;
        proof {
            reveal_with_fuel(pow256, 8);
            assert(pow256(7) == 0x100_0000_0000_0000);
            assert(s@.take(0) =~= Seq::<u8>::empty());
        }
        while i < s.len()
            invariant
                s@.len() == n <= 8,
                i <= n,
                v as nat == be_value(s@.take(i as int)),
                pow256(7) == 0x100_0000_0000_0000,
            decreases s.len() - i,
        {
            proof {
                lemma_be_value_bound(s@.take(i as int));
                lemma_pow256_mono(i as nat, 7);
                assert(s@.take(i + 1).drop_last() =~= s@.take(i as int));
            }
            v = v * 256 + s[i] as u64;
            i += 1;
        }
        proof {
            assert(s@.take(n as int) =~= s@);
        }
        Ok(v)
    }

    fn item(&mut self) -> (r: Result<Val, String>)
        requires
            old(self).p <= old(self).d@.len(),
        ensures
            final(self).d == old(self).d,
            final(self).p <= final(self).d@.len(),
            match (r, dec_item(old(self).d@, old(self).p as int)) {
                (Ok(v), Ok((mv, q))) => model(v) == mv && final(self).p == q && q > old(self).p,
                (Err(a), Err(b)) => a@ == b,
                _ => false,
            },
        decreases old(self).d@.len() - old(self).p,
    {
        let ghost d = self.d@;
        let start = self.p;
        let b = self.u8()?;
        let major = b / 32;
        let info = b % 32;
        let arg: u64 = if info <= 23 {
            info as u64
        } else if info <= 27 {
            let n: usize = if info == 24 {
                1
            } else if info == 25 {
                2
            } else if info == 26 {
                4
            } else {
                8
            };
            self.be_u(n, "argument")?
        } else if info == 31 {
            let mut m = string_of("cbor: indefinite length item at byte ");
            push_decimal(&mut m, start as u64);
            push_str(&mut m, " not supported");
            return Err(m);
        } else {
            let mut m = string_of("cbor: reserved additional info ");
            push_decimal(&mut m, info as u64);
            push_str(&mut m, " at byte ");
            push_decimal(&mut m, start as u64);
            return Err(m);
        };
        let q = self.p;
        assert(dec_arg(d, start as int, info) == Ok::<(u64, int), Seq<char>>((arg, q as int)));
        if major == 0 {
            Ok(Val::UInt(arg))
        } else if major == 1 {
            if arg <= 0x7FFF_FFFF_FFFF_FFFF {
                Ok(Val::Int(-1 - arg as i64))
            } else {
                let mut m = string_of("cbor: negative integer -1-(");
                push_decimal(&mut m, arg);
                push_str(&mut m, ") at byte ");
                push_decimal(&mut m, start as u64);
                push_str(&mut m, " out of i64 range");
                Err(m)
            }
        } else if major == 2 {
            let s = self.take(arg as usize, "byte string")?;
            proof {
                assert(s@.subrange(0, s@.len() as int) =~= s@);
            }
            Ok(Val::Bytes(copy_range(s, 0, s.len())))
        } else if major == 3 {
            let raw = self.take(arg as usize, "text string")?;
            proof {
                assert(raw@.subrange(0, raw@.len() as int) =~= raw@);
            }
            match string_from_utf8(copy_range(raw, 0, raw.len())) {
                Some(t) => Ok(Val::Text(t)),
                None => {
                    let mut m = string_of("cbor: invalid UTF-8 text at byte ");
                    push_decimal(&mut m, start as u64);
                    Err(m)
                },
            }
        } else if major == 4 {
            let n = arg as usize;
            let mut out: Vec<Val> = Vec::new();
            let mut i: usize = 0;
            while i < n
                invariant
                    self.d@ == d,
                    self.d == old(self).d,
                    d == old(self).d@,
                    start == old(self).p,
                    start < self.p <= d.len(),
                    q <= self.p,
                    i <= n,
                    dec_item(d, start as int) == match dec_array(d, q as int, n as nat, Seq::empty()) {
                        Ok((items, r)) => Ok((ValModel::Array(items), r)),
                        Err(e) => Err(e),
                    },
                    dec_array(d, q as int, n as nat, Seq::empty()) == dec_array(
                        d,
                        self.p as int,
                        (n - i) as nat,
                        models_of(out@),
                    ),
                decreases n - i,
            {
                let ghost before = models_of(out@);
                let v = match self.item() {
                    Ok(v) => v,
                    Err(e) => return Err(e),
                };
                let ghost mv = model(v);
                let ghost prev = out@;
                out.push(v);
                proof {
                    assert(out@.drop_last() =~= prev);
                    assert(models_of(out@) == before.push(mv));
                }
                i += 1;
            }
            Ok(Val::Array(out))
        } else if major == 5 {
            let n = arg as usize;
            let mut out: Vec<(String, Val)> = Vec::new();
            let mut i: usize = 0;
            while i < n
                invariant
                    self.d@ == d,
                    self.d == old(self).d,
                    d == old(self).d@,
                    start == old(self).p,
                    start < self.p <= d.len(),
                    q <= self.p,
                    i <= n,
                    dec_item(d, start as int) == match dec_map(
                        d,
                        start as int,
                        q as int,
                        n as nat,
                        Seq::empty(),
                    ) {
                        Ok((entries, r)) => Ok((ValModel::Obj(entries), r)),
                        Err(e) => Err(e),
                    },
                    dec_map(d, start as int, q as int, n as nat, Seq::empty()) == dec_map(
                        d,
                        start as int,
                        self.p as int,
                        (n - i) as nat,
                        entry_models(out@),
                    ),
                decreases n - i,
            {
                let ghost before = entry_models(out@);
                let key = match self.item() {
                    Ok(v) => v,
                    Err(e) => return Err(e),
                };
                let k = match key {
                    Val::Text(k) => k,
                    other => {
                        let mut m = string_of("cbor: non-text map key of kind ");
                        push_str(&mut m, kind_name_of(&other));
                        push_str(&mut m, " at byte ");
                        push_decimal(&mut m, start as u64);
                        return Err(m);
                    },
                };
                let v = match self.item() {
                    Ok(v) => v,
                    Err(e) => return Err(e),
                };
                let ghost entry = (k@, model(v));
                let ghost prev = out@;
                out.push((k, v));
                proof {
                    assert(out@.drop_last() =~= prev);
                    assert(entry_models(out@) == before.push(entry));
                }
                i += 1;
            }
            Ok(Val::Obj(out))
        } else if major == 6 {
            self.item()
        } else if info == 20 {
            Ok(Val::Bool(false))
        } else if info == 21 {
            Ok(Val::Bool(true))
        } else if info == 22 || info == 23 {
            Ok(Val::Null)
        } else if info == 25 {
            Ok(Val::F64(half_to_f64(arg as u16)))
        } else if info == 26 {
            Ok(Val::F32(arg as u32))
        } else if info == 27 {
            Ok(Val::F64(arg))
        } else {
            let mut m = string_of("cbor: unsupported simple value (info ");
            push_decimal(&mut m, info as u64);
            push_str(&mut m, ") at byte ");
            push_decimal(&mut m, start as u64);
            Err(m)
        }
    }
}

pub proof fn lemma_pow256_mono(i: nat, j: nat)
    requires
        i <= j,
    ensures
        pow256(i) <= pow256(j),
    decreases j - i,
{
    if i < j {
        lemma_pow256_mono(i, (j - 1) as nat);
    }
}

/// Decoding a whole document: one item that spans all of `d`.
pub open spec fn decode_spec(d: Seq<u8>) -> Result<ValModel, Seq<char>> {
    match dec_item(d, 0) {
        Err(e) => Err(e),
        Ok((v, q)) => if q != d.len() {
            Err(
                "cbor: "@ + decimal((d.len() - q) as nat) + " trailing bytes after document at byte "@
                    + decimal(q as nat),
            )
        } else {
            Ok(v)
        },
    }
}

/// Strict CBOR decode: rejects indefinite lengths, trailing garbage and
/// out-of-i64-range negatives; overlong-but-valid headers are accepted.
/// Errors carry byte offsets.
pub fn decode_cbor(data: &[u8]) -> (r: Result<Val, String>)
    ensures
        match (r, decode_spec(data@)) {
            (Ok(v), Ok(mv)) => model(v) == mv,
            (Err(a), Err(b)) => a@ == b,
            _ => false,
        },
{
    let mut r = Reader { d: data, p: 0 };
    let v = r.item()?;
    if r.p != data.len() {
        let mut m = string_of("cbor: ");
        push_decimal(&mut m, (data.len() - r.p) as u64);
        push_str(&mut m, " trailing bytes after document at byte ");
        push_decimal(&mut m, r.p as u64);
        return Err(m);
    }
    Ok(v)
}

// ---------------------------------------------------------------------------
// zstd frames
/// What `zstd::bulk::compress(data, 3)` makes of `data`: one zstd frame, or
/// the text of the error it failed with.
pub uninterp spec fn zstd_level3(data: Seq<u8>) -> Result<Seq<u8>, Seq<char>>;

/// `zstd::bulk::compress(data, 3)` (libzstd, level 3). Claimed: the outcome
/// is [`zstd_level3`] of the input.
#[verifier::external_body]
fn zstd_compress(data: &[u8]) -> (r: Result<Vec<u8>, String>)
    ensures
        match (r, zstd_level3(data@)) {
            (Ok(a), Ok(b)) => a@ == b,
            (Err(a), Err(b)) => a@ == b,
            _ => false,
        },
{
    match zstd::bulk::compress(data, 3) {
        Ok(v) => Ok(v),
        Err(e) => Err(e.to_string()),
    }
}

/// Compress `data` into a single standard zstd frame (libzstd level 3 via
/// `zstd::bulk::compress`). The frame declares its content size in the
/// header and decompresses with any standard zstd decoder. An error of the
/// compressor comes back as `Err` (prefixed `zstd: `).
pub fn zstd_frame(data: &[u8]) -> (r: Result<Vec<u8>, String>)
    ensures
        match (r, zstd_level3(data@)) {
            (Ok(a), Ok(b)) => a@ == b,
            (Err(a), Err(b)) => a@ == "zstd: "@ + b,
            _ => false,
        },
{
    match zstd_compress(data) {
        Ok(v) => Ok(v),
        Err(e) => {
            let mut m = string_of("zstd: ");
            push_str(&mut m, e.as_str());
            Err(m)
        },
    }
}

/// The zstd frame magic `28 B5 2F FD`.
pub open spec fn zstd_magic() -> Seq<u8> {
    seq![0x28u8, 0xB5u8, 0x2Fu8, 0xFDu8]
}

/// The content size a zstd frame header declares, if it declares one.
pub open spec fn frame_body_len_spec(frame: Seq<u8>) -> Option<int> {
    if frame.len() < 6 || frame.subrange(0, 4) != zstd_magic() {
        None
    } else {
        let fhd = frame[4];
        let single = fhd & 0x20u8 != 0;
        let fcs = fhd >> 6u8;
        let p = if single {
            5int
        } else {
            6int
        };
        let dict = if fhd & 3u8 == 0 {
            0int
        } else if fhd & 3u8 == 1 {
            1
        } else if fhd & 3u8 == 2 {
            2
        } else {
            4
        };
        if frame.len() < p + dict {
            None
        } else {
            let q = p + dict;
            if fcs == 0 {
                if single && frame.len() > q {
                    Some(frame[q] as int)
                } else {
                    None
                }
            } else if fcs == 1 {
                if frame.len() < q + 2 {
                    None
                } else {
                    Some(le_u16(frame, q) + 256)
                }
            } else if fcs == 2 {
                if frame.len() < q + 4 {
                    None
                } else {
                    Some(le_u32(frame, q))
                }
            } else if frame.len() < q + 8 {
                None
            } else {
                Some((le_u64(frame, q) as usize) as int)
            }
        }
    }
}

/// Parse a zstd frame header and return the declared frame content size.
/// Returns `None` when the magic is wrong, the header is truncated or the
/// content size is not declared.
pub fn zstd_frame_body_len(frame: &[u8]) -> (r: Option<usize>)
    ensures
        match r {
            Some(n) => frame_body_len_spec(frame@) == Some(n as int),
            None => frame_body_len_spec(frame@) is None,
        },
{
    let len = frame.len();
    if len < 6 || !(frame[0] == 0x28 && frame[1] == 0xB5 && frame[2] == 0x2F && frame[3] == 0xFD) {
        proof {
            if len >= 6 {
                assert(frame@.subrange(0, 4)[0] == frame@[0]);
                assert(frame@.subrange(0, 4)[1] == frame@[1]);
                assert(frame@.subrange(0, 4)[2] == frame@[2]);
                assert(frame@.subrange(0, 4)[3] == frame@[3]);
            }
        }
        return None;
    }
    assert(frame@.subrange(0, 4) =~= zstd_magic());
    let fhd = frame[4];
    let single = fhd & 0x20 != 0;
    let fcs = fhd >> 6;
    let mut p: usize = 5;
    if !single {
        p += 1;
    }
    let dict: usize = if fhd & 3 == 0 {
        0
    } else if fhd & 3 == 1 {
        1
    } else if fhd & 3 == 2 {
        2
    } else {
        4
    };
    if len < p + dict {
        return None;
    }
    p += dict;
    if fcs == 0 {
        if single && len > p {
            Some(frame[p] as usize)
        } else {
            None
        }
    } else if fcs == 1 {
        if len < p + 2 {
            return None;
        }
        Some(read_u16_le(frame, p) as usize + 256)
    } else if fcs == 2 {
        if len < p + 4 {
            return None;
        }
        Some(read_u32_le(frame, p) as usize)
    } else {
        if len < p + 8 {
            return None;
        }
        Some(read_u64_le(frame, p) as usize)
    }
}

} // verus!
