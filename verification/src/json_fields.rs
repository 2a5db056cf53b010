//! Reading a string field back out of a JSON header that this library wrote:
//! the needle `"key":"` is found at the key's own member (no earlier text can
//! imitate it, since every quote inside an escaped value is preceded by a
//! backslash), and unescaping the value gives the original text.

use vstd::prelude::*;
use vstd::utf8::{
    encode_scalar, encode_utf8, has_width_1_encoding, has_width_2_encoding, has_width_3_encoding,
    is_ascii_chars, is_ascii_chars_encode_utf8, is_scalar, leading_byte_width_1,
};
use crate::serum2state::{
    controller_header_spec, escape_char, field_or_empty, preset_header_spec, first_match, hex_val, json_escape_spec, json_field_spec,
    parse_hex4, unescape,
};
use crate::strs::{hex4, hex_digit_char};

verus! {

/// An ASCII letter.
pub open spec fn letter_byte(b: u8) -> bool {
    (0x41 <= b <= 0x5A) || (0x61 <= b <= 0x7A)
}

/// A non-empty run of ASCII letters.
pub open spec fn letters(kb: Seq<u8>) -> bool {
    kb.len() > 0 && forall|i: int| 0 <= i < kb.len() ==> letter_byte(#[trigger] kb[i])
}

/// Every quote byte in `x` follows a backslash.
pub open spec fn quotes_escaped(x: Seq<u8>) -> bool {
    forall|i: int| 0 <= i < x.len() && #[trigger] x[i] == 0x22 ==> i > 0 && x[i - 1] == 0x5C
}

/// The bytes `"key":"` searched for to find a field.
pub open spec fn needle_b(kb: Seq<u8>) -> Seq<u8> {
    seq![0x22u8] + kb + seq![0x22u8, 0x3Au8, 0x22u8]
}

/// One member `"key":"value",` in bytes, the value already escaped.
pub open spec fn member_b(kb: Seq<u8>, x: Seq<u8>) -> Seq<u8> {
    seq![0x22u8] + kb + seq![0x22u8, 0x3Au8, 0x22u8] + x + seq![0x22u8, 0x2Cu8]
}

/// The opening brace and the members, each followed by a comma.
pub open spec fn prefix_b(ms: Seq<(Seq<u8>, Seq<u8>)>) -> Seq<u8>
    decreases ms.len(),
{
    if ms.len() == 0 {
        seq![0x7Bu8]
    } else {
        prefix_b(ms.drop_last()) + member_b(ms.last().0, ms.last().1)
    }
}

/// `n` agrees with `m` from `r` on, as far as `m` goes.
pub open spec fn fits_at(m: Seq<u8>, n: Seq<u8>, r: int) -> bool {
    forall|t: int| 0 <= t < n.len() && r + t < m.len() ==> m[r + t] == #[trigger] n[t]
}

/// Members whose keys are letters other than `kb` and whose values keep
/// their quotes escaped.
pub open spec fn members_ok(ms: Seq<(Seq<u8>, Seq<u8>)>, kb: Seq<u8>) -> bool {
    forall|i: int|
        0 <= i < ms.len() ==> letters((#[trigger] ms[i]).0) && ms[i].0 != kb && quotes_escaped(
            ms[i].1,
        )
}

proof fn lemma_member_no_fit(kb: Seq<u8>, x: Seq<u8>, key: Seq<u8>, r: int)
    requires
        letters(kb),
        letters(key),
        kb != key,
        quotes_escaped(x),
        0 <= r < member_b(kb, x).len(),
    ensures
        !fits_at(member_b(kb, x), needle_b(key), r),
{
    let m = member_b(kb, x);
    let n = needle_b(key);
    let lk = kb.len() as int;
    let ln = key.len() as int;
    let c = lk + 4 + x.len();
    assert(m.len() == c + 2);
    assert(n.len() == ln + 4);
    assert(m[0] == 0x22);
    assert(forall|i: int| 0 <= i < lk ==> m[1 + i] == kb[i]);
    assert(m[lk + 1] == 0x22 && m[lk + 2] == 0x3A && m[lk + 3] == 0x22);
    assert(forall|i: int| 0 <= i < x.len() ==> m[lk + 4 + i] == x[i]);
    assert(m[c] == 0x22 && m[c + 1] == 0x2C);
    assert(n[0] == 0x22);
    assert(forall|i: int| 0 <= i < ln ==> n[1 + i] == key[i]);
    assert(n[ln + 1] == 0x22 && n[ln + 2] == 0x3A && n[ln + 3] == 0x22);
    if fits_at(m, n, r) {
        if r == 0 {
            if lk < ln {
                assert(m[lk + 1] == n[lk + 1]);
                assert(letter_byte(key[lk]));
            } else if lk > ln {
                assert(m[ln + 1] == n[ln + 1]);
                assert(letter_byte(kb[ln]));
            } else {
                assert forall|d: int| 0 <= d < lk implies kb[d] == key[d] by {
                    assert(m[1 + d] == n[1 + d]);
                }
                assert(kb =~= key);
            }
        } else if r <= lk {
            assert(m[r] == n[0]);
            assert(letter_byte(kb[r - 1]));
        } else if r == lk + 1 {
            assert(m[r + 1] == n[1]);
            assert(letter_byte(key[0]));
        } else if r == lk + 2 {
            assert(m[r] == n[0]);
        } else if r < c {
            if c <= r + ln {
                let t = c - r;
                assert(m[r + t] == n[t]);
                assert(letter_byte(key[t - 1]));
            } else {
                let j = r + ln + 1;
                assert(m[j] == n[ln + 1]);
                if j < c {
                    let i = j - (lk + 4);
                    assert(x[i] == 0x22);
                    assert(x[i - 1] == 0x5C);
                    assert(m[j - 1] == n[ln]);
                    assert(letter_byte(key[ln - 1]));
                } else {
                    assert(m[j + 1] == n[ln + 2]);
                }
            }
        } else if r == c {
            assert(m[r + 1] == n[1]);
            assert(letter_byte(key[0]));
        } else {
            assert(m[r] == n[0]);
        }
    }
}

/// No position inside the prefix starts a match of the needle.
proof fn lemma_prefix_no_fit(ms: Seq<(Seq<u8>, Seq<u8>)>, key: Seq<u8>)
    requires
        letters(key),
        members_ok(ms, key),
    ensures
        forall|r: int| 0 <= r < prefix_b(ms).len() ==> !fits_at(prefix_b(ms), needle_b(key), r),
    decreases ms.len(),
{
    let p = prefix_b(ms);
    let n = needle_b(key);
    if ms.len() == 0 {
        assert forall|r: int| 0 <= r < p.len() implies !fits_at(p, n, r) by {
            assert(p[0] == 0x7B);
            if fits_at(p, n, r) {
                assert(p[r + 0] == n[0]);
            }
        }
    } else {
        let w = ms.drop_last();
        assert(members_ok(w, key)) by {
            assert forall|i: int| 0 <= i < w.len() implies letters((#[trigger] w[i]).0) && w[i].0
                != key && quotes_escaped(w[i].1) by {
                assert(w[i] == ms[i]);
            }
        }
        lemma_prefix_no_fit(w, key);
        let q = prefix_b(w);
        let last = ms.last();
        assert(members_ok(ms, key) ==> letters(ms[ms.len() - 1].0));
        let mb = member_b(last.0, last.1);
        assert(p == q + mb);
        assert forall|r: int| 0 <= r < p.len() implies !fits_at(p, n, r) by {
            if r < q.len() {
                if fits_at(p, n, r) {
                    assert forall|t: int| 0 <= t < n.len() && r + t < q.len() implies q[r + t]
                        == #[trigger] n[t] by {
                        assert(p[r + t] == q[r + t]);
                    }
                    assert(fits_at(q, n, r));
                }
            } else {
                let r2 = r - q.len();
                lemma_member_no_fit(last.0, last.1, key, r2);
                if fits_at(p, n, r) {
                    assert forall|t: int| 0 <= t < n.len() && r2 + t < mb.len() implies mb[r2 + t]
                        == #[trigger] n[t] by {
                        assert(p[r + t] == mb[r2 + t]);
                    }
                    assert(fits_at(mb, n, r2));
                }
            }
        }
    }
}

/// The needle `n` sits at `q` in `b`.
pub open spec fn match_at(b: Seq<u8>, n: Seq<u8>, q: int) -> bool {
    b.subrange(q, q + n.len()) == n
}

proof fn lemma_first_match_at(b: Seq<u8>, n: Seq<u8>, i: int, p: int)
    requires
        0 <= i <= p,
        p + n.len() <= b.len(),
        b.subrange(p, p + n.len()) == n,
        forall|q: int| i <= q < p ==> !#[trigger] match_at(b, n, q),
    ensures
        first_match(b, n, i) == Some(p),
    decreases p - i,
{
    if i < p {
        assert(!match_at(b, n, i));
        lemma_first_match_at(b, n, i + 1, p);
    }
}

/// In a text that opens with the members `ms` and then the member of `key`,
/// the needle for `key` is first found right after `ms`.
proof fn lemma_needle_found(ms: Seq<(Seq<u8>, Seq<u8>)>, key: Seq<u8>, tail: Seq<u8>)
    requires
        letters(key),
        members_ok(ms, key),
    ensures
        first_match(prefix_b(ms) + needle_b(key) + tail, needle_b(key), 0) == Some(
            prefix_b(ms).len() as int,
        ),
{
    let p = prefix_b(ms);
    let n = needle_b(key);
    let b = p + n + tail;
    lemma_prefix_no_fit(ms, key);
    assert(b.subrange(p.len() as int, (p.len() + n.len()) as int) =~= n);
    assert forall|q: int| 0 <= q < p.len() implies !#[trigger] match_at(b, n, q) by {
        assert(!fits_at(p, n, q));
        let t = choose|t: int| 0 <= t < n.len() && q + t < p.len() && !(p[q + t] == #[trigger] n[t]);
        assert(b[q + t] == p[q + t]);
        assert(b.subrange(q, q + n.len())[t] == b[q + t]);
    }
    lemma_first_match_at(b, n, 0, p.len() as int);
}

/// The UTF-8 encoding of a concatenation is the concatenation of the
/// encodings.
pub proof fn lemma_encode_concat(a: Seq<char>, b: Seq<char>)
    ensures
        encode_utf8(a + b) == encode_utf8(a) + encode_utf8(b),
    decreases a.len(),
{
    if a.len() > 0 {
        assert((a + b)[0] == a[0]);
        assert((a + b).drop_first() =~= a.drop_first() + b);
        lemma_encode_concat(a.drop_first(), b);
        assert(encode_utf8(a + b) =~= encode_utf8(a) + encode_utf8(b));
    } else {
        assert(a + b =~= b);
    }
}

/// Escaping works character by character from the front too.
proof fn lemma_esc_front(s: Seq<char>)
    requires
        s.len() > 0,
    ensures
        json_escape_spec(s) == escape_char(s[0]) + json_escape_spec(s.drop_first()),
    decreases s.len(),
{
    if s.len() == 1 {
        assert(s.drop_last().len() == 0);
        assert(s.drop_first().len() == 0);
        assert(json_escape_spec(s.drop_last()) =~= Seq::<char>::empty());
        assert(json_escape_spec(s.drop_first()) =~= Seq::<char>::empty());
        assert(s.last() == s[0]);
        assert(json_escape_spec(s) =~= escape_char(s[0]) + json_escape_spec(s.drop_first()));
    } else {
        let d = s.drop_last();
        lemma_esc_front(d);
        assert(d.drop_first() =~= s.drop_first().drop_last());
        assert(s.drop_first().last() == s.last());
        assert(d[0] == s[0]);
        assert(json_escape_spec(s) =~= escape_char(s[0]) + json_escape_spec(s.drop_first()));
    }
}

/// A one-character sequence encodes to its scalar's bytes.
proof fn lemma_encode_one(c: char)
    ensures
        encode_utf8(seq![c]) == encode_scalar(c as u32),
{
    assert(seq![c].drop_first() =~= Seq::<char>::empty());
    assert(encode_utf8(Seq::<char>::empty()) =~= Seq::<u8>::empty());
    assert(seq![c][0] == c);
    assert(encode_utf8(seq![c]) =~= encode_scalar(c as u32));
}

/// A character other than `"` and `\` encodes to bytes that are neither.
proof fn lemma_scalar_bytes_plain(c: char)
    requires
        c != '"',
        c != '\\',
    ensures
        forall|i: int|
            0 <= i < encode_scalar(c as u32).len() ==> #[trigger] encode_scalar(c as u32)[i]
                != 0x22 && encode_scalar(c as u32)[i] != 0x5C,
{
    let v = c as u32;
    vstd::utf8::char_is_scalar(c);
    if has_width_1_encoding(v) {
        assert(leading_byte_width_1(v) == v as u8) by (bit_vector)
            requires
                v <= 0x7F,
        ;
        assert(v != 0x22 && v != 0x5C);
    } else {
        assert((0xC0u8 | ((v >> 6) & 0x1F) as u8) >= 0x80) by (bit_vector);
        assert((0xE0u8 | ((v >> 12) & 0x0F) as u8) >= 0x80) by (bit_vector);
        assert((0xF0u8 | ((v >> 18) & 0x7) as u8) >= 0x80) by (bit_vector);
        assert((0x80u8 | (v & 0x3F) as u8) >= 0x80) by (bit_vector);
        assert((0x80u8 | ((v >> 6) & 0x3F) as u8) >= 0x80) by (bit_vector);
        assert((0x80u8 | ((v >> 12) & 0x3F) as u8) >= 0x80) by (bit_vector);
    }
}

/// An ASCII character encodes to its own byte.
proof fn lemma_scalar_ascii(c: char)
    requires
        (c as u32) < 0x80,
    ensures
        encode_scalar(c as u32) == seq![c as u8],
{
    let v = c as u32;
    assert(leading_byte_width_1(v) == v as u8) by (bit_vector)
        requires
            v <= 0x7F,
    ;
    assert(encode_scalar(v) =~= seq![c as u8]);
}

/// Unescaping passes bytes that are neither a quote nor a backslash
/// through as they are.
proof fn lemma_unescape_plain(b: Seq<u8>, i: int, k: int, acc: Seq<u8>)
    requires
        0 <= i,
        0 <= k,
        i + k < b.len(),
        forall|t: int| i <= t < i + k ==> #[trigger] b[t] != 0x22 && b[t] != 0x5C,
    ensures
        unescape(b, i, acc) == unescape(b, i + k, acc + b.subrange(i, i + k)),
    decreases k,
{
    if k == 0 {
        assert(acc + b.subrange(i, i) =~= acc);
    } else {
        assert(b[i] != 0x22 && b[i] != 0x5C);
        lemma_unescape_plain(b, i + 1, k - 1, acc.push(b[i]));
        assert(acc.push(b[i]) + b.subrange(i + 1, i + k) =~= acc + b.subrange(i, i + k));
    }
}

/// The value of the ASCII digit for `d`.
proof fn lemma_hex_digit(d: int)
    requires
        0 <= d < 16,
    ensures
        (hex_digit_char(d) as u32) < 0x80,
        hex_val(hex_digit_char(d) as u8) == d,
        hex_digit_char(d) != '"',
{
}

/// The escaped form of one character: its quotes are escaped, and
/// unescaping it gives the character's UTF-8 bytes.
proof fn lemma_escape_char(c: char, b: Seq<u8>, i: int, acc: Seq<u8>)
    ensures
        quotes_escaped(encode_utf8(escape_char(c))),
        0 <= i && i + encode_utf8(escape_char(c)).len() < b.len() && b.subrange(
            i,
            i + encode_utf8(escape_char(c)).len(),
        ) == encode_utf8(escape_char(c)) ==> unescape(b, i, acc) == unescape(
            b,
            i + encode_utf8(escape_char(c)).len(),
            acc + encode_scalar(c as u32),
        ),
{
    let e = escape_char(c);
    let y = encode_utf8(e);
    let v = c as u32;
    if c == '"' || c == '\\' || c == '\n' || c == '\r' || c == '\t' || c == '\u{8}' || c
        == '\u{c}' || v < 0x20 {
        if v < 0x20 && !(c == '\n' || c == '\r' || c == '\t' || c == '\u{8}' || c == '\u{c}') {
            lemma_hex_digit((v as nat / 4096 % 16) as int);
            lemma_hex_digit((v as nat / 256 % 16) as int);
            lemma_hex_digit((v as nat / 16 % 16) as int);
            lemma_hex_digit((v as nat % 16) as int);
        }
        assert(is_ascii_chars(e));
        is_ascii_chars_encode_utf8(e);
        lemma_scalar_ascii(c);
        assert(e[0] == '\\');
        assert(y[0] == 0x5C);
        assert(quotes_escaped(y)) by {
            assert forall|k: int| 0 <= k < y.len() && #[trigger] y[k] == 0x22 implies k > 0 && y[k
                - 1] == 0x5C by {
                assert(y[k] == e[k] as u8);
            }
        }
        if 0 <= i && i + y.len() < b.len() && b.subrange(i, i + y.len()) == y {
            assert(b[i] == y[0]);
            assert(b[i + 1] == y[1]);
            if v < 0x20 && !(c == '\n' || c == '\r' || c == '\t' || c == '\u{8}' || c
                == '\u{c}') {
                assert(b[i + 2] == y[2] && b[i + 3] == y[3] && b[i + 4] == y[4] && b[i + 5] == y[5]);
                assert(v as nat / 4096 % 16 == 0 && v as nat / 256 % 16 == 0);
                assert(parse_hex4(b, i + 2) == Some(v));
                vstd::utf8::char_is_scalar(c);
            } else {
                assert(acc + encode_scalar(v) =~= acc.push(c as u8));
            }
        }
    } else {
        lemma_encode_one(c);
        lemma_scalar_bytes_plain(c);
        assert(quotes_escaped(y));
        if 0 <= i && i + y.len() < b.len() && b.subrange(i, i + y.len()) == y {
            assert forall|t: int| i <= t < i + y.len() implies #[trigger] b[t] != 0x22 && b[t]
                != 0x5C by {
                assert(b[t] == y[t - i]);
            }
            lemma_unescape_plain(b, i, y.len() as int, acc);
        }
    }
}

proof fn lemma_quotes_escaped_concat(a: Seq<u8>, b: Seq<u8>)
    requires
        quotes_escaped(a),
        quotes_escaped(b),
    ensures
        quotes_escaped(a + b),
{
    assert forall|i: int| 0 <= i < (a + b).len() && #[trigger] (a + b)[i] == 0x22 implies i > 0 && (a
        + b)[i - 1] == 0x5C by {
        if i < a.len() {
            assert(a[i] == 0x22);
        } else {
            assert(b[i - a.len()] == 0x22);
        }
    }
}

/// Escaped text keeps every quote behind a backslash.
pub proof fn lemma_esc_quotes(s: Seq<char>)
    ensures
        quotes_escaped(encode_utf8(json_escape_spec(s))),
    decreases s.len(),
{
    if s.len() == 0 {
        assert(json_escape_spec(s) =~= Seq::<char>::empty());
    } else {
        lemma_esc_quotes(s.drop_last());
        lemma_escape_char(s.last(), Seq::empty(), 0, Seq::empty());
        lemma_encode_concat(json_escape_spec(s.drop_last()), escape_char(s.last()));
        lemma_quotes_escaped_concat(
            encode_utf8(json_escape_spec(s.drop_last())),
            encode_utf8(escape_char(s.last())),
        );
    }
}

/// Unescaping escaped text up to its closing quote gives the text's UTF-8
/// bytes.
pub proof fn lemma_unescape_esc(b: Seq<u8>, i: int, s: Seq<char>, acc: Seq<u8>)
    requires
        0 <= i,
        i + encode_utf8(json_escape_spec(s)).len() < b.len(),
        b.subrange(i, i + encode_utf8(json_escape_spec(s)).len()) == encode_utf8(
            json_escape_spec(s),
        ),
        b[i + encode_utf8(json_escape_spec(s)).len()] == 0x22,
    ensures
        unescape(b, i, acc) == Some(acc + encode_utf8(s)),
    decreases s.len(),
{
    if s.len() == 0 {
        assert(json_escape_spec(s) =~= Seq::<char>::empty());
        assert(encode_utf8(s) =~= Seq::<u8>::empty());
        assert(acc + encode_utf8(s) =~= acc);
    } else {
        let c = s[0];
        let rest = s.drop_first();
        lemma_esc_front(s);
        lemma_encode_concat(escape_char(c), json_escape_spec(rest));
        let y = encode_utf8(escape_char(c));
        let x = encode_utf8(json_escape_spec(rest));
        assert(encode_utf8(json_escape_spec(s)) == y + x);
        assert(b.subrange(i, i + y.len()) =~= y) by {
            assert(b.subrange(i, i + y.len()) =~= b.subrange(i, i + y.len() + x.len()).subrange(
                0,
                y.len() as int,
            ));
        }
        assert(b.subrange(i + y.len(), i + y.len() + x.len()) =~= x) by {
            assert(b.subrange(i + y.len(), i + y.len() + x.len()) =~= b.subrange(
                i,
                i + y.len() + x.len(),
            ).subrange(y.len() as int, (y.len() + x.len()) as int));
        }
        lemma_escape_char(c, b, i, acc);
        lemma_unescape_esc(b, i + y.len(), rest, acc + encode_scalar(c as u32));
        assert(encode_utf8(s) == encode_scalar(c as u32) + encode_utf8(rest));
        assert(acc + encode_scalar(c as u32) + encode_utf8(rest) =~= acc + encode_utf8(s));
    }
}

/// One member `"key":"x",` as text, the value `x` already escaped.
pub open spec fn member_c(k: Seq<char>, x: Seq<char>) -> Seq<char> {
    "\""@ + k + "\":\""@ + x + "\","@
}

/// The opening brace and the members `ms`, each followed by a comma.
pub open spec fn prefix_c(ms: Seq<(Seq<char>, Seq<char>)>) -> Seq<char>
    decreases ms.len(),
{
    if ms.len() == 0 {
        "{"@
    } else {
        prefix_c(ms.drop_last()) + member_c(ms.last().0, ms.last().1)
    }
}

/// The members with key and value in UTF-8.
pub open spec fn members_bytes(ms: Seq<(Seq<char>, Seq<char>)>) -> Seq<(Seq<u8>, Seq<u8>)> {
    Seq::new(ms.len(), |i: int| (encode_utf8(ms[i].0), encode_utf8(ms[i].1)))
}

proof fn lemma_ascii_literal(s: Seq<char>, b: Seq<u8>)
    requires
        is_ascii_chars(s),
        s.len() == b.len(),
        forall|i: int| 0 <= i < s.len() ==> s[i] as u8 == #[trigger] b[i],
    ensures
        encode_utf8(s) == b,
{
    is_ascii_chars_encode_utf8(s);
    assert(encode_utf8(s) =~= b);
}

proof fn lemma_punctuation()
    ensures
        encode_utf8("\""@) == seq![0x22u8],
        encode_utf8("\":\""@) == seq![0x22u8, 0x3Au8, 0x22u8],
        encode_utf8("\","@) == seq![0x22u8, 0x2Cu8],
        encode_utf8("{"@) == seq![0x7Bu8],
{
    reveal_strlit("\"");
    reveal_strlit("\":\"");
    reveal_strlit("\",");
    reveal_strlit("{");
    lemma_ascii_literal("\""@, seq![0x22u8]);
    lemma_ascii_literal("\":\""@, seq![0x22u8, 0x3Au8, 0x22u8]);
    lemma_ascii_literal("\","@, seq![0x22u8, 0x2Cu8]);
    lemma_ascii_literal("{"@, seq![0x7Bu8]);
}

proof fn lemma_prefix_bytes(ms: Seq<(Seq<char>, Seq<char>)>)
    ensures
        encode_utf8(prefix_c(ms)) == prefix_b(members_bytes(ms)),
    decreases ms.len(),
{
    lemma_punctuation();
    if ms.len() > 0 {
        let w = ms.drop_last();
        lemma_prefix_bytes(w);
        assert(members_bytes(ms).drop_last() =~= members_bytes(w));
        let (k, x) = ms.last();
        lemma_encode_concat("\""@, k);
        lemma_encode_concat("\""@ + k, "\":\""@);
        lemma_encode_concat("\""@ + k + "\":\""@, x);
        lemma_encode_concat("\""@ + k + "\":\""@ + x, "\","@);
        lemma_encode_concat(prefix_c(w), member_c(k, x));
        assert(encode_utf8(member_c(k, x)) =~= member_b(encode_utf8(k), encode_utf8(x)));
    }
}

/// A field read back from an object that opens with the members `ms` and
/// then the member of `key`: the value written there, whatever the
/// earlier members hold, provided their keys differ from `key` and all
/// keys are ASCII letters.
pub proof fn lemma_field_after_members(
    ms: Seq<(Seq<char>, Seq<char>)>,
    key: Seq<char>,
    v: Seq<char>,
    rest: Seq<char>,
)
    requires
        letters(encode_utf8(key)),
        forall|i: int|
            0 <= i < ms.len() ==> letters(encode_utf8((#[trigger] ms[i]).0)) && encode_utf8(ms[i].0)
                != encode_utf8(key) && quotes_escaped(encode_utf8(ms[i].1)),
    ensures
        json_field_spec(
            prefix_c(ms) + "\""@ + key + "\":\""@ + json_escape_spec(v) + "\""@ + rest,
            key,
        ) == Some(v),
{
    lemma_punctuation();
    let kb = encode_utf8(key);
    let x = encode_utf8(json_escape_spec(v));
    let msb = members_bytes(ms);
    assert(members_ok(msb, kb));
    lemma_prefix_bytes(ms);
    let p = prefix_b(msb);
    let h = prefix_c(ms) + "\""@ + key + "\":\""@ + json_escape_spec(v) + "\""@ + rest;
    lemma_encode_concat(prefix_c(ms), "\""@);
    lemma_encode_concat(prefix_c(ms) + "\""@, key);
    lemma_encode_concat(prefix_c(ms) + "\""@ + key, "\":\""@);
    lemma_encode_concat(prefix_c(ms) + "\""@ + key + "\":\""@, json_escape_spec(v));
    lemma_encode_concat(prefix_c(ms) + "\""@ + key + "\":\""@ + json_escape_spec(v), "\""@);
    lemma_encode_concat(
        prefix_c(ms) + "\""@ + key + "\":\""@ + json_escape_spec(v) + "\""@,
        rest,
    );
    let tail = x + seq![0x22u8] + encode_utf8(rest);
    let jb = encode_utf8(h);
    assert(jb =~= p + needle_b(kb) + tail);
    lemma_encode_concat("\""@, key);
    lemma_encode_concat("\""@ + key, "\":\""@);
    let nb = encode_utf8(crate::serum2state::field_needle(key));
    assert(nb =~= needle_b(kb));
    lemma_needle_found(msb, kb, tail);
    let start: int = (p.len() + nb.len()) as int;
    assert(jb.subrange(start, start + x.len()) =~= x);
    assert(jb[start + x.len()] == 0x22);
    lemma_unescape_esc(jb, start, v, Seq::empty());
    assert(Seq::<u8>::empty() + encode_utf8(v) =~= encode_utf8(v));
    vstd::utf8::encode_utf8_valid_utf8(v);
    vstd::utf8::encode_utf8_decode_utf8(v);
}

/// The same, for any text that opens with those members and the member of
/// `key`.
pub proof fn lemma_field_in_text(
    h: Seq<char>,
    ms: Seq<(Seq<char>, Seq<char>)>,
    key: Seq<char>,
    v: Seq<char>,
)
    requires
        letters(encode_utf8(key)),
        forall|i: int|
            0 <= i < ms.len() ==> letters(encode_utf8((#[trigger] ms[i]).0)) && encode_utf8(ms[i].0)
                != encode_utf8(key) && quotes_escaped(encode_utf8(ms[i].1)),
        ({
            let x = prefix_c(ms) + "\""@ + key + "\":\""@ + json_escape_spec(v) + "\""@;
            x.len() <= h.len() && h.subrange(0, x.len() as int) == x
        }),
    ensures
        json_field_spec(h, key) == Some(v),
{
    let x = prefix_c(ms) + "\""@ + key + "\":\""@ + json_escape_spec(v) + "\""@;
    let rest = h.subrange(x.len() as int, h.len() as int);
    assert(h =~= x + rest);
    lemma_field_after_members(ms, key, v, rest);
}

/// A literal key made of ASCII letters.
proof fn lemma_letters_literal(s: Seq<char>)
    requires
        s.len() > 0,
        forall|i: int| 0 <= i < s.len() ==> ('a' <= #[trigger] s[i] <= 'z') || ('A' <= s[i] <= 'Z'),
    ensures
        letters(encode_utf8(s)),
        encode_utf8(s).len() == s.len(),
        quotes_escaped(encode_utf8(s)),
{
    assert(is_ascii_chars(s));
    is_ascii_chars_encode_utf8(s);
    assert forall|i: int| 0 <= i < encode_utf8(s).len() implies letter_byte(
        #[trigger] encode_utf8(s)[i],
    ) by {
        assert(encode_utf8(s)[i] == s[i] as u8);
    }
    assert forall|i: int| 0 <= i < encode_utf8(s).len() && #[trigger] encode_utf8(s)[i] == 0x22 implies i
        > 0 && encode_utf8(s)[i - 1] == 0x5C by {
        assert(encode_utf8(s)[i] == s[i] as u8);
    }
}

/// `u` opens `s`.
pub open spec fn opens(u: Seq<char>, s: Seq<char>) -> bool {
    u.len() <= s.len() && s.subrange(0, u.len() as int) == u
}

proof fn lemma_opens_add(u: Seq<char>, s: Seq<char>, t: Seq<char>)
    requires
        opens(u, s),
    ensures
        opens(u, s + t),
{
    assert((s + t).subrange(0, u.len() as int) =~= s.subrange(0, u.len() as int));
}

proof fn lemma_opens_trans(u: Seq<char>, s: Seq<char>, h: Seq<char>)
    requires
        opens(u, s),
        opens(s, h),
    ensures
        opens(u, h),
{
    assert(h.subrange(0, u.len() as int) =~= s.subrange(0, u.len() as int));
}

proof fn lemma_opens_quote(w: Seq<char>, l: Seq<char>)
    requires
        l.len() > 0,
        l[0] == '"',
    ensures
        opens(w + "\""@, w + l),
{
    reveal_strlit("\"");
    assert((w + l).subrange(0, w.len() + 1int) =~= w + "\""@);
}

/// The controller header opens with its text up to each free-text field's
/// end.
proof fn lemma_controller_opens(
    md5: Seq<char>,
    name: Seq<char>,
    author: Seq<char>,
    description: Seq<char>,
    product_version: Seq<char>,
    version: Seq<char>,
)
    ensures
        ({
            let h = controller_header_spec(md5, name, author, description, product_version, version);
            let s1 = "{\"component\":\"controller\",\"hash\":\""@ + json_escape_spec(md5)
                + "\",\"presetAuthor\":\""@ + json_escape_spec(author) + "\",\"presetDescription\":\""@;
            let s2 = s1 + json_escape_spec(description) + "\",\"presetName\":\""@;
            let s3 = s2 + json_escape_spec(name) + "\",\"product\":\"Serum2\",\"productVersion\":\""@;
            &&& opens(s1, h)
            &&& opens(s2, h)
            &&& opens(s3, h)
        }),
{
    let h = controller_header_spec(md5, name, author, description, product_version, version);
    let s1 = "{\"component\":\"controller\",\"hash\":\""@ + json_escape_spec(md5)
        + "\",\"presetAuthor\":\""@ + json_escape_spec(author) + "\",\"presetDescription\":\""@;
    let s2 = s1 + json_escape_spec(description) + "\",\"presetName\":\""@;
    let s3 = s2 + json_escape_spec(name) + "\",\"product\":\"Serum2\",\"productVersion\":\""@;
    assert(h.subrange(0, s3.len() as int) =~= s3);
    assert(h.subrange(0, s2.len() as int) =~= s2);
    assert(h.subrange(0, s1.len() as int) =~= s1);
}

/// A field read back from a text `h` that opens with `p` (the members `ms`
/// and the opening of `key`'s member), the escaped value, and then a quote.
proof fn lemma_field_from_parts(
    h: Seq<char>,
    ms: Seq<(Seq<char>, Seq<char>)>,
    key: Seq<char>,
    v: Seq<char>,
    p: Seq<char>,
    next: Seq<char>,
)
    requires
        letters(encode_utf8(key)),
        forall|i: int|
            0 <= i < ms.len() ==> letters(encode_utf8((#[trigger] ms[i]).0)) && encode_utf8(ms[i].0)
                != encode_utf8(key) && quotes_escaped(encode_utf8(ms[i].1)),
        prefix_c(ms) + "\""@ + key + "\":\""@ == p,
        next.len() > 0,
        next[0] == '"',
        opens(p + json_escape_spec(v) + next, h),
    ensures
        json_field_spec(h, key) == Some(v),
{
    let x = prefix_c(ms) + "\""@ + key + "\":\""@ + json_escape_spec(v) + "\""@;
    assert(x == p + json_escape_spec(v) + "\""@);
    lemma_opens_quote(p + json_escape_spec(v), next);
    lemma_opens_trans(x, p + json_escape_spec(v) + next, h);
    lemma_field_in_text(h, ms, key, v);
}

/// The literal pieces of the controller header, split at its members.
proof fn lemma_controller_literals()
    ensures
        "{\"component\":\"controller\",\"hash\":\""@ == "{"@ + member_c("component"@, "controller"@)
            + "\""@ + "hash"@ + "\":\""@,
        "\",\"presetAuthor\":\""@ == "\","@ + "\""@ + "presetAuthor"@ + "\":\""@,
        "\",\"presetDescription\":\""@ == "\","@ + "\""@ + "presetDescription"@ + "\":\""@,
        "\",\"presetName\":\""@ == "\","@ + "\""@ + "presetName"@ + "\":\""@,
        ("\",\"presetDescription\":\""@)[0] == '"',
        ("\",\"presetDescription\":\""@).len() > 0,
        ("\",\"presetName\":\""@).len() > 0,
        ("\",\"product\":\"Serum2\",\"productVersion\":\""@).len() > 0,
        ("\",\"presetName\":\""@)[0] == '"',
        ("\",\"product\":\"Serum2\",\"productVersion\":\""@)[0] == '"',
        letters(encode_utf8("component"@)),
        quotes_escaped(encode_utf8("controller"@)),
        letters(encode_utf8("hash"@)),
        letters(encode_utf8("presetAuthor"@)),
        letters(encode_utf8("presetDescription"@)),
        letters(encode_utf8("presetName"@)),
        encode_utf8("component"@).len() == 9,
        encode_utf8("hash"@).len() == 4,
        encode_utf8("presetAuthor"@).len() == 12,
        encode_utf8("presetDescription"@).len() == 17,
        encode_utf8("presetName"@).len() == 10,
{
    reveal_strlit("{\"component\":\"controller\",\"hash\":\"");
    reveal_strlit("\",\"presetAuthor\":\"");
    reveal_strlit("\",\"presetDescription\":\"");
    reveal_strlit("\",\"presetName\":\"");
    reveal_strlit("\",\"product\":\"Serum2\",\"productVersion\":\"");
    reveal_strlit("{");
    reveal_strlit("\"");
    reveal_strlit("\":\"");
    reveal_strlit("\",");
    reveal_strlit("component");
    reveal_strlit("controller");
    reveal_strlit("hash");
    reveal_strlit("presetAuthor");
    reveal_strlit("presetDescription");
    reveal_strlit("presetName");
    lemma_letters_literal("component"@);
    lemma_letters_literal("controller"@);
    lemma_letters_literal("hash"@);
    lemma_letters_literal("presetAuthor"@);
    lemma_letters_literal("presetDescription"@);
    lemma_letters_literal("presetName"@);
    assert("{\"component\":\"controller\",\"hash\":\""@ =~= "{"@ + member_c(
        "component"@,
        "controller"@,
    ) + "\""@ + "hash"@ + "\":\""@);
    assert("\",\"presetAuthor\":\""@ =~= "\","@ + "\""@ + "presetAuthor"@ + "\":\""@);
    assert("\",\"presetDescription\":\""@ =~= "\","@ + "\""@ + "presetDescription"@ + "\":\""@);
    assert("\",\"presetName\":\""@ =~= "\","@ + "\""@ + "presetName"@ + "\":\""@);
}

/// Opening the next member after `p`'s member of `k` with value `x`.
proof fn lemma_member_step(ms: Seq<(Seq<char>, Seq<char>)>, k: Seq<char>, x: Seq<char>, k2: Seq<char>)
    ensures
        prefix_c(ms.push((k, x))) + "\""@ + k2 + "\":\""@ == prefix_c(ms) + "\""@ + k + "\":\""@ + x
            + ("\","@ + "\""@ + k2 + "\":\""@),
{
    assert(ms.push((k, x)).drop_last() =~= ms);
    assert(prefix_c(ms.push((k, x))) == prefix_c(ms) + member_c(k, x));
    assert(prefix_c(ms.push((k, x))) + "\""@ + k2 + "\":\""@ =~= prefix_c(ms) + "\""@ + k + "\":\""@
        + x + ("\","@ + "\""@ + k2 + "\":\""@));
}

/// The `component` and `hash` members that open the controller header.
pub open spec fn controller_head(md5: Seq<char>) -> Seq<(Seq<char>, Seq<char>)> {
    seq![("component"@, "controller"@), ("hash"@, json_escape_spec(md5))]
}

proof fn lemma_controller_head(md5: Seq<char>)
    ensures
        prefix_c(controller_head(md5)) == "{"@ + member_c("component"@, "controller"@) + member_c(
            "hash"@,
            json_escape_spec(md5),
        ),
{
    let ms = controller_head(md5);
    assert(ms.drop_last() =~= seq![("component"@, "controller"@)]);
    assert(ms.drop_last().drop_last() =~= Seq::<(Seq<char>, Seq<char>)>::empty());
    assert(prefix_c(ms.drop_last().drop_last()) == "{"@);
    assert(prefix_c(ms.drop_last()) == "{"@ + member_c("component"@, "controller"@));
}

#[verifier::spinoff_prover]
#[verifier::rlimit(80)]
proof fn lemma_controller_author(
    md5: Seq<char>,
    name: Seq<char>,
    author: Seq<char>,
    description: Seq<char>,
    product_version: Seq<char>,
    version: Seq<char>,
)
    ensures
        json_field_spec(
            controller_header_spec(md5, name, author, description, product_version, version),
            "presetAuthor"@,
        ) == Some(author),
{
    let h = controller_header_spec(md5, name, author, description, product_version, version);
    lemma_controller_literals();
    lemma_controller_opens(md5, name, author, description, product_version, version);
    lemma_controller_head(md5);
    lemma_esc_quotes(md5);
    let a = json_escape_spec(md5);
    let l1 = "{\"component\":\"controller\",\"hash\":\""@;
    let l2 = "\",\"presetAuthor\":\""@;
    let ms = controller_head(md5);
    assert(prefix_c(ms) + "\""@ + "presetAuthor"@ + "\":\""@ =~= l1 + a + l2);
    lemma_field_from_parts(h, ms, "presetAuthor"@, author, l1 + a + l2, "\",\"presetDescription\":\""@);
}

#[verifier::spinoff_prover]
#[verifier::rlimit(80)]
proof fn lemma_controller_description(
    md5: Seq<char>,
    name: Seq<char>,
    author: Seq<char>,
    description: Seq<char>,
    product_version: Seq<char>,
    version: Seq<char>,
)
    ensures
        json_field_spec(
            controller_header_spec(md5, name, author, description, product_version, version),
            "presetDescription"@,
        ) == Some(description),
{
    let h = controller_header_spec(md5, name, author, description, product_version, version);
    lemma_controller_literals();
    lemma_controller_opens(md5, name, author, description, product_version, version);
    lemma_controller_head(md5);
    lemma_esc_quotes(md5);
    lemma_esc_quotes(author);
    let a = json_escape_spec(md5);
    let b = json_escape_spec(author);
    let l1 = "{\"component\":\"controller\",\"hash\":\""@;
    let l2 = "\",\"presetAuthor\":\""@;
    let l3 = "\",\"presetDescription\":\""@;
    let ms = controller_head(md5).push(("presetAuthor"@, b));
    assert(ms[2] == ("presetAuthor"@, b));
    assert(prefix_c(controller_head(md5)) + "\""@ + "presetAuthor"@ + "\":\""@ =~= l1 + a + l2);
    lemma_member_step(controller_head(md5), "presetAuthor"@, b, "presetDescription"@);
    lemma_field_from_parts(
        h,
        ms,
        "presetDescription"@,
        description,
        l1 + a + l2 + b + l3,
        "\",\"presetName\":\""@,
    );
}

#[verifier::spinoff_prover]
#[verifier::rlimit(80)]
proof fn lemma_controller_name(
    md5: Seq<char>,
    name: Seq<char>,
    author: Seq<char>,
    description: Seq<char>,
    product_version: Seq<char>,
    version: Seq<char>,
)
    ensures
        json_field_spec(
            controller_header_spec(md5, name, author, description, product_version, version),
            "presetName"@,
        ) == Some(name),
{
    let h = controller_header_spec(md5, name, author, description, product_version, version);
    lemma_controller_literals();
    lemma_controller_opens(md5, name, author, description, product_version, version);
    lemma_controller_head(md5);
    lemma_esc_quotes(md5);
    lemma_esc_quotes(author);
    lemma_esc_quotes(description);
    let a = json_escape_spec(md5);
    let b = json_escape_spec(author);
    let c = json_escape_spec(description);
    let l1 = "{\"component\":\"controller\",\"hash\":\""@;
    let l2 = "\",\"presetAuthor\":\""@;
    let l3 = "\",\"presetDescription\":\""@;
    let l4 = "\",\"presetName\":\""@;
    let ms3 = controller_head(md5).push(("presetAuthor"@, b));
    let ms = ms3.push(("presetDescription"@, c));
    assert(ms[2] == ("presetAuthor"@, b));
    assert(ms[3] == ("presetDescription"@, c));
    assert(prefix_c(controller_head(md5)) + "\""@ + "presetAuthor"@ + "\":\""@ =~= l1 + a + l2);
    lemma_member_step(controller_head(md5), "presetAuthor"@, b, "presetDescription"@);
    lemma_member_step(ms3, "presetDescription"@, c, "presetName"@);
    lemma_field_from_parts(
        h,
        ms,
        "presetName"@,
        name,
        l1 + a + l2 + b + l3 + c + l4,
        "\",\"product\":\"Serum2\",\"productVersion\":\""@,
    );
}

/// A controller header read back: its `presetName`, `presetAuthor` and
/// `presetDescription` fields give back the text `controller_json_header`
/// wrote, so `controller_meta_from_json` recovers the preset's identity.
pub proof fn lemma_controller_meta_reads_back(
    md5: Seq<char>,
    name: Seq<char>,
    author: Seq<char>,
    description: Seq<char>,
    product_version: Seq<char>,
    version: Seq<char>,
)
    ensures
        ({
            let h = controller_header_spec(md5, name, author, description, product_version, version);
            &&& field_or_empty(h, "presetAuthor"@) == author
            &&& field_or_empty(h, "presetDescription"@) == description
            &&& field_or_empty(h, "presetName"@) == name
        }),
{
    lemma_controller_author(md5, name, author, description, product_version, version);
    lemma_controller_description(md5, name, author, description, product_version, version);
    lemma_controller_name(md5, name, author, description, product_version, version);
}

/// The literal pieces of the preset-file header, split at its members.
proof fn lemma_preset_literals()
    ensures
        "{\"fileType\":\"SerumPreset\",\"hash\":\""@ == "{"@ + member_c("fileType"@, "SerumPreset"@) + "\""@ + "hash"@ + "\":\""@,
        "\",\"presetAuthor\":\""@ == "\","@ + "\""@ + "presetAuthor"@ + "\":\""@,
        "\",\"presetDescription\":\""@ == "\","@ + "\""@ + "presetDescription"@ + "\":\""@,
        "\",\"presetName\":\""@ == "\","@ + "\""@ + "presetName"@ + "\":\""@,
        "\",\"product\":\""@ == "\","@ + "\""@ + "product"@ + "\":\""@,
        "\",\"productVersion\":\""@ == "\","@ + "\""@ + "productVersion"@ + "\":\""@,
        ("\",\"presetAuthor\":\""@)[0] == '"',
        ("\",\"presetAuthor\":\""@).len() > 0,
        ("\",\"presetDescription\":\""@)[0] == '"',
        ("\",\"presetDescription\":\""@).len() > 0,
        ("\",\"presetName\":\""@)[0] == '"',
        ("\",\"presetName\":\""@).len() > 0,
        ("\",\"product\":\""@)[0] == '"',
        ("\",\"product\":\""@).len() > 0,
        ("\",\"productVersion\":\""@)[0] == '"',
        ("\",\"productVersion\":\""@).len() > 0,
        ("\",\"tags\":"@)[0] == '"',
        ("\",\"tags\":"@).len() > 0,
        letters(encode_utf8("fileType"@)),
        quotes_escaped(encode_utf8("SerumPreset"@)),
        letters(encode_utf8("hash"@)),
        letters(encode_utf8("presetAuthor"@)),
        letters(encode_utf8("presetDescription"@)),
        letters(encode_utf8("presetName"@)),
        letters(encode_utf8("product"@)),
        letters(encode_utf8("productVersion"@)),
        encode_utf8("fileType"@).len() == 8,
        encode_utf8("hash"@).len() == 4,
        encode_utf8("presetAuthor"@).len() == 12,
        encode_utf8("presetDescription"@).len() == 17,
        encode_utf8("presetName"@).len() == 10,
        encode_utf8("product"@).len() == 7,
        encode_utf8("productVersion"@).len() == 14,
{
    reveal_strlit("{\"fileType\":\"SerumPreset\",\"hash\":\"");
    reveal_strlit("\",\"presetAuthor\":\"");
    reveal_strlit("\",\"presetDescription\":\"");
    reveal_strlit("\",\"presetName\":\"");
    reveal_strlit("\",\"product\":\"");
    reveal_strlit("\",\"productVersion\":\"");
    reveal_strlit("\",\"tags\":");
    reveal_strlit("{");
    reveal_strlit("\"");
    reveal_strlit("\":\"");
    reveal_strlit("\",");
    reveal_strlit("fileType");
    reveal_strlit("SerumPreset");
    reveal_strlit("hash");
    reveal_strlit("presetAuthor");
    reveal_strlit("presetDescription");
    reveal_strlit("presetName");
    reveal_strlit("product");
    reveal_strlit("productVersion");
    lemma_letters_literal("fileType"@);
    lemma_letters_literal("SerumPreset"@);
    lemma_letters_literal("hash"@);
    lemma_letters_literal("presetAuthor"@);
    lemma_letters_literal("presetDescription"@);
    lemma_letters_literal("presetName"@);
    lemma_letters_literal("product"@);
    lemma_letters_literal("productVersion"@);
    assert("{\"fileType\":\"SerumPreset\",\"hash\":\""@ =~= "{"@ + member_c("fileType"@, "SerumPreset"@) + "\""@ + "hash"@ + "\":\""@);
    assert("\",\"presetAuthor\":\""@ =~= "\","@ + "\""@ + "presetAuthor"@ + "\":\""@);
    assert("\",\"presetDescription\":\""@ =~= "\","@ + "\""@ + "presetDescription"@ + "\":\""@);
    assert("\",\"presetName\":\""@ =~= "\","@ + "\""@ + "presetName"@ + "\":\""@);
    assert("\",\"product\":\""@ =~= "\","@ + "\""@ + "product"@ + "\":\""@);
    assert("\",\"productVersion\":\""@ =~= "\","@ + "\""@ + "productVersion"@ + "\":\""@);
}

/// The preset-file header opens with its text up to each string field's
/// end.
#[verifier::spinoff_prover]
#[verifier::rlimit(80)]
proof fn lemma_preset_opens(
    md5: Seq<char>,
    name: Seq<char>,
    author: Seq<char>,
    description: Seq<char>,
    product: Seq<char>,
    product_version: Seq<char>,
    tags: Seq<Seq<char>>,
    version: Seq<char>,
)
    ensures
        ({
            let h = preset_header_spec(md5, name, author, description, product, product_version, tags, version);
            let s1 = "{\"fileType\":\"SerumPreset\",\"hash\":\""@ + json_escape_spec(md5) + "\",\"presetAuthor\":\""@;
            let s2 = s1 + json_escape_spec(author) + "\",\"presetDescription\":\""@;
            let s3 = s2 + json_escape_spec(description) + "\",\"presetName\":\""@;
            let s4 = s3 + json_escape_spec(name) + "\",\"product\":\""@;
            let s5 = s4 + json_escape_spec(product) + "\",\"productVersion\":\""@;
            let s6 = s5 + json_escape_spec(product_version) + "\",\"tags\":"@;
            &&& opens(s1, h)
            &&& opens(s2, h)
            &&& opens(s3, h)
            &&& opens(s4, h)
            &&& opens(s5, h)
            &&& opens(s6, h)
        }),
{
    let h = preset_header_spec(md5, name, author, description, product, product_version, tags, version);
    let s1 = "{\"fileType\":\"SerumPreset\",\"hash\":\""@ + json_escape_spec(md5) + "\",\"presetAuthor\":\""@;
    let s2 = s1 + json_escape_spec(author) + "\",\"presetDescription\":\""@;
    let s3 = s2 + json_escape_spec(description) + "\",\"presetName\":\""@;
    let s4 = s3 + json_escape_spec(name) + "\",\"product\":\""@;
    let s5 = s4 + json_escape_spec(product) + "\",\"productVersion\":\""@;
    let s6 = s5 + json_escape_spec(product_version) + "\",\"tags\":"@;
    assert(h.subrange(0, s6.len() as int) =~= s6);
    assert(h.subrange(0, s5.len() as int) =~= s5);
    assert(h.subrange(0, s4.len() as int) =~= s4);
    assert(h.subrange(0, s3.len() as int) =~= s3);
    assert(h.subrange(0, s2.len() as int) =~= s2);
    assert(h.subrange(0, s1.len() as int) =~= s1);
}

/// The `fileType` member that opens the preset-file header.
pub open spec fn preset_head() -> Seq<(Seq<char>, Seq<char>)> {
    seq![("fileType"@, "SerumPreset"@)]
}

proof fn lemma_preset_head()
    ensures
        prefix_c(preset_head()) == "{"@ + member_c("fileType"@, "SerumPreset"@),
{
    let ms = preset_head();
    assert(ms.drop_last() =~= Seq::<(Seq<char>, Seq<char>)>::empty());
    assert(prefix_c(ms.drop_last()) == "{"@);
}

#[verifier::spinoff_prover]
#[verifier::rlimit(80)]
proof fn lemma_preset_field_0(
    md5: Seq<char>,
    name: Seq<char>,
    author: Seq<char>,
    description: Seq<char>,
    product: Seq<char>,
    product_version: Seq<char>,
    tags: Seq<Seq<char>>,
    version: Seq<char>,
)
    ensures
        json_field_spec(preset_header_spec(md5, name, author, description, product, product_version, tags, version), "hash"@) == Some(md5),
{
    let h = preset_header_spec(md5, name, author, description, product, product_version, tags, version);
    lemma_preset_literals();
    lemma_preset_opens(md5, name, author, description, product, product_version, tags, version);
    lemma_preset_head();
    let ms0 = preset_head();
    assert(prefix_c(ms0) + "\""@ + "hash"@ + "\":\""@ =~= "{\"fileType\":\"SerumPreset\",\"hash\":\""@);
    let ms = ms0;
    lemma_field_from_parts(h, ms, "hash"@, md5, "{\"fileType\":\"SerumPreset\",\"hash\":\""@, "\",\"presetAuthor\":\""@);
}

#[verifier::spinoff_prover]
#[verifier::rlimit(80)]
proof fn lemma_preset_field_1(
    md5: Seq<char>,
    name: Seq<char>,
    author: Seq<char>,
    description: Seq<char>,
    product: Seq<char>,
    product_version: Seq<char>,
    tags: Seq<Seq<char>>,
    version: Seq<char>,
)
    ensures
        json_field_spec(preset_header_spec(md5, name, author, description, product, product_version, tags, version), "presetAuthor"@) == Some(author),
{
    let h = preset_header_spec(md5, name, author, description, product, product_version, tags, version);
    lemma_preset_literals();
    lemma_preset_opens(md5, name, author, description, product, product_version, tags, version);
    lemma_preset_head();
    lemma_esc_quotes(md5);
    let ms0 = preset_head();
    assert(prefix_c(ms0) + "\""@ + "hash"@ + "\":\""@ =~= "{\"fileType\":\"SerumPreset\",\"hash\":\""@);
    let ms1 = ms0.push(("hash"@, json_escape_spec(md5)));
    lemma_member_step(ms0, "hash"@, json_escape_spec(md5), "presetAuthor"@);
    let ms = ms1;
    assert(ms[1] == ("hash"@, json_escape_spec(md5)));
    lemma_field_from_parts(h, ms, "presetAuthor"@, author, "{\"fileType\":\"SerumPreset\",\"hash\":\""@ + json_escape_spec(md5) + "\",\"presetAuthor\":\""@, "\",\"presetDescription\":\""@);
}

#[verifier::spinoff_prover]
#[verifier::rlimit(80)]
proof fn lemma_preset_field_2(
    md5: Seq<char>,
    name: Seq<char>,
    author: Seq<char>,
    description: Seq<char>,
    product: Seq<char>,
    product_version: Seq<char>,
    tags: Seq<Seq<char>>,
    version: Seq<char>,
)
    ensures
        json_field_spec(preset_header_spec(md5, name, author, description, product, product_version, tags, version), "presetDescription"@) == Some(description),
{
    let h = preset_header_spec(md5, name, author, description, product, product_version, tags, version);
    lemma_preset_literals();
    lemma_preset_opens(md5, name, author, description, product, product_version, tags, version);
    lemma_preset_head();
    lemma_esc_quotes(md5);
    lemma_esc_quotes(author);
    let ms0 = preset_head();
    assert(prefix_c(ms0) + "\""@ + "hash"@ + "\":\""@ =~= "{\"fileType\":\"SerumPreset\",\"hash\":\""@);
    let ms1 = ms0.push(("hash"@, json_escape_spec(md5)));
    lemma_member_step(ms0, "hash"@, json_escape_spec(md5), "presetAuthor"@);
    let ms2 = ms1.push(("presetAuthor"@, json_escape_spec(author)));
    lemma_member_step(ms1, "presetAuthor"@, json_escape_spec(author), "presetDescription"@);
    let ms = ms2;
    assert(ms[1] == ("hash"@, json_escape_spec(md5)));
    assert(ms[2] == ("presetAuthor"@, json_escape_spec(author)));
    lemma_field_from_parts(h, ms, "presetDescription"@, description, "{\"fileType\":\"SerumPreset\",\"hash\":\""@ + json_escape_spec(md5) + "\",\"presetAuthor\":\""@ + json_escape_spec(author) + "\",\"presetDescription\":\""@, "\",\"presetName\":\""@);
}

#[verifier::spinoff_prover]
#[verifier::rlimit(80)]
proof fn lemma_preset_field_3(
    md5: Seq<char>,
    name: Seq<char>,
    author: Seq<char>,
    description: Seq<char>,
    product: Seq<char>,
    product_version: Seq<char>,
    tags: Seq<Seq<char>>,
    version: Seq<char>,
)
    ensures
        json_field_spec(preset_header_spec(md5, name, author, description, product, product_version, tags, version), "presetName"@) == Some(name),
{
    let h = preset_header_spec(md5, name, author, description, product, product_version, tags, version);
    lemma_preset_literals();
    lemma_preset_opens(md5, name, author, description, product, product_version, tags, version);
    lemma_preset_head();
    lemma_esc_quotes(md5);
    lemma_esc_quotes(author);
    lemma_esc_quotes(description);
    let ms0 = preset_head();
    assert(prefix_c(ms0) + "\""@ + "hash"@ + "\":\""@ =~= "{\"fileType\":\"SerumPreset\",\"hash\":\""@);
    let ms1 = ms0.push(("hash"@, json_escape_spec(md5)));
    lemma_member_step(ms0, "hash"@, json_escape_spec(md5), "presetAuthor"@);
    let ms2 = ms1.push(("presetAuthor"@, json_escape_spec(author)));
    lemma_member_step(ms1, "presetAuthor"@, json_escape_spec(author), "presetDescription"@);
    let ms3 = ms2.push(("presetDescription"@, json_escape_spec(description)));
    lemma_member_step(ms2, "presetDescription"@, json_escape_spec(description), "presetName"@);
    let ms = ms3;
    assert(ms[1] == ("hash"@, json_escape_spec(md5)));
    assert(ms[2] == ("presetAuthor"@, json_escape_spec(author)));
    assert(ms[3] == ("presetDescription"@, json_escape_spec(description)));
    lemma_field_from_parts(h, ms, "presetName"@, name, "{\"fileType\":\"SerumPreset\",\"hash\":\""@ + json_escape_spec(md5) + "\",\"presetAuthor\":\""@ + json_escape_spec(author) + "\",\"presetDescription\":\""@ + json_escape_spec(description) + "\",\"presetName\":\""@, "\",\"product\":\""@);
}

#[verifier::spinoff_prover]
#[verifier::rlimit(80)]
proof fn lemma_preset_field_4(
    md5: Seq<char>,
    name: Seq<char>,
    author: Seq<char>,
    description: Seq<char>,
    product: Seq<char>,
    product_version: Seq<char>,
    tags: Seq<Seq<char>>,
    version: Seq<char>,
)
    ensures
        json_field_spec(preset_header_spec(md5, name, author, description, product, product_version, tags, version), "product"@) == Some(product),
{
    let h = preset_header_spec(md5, name, author, description, product, product_version, tags, version);
    lemma_preset_literals();
    lemma_preset_opens(md5, name, author, description, product, product_version, tags, version);
    lemma_preset_head();
    lemma_esc_quotes(md5);
    lemma_esc_quotes(author);
    lemma_esc_quotes(description);
    lemma_esc_quotes(name);
    let ms0 = preset_head();
    assert(prefix_c(ms0) + "\""@ + "hash"@ + "\":\""@ =~= "{\"fileType\":\"SerumPreset\",\"hash\":\""@);
    let ms1 = ms0.push(("hash"@, json_escape_spec(md5)));
    lemma_member_step(ms0, "hash"@, json_escape_spec(md5), "presetAuthor"@);
    let ms2 = ms1.push(("presetAuthor"@, json_escape_spec(author)));
    lemma_member_step(ms1, "presetAuthor"@, json_escape_spec(author), "presetDescription"@);
    let ms3 = ms2.push(("presetDescription"@, json_escape_spec(description)));
    lemma_member_step(ms2, "presetDescription"@, json_escape_spec(description), "presetName"@);
    let ms4 = ms3.push(("presetName"@, json_escape_spec(name)));
    lemma_member_step(ms3, "presetName"@, json_escape_spec(name), "product"@);
    let ms = ms4;
    assert(ms[1] == ("hash"@, json_escape_spec(md5)));
    assert(ms[2] == ("presetAuthor"@, json_escape_spec(author)));
    assert(ms[3] == ("presetDescription"@, json_escape_spec(description)));
    assert(ms[4] == ("presetName"@, json_escape_spec(name)));
    lemma_field_from_parts(h, ms, "product"@, product, "{\"fileType\":\"SerumPreset\",\"hash\":\""@ + json_escape_spec(md5) + "\",\"presetAuthor\":\""@ + json_escape_spec(author) + "\",\"presetDescription\":\""@ + json_escape_spec(description) + "\",\"presetName\":\""@ + json_escape_spec(name) + "\",\"product\":\""@, "\",\"productVersion\":\""@);
}

#[verifier::spinoff_prover]
#[verifier::rlimit(80)]
proof fn lemma_preset_field_5(
    md5: Seq<char>,
    name: Seq<char>,
    author: Seq<char>,
    description: Seq<char>,
    product: Seq<char>,
    product_version: Seq<char>,
    tags: Seq<Seq<char>>,
    version: Seq<char>,
)
    ensures
        json_field_spec(preset_header_spec(md5, name, author, description, product, product_version, tags, version), "productVersion"@) == Some(product_version),
{
    let h = preset_header_spec(md5, name, author, description, product, product_version, tags, version);
    lemma_preset_literals();
    lemma_preset_opens(md5, name, author, description, product, product_version, tags, version);
    lemma_preset_head();
    lemma_esc_quotes(md5);
    lemma_esc_quotes(author);
    lemma_esc_quotes(description);
    lemma_esc_quotes(name);
    lemma_esc_quotes(product);
    let ms0 = preset_head();
    assert(prefix_c(ms0) + "\""@ + "hash"@ + "\":\""@ =~= "{\"fileType\":\"SerumPreset\",\"hash\":\""@);
    let ms1 = ms0.push(("hash"@, json_escape_spec(md5)));
    lemma_member_step(ms0, "hash"@, json_escape_spec(md5), "presetAuthor"@);
    let ms2 = ms1.push(("presetAuthor"@, json_escape_spec(author)));
    lemma_member_step(ms1, "presetAuthor"@, json_escape_spec(author), "presetDescription"@);
    let ms3 = ms2.push(("presetDescription"@, json_escape_spec(description)));
    lemma_member_step(ms2, "presetDescription"@, json_escape_spec(description), "presetName"@);
    let ms4 = ms3.push(("presetName"@, json_escape_spec(name)));
    lemma_member_step(ms3, "presetName"@, json_escape_spec(name), "product"@);
    let ms5 = ms4.push(("product"@, json_escape_spec(product)));
    lemma_member_step(ms4, "product"@, json_escape_spec(product), "productVersion"@);
    let ms = ms5;
    assert(ms[1] == ("hash"@, json_escape_spec(md5)));
    assert(ms[2] == ("presetAuthor"@, json_escape_spec(author)));
    assert(ms[3] == ("presetDescription"@, json_escape_spec(description)));
    assert(ms[4] == ("presetName"@, json_escape_spec(name)));
    assert(ms[5] == ("product"@, json_escape_spec(product)));
    lemma_field_from_parts(h, ms, "productVersion"@, product_version, "{\"fileType\":\"SerumPreset\",\"hash\":\""@ + json_escape_spec(md5) + "\",\"presetAuthor\":\""@ + json_escape_spec(author) + "\",\"presetDescription\":\""@ + json_escape_spec(description) + "\",\"presetName\":\""@ + json_escape_spec(name) + "\",\"product\":\""@ + json_escape_spec(product) + "\",\"productVersion\":\""@, "\",\"tags\":"@);
}

/// A preset-file header read back: each string field that
/// `preset_json_header` wrote (`hash`, `presetAuthor`, `presetDescription`,
/// `presetName`, `product`, `productVersion`) is found again by
/// `json_string_field` with the text it was written with.
pub proof fn lemma_preset_header_reads_back(
    md5: Seq<char>,
    name: Seq<char>,
    author: Seq<char>,
    description: Seq<char>,
    product: Seq<char>,
    product_version: Seq<char>,
    tags: Seq<Seq<char>>,
    version: Seq<char>,
)
    ensures
        ({
            let h = preset_header_spec(md5, name, author, description, product, product_version, tags, version);
            &&& json_field_spec(h, "hash"@) == Some(md5)
            &&& json_field_spec(h, "presetAuthor"@) == Some(author)
            &&& json_field_spec(h, "presetDescription"@) == Some(description)
            &&& json_field_spec(h, "presetName"@) == Some(name)
            &&& json_field_spec(h, "product"@) == Some(product)
            &&& json_field_spec(h, "productVersion"@) == Some(product_version)
        }),
{
    lemma_preset_field_0(md5, name, author, description, product, product_version, tags, version);
    lemma_preset_field_1(md5, name, author, description, product, product_version, tags, version);
    lemma_preset_field_2(md5, name, author, description, product, product_version, tags, version);
    lemma_preset_field_3(md5, name, author, description, product, product_version, tags, version);
    lemma_preset_field_4(md5, name, author, description, product, product_version, tags, version);
    lemma_preset_field_5(md5, name, author, description, product, product_version, tags, version);
}

/// Escaping leaves text without quotes, backslashes and control characters
/// as it is.
proof fn lemma_esc_plain(s: Seq<char>)
    requires
        forall|i: int| 0 <= i < s.len() ==> 0x20 <= (#[trigger] s[i]) as u32 && s[i] != '"' && s[i]
            != '\\',
    ensures
        json_escape_spec(s) == s,
    decreases s.len(),
{
    if s.len() > 0 {
        lemma_esc_plain(s.drop_last());
        assert(s.drop_last() + seq![s.last()] =~= s);
    } else {
        assert(json_escape_spec(s) =~= s);
    }
}

/// The preset-file header with the fixed product fields is the general one
/// with product `Serum2`, version `2.0.23` and format `9.0`.
#[verifier::spinoff_prover]
#[verifier::rlimit(80)]
proof fn lemma_preset_text_is_header(
    md5: Seq<char>,
    name: Seq<char>,
    author: Seq<char>,
    description: Seq<char>,
    tags: Seq<Seq<char>>,
)
    ensures
        crate::serum2preset::preset_header_text(md5, name, author, description, tags)
            == preset_header_spec(md5, name, author, description, "Serum2"@, "2.0.23"@, tags, "9.0"@),
{
    reveal_strlit("Serum2");
    reveal_strlit("2.0.23");
    reveal_strlit("\",\"product\":\"Serum2\",\"productVersion\":\"2.0.23\",\"tags\":");
    reveal_strlit("\",\"product\":\"");
    reveal_strlit("\",\"productVersion\":\"");
    reveal_strlit("\",\"tags\":");
    reveal_strlit(",\"url\":\"https://xferrecords.com/\",\"vendor\":\"Xfer Records\",\"version\":9.0}");
    reveal_strlit(",\"url\":\"https://xferrecords.com/\",\"vendor\":\"Xfer Records\",\"version\":");
    reveal_strlit("9.0");
    reveal_strlit("}");
    lemma_esc_plain("Serum2"@);
    lemma_esc_plain("2.0.23"@);
    assert("\",\"product\":\"Serum2\",\"productVersion\":\"2.0.23\",\"tags\":"@ =~= "\",\"product\":\""@
        + "Serum2"@ + "\",\"productVersion\":\""@ + "2.0.23"@ + "\",\"tags\":"@);
    assert(",\"url\":\"https://xferrecords.com/\",\"vendor\":\"Xfer Records\",\"version\":9.0}"@ =~= ",\"url\":\"https://xferrecords.com/\",\"vendor\":\"Xfer Records\",\"version\":"@
        + "9.0"@ + "}"@);
    assert(crate::serum2preset::preset_header_text(md5, name, author, description, tags)
        =~= preset_header_spec(md5, name, author, description, "Serum2"@, "2.0.23"@, tags, "9.0"@));
}

/// The preset-file header with the fixed product fields read back: its
/// `hash`, `presetAuthor`, `presetDescription` and `presetName` fields give
/// back the text it was written with.
pub proof fn lemma_preset_text_reads_back(
    md5: Seq<char>,
    name: Seq<char>,
    author: Seq<char>,
    description: Seq<char>,
    tags: Seq<Seq<char>>,
)
    ensures
        ({
            let h = crate::serum2preset::preset_header_text(md5, name, author, description, tags);
            &&& json_field_spec(h, "hash"@) == Some(md5)
            &&& json_field_spec(h, "presetAuthor"@) == Some(author)
            &&& json_field_spec(h, "presetDescription"@) == Some(description)
            &&& json_field_spec(h, "presetName"@) == Some(name)
        }),
{
    lemma_preset_text_is_header(md5, name, author, description, tags);
    lemma_preset_header_reads_back(md5, name, author, description, "Serum2"@, "2.0.23"@, tags, "9.0"@);
}

} // verus!
