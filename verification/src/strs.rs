//! Character-level string helpers shared by the parsers and report builders.

use vstd::prelude::*;

verus! {

broadcast use vstd::string::group_string_axioms;

/// Appends one character to a string (`String::push`).
#[verifier::external_body]
pub(crate) fn push_char(s: &mut String, c: char)
    ensures
        final(s)@ == old(s)@.push(c),
{
    s.push(c)
}

/// The characters of `s`, in order.
pub fn chars_of(s: &str) -> (v: Vec<char>)
    ensures
        v@ == s@,
{
    let mut v: Vec<char> = Vec::new();
    for c in it: s.chars()
        invariant
            v@ == it.seq().take(it.index() as int),
            it.seq() == s@,
    {
        v.push(c);
    }
    v
}

/// A string holding exactly the characters of `v`.
pub fn string_from_chars(v: &[char]) -> (s: String)
    ensures
        s@ == v@,
{
    let mut s = String::new();
    let mut i: usize = 0;
    while i < v.len()
        invariant
            i <= v.len(),
            s@ == v@.take(i as int),
        decreases v.len() - i,
    {
        push_char(&mut s, v[i]);
        assert(v@.take(i + 1) == v@.take(i as int).push(v@[i as int]));
        i += 1;
    }
    assert(v@.take(v.len() as int) == v@);
    s
}

} // verus!

verus! {

/// The ASCII digit character for `d` (`0..=9`).
pub open spec fn digit_char(d: int) -> char {
    (48 + d) as char
}

/// The lowercase hexadecimal digit character for `d` (`0..=15`).
pub open spec fn hex_digit_char(d: int) -> char {
    if d < 10 {
        (48 + d) as char
    } else {
        (87 + d) as char
    }
}

/// Decimal rendering of `n` without leading zeros (`{}` on an integer).
pub open spec fn decimal(n: nat) -> Seq<char>
    decreases n,
{
    if n < 10 {
        seq![digit_char(n as int)]
    } else {
        decimal(n / 10).push(digit_char((n % 10) as int))
    }
}

/// A decimal rendering is a nonempty string of ASCII digits.
pub proof fn lemma_decimal_digits(n: nat)
    ensures
        decimal(n).len() >= 1,
        forall|i: int| 0 <= i < decimal(n).len() ==> '0' <= #[trigger] decimal(n)[i] <= '9',
    decreases n,
{
    if n >= 10 {
        lemma_decimal_digits(n / 10);
    }
}

/// Distinct numbers render differently.
pub proof fn lemma_decimal_injective(a: nat, b: nat)
    requires
        decimal(a) == decimal(b),
    ensures
        a == b,
    decreases a,
{
    lemma_decimal_digits(a);
    lemma_decimal_digits(b);
    if a >= 10 && b >= 10 {
        lemma_decimal_digits(a / 10);
        lemma_decimal_digits(b / 10);
        assert(decimal(a).drop_last() =~= decimal(a / 10));
        assert(decimal(b).drop_last() =~= decimal(b / 10));
        lemma_decimal_injective(a / 10, b / 10);
        assert(decimal(a).last() == digit_char((a % 10) as int));
        assert(decimal(b).last() == digit_char((b % 10) as int));
        assert((48 + a % 10) as char == (48 + b % 10) as char);
        assert((48 + a % 10) as char as u32 == 48 + a % 10);
        assert((48 + b % 10) as char as u32 == 48 + b % 10);
    } else if a < 10 && b < 10 {
        assert(decimal(a)[0] == digit_char(a as int));
        assert((48 + a) as char as u32 == 48 + a);
        assert((48 + b) as char as u32 == 48 + b);
    } else if a < 10 {
        lemma_decimal_digits(b / 10);
        assert(decimal(b).len() >= 2);
    } else {
        lemma_decimal_digits(a / 10);
        assert(decimal(a).len() >= 2);
    }
}

/// Lowercase hexadecimal rendering of `n` without leading zeros (`{:x}`).
pub open spec fn hex(n: nat) -> Seq<char>
    decreases n,
{
    if n < 16 {
        seq![hex_digit_char(n as int)]
    } else {
        hex(n / 16).push(hex_digit_char((n % 16) as int))
    }
}

/// `{:#x}`: `0x` followed by the lowercase hexadecimal digits.
pub open spec fn hex_prefixed(n: nat) -> Seq<char> {
    seq!['0', 'x'] + hex(n)
}

/// `{:02}`: decimal, left-padded with a zero to at least two digits.
pub open spec fn decimal2(n: nat) -> Seq<char> {
    if n < 10 {
        seq!['0'] + decimal(n)
    } else {
        decimal(n)
    }
}

fn digit(d: u64) -> (c: char)
    requires
        d < 16,
    ensures
        c == hex_digit_char(d as int),
{
    if d < 10 {
        ((48 + d) as u8) as char
    } else {
        ((87 + d) as u8) as char
    }
}

/// Appends the decimal rendering of `n`.
pub fn push_decimal(s: &mut String, n: u64)
    ensures
        final(s)@ == old(s)@ + decimal(n as nat),
    decreases n,
{
    if n >= 10 {
        push_decimal(s, n / 10);
    }
    push_char(s, digit(n % 10));
    assert(s@ =~= old(s)@ + decimal(n as nat));
}

/// Appends the decimal rendering of a `u128`.
pub fn push_decimal_wide(s: &mut String, n: u128)
    ensures
        final(s)@ == old(s)@ + decimal(n as nat),
    decreases n,
{
    if n >= 10 {
        push_decimal_wide(s, n / 10);
    }
    push_char(s, digit((n % 10) as u64));
    assert(s@ =~= old(s)@ + decimal(n as nat));
}

/// Appends the lowercase hexadecimal rendering of `n`.
pub fn push_hex(s: &mut String, n: u64)
    ensures
        final(s)@ == old(s)@ + hex(n as nat),
    decreases n,
{
    if n >= 16 {
        push_hex(s, n / 16);
    }
    push_char(s, digit(n % 16));
    assert(s@ =~= old(s)@ + hex(n as nat));
}

/// Appends `0x` and the lowercase hexadecimal rendering of `n`.
pub fn push_hex_prefixed(s: &mut String, n: u64)
    ensures
        final(s)@ == old(s)@ + hex_prefixed(n as nat),
{
    push_char(s, '0');
    push_char(s, 'x');
    push_hex(s, n);
    assert(s@ =~= old(s)@ + hex_prefixed(n as nat));
}

/// `{:02x}`: two lowercase hexadecimal digits.
pub open spec fn hex2(n: nat) -> Seq<char> {
    seq![hex_digit_char((n / 16 % 16) as int), hex_digit_char((n % 16) as int)]
}

/// `{:04x}`: four lowercase hexadecimal digits.
pub open spec fn hex4(n: nat) -> Seq<char> {
    seq![
        hex_digit_char((n / 4096 % 16) as int),
        hex_digit_char((n / 256 % 16) as int),
        hex_digit_char((n / 16 % 16) as int),
        hex_digit_char((n % 16) as int),
    ]
}

/// Appends `n` as two lowercase hexadecimal digits.
pub fn push_hex2(s: &mut String, n: u8)
    ensures
        final(s)@ == old(s)@ + hex2(n as nat),
{
    push_char(s, digit((n / 16 % 16) as u64));
    push_char(s, digit((n % 16) as u64));
    assert(s@ =~= old(s)@ + hex2(n as nat));
}

/// Appends `n` as four lowercase hexadecimal digits.
pub fn push_hex4(s: &mut String, n: u32)
    requires
        n < 0x10000,
    ensures
        final(s)@ == old(s)@ + hex4(n as nat),
{
    push_char(s, digit((n / 4096 % 16) as u64));
    push_char(s, digit((n / 256 % 16) as u64));
    push_char(s, digit((n / 16 % 16) as u64));
    push_char(s, digit((n % 16) as u64));
    assert(s@ =~= old(s)@ + hex4(n as nat));
}

/// Appends `n` zero-padded to two digits.
pub fn push_decimal2(s: &mut String, n: u64)
    ensures
        final(s)@ == old(s)@ + decimal2(n as nat),
{
    if n < 10 {
        push_char(s, '0');
    }
    push_decimal(s, n);
    assert(s@ =~= old(s)@ + decimal2(n as nat));
}

/// Appends a string slice.
pub fn push_str(s: &mut String, t: &str)
    ensures
        final(s)@ == old(s)@ + t@,
{
    s.append(t);
}

/// `{:?}` of a byte slice without its brackets: the decimal values joined
/// by `", "`.
pub open spec fn byte_items(m: Seq<u8>) -> Seq<char>
    decreases m.len(),
{
    if m.len() == 0 {
        Seq::empty()
    } else if m.len() == 1 {
        decimal(m[0] as nat)
    } else {
        byte_items(m.drop_last()) + ", "@ + decimal(m.last() as nat)
    }
}

/// `{:?}` of a byte slice: `[1, 2, 3]`.
pub open spec fn byte_list(m: Seq<u8>) -> Seq<char> {
    "["@ + byte_items(m) + "]"@
}

/// Appends the `{:?}` rendering of a byte slice.
pub fn push_byte_list(s: &mut String, b: &[u8])
    ensures
        final(s)@ == old(s)@ + byte_list(b@),
{
    push_str(s, "[");
    let mut i: usize = 0;
    while i < b.len()
        invariant
            i <= b@.len(),
            s@ == old(s)@ + "["@ + byte_items(b@.take(i as int)),
        decreases b.len() - i,
    {
        let ghost before = s@;
        if i > 0 {
            push_str(s, ", ");
        }
        push_decimal(s, b[i] as u64);
        proof {
            assert(b@.take(i + 1).drop_last() =~= b@.take(i as int));
            assert(b@.take(i + 1).last() == b@[i as int]);
            if i == 0 {
                assert(b@.take(1)[0] == b@[0]);
                assert(s@ =~= old(s)@ + "["@ + byte_items(b@.take(i + 1)));
            } else {
                assert(s@ =~= old(s)@ + "["@ + byte_items(b@.take(i + 1)));
            }
        }
        i += 1;
    }
    assert(b@.take(b@.len() as int) =~= b@);
    push_str(s, "]");
    assert(s@ =~= old(s)@ + byte_list(b@));
}

/// A fresh string holding `t`.
pub fn string_of(t: &str) -> (s: String)
    ensures
        s@ == t@,
{
    String::from_str(t)
}

} // verus!

verus! {

/// `char::is_whitespace`: the Unicode `White_Space` property.
pub open spec fn is_ws(c: char) -> bool {
    let u = c as u32;
    (0x09 <= u <= 0x0D) || u == 0x20 || u == 0x85 || u == 0xA0 || u == 0x1680 || (0x2000 <= u
        <= 0x200A) || u == 0x2028 || u == 0x2029 || u == 0x202F || u == 0x205F || u == 0x3000
}

pub fn is_whitespace(c: char) -> (r: bool)
    ensures
        r == is_ws(c),
{
    let u = c as u32;
    (0x09 <= u && u <= 0x0D) || u == 0x20 || u == 0x85 || u == 0xA0 || u == 0x1680 || (0x2000
        <= u && u <= 0x200A) || u == 0x2028 || u == 0x2029 || u == 0x202F || u == 0x205F || u
        == 0x3000
}

/// `char::is_control`: general category `Cc`.
pub open spec fn is_ctrl(c: char) -> bool {
    let u = c as u32;
    u <= 0x1F || (0x7F <= u <= 0x9F)
}

/// Character classes the trimming helpers strip.
pub enum Strip {
    /// Unicode whitespace (`trim`).
    Whitespace,
    /// `'\0'` (`trim_end_matches('\0')`).
    Nul,
    /// `'.'` (`trim_matches('.')`).
    Dot,
}

pub open spec fn strips(k: Strip, c: char) -> bool {
    match k {
        Strip::Whitespace => is_ws(c),
        Strip::Nul => c == '\0',
        Strip::Dot => c == '.',
    }
}

fn strips_exec(k: &Strip, c: char) -> (r: bool)
    ensures
        r == strips(*k, c),
{
    match k {
        Strip::Whitespace => is_whitespace(c),
        Strip::Nul => c == '\0',
        Strip::Dot => c == '.',
    }
}

/// Index of the first character at or after `i` that `k` does not strip.
pub open spec fn first_kept(s: Seq<char>, k: Strip, i: int) -> int
    decreases s.len() - i,
{
    if i >= s.len() || i < 0 {
        s.len() as int
    } else if !strips(k, s[i]) {
        i
    } else {
        first_kept(s, k, i + 1)
    }
}

/// One past the last character before `j` that `k` does not strip.
pub open spec fn last_kept(s: Seq<char>, k: Strip, j: int) -> int
    decreases j,
{
    if j <= 0 {
        0
    } else if !strips(k, s[j - 1]) {
        j
    } else {
        last_kept(s, k, j - 1)
    }
}

/// `trim_start_matches` for the class `k`.
pub open spec fn trim_start_k(s: Seq<char>, k: Strip) -> Seq<char> {
    s.subrange(first_kept(s, k, 0), s.len() as int)
}

/// `trim_end_matches` for the class `k`.
pub open spec fn trim_end_k(s: Seq<char>, k: Strip) -> Seq<char> {
    s.subrange(0, last_kept(s, k, s.len() as int))
}

/// `trim_matches` for the class `k`: both ends.
pub open spec fn trim_k(s: Seq<char>, k: Strip) -> Seq<char> {
    trim_end_k(trim_start_k(s, k), k)
}

/// `str::trim`.
pub open spec fn trim(s: Seq<char>) -> Seq<char> {
    trim_k(s, Strip::Whitespace)
}

/// Trimming leaves a string alone whose first and last characters are
/// kept.
pub proof fn lemma_trim_k_unchanged(s: Seq<char>, k: Strip)
    requires
        s.len() > 0,
        !strips(k, s[0]),
        !strips(k, s[s.len() - 1]),
    ensures
        trim_k(s, k) == s,
{
    assert(first_kept(s, k, 0) == 0);
    assert(trim_start_k(s, k) =~= s);
    assert(last_kept(s, k, s.len() as int) == s.len());
    assert(trim_end_k(s, k) =~= s);
}

pub proof fn lemma_first_kept_bounds(s: Seq<char>, k: Strip, i: int)
    requires
        0 <= i <= s.len(),
    ensures
        i <= first_kept(s, k, i) <= s.len(),
    decreases s.len() - i,
{
    if i < s.len() && strips(k, s[i]) {
        lemma_first_kept_bounds(s, k, i + 1);
    }
}

pub proof fn lemma_last_kept_bounds(s: Seq<char>, k: Strip, j: int)
    requires
        0 <= j <= s.len(),
    ensures
        0 <= last_kept(s, k, j) <= j,
    decreases j,
{
    if j > 0 && strips(k, s[j - 1]) {
        lemma_last_kept_bounds(s, k, j - 1);
    }
}

/// Copies `v[lo..hi]`.
pub fn copy_chars(v: &[char], lo: usize, hi: usize) -> (r: Vec<char>)
    requires
        lo <= hi <= v@.len(),
    ensures
        r@ == v@.subrange(lo as int, hi as int),
{
    let mut r: Vec<char> = Vec::new();
    let mut i = lo;
    while i < hi
        invariant
            lo <= i <= hi <= v@.len(),
            r@ == v@.subrange(lo as int, i as int),
        decreases hi - i,
    {
        r.push(v[i]);
        assert(v@.subrange(lo as int, i + 1) =~= v@.subrange(lo as int, i as int).push(v@[i as int]));
        i += 1;
    }
    r
}

/// Strips the characters of class `k` from the start (`start`) and / or
/// the end (`end`) of `v`.
pub fn trim_chars(v: &[char], k: Strip, start: bool, end: bool) -> (r: Vec<char>)
    ensures
        r@ == {
            let a = if start {
                trim_start_k(v@, k)
            } else {
                v@
            };
            if end {
                trim_end_k(a, k)
            } else {
                a
            }
        },
{
    let n = v.len();
    let mut i: usize = 0;
    if start {
        while i < n && strips_exec(&k, v[i])
            invariant
                n == v@.len(),
                i <= n,
                first_kept(v@, k, 0) == first_kept(v@, k, i as int),
            decreases n - i,
        {
            i += 1;
        }
        proof {
            lemma_first_kept_bounds(v@, k, i as int);
        }
    }
    let ghost a = v@.subrange(i as int, n as int);
    let mut j: usize = n;
    if end {
        while j > i && strips_exec(&k, v[j - 1])
            invariant
                n == v@.len(),
                i <= j <= n,
                a == v@.subrange(i as int, n as int),
                last_kept(a, k, a.len() as int) == last_kept(a, k, j - i),
            decreases j,
        {
            j -= 1;
        }
        proof {
            lemma_last_kept_bounds(a, k, (j - i) as int);
            assert(a.subrange(0, (j - i) as int) =~= v@.subrange(i as int, j as int));
        }
    }
    proof {
        assert(v@.subrange(0, n as int) =~= v@);
    }
    copy_chars(v, i, j)
}

/// `str::trim` on a character vector.
pub fn trim_ws(v: &[char]) -> (r: Vec<char>)
    ensures
        r@ == trim(v@),
{
    trim_chars(v, Strip::Whitespace, true, true)
}

/// `char::to_ascii_lowercase`.
pub open spec fn lower(c: char) -> char {
    if 'A' <= c <= 'Z' {
        ((c as u32) + 32) as char
    } else {
        c
    }
}

/// `to_ascii_lowercase` on a character sequence.
pub open spec fn lower_all(s: Seq<char>) -> Seq<char> {
    s.map_values(|c: char| lower(c))
}

pub fn to_lower(v: &[char]) -> (r: Vec<char>)
    ensures
        r@ == lower_all(v@),
{
    let mut r: Vec<char> = Vec::new();
    let mut i: usize = 0;
    while i < v.len()
        invariant
            i <= v@.len(),
            r@ == lower_all(v@.subrange(0, i as int)),
        decreases v.len() - i,
    {
        let c = v[i];
        let l = if 'A' <= c && c <= 'Z' {
            ((c as u32 + 32) as u8) as char
        } else {
            c
        };
        r.push(l);
        assert(lower_all(v@.subrange(0, i + 1)) =~= lower_all(v@.subrange(0, i as int)).push(lower(v@[i as int])));
        i += 1;
    }
    assert(v@.subrange(0, v@.len() as int) =~= v@);
    r
}

/// Whether `s` starts with `p`.
pub open spec fn starts_with(s: Seq<char>, p: Seq<char>) -> bool {
    s.len() >= p.len() && s.subrange(0, p.len() as int) == p
}

/// Whether `s` ends with `p`.
pub open spec fn ends_with(s: Seq<char>, p: Seq<char>) -> bool {
    s.len() >= p.len() && s.subrange(s.len() - p.len(), s.len() as int) == p
}

/// Whether `v[off..]` starts with `p`.
pub fn chars_have_at(v: &[char], off: usize, p: &[char]) -> (r: bool)
    ensures
        r == (off + p@.len() <= v@.len() && v@.subrange(off as int, off + p@.len()) == p@),
{
    let n = v.len();
    if off > n || p.len() > n - off {
        return false;
    }
    let mut i: usize = 0;
    while i < p.len()
        invariant
            n == v@.len(),
            off + p@.len() <= n,
            i <= p@.len(),
            forall|j: int| 0 <= j < i ==> v@[off + j] == p@[j],
        decreases p.len() - i,
    {
        if v[off + i] != p[i] {
            assert(v@.subrange(off as int, off + p@.len())[i as int] != p@[i as int]);
            return false;
        }
        i += 1;
    }
    assert(v@.subrange(off as int, off + p@.len()) =~= p@);
    true
}

/// Whether `v` equals the literal `lit`.
pub fn chars_eq(v: &[char], lit: &str) -> (r: bool)
    ensures
        r == (v@ == lit@),
{
    let p = chars_of(lit);
    let r = v.len() == p.len() && chars_have_at(v, 0, p.as_slice());
    proof {
        if v@.len() == p@.len() {
            assert(v@.subrange(0, p@.len() as int) =~= v@);
        }
    }
    r
}

/// Whether two strings hold the same characters.
pub fn str_eq(a: &str, b: &str) -> (r: bool)
    ensures
        r == (a@ == b@),
{
    let av = chars_of(a);
    let bv = chars_of(b);
    let r = av.len() == bv.len() && chars_have_at(av.as_slice(), 0, bv.as_slice());
    proof {
        if av@.len() == bv@.len() {
            assert(av@.subrange(0, bv@.len() as int) =~= av@);
        }
    }
    r
}

/// Whether `v` starts with the literal `lit`.
pub fn chars_start_with(v: &[char], lit: &str) -> (r: bool)
    ensures
        r == starts_with(v@, lit@),
{
    let p = chars_of(lit);
    chars_have_at(v, 0, p.as_slice())
}

/// Whether `v` ends with the literal `lit`.
pub fn chars_end_with(v: &[char], lit: &str) -> (r: bool)
    ensures
        r == ends_with(v@, lit@),
{
    let p = chars_of(lit);
    if p.len() > v.len() {
        return false;
    }
    chars_have_at(v, v.len() - p.len(), p.as_slice())
}

/// `trim_end_matches(suffix)`: removes every trailing repetition of `suf`.
pub open spec fn strip_suffix_all(s: Seq<char>, suf: Seq<char>) -> Seq<char>
    decreases s.len(),
{
    if suf.len() > 0 && ends_with(s, suf) {
        strip_suffix_all(s.subrange(0, s.len() - suf.len()), suf)
    } else {
        s
    }
}

/// `trim_end_matches(lit)` on a character vector.
pub fn strip_suffix_repeated(v: &[char], lit: &str) -> (r: Vec<char>)
    ensures
        r@ == strip_suffix_all(v@, lit@),
{
    let p = chars_of(lit);
    let mut j: usize = v.len();
    proof {
        assert(v@.subrange(0, v@.len() as int) =~= v@);
    }
    if p.len() > 0 {
        while j >= p.len() && chars_have_at(v, j - p.len(), p.as_slice())
            invariant
                p@ == lit@,
                p@.len() > 0,
                j <= v@.len(),
                strip_suffix_all(v@, lit@) == strip_suffix_all(v@.subrange(0, j as int), lit@),
            decreases j,
        {
            proof {
                let t = v@.subrange(0, j as int);
                assert(t.subrange(t.len() - p@.len(), t.len() as int) =~= v@.subrange(j - p@.len(), j as int));
                assert(t.subrange(0, t.len() - p@.len()) =~= v@.subrange(0, j - p@.len()));
            }
            j -= p.len();
        }
        proof {
            let t = v@.subrange(0, j as int);
            if t.len() >= p@.len() {
                assert(t.subrange(t.len() - p@.len(), t.len() as int) =~= v@.subrange(j - p@.len(), j as int));
            }
        }
    }
    proof {
        assert(v@.subrange(0, v@.len() as int) =~= v@);
    }
    copy_chars(v, 0, j)
}

/// Index just past the last path separator (`/` or `\`) before `j`.
pub open spec fn base_start(s: Seq<char>, j: int) -> int
    decreases j,
{
    if j <= 0 {
        0
    } else if s[j - 1] == '/' || s[j - 1] == '\\' {
        j
    } else {
        base_start(s, j - 1)
    }
}

/// `rsplit(['/', '\\']).next()`: the text after the last separator.
pub open spec fn basename(s: Seq<char>) -> Seq<char> {
    s.subrange(base_start(s, s.len() as int), s.len() as int)
}

pub fn basename_chars(v: &[char]) -> (r: Vec<char>)
    ensures
        r@ == basename(v@),
{
    let n = v.len();
    let mut j: usize = n;
    while j > 0 && v[j - 1] != '/' && v[j - 1] != '\\'
        invariant
            n == v@.len(),
            j <= n,
            base_start(v@, n as int) == base_start(v@, j as int),
        decreases j,
    {
        j -= 1;
    }
    copy_chars(v, j, n)
}

/// What `String::from_utf8_lossy` makes of `b`.
pub uninterp spec fn utf8_lossy(b: Seq<u8>) -> Seq<char>;

/// `String::from_utf8_lossy(b)` as a character vector.
///
/// Claimed: the characters are those of the lossy decoding of `b`, and for
/// valid UTF-8 input they are exactly its decoding (std: "If our byte slice
/// is valid UTF-8, then ... no replacement characters").
#[verifier::external_body]
pub(crate) fn lossy_chars(b: &[u8]) -> (r: Vec<char>)
    ensures
        r@ == utf8_lossy(b@),
        vstd::utf8::valid_utf8(b@) ==> r@ == vstd::utf8::decode_utf8(b@),
{
    String::from_utf8_lossy(b).chars().collect()
}

} // verus!
