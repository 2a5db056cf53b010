//! Output file naming for extracted presets: the `--name-template`
//! rendering, its fallback chain, and the duplicate-name counters.

use vstd::prelude::*;
use vstd::slice::slice_subrange;
use crate::scan::{hostile, lemma_sanitize_safe, sanitize_filename, sanitize_spec};
use crate::strs::{
    chars_eq, chars_of, copy_chars, decimal, decimal2, lemma_decimal_digits, lemma_decimal_injective, lossy_chars, push_char, push_decimal,
    push_decimal2, push_str, str_eq, string_from_chars, string_of, trim, trim_chars, trim_end_k,
    trim_ws, utf8_lossy, Strip,
};

verus! {

broadcast use vstd::string::group_string_axioms;

/// The built-in naming template; it reproduces the legacy `NN_name.fxp`
/// names, including how duplicate names are disambiguated.
pub const DEFAULT_NAME_TEMPLATE: &'static str = "{index}_{preset}";

/// What a name is rendered from: the 1-based index, the preset, channel,
/// author and category texts.
pub type NameCtx = (nat, Seq<char>, Seq<char>, Seq<char>, Seq<char>);

/// The base-name fallback chain: preset name, then channel name, then
/// `Serum N`.
pub open spec fn fallback_spec(index: nat, preset: Seq<char>, channel: Seq<char>) -> Seq<char> {
    if preset.len() > 0 {
        preset
    } else if channel.len() > 0 {
        channel
    } else {
        "Serum "@ + decimal(index)
    }
}

/// The current base-name fallback chain: preset name -> channel name ->
/// `Serum N` (unsanitized).
pub fn naming_fallback(index: usize, preset: &str, channel: &str) -> (r: String)
    ensures
        r@ == fallback_spec(index as nat, preset@, channel@),
{
    if !preset.is_empty() {
        string_of(preset)
    } else if !channel.is_empty() {
        string_of(channel)
    } else {
        let mut s = string_of("Serum ");
        push_decimal(&mut s, index as u64);
        s
    }
}

/// A substituted template value: sanitized, but an empty value stays empty.
pub open spec fn sanitize_value_spec(v: Seq<char>) -> Seq<char> {
    if v.len() == 0 {
        Seq::empty()
    } else {
        sanitize_spec(v)
    }
}

/// Sanitize one substituted template value. Unlike [`sanitize_filename`],
/// an empty value stays empty so that all-empty renders can be detected and
/// routed through the fallback chain.
pub fn sanitize_template_value(value: &str) -> (r: String)
    ensures
        r@ == sanitize_value_spec(value@),
{
    if value.is_empty() {
        String::new()
    } else {
        sanitize_filename(value)
    }
}

/// The value of placeholder `name`; unknown placeholders are empty.
pub open spec fn placeholder_spec(name: Seq<char>, ctx: NameCtx) -> Seq<char> {
    let (index, preset, channel, author, category) = ctx;
    if name == "index"@ {
        decimal2(index)
    } else if name == "preset"@ {
        fallback_spec(index, preset, channel)
    } else if name == "channel"@ {
        channel
    } else if name == "author"@ {
        author
    } else if name == "category"@ {
        category
    } else {
        Seq::empty()
    }
}

/// The first index at or after `i` where `s` holds `c`.
pub open spec fn index_of(s: Seq<char>, c: char, i: int) -> Option<int>
    decreases s.len() - i,
{
    if i < 0 || i >= s.len() {
        None
    } else if s[i] == c {
        Some(i)
    } else {
        index_of(s, c, i + 1)
    }
}

pub proof fn lemma_index_of_bounds(s: Seq<char>, c: char, i: int)
    ensures
        index_of(s, c, i) matches Some(j) ==> 0 <= i <= j < s.len() && s[j] == c,
    decreases s.len() - i,
{
    if !(i < 0 || i >= s.len()) && s[i] != c {
        lemma_index_of_bounds(s, c, i + 1);
    }
}

/// The template `t` rendered from `pos` on: literal text kept verbatim,
/// every `{name}` replaced by its sanitized value; a `{` without a closing
/// `}` is literal text.
pub open spec fn render_from(t: Seq<char>, pos: int, ctx: NameCtx) -> Seq<char>
    decreases t.len() - pos,
{
    if pos < 0 || pos > t.len() {
        Seq::empty()
    } else {
        match index_of(t, '{', pos) {
            None => t.subrange(pos, t.len() as int),
            Some(o) => match index_of(t, '}', o + 1) {
                None => t.subrange(pos, t.len() as int),
                Some(c) => {
                    proof {
                        lemma_index_of_bounds(t, '{', pos);
                        lemma_index_of_bounds(t, '}', o + 1);
                    }
                    t.subrange(pos, o) + sanitize_value_spec(
                        placeholder_spec(t.subrange(o + 1, c), ctx),
                    ) + render_from(t, c + 1, ctx)
                },
            },
        }
    }
}

/// A rendered name; an empty render falls back to the sanitized fallback
/// chain.
pub open spec fn render_spec(t: Seq<char>, ctx: NameCtx) -> Seq<char> {
    let out = render_from(t, 0, ctx);
    if out.len() == 0 {
        sanitize_spec(fallback_spec(ctx.0, ctx.1, ctx.2))
    } else {
        out
    }
}

/// No hostile character in the rendered part of a template whose text
/// holds none.
proof fn lemma_render_from_safe(t: Seq<char>, pos: int, ctx: NameCtx)
    requires
        forall|i: int| 0 <= i < t.len() ==> !hostile(#[trigger] t[i]),
    ensures
        forall|i: int| 0 <= i < render_from(t, pos, ctx).len() ==> !hostile(#[trigger] render_from(t, pos, ctx)[i]),
    decreases t.len() - pos,
{
    if 0 <= pos <= t.len() {
        lemma_index_of_bounds(t, '{', pos);
        match index_of(t, '{', pos) {
            None => {},
            Some(o) => {
                lemma_index_of_bounds(t, '}', o + 1);
                match index_of(t, '}', o + 1) {
                    None => {},
                    Some(c) => {
                        lemma_render_from_safe(t, c + 1, ctx);
                        let v = placeholder_spec(t.subrange(o + 1, c), ctx);
                        lemma_sanitize_safe(v);
                        let a = t.subrange(pos, o);
                        let b = sanitize_value_spec(v);
                        let r = render_from(t, c + 1, ctx);
                        assert(render_from(t, pos, ctx) == a + b + r);
                        assert forall|i: int| 0 <= i < (a + b + r).len() implies !hostile(#[trigger] (a + b + r)[i]) by {
                            if i < a.len() {
                                assert((a + b + r)[i] == t[pos + i]);
                            } else if i < a.len() + b.len() {
                                assert((a + b + r)[i] == b[i - a.len()]);
                            } else {
                                assert((a + b + r)[i] == r[i - a.len() - b.len()]);
                            }
                        }
                    },
                }
            },
        }
    }
}

/// Template values cannot inject path separators or other hostile
/// characters: every substituted value is sanitized on its own, so a name
/// rendered from a template whose own text holds none holds none either.
pub proof fn lemma_render_safe(t: Seq<char>, ctx: NameCtx)
    requires
        forall|i: int| 0 <= i < t.len() ==> !hostile(#[trigger] t[i]),
    ensures
        forall|i: int| 0 <= i < render_spec(t, ctx).len() ==> !hostile(#[trigger] render_spec(t, ctx)[i]),
        forall|i: int|
            0 <= i < template_base_spec(t, ctx).len() ==> !hostile(#[trigger] template_base_spec(t, ctx)[i]),
{
    lemma_render_from_safe(t, 0, ctx);
    lemma_sanitize_safe(fallback_spec(ctx.0, ctx.1, ctx.2));
}

fn find_char(v: &[char], c: char, from: usize) -> (r: Option<usize>)
    ensures
        match r {
            Some(j) => index_of(v@, c, from as int) == Some(j as int),
            None => index_of(v@, c, from as int) is None,
        },
{
    let mut i = from;
    while i < v.len()
        invariant
            from <= i,
            index_of(v@, c, from as int) == index_of(v@, c, i as int),
        decreases v.len() - i,
    {
        if v[i] == c {
            return Some(i);
        }
        i += 1;
    }
    None
}

fn placeholder_value(
    name: &[char],
    index: usize,
    preset: &str,
    channel: &str,
    author: &str,
    category: &str,
) -> (r: String)
    ensures
        r@ == placeholder_spec(name@, (index as nat, preset@, channel@, author@, category@)),
{
    if chars_eq(name, "index") {
        let mut s = String::new();
        push_decimal2(&mut s, index as u64);
        s
    } else if chars_eq(name, "preset") {
        naming_fallback(index, preset, channel)
    } else if chars_eq(name, "channel") {
        string_of(channel)
    } else if chars_eq(name, "author") {
        string_of(author)
    } else if chars_eq(name, "category") {
        string_of(category)
    } else {
        String::new()
    }
}

/// Render an output file name template for one instance.
///
/// Placeholders: `{index}` (1-based, zero-padded to two digits), `{preset}`
/// (follows the preset -> channel -> `Serum N` fallback chain), `{channel}`,
/// `{author}`, `{category}`. Unknown placeholders resolve to empty, as do
/// empty values, and every substituted value is sanitized on its own - never
/// the template as a whole, so hostile preset metadata cannot inject path
/// separators. Template literals are kept verbatim.
/// A render that ends up empty falls back to the existing naming chain.
pub fn render_name_template(
    template: &str,
    index: usize,
    preset: &str,
    channel: &str,
    author: &str,
    category: &str,
) -> (r: String)
    ensures
        r@ == render_spec(template@, (index as nat, preset@, channel@, author@, category@)),
{
    let ghost ctx: NameCtx = (index as nat, preset@, channel@, author@, category@);
    let t = chars_of(template);
    let n = t.len();
    let mut out = String::new();
    let mut pos: usize = 0;
    loop
        invariant_except_break
            render_from(t@, 0, ctx) == out@ + render_from(t@, pos as int, ctx),
        invariant
            n == t@.len(),
            t@ == template@,
            pos <= n,
            ctx == (index as nat, preset@, channel@, author@, category@),
        ensures
            render_from(t@, 0, ctx) == out@,
        decreases n - pos,
    {
        proof {
            lemma_index_of_bounds(t@, '{', pos as int);
        }
        let open = match find_char(t.as_slice(), '{', pos) {
            Some(o) => o,
            None => {
                push_str(&mut out, string_from_chars(copy_chars(t.as_slice(), pos, n).as_slice()).as_str());
                break;
            },
        };
        proof {
            lemma_index_of_bounds(t@, '}', open + 1);
        }
        let close = match find_char(t.as_slice(), '}', open + 1) {
            Some(c) => c,
            None => {
                push_str(&mut out, string_from_chars(copy_chars(t.as_slice(), pos, n).as_slice()).as_str());
                break;
            },
        };
        let ghost before = out@;
        push_str(&mut out, string_from_chars(copy_chars(t.as_slice(), pos, open).as_slice()).as_str());
        let name = copy_chars(t.as_slice(), open + 1, close);
        let value = placeholder_value(name.as_slice(), index, preset, channel, author, category);
        let clean = sanitize_template_value(value.as_str());
        push_str(&mut out, clean.as_str());
        proof {
            let lit = t@.subrange(pos as int, open as int);
            let val = sanitize_value_spec(placeholder_spec(t@.subrange(open + 1, close as int), ctx));
            assert(render_from(t@, pos as int, ctx) == lit + val + render_from(t@, close + 1, ctx));
            assert(out@ == before + lit + val);
            assert(before + (lit + val + render_from(t@, close + 1, ctx)) =~= out@ + render_from(
                t@,
                close + 1,
                ctx,
            ));
        }
        pos = close + 1;
    }
    if out.as_str().is_empty() {
        let fb = naming_fallback(index, preset, channel);
        sanitize_filename(fb.as_str())
    } else {
        out
    }
}

/// The base name of one instance under `template`: the sanitized fallback
/// chain for the default template (its index prefix and duplicate suffix
/// are added by [`next_output_file_name`]), the full render otherwise.
pub open spec fn template_base_spec(template: Seq<char>, ctx: NameCtx) -> Seq<char> {
    if template == DEFAULT_NAME_TEMPLATE@ {
        sanitize_spec(fallback_spec(ctx.0, ctx.1, ctx.2))
    } else {
        render_spec(template, ctx)
    }
}

/// The base name for one instance under `name_template`.
///
/// For [`DEFAULT_NAME_TEMPLATE`] this is the index-free legacy base
/// (sanitized fallback chain): the `{index}` prefix and the duplicate suffix
/// are added by [`next_output_file_name`], keyed on this base, so the default
/// output matches the legacy naming exactly. Any other template renders to
/// the full name, which is also the dedup key.
pub fn template_base(
    name_template: &str,
    index: usize,
    preset: &str,
    channel: &str,
    author: &str,
    category: &str,
) -> (r: String)
    ensures
        r@ == template_base_spec(name_template@, (index as nat, preset@, channel@, author@, category@)),
{
    if str_eq(name_template, DEFAULT_NAME_TEMPLATE) {
        let fb = naming_fallback(index, preset, channel);
        sanitize_filename(fb.as_str())
    } else {
        render_name_template(name_template, index, preset, channel, author, category)
    }
}

/// Index of the entry for `key` at or after `i`.
pub open spec fn first_name(e: Seq<(String, usize)>, key: Seq<char>, i: int) -> Option<int>
    decreases e.len() - i,
{
    if i < 0 || i >= e.len() {
        None
    } else if e[i].0@ == key {
        Some(i)
    } else {
        first_name(e, key, i + 1)
    }
}

proof fn lemma_first_name_bounds(e: Seq<(String, usize)>, key: Seq<char>, i: int)
    ensures
        first_name(e, key, i) matches Some(j) ==> 0 <= i <= j < e.len() && e[j].0@ == key,
    decreases e.len() - i,
{
    if !(i < 0 || i >= e.len()) && e[i].0@ != key {
        lemma_first_name_bounds(e, key, i + 1);
    }
}

/// Name counters that span one input: how many output names each base has
/// taken so far.
pub struct UsedNames {
    entries: Vec<(String, usize)>,
}

impl UsedNames {
    /// How many names `key` has taken.
    pub closed spec fn count(&self, key: Seq<char>) -> nat {
        match first_name(self.entries@, key, 0) {
            Some(j) => self.entries@[j].1 as nat,
            None => 0,
        }
    }

    /// No name taken yet.
    pub fn new() -> (r: Self)
        ensures
            forall|k: Seq<char>| #[trigger] r.count(k) == 0,
    {
        UsedNames { entries: Vec::new() }
    }

    /// How many names `key` has taken.
    pub fn taken(&self, key: &str) -> (r: usize)
        ensures
            r as nat == self.count(key@),
    {
        proof {
            lemma_first_name_bounds(self.entries@, key@, 0);
        }
        let mut i: usize = 0;
        while i < self.entries.len()
            invariant
                i <= self.entries@.len(),
                first_name(self.entries@, key@, 0) == first_name(self.entries@, key@, i as int),
            decreases self.entries.len() - i,
        {
            if str_eq(self.entries[i].0.as_str(), key) {
                return self.entries[i].1;
            }
            i += 1;
        }
        0
    }

    /// Takes one more name for `key`; returns the new count.
    fn take(&mut self, key: &str) -> (n: usize)
        requires
            old(self).count(key@) < usize::MAX,
        ensures
            n as nat == old(self).count(key@) + 1,
            final(self).count(key@) == n,
            forall|k: Seq<char>| k != key@ ==> #[trigger] final(self).count(k) == old(self).count(k),
    {
        proof {
            lemma_first_name_bounds(self.entries@, key@, 0);
        }
        let ghost e0 = self.entries@;
        let mut i: usize = 0;
        while i < self.entries.len()
            invariant
                i <= self.entries@.len(),
                self.entries@ == e0,
                old(self).entries@ == e0,
                old(self).count(key@) < usize::MAX,
                first_name(e0, key@, 0) == first_name(e0, key@, i as int),
            decreases self.entries.len() - i,
        {
            if str_eq(self.entries[i].0.as_str(), key) {
                assert(first_name(e0, key@, i as int) == Some(i as int));
                let c = self.entries[i].1 + 1;
                let k = self.entries[i].0.clone();
                self.entries.set(i, (k, c));
                proof {
                    assert forall|k2: Seq<char>| k2 != key@ implies #[trigger] self.count(k2) == old(self).count(k2) by {
                        lemma_first_name_eq(e0, self.entries@, k2, i as int, 0);
                    }
                    lemma_first_name_eq_key(e0, self.entries@, key@, i as int);
                }
                return c;
            }
            i += 1;
        }
        self.entries.push((string_of(key), 1));
        proof {
            assert forall|k2: Seq<char>| k2 != key@ implies #[trigger] self.count(k2) == old(self).count(k2) by {
                lemma_first_name_push(e0, self.entries@, k2, 0);
            }
            lemma_first_name_push_key(e0, self.entries@, key@, 0);
        }
        1
    }
}

proof fn lemma_first_name_eq(e: Seq<(String, usize)>, e2: Seq<(String, usize)>, k: Seq<char>, at: int, i: int)
    requires
        0 <= at < e.len(),
        e2.len() == e.len(),
        e2[at].0@ == e[at].0@,
        e[at].0@ != k,
        forall|j: int| 0 <= j < e.len() && j != at ==> e2[j] == e[j],
    ensures
        first_name(e2, k, i) == first_name(e, k, i),
        first_name(e, k, i) matches Some(j) ==> e2[j] == e[j],
    decreases e.len() - i,
{
    lemma_first_name_bounds(e, k, i);
    if 0 <= i < e.len() {
        lemma_first_name_eq(e, e2, k, at, i + 1);
    }
}

proof fn lemma_first_name_eq_key(e: Seq<(String, usize)>, e2: Seq<(String, usize)>, k: Seq<char>, at: int)
    requires
        0 <= at < e.len(),
        e2 == e.update(at, (e[at].0, (e[at].1 + 1) as usize)),
        e[at].0@ == k,
        first_name(e, k, 0) == first_name(e, k, at),
    ensures
        first_name(e2, k, 0) == Some(at),
        first_name(e, k, 0) == Some(at),
{
    assert(first_name(e, k, at) == Some(at));
    assert(first_name(e2, k, at) == Some(at));
    lemma_first_name_same_prefix(e, e2, k, 0, at);
}

proof fn lemma_first_name_same_prefix(e: Seq<(String, usize)>, e2: Seq<(String, usize)>, k: Seq<char>, i: int, at: int)
    requires
        0 <= i <= at < e.len(),
        e2.len() == e.len(),
        forall|j: int| 0 <= j < at ==> e2[j] == e[j],
        first_name(e, k, i) == first_name(e, k, at),
        first_name(e, k, at) == Some(at),
        first_name(e2, k, at) == Some(at),
    ensures
        first_name(e2, k, i) == Some(at),
    decreases at - i,
{
    if i < at {
        lemma_first_name_bounds(e, k, i + 1);
        assert(e[i].0@ != k);
        assert(first_name(e, k, i + 1) == first_name(e, k, at));
        lemma_first_name_same_prefix(e, e2, k, i + 1, at);
    }
}

proof fn lemma_first_name_push(e: Seq<(String, usize)>, e2: Seq<(String, usize)>, k: Seq<char>, i: int)
    requires
        0 <= i,
        e2.len() == e.len() + 1,
        forall|j: int| 0 <= j < e.len() ==> e2[j] == e[j],
        e2[e.len() as int].0@ != k,
    ensures
        first_name(e2, k, i) == first_name(e, k, i),
        first_name(e, k, i) matches Some(j) ==> e2[j] == e[j],
    decreases e2.len() - i,
{
    lemma_first_name_bounds(e, k, i);
    if i < e2.len() {
        lemma_first_name_push(e, e2, k, i + 1);
    }
}

proof fn lemma_first_name_push_key(e: Seq<(String, usize)>, e2: Seq<(String, usize)>, k: Seq<char>, i: int)
    requires
        0 <= i <= e.len(),
        e2.len() == e.len() + 1,
        forall|j: int| 0 <= j < e.len() ==> e2[j] == e[j],
        e2[e.len() as int].0@ == k,
        first_name(e, k, i) is None,
    ensures
        first_name(e2, k, i) == Some(e.len() as int),
    decreases e.len() - i,
{
    if i < e.len() {
        lemma_first_name_push_key(e, e2, k, i + 1);
    }
}

/// The output file name taken as the `n`-th for `base`: `_n` is added from
/// the second on; the default template puts the index prefix first.
pub open spec fn file_name_spec(base: Seq<char>, index: nat, is_default_template: bool, n: nat) -> Seq<char> {
    let suffix = dup_suffix(n);
    if is_default_template {
        decimal2(index) + "_"@ + base + suffix + ".fxp"@
    } else {
        base + suffix + ".fxp"@
    }
}

/// A `decimal2` rendering is a string of ASCII digits.
proof fn lemma_decimal2_digits(n: nat)
    ensures
        decimal2(n).len() >= 1,
        forall|i: int| 0 <= i < decimal2(n).len() ==> '0' <= #[trigger] decimal2(n)[i] <= '9',
{
    lemma_decimal_digits(n);
    if n < 10 {
        assert forall|i: int| 0 <= i < decimal2(n).len() implies '0' <= #[trigger] decimal2(n)[i] <= '9' by {
            if i > 0 {
                assert(decimal2(n)[i] == decimal(n)[i - 1]);
            }
        }
    }
}

/// The duplicate suffix of the `n`-th name.
pub open spec fn dup_suffix(n: nat) -> Seq<char> {
    if n == 1 {
        Seq::empty()
    } else {
        "_"@ + decimal(n)
    }
}

proof fn lemma_dup_suffix_injective(n1: nat, n2: nat)
    requires
        1 <= n1,
        1 <= n2,
        dup_suffix(n1) == dup_suffix(n2),
    ensures
        n1 == n2,
{
    reveal_strlit("_");
    lemma_decimal_digits(n1);
    lemma_decimal_digits(n2);
    if n1 != 1 && n2 != 1 {
        assert(dup_suffix(n1).drop_first() =~= decimal(n1));
        assert(dup_suffix(n2).drop_first() =~= decimal(n2));
        lemma_decimal_injective(n1, n2);
    }
}

/// Names taken for one base never repeat: the `n`-th name for a base
/// differs from every other one taken for it, whatever the indices.
pub proof fn lemma_file_names_distinct(base: Seq<char>, i1: nat, i2: nat, is_default_template: bool, n1: nat, n2: nat)
    requires
        1 <= n1,
        1 <= n2,
        n1 != n2,
    ensures
        file_name_spec(base, i1, is_default_template, n1) != file_name_spec(base, i2, is_default_template, n2),
{
    reveal_strlit("_");
    reveal_strlit(".fxp");
    let s1 = dup_suffix(n1);
    let s2 = dup_suffix(n2);
    let f1 = file_name_spec(base, i1, is_default_template, n1);
    let f2 = file_name_spec(base, i2, is_default_template, n2);
    if f1 == f2 {
        if is_default_template {
            let x1 = decimal2(i1);
            let x2 = decimal2(i2);
            lemma_decimal2_digits(i1);
            lemma_decimal2_digits(i2);
            assert(f1 == x1 + "_"@ + base + s1 + ".fxp"@);
            assert(f2 == x2 + "_"@ + base + s2 + ".fxp"@);
            if x1.len() < x2.len() {
                assert(f1[x1.len() as int] == '_');
                assert(f2[x1.len() as int] == x2[x1.len() as int]);
            } else if x2.len() < x1.len() {
                assert(f2[x2.len() as int] == '_');
                assert(f1[x2.len() as int] == x1[x2.len() as int]);
            } else {
                let l = (x1.len() + 1 + base.len()) as int;
                assert(f1.subrange(l, f1.len() - 4) =~= s1);
                assert(f2.subrange(l, f2.len() - 4) =~= s2);
                lemma_dup_suffix_injective(n1, n2);
            }
        } else {
            assert(f1 == base + s1 + ".fxp"@);
            assert(f2 == base + s2 + ".fxp"@);
            let l = base.len() as int;
            assert(f1.subrange(l, f1.len() - 4) =~= s1);
            assert(f2.subrange(l, f2.len() - 4) =~= s2);
            lemma_dup_suffix_injective(n1, n2);
        }
    }
}

/// Consume one dedup slot for `base` and build the output file name.
///
/// Under the default template the suffix is inserted between the index
/// prefix and the base name (`01_Lead.fxp`, then `02_Lead_2.fxp`), because
/// dedup keys on the index-free base. Custom templates key dedup on the
/// whole rendered name and append the suffix at the end (`Lead.fxp`, then
/// `Lead_2.fxp`).
pub fn next_output_file_name(
    used_names: &mut UsedNames,
    base: &str,
    index: usize,
    is_default_template: bool,
) -> (r: String)
    requires
        old(used_names).count(base@) < usize::MAX,
    ensures
        final(used_names).count(base@) == old(used_names).count(base@) + 1,
        forall|k: Seq<char>| k != base@ ==> #[trigger] final(used_names).count(k) == old(used_names).count(k),
        r@ == file_name_spec(base@, index as nat, is_default_template, old(used_names).count(base@) + 1),
{
    let n = used_names.take(base);
    let mut out = String::new();
    if is_default_template {
        push_decimal2(&mut out, index as u64);
        push_str(&mut out, "_");
    }
    push_str(&mut out, base);
    if n != 1 {
        push_str(&mut out, "_");
        push_decimal(&mut out, n as u64);
    }
    push_str(&mut out, ".fxp");
    proof {
        reveal_strlit("_");
        reveal_strlit(".fxp");
    }
    assert(out@ =~= file_name_spec(base@, index as nat, is_default_template, n as nat));
    out
}


/// The member part of an input name: the text after the last `#` (an
/// archive member is named `archive#member`), the whole name when there is
/// none.
pub open spec fn member_part_spec(name: Seq<char>) -> Seq<char>
    decreases name.len(),
{
    if name.len() == 0 {
        name
    } else if name.last() == '#' {
        Seq::empty()
    } else {
        member_part_spec(name.drop_last()).push(name.last())
    }
}

/// The text after the last `#` of `name` (see [`member_part_spec`]).
pub fn member_part(name: &str) -> (r: String)
    ensures
        r@ == member_part_spec(name@),
{
    let cs = chars_of(name);
    let n = cs.len();
    let mut start: usize = n;
    proof {
        assert(cs@.subrange(0, n as int) =~= cs@);
        assert(cs@.subrange(n as int, n as int) =~= Seq::<char>::empty());
        assert(member_part_spec(cs@) + Seq::<char>::empty() =~= member_part_spec(cs@));
    }
    while start > 0 && cs[start - 1] != '#'
        invariant
            start <= n,
            n == cs@.len(),
            cs@ == name@,
            member_part_spec(name@) == member_part_spec(cs@.subrange(0, start as int)) + cs@.subrange(
                start as int,
                n as int,
            ),
        decreases start,
    {
        proof {
            let pre = cs@.subrange(0, start as int);
            assert(pre.drop_last() =~= cs@.subrange(0, start - 1));
            assert(cs@.subrange(start - 1, n as int) =~= seq![cs@[start - 1]] + cs@.subrange(
                start as int,
                n as int,
            ));
            assert(member_part_spec(cs@.subrange(0, start - 1)).push(pre.last())
                + cs@.subrange(start as int, n as int) =~= member_part_spec(cs@.subrange(0, start - 1))
                + cs@.subrange(start - 1, n as int));
        }
        start -= 1;
    }
    proof {
        if start > 0 {
            assert(cs@.subrange(0, start as int).last() == '#');
        } else {
            assert(cs@.subrange(0, 0) =~= Seq::<char>::empty());
        }
        assert(member_part_spec(name@) =~= cs@.subrange(start as int, n as int));
    }
    string_from_chars(slice_subrange(cs.as_slice(), start, n))
}

/// The default output name of the `n`-th converted archive member with the
/// sanitized stem `base`: `<input stem>_<base>_serum2.flp`, with `_n` before
/// `_serum2` from the second on.
pub open spec fn archive_name_spec(input_stem: Seq<char>, base: Seq<char>, n: nat) -> Seq<char> {
    if n == 1 {
        input_stem + "_"@ + base + "_serum2.flp"@
    } else {
        input_stem + "_"@ + base + "_"@ + decimal(n) + "_serum2.flp"@
    }
}

/// Consume one name for the member stem and build the default output name
/// of a converted archive member (see [`archive_name_spec`]).
pub fn archive_output_name(used: &mut UsedNames, input_stem: &str, member_stem: &str) -> (r: String)
    requires
        old(used).count(sanitize_spec(member_stem@)) < usize::MAX,
    ensures
        final(used).count(sanitize_spec(member_stem@)) == old(used).count(sanitize_spec(member_stem@)) + 1,
        forall|k: Seq<char>|
            k != sanitize_spec(member_stem@) ==> #[trigger] final(used).count(k) == old(used).count(k),
        r@ == archive_name_spec(
            input_stem@,
            sanitize_spec(member_stem@),
            old(used).count(sanitize_spec(member_stem@)) + 1,
        ),
{
    let base = sanitize_filename(member_stem);
    let n = used.take(base.as_str());
    let mut out = string_of(input_stem);
    push_str(&mut out, "_");
    push_str(&mut out, base.as_str());
    if n != 1 {
        push_str(&mut out, "_");
        push_decimal(&mut out, n as u64);
    }
    push_str(&mut out, "_serum2.flp");
    proof {
        reveal_strlit("_");
        reveal_strlit("_serum2.flp");
    }
    assert(out@ =~= archive_name_spec(input_stem@, base@, n as nat));
    out
}

} // verus!
