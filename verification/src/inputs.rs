//! Resolving command-line inputs: which names a glob pattern matches
//! (`*` and `?` within one path component, `**` across any number of
//! components, letters compared without regard to ASCII case), which files
//! count as projects (`.flp`, any case), and the sorted, duplicate-free list
//! of what was found.

use vstd::prelude::*;
use crate::strs::{chars_end_with, chars_of, ends_with, lower_all, to_lower};

verus! {

/// Wildcard matching of one path component: `*` matches any run of
/// characters, `?` exactly one, anything else itself.
pub open spec fn wild(p: Seq<char>, s: Seq<char>) -> bool
    decreases p.len() + s.len(),
{
    if p.len() == 0 {
        s.len() == 0
    } else if p[0] == '*' {
        wild(p.drop_first(), s) || (s.len() > 0 && wild(p, s.drop_first()))
    } else if s.len() == 0 {
        false
    } else if p[0] == '?' {
        wild(p.drop_first(), s.drop_first())
    } else {
        p[0] == s[0] && wild(p.drop_first(), s.drop_first())
    }
}

/// A glob component matches a name component, ignoring ASCII case.
pub open spec fn component_matches(p: Seq<char>, s: Seq<char>) -> bool {
    wild(lower_all(p), lower_all(s))
}

fn wild_at(p: &[char], i: usize, s: &[char], j: usize) -> (r: bool)
    requires
        i <= p@.len(),
        j <= s@.len(),
    ensures
        r == wild(p@.subrange(i as int, p@.len() as int), s@.subrange(j as int, s@.len() as int)),
    decreases p@.len() - i + s@.len() - j,
{
    let ghost ps = p@.subrange(i as int, p@.len() as int);
    let ghost ss = s@.subrange(j as int, s@.len() as int);
    proof {
        if ps.len() > 0 {
            assert(ps.drop_first() =~= p@.subrange(i + 1, p@.len() as int));
        }
        if ss.len() > 0 {
            assert(ss.drop_first() =~= s@.subrange(j + 1, s@.len() as int));
        }
    }
    if i == p.len() {
        j == s.len()
    } else if p[i] == '*' {
        if wild_at(p, i + 1, s, j) {
            true
        } else {
            j < s.len() && wild_at(p, i, s, j + 1)
        }
    } else if j == s.len() {
        false
    } else if p[i] == '?' {
        wild_at(p, i + 1, s, j + 1)
    } else {
        p[i] == s[j] && wild_at(p, i + 1, s, j + 1)
    }
}

/// Whether the glob component `p` matches the name component `s`.
pub fn component_match(p: &str, s: &str) -> (r: bool)
    ensures
        r == component_matches(p@, s@),
{
    let pl = to_lower(chars_of(p).as_slice());
    let sl = to_lower(chars_of(s).as_slice());
    proof {
        assert(pl@.subrange(0, pl@.len() as int) =~= pl@);
        assert(sl@.subrange(0, sl@.len() as int) =~= sl@);
    }
    wild_at(pl.as_slice(), 0, sl.as_slice(), 0)
}

/// A glob pattern, split into components, matches a path's components:
/// `**` stands for any number of components (none included), every other
/// component matches one.
pub open spec fn glob_matches(ps: Seq<Seq<char>>, ss: Seq<Seq<char>>) -> bool
    decreases ps.len() + ss.len(),
{
    if ps.len() == 0 {
        ss.len() == 0
    } else if ps[0] == "**"@ {
        glob_matches(ps.drop_first(), ss) || (ss.len() > 0 && glob_matches(ps, ss.drop_first()))
    } else {
        ss.len() > 0 && component_matches(ps[0], ss[0]) && glob_matches(
            ps.drop_first(),
            ss.drop_first(),
        )
    }
}

pub open spec fn strings_of(v: Seq<String>) -> Seq<Seq<char>> {
    v.map_values(|s: String| s@)
}

fn glob_at(ps: &Vec<String>, i: usize, ss: &Vec<String>, j: usize) -> (r: bool)
    requires
        i <= ps@.len(),
        j <= ss@.len(),
    ensures
        r == glob_matches(
            strings_of(ps@).subrange(i as int, ps@.len() as int),
            strings_of(ss@).subrange(j as int, ss@.len() as int),
        ),
    decreases ps@.len() - i + ss@.len() - j,
{
    let ghost pv = strings_of(ps@).subrange(i as int, ps@.len() as int);
    let ghost sv = strings_of(ss@).subrange(j as int, ss@.len() as int);
    proof {
        if pv.len() > 0 {
            assert(pv.drop_first() =~= strings_of(ps@).subrange(i + 1, ps@.len() as int));
            assert(pv[0] == ps@[i as int]@);
        }
        if sv.len() > 0 {
            assert(sv.drop_first() =~= strings_of(ss@).subrange(j + 1, ss@.len() as int));
            assert(sv[0] == ss@[j as int]@);
        }
    }
    if i == ps.len() {
        j == ss.len()
    } else if crate::strs::str_eq(ps[i].as_str(), "**") {
        if glob_at(ps, i + 1, ss, j) {
            true
        } else {
            j < ss.len() && glob_at(ps, i, ss, j + 1)
        }
    } else {
        j < ss.len() && component_match(ps[i].as_str(), ss[j].as_str()) && glob_at(
            ps,
            i + 1,
            ss,
            j + 1,
        )
    }
}

/// Whether the pattern components `pattern` match the path components
/// `path` (see [`glob_matches`]).
pub fn glob_match(pattern: &Vec<String>, path: &Vec<String>) -> (r: bool)
    ensures
        r == glob_matches(strings_of(pattern@), strings_of(path@)),
{
    proof {
        assert(strings_of(pattern@).subrange(0, pattern@.len() as int) =~= strings_of(pattern@));
        assert(strings_of(path@).subrange(0, path@.len() as int) =~= strings_of(path@));
    }
    glob_at(pattern, 0, path, 0)
}

/// A component holds a wildcard.
pub open spec fn has_wildcard(s: Seq<char>) -> bool {
    exists|i: int| 0 <= i < s.len() && (s[i] == '*' || s[i] == '?')
}

/// Whether the component `s` holds `*` or `?`.
pub fn is_glob(s: &str) -> (r: bool)
    ensures
        r == has_wildcard(s@),
{
    let v = chars_of(s);
    let mut i: usize = 0;
    while i < v.len()
        invariant
            v@ == s@,
            i <= v@.len(),
            forall|k: int| 0 <= k < i ==> v@[k] != '*' && v@[k] != '?',
        decreases v.len() - i,
    {
        if v[i] == '*' || v[i] == '?' {
            return true;
        }
        i += 1;
    }
    false
}

/// A project file name: it ends in `.flp`, in any ASCII case.
pub open spec fn is_flp_file(name: Seq<char>) -> bool {
    ends_with(lower_all(name), ".flp"@)
}

/// Whether the file name `name` is a project file (see [`is_flp_file`]).
pub fn has_flp_ext(name: &str) -> (r: bool)
    ensures
        r == is_flp_file(name@),
{
    let l = to_lower(chars_of(name).as_slice());
    chars_end_with(l.as_slice(), ".flp")
}

// ---------------------------------------------------------------------------
// Sorted, duplicate-free results
/// `a` sorts before `b`: character codes compared in order, a proper prefix
/// first.
pub open spec fn text_lt(a: Seq<char>, b: Seq<char>) -> bool
    decreases a.len(),
{
    if a.len() == 0 {
        b.len() > 0
    } else if b.len() == 0 {
        false
    } else if a[0] != b[0] {
        (a[0] as u32) < (b[0] as u32)
    } else {
        text_lt(a.drop_first(), b.drop_first())
    }
}

proof fn lemma_text_lt_total(a: Seq<char>, b: Seq<char>)
    ensures
        text_lt(a, b) || text_lt(b, a) || a == b,
        !(text_lt(a, b) && text_lt(b, a)),
        !text_lt(a, a),
    decreases a.len(),
{
    if a.len() > 0 && b.len() > 0 {
        lemma_text_lt_total(a.drop_first(), b.drop_first());
        if a[0] == b[0] && a.drop_first() == b.drop_first() {
            assert(a =~= seq![a[0]] + a.drop_first());
            assert(b =~= seq![b[0]] + b.drop_first());
        }
        if a[0] != b[0] {
            vstd::utf8::char_is_scalar(a[0]);
            assert((a[0] as u32) != (b[0] as u32)) by {
                if (a[0] as u32) == (b[0] as u32) {
                    vstd::utf8::char_u32_cast(a[0], a[0] as u32);
                    vstd::utf8::char_u32_cast(b[0], b[0] as u32);
                }
            }
        }
    } else if a.len() > 0 {
        lemma_text_lt_total(a.drop_first(), a.drop_first());
    } else if b.len() == 0 {
        assert(a =~= b);
    }
}

proof fn lemma_text_lt_trans(a: Seq<char>, b: Seq<char>, c: Seq<char>)
    requires
        text_lt(a, b),
        text_lt(b, c),
    ensures
        text_lt(a, c),
    decreases a.len(),
{
    if a.len() > 0 && b.len() > 0 && c.len() > 0 && a[0] == b[0] && b[0] == c[0] {
        lemma_text_lt_trans(a.drop_first(), b.drop_first(), c.drop_first());
    }
}

fn text_lt_exec(a: &str, b: &str) -> (r: bool)
    ensures
        r == text_lt(a@, b@),
{
    let av = chars_of(a);
    let bv = chars_of(b);
    let mut i: usize = 0;
    assert(a@.subrange(0, a@.len() as int) =~= a@);
    assert(b@.subrange(0, b@.len() as int) =~= b@);
    while i < av.len() && i < bv.len() && av[i] == bv[i]
        invariant
            av@ == a@,
            bv@ == b@,
            i <= av@.len(),
            i <= bv@.len(),
            text_lt(a@, b@) == text_lt(a@.subrange(i as int, a@.len() as int), b@.subrange(
                i as int,
                b@.len() as int,
            )),
        decreases av.len() - i,
    {
        proof {
            let sa = a@.subrange(i as int, a@.len() as int);
            let sb = b@.subrange(i as int, b@.len() as int);
            assert(sa.drop_first() =~= a@.subrange(i + 1, a@.len() as int));
            assert(sb.drop_first() =~= b@.subrange(i + 1, b@.len() as int));
        }
        i += 1;
    }
    if i == av.len() {
        i < bv.len()
    } else if i == bv.len() {
        false
    } else {
        proof {
            let sa = a@.subrange(i as int, a@.len() as int);
            let sb = b@.subrange(i as int, b@.len() as int);
            assert(sa[0] == av@[i as int] && sb[0] == bv@[i as int]);
        }
        (av[i] as u32) < (bv[i] as u32)
    }
}

proof fn lemma_push_contains(s: Seq<Seq<char>>, x: Seq<char>, y: Seq<char>)
    ensures
        s.push(x).contains(y) <==> s.contains(y) || y == x,
{
    if s.push(x).contains(y) {
        let i = choose|i: int| 0 <= i < s.push(x).len() && s.push(x)[i] == y;
        if i < s.len() {
            assert(s[i] == y);
        }
    }
    if s.contains(y) {
        let i = choose|i: int| 0 <= i < s.len() && s[i] == y;
        assert(s.push(x)[i] == y);
    }
    if y == x {
        assert(s.push(x)[s.len() as int] == y);
    }
}

/// Strictly increasing in [`text_lt`] order.
pub open spec fn strictly_sorted(v: Seq<Seq<char>>) -> bool {
    forall|i: int, j: int| 0 <= i < j < v.len() ==> text_lt(#[trigger] v[i], #[trigger] v[j])
}

/// The names of `names`, sorted and each once.
pub fn sorted_unique(names: Vec<String>) -> (r: Vec<String>)
    ensures
        strictly_sorted(strings_of(r@)),
        forall|x: Seq<char>| strings_of(r@).contains(x) <==> strings_of(names@).contains(x),
{
    let mut out: Vec<String> = Vec::new();
    let mut k: usize = 0;
    while k < names.len()
        invariant
            k <= names@.len(),
            strictly_sorted(strings_of(out@)),
            forall|x: Seq<char>|
                strings_of(out@).contains(x) <==> strings_of(names@.take(k as int)).contains(x),
        decreases names.len() - k,
    {
        let x = &names[k];
        let ghost xs = x@;
        let ghost before = strings_of(out@);
        let mut pos: usize = 0;
        while pos < out.len() && text_lt_exec(out[pos].as_str(), x.as_str())
            invariant
                pos <= out@.len(),
                before == strings_of(out@),
                xs == x@,
                forall|i: int| 0 <= i < pos ==> text_lt(#[trigger] before[i], xs),
            decreases out.len() - pos,
        {
            assert(before[pos as int] == out@[pos as int]@);
            pos += 1;
        }
        proof {
            assert(names@.take(k + 1) =~= names@.take(k as int).push(names@[k as int]));
            assert(strings_of(names@.take(k + 1)) =~= strings_of(names@.take(k as int)).push(xs));
        }
        let dup = pos < out.len() && crate::strs::str_eq(out[pos].as_str(), x.as_str());
        if !dup {
            proof {
                if pos < before.len() {
                    lemma_text_lt_total(before[pos as int], xs);
                }
            }
            out.insert(pos, x.clone());
            proof {
                let after = strings_of(out@);
                assert(after =~= before.insert(pos as int, xs));
                assert forall|i: int, j: int| 0 <= i < j < after.len() implies text_lt(
                    #[trigger] after[i],
                    #[trigger] after[j],
                ) by {
                    if j == pos {
                        assert(after[i] == before[i]);
                    } else if i == pos {
                        assert(after[j] == before[j - 1]);
                        if j - 1 > pos {
                            lemma_text_lt_trans(xs, before[pos as int], before[j - 1]);
                        }
                    } else if i > pos {
                        assert(after[i] == before[i - 1] && after[j] == before[j - 1]);
                    } else if j > pos {
                        assert(after[i] == before[i] && after[j] == before[j - 1]);
                    } else {
                        assert(after[i] == before[i] && after[j] == before[j]);
                    }
                }
                assert forall|y: Seq<char>| after.contains(y) <==> strings_of(
                    names@.take(k + 1),
                ).contains(y) by {
                    lemma_push_contains(strings_of(names@.take(k as int)), xs, y);
                    if after.contains(y) {
                        let i = choose|i: int| 0 <= i < after.len() && after[i] == y;
                        if i < pos {
                            assert(before[i] == y);
                        } else if i > pos {
                            assert(before[i - 1] == y);
                        }
                    }
                    if before.contains(y) {
                        let i = choose|i: int| 0 <= i < before.len() && before[i] == y;
                        if i < pos {
                            assert(after[i] == y);
                        } else {
                            assert(after[i + 1] == y);
                        }
                    }
                    if y == xs {
                        assert(after[pos as int] == y);
                    }
                }
            }
        } else {
            proof {
                assert(before[pos as int] == out@[pos as int]@);
                assert(before[pos as int] == xs);
                assert forall|y: Seq<char>| before.contains(y) <==> strings_of(
                    names@.take(k + 1),
                ).contains(y) by {
                    lemma_push_contains(strings_of(names@.take(k as int)), xs, y);
                    if y == xs {
                        assert(before[pos as int] == y);
                    }
                }
            }
        }
        k += 1;
    }
    proof {
        assert(names@.take(names@.len() as int) =~= names@);
    }
    out
}

} // verus!
