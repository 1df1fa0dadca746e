//! Capability negotiation and watch-pattern construction: the four
//! client capability flags read once at initialize, the recognized
//! locale-file extensions, the glob patterns watched for locale
//! changes, and the test deciding whether a changed file lies inside a
//! configured locale path.

use vstd::prelude::*;

use crate::catalog::{lex_lt, lemma_lex_irrefl, lemma_lex_total, lemma_lex_trans, str_lex_lt};
use crate::text::{push_char, substring, starts_with, str_eq};

verus! {

/// The four independent client capabilities negotiated at initialize;
/// absence of a field defaults to false, and they are never
/// re-negotiated mid-session.
#[derive(PartialEq, Eq, Structural, Clone, Copy, Debug)]
pub struct CapabilityFlags {
    pub inlay_hint_dynamic_registration: bool,
    pub inlay_hint_refresh: bool,
    pub watched_files_dynamic_registration: bool,
    pub watched_files_relative_pattern: bool,
}

impl CapabilityFlags {
    /// All four capabilities absent.
    pub fn none() -> (r: Self)
        ensures
            r.inlay_hint_dynamic_registration == false,
            r.inlay_hint_refresh == false,
            r.watched_files_dynamic_registration == false,
            r.watched_files_relative_pattern == false,
    {
        CapabilityFlags {
            inlay_hint_dynamic_registration: false,
            inlay_hint_refresh: false,
            watched_files_dynamic_registration: false,
            watched_files_relative_pattern: false,
        }
    }
}

/// Read the four client capability flags; a missing field counts as
/// unsupported.
pub fn negotiate_capabilities(
    inlay_dyn: Option<bool>,
    inlay_refresh: Option<bool>,
    watch_dyn: Option<bool>,
    watch_rel: Option<bool>,
) -> (r: CapabilityFlags)
    ensures
        r.inlay_hint_dynamic_registration == (inlay_dyn == Some(true)),
        r.inlay_hint_refresh == (inlay_refresh == Some(true)),
        r.watched_files_dynamic_registration == (watch_dyn == Some(true)),
        r.watched_files_relative_pattern == (watch_rel == Some(true)),
{
    CapabilityFlags {
        inlay_hint_dynamic_registration: match inlay_dyn {
            Some(b) => b,
            None => false,
        },
        inlay_hint_refresh: match inlay_refresh {
            Some(b) => b,
            None => false,
        },
        watched_files_dynamic_registration: match watch_dyn {
            Some(b) => b,
            None => false,
        },
        watched_files_relative_pattern: match watch_rel {
            Some(b) => b,
            None => false,
        },
    }
}

// ---------------------------------------------------------------------
// Recognized locale-file extensions.
// ---------------------------------------------------------------------

/// `a` lowercases to `b` under ASCII case folding: equal, or an ASCII
/// capital whose lowercase form is `b`.
pub open spec fn lowers_to(a: char, b: char) -> bool {
    a == b || (65 <= a as u32 <= 90 && (b as u32) == (a as u32) + 32)
}

/// The text ends, ignoring ASCII case, with the (lowercase) suffix.
pub open spec fn spec_ends_with_ci(s: Seq<char>, ext: Seq<char>) -> bool {
    ext.len() <= s.len() && forall|j: int|
        0 <= j < ext.len() ==> lowers_to(s[s.len() - ext.len() + j], #[trigger] ext[j])
}

/// The text ends, ignoring ASCII case, with the (lowercase) suffix.
pub fn ends_with_ci(s: &str, ext: &str) -> (r: bool)
    ensures
        r == spec_ends_with_ci(s@, ext@),
{
    let n = s.unicode_len();
    let m = ext.unicode_len();
    if m > n {
        return false;
    }
    let mut j: usize = 0;
    while j < m
        invariant
            n == s@.len(),
            m == ext@.len(),
            m <= n,
            0 <= j <= m,
            forall|k: int| 0 <= k < j ==> lowers_to(s@[n - m + k], #[trigger] ext@[k]),
        decreases m - j,
    {
        let a = s.get_char(n - m + j);
        let b = ext.get_char(j);
        let ok = a == b || (65 <= (a as u32) && (a as u32) <= 90 && (b as u32) == (a as u32)
            + 32);
        if !ok {
            return false;
        }
        j += 1;
    }
    true
}

/// The path names a single locale file: it ends, ignoring ASCII case,
/// in one of the recognized locale-file extensions.
pub open spec fn spec_is_translation_file_path(s: Seq<char>) -> bool {
    ||| spec_ends_with_ci(s, ".json"@)
    ||| spec_ends_with_ci(s, ".yaml"@)
    ||| spec_ends_with_ci(s, ".yml"@)
    ||| spec_ends_with_ci(s, ".php"@)
    ||| spec_ends_with_ci(s, ".arb"@)
}

/// Whether the path names a single locale file by its extension.
pub fn is_translation_file_path(path: &str) -> (r: bool)
    ensures
        r == spec_is_translation_file_path(path@),
{
    ends_with_ci(path, ".json") || ends_with_ci(path, ".yaml") || ends_with_ci(path, ".yml")
        || ends_with_ci(path, ".php") || ends_with_ci(path, ".arb")
}

// ---------------------------------------------------------------------
// Trimming separators.
// ---------------------------------------------------------------------

/// How many trailing characters of `s` are path separators.
pub open spec fn trailing_seps_len(s: Seq<char>) -> int
    decreases s.len(),
{
    if s.len() == 0 || (s.last() != '/' && s.last() != '\\') {
        0
    } else {
        1 + trailing_seps_len(s.drop_last())
    }
}

/// The path without its trailing separators.
pub open spec fn spec_trim_end_seps(s: Seq<char>) -> Seq<char> {
    s.take(s.len() - trailing_seps_len(s))
}

/// Trailing separators never outnumber the characters.
pub proof fn lemma_trailing_seps_bounds(s: Seq<char>)
    ensures
        0 <= trailing_seps_len(s) <= s.len(),
    decreases s.len(),
{
    if s.len() > 0 {
        lemma_trailing_seps_bounds(s.drop_last());
    }
}

/// The path without its trailing `/` or `\` separators.
pub fn trim_end_seps(s: &str) -> (r: String)
    ensures
        r@ == spec_trim_end_seps(s@),
{
    let n = s.unicode_len();
    let mut i: usize = n;
    proof {
        assert(s@.take(n as int) =~= s@);
        lemma_trailing_seps_bounds(s@);
    }
    while i > 0
        invariant
            n == s@.len(),
            0 <= i <= n,
            trailing_seps_len(s@) == (n - i) + trailing_seps_len(s@.take(i as int)),
        decreases i,
    {
        let c = s.get_char(i - 1);
        proof {
            assert(s@.take(i as int).last() == s@[i - 1]);
            assert(s@.take(i as int).drop_last() =~= s@.take(i - 1));
        }
        if c != '/' && c != '\\' {
            proof {
                lemma_trailing_seps_bounds(s@.take(i as int));
            }
            return substring(s, 0, i);
        }
        i -= 1;
    }
    proof {
        assert(s@.take(0).len() == 0);
    }
    substring(s, 0, 0)
}

// ---------------------------------------------------------------------
// Watch-glob construction.
// ---------------------------------------------------------------------

/// The watch patterns contributed by one configured locale path: the
/// path itself when it already names a locale file, else one recursive
/// glob per recognized extension; an empty (all-separator) path
/// contributes nothing.
pub open spec fn spec_patterns_for_path(path: Seq<char>) -> Seq<Seq<char>> {
    let t = spec_trim_end_seps(path);
    if t.len() == 0 {
        Seq::empty()
    } else if spec_is_translation_file_path(t) {
        seq![t]
    } else {
        seq![
            t + "/**/*.json"@,
            t + "/**/*.yaml"@,
            t + "/**/*.yml"@,
            t + "/**/*.php"@,
            t + "/**/*.arb"@,
        ]
    }
}

/// The raw (not yet deduplicated) patterns of the first `i` paths.
pub open spec fn spec_watch_patterns(paths: Seq<Seq<char>>, i: int) -> Seq<Seq<char>>
    decreases i,
{
    if i <= 0 {
        Seq::empty()
    } else {
        spec_watch_patterns(paths, i - 1) + spec_patterns_for_path(paths[i - 1])
    }
}

/// Strictly sorted: each element lexicographically below the next.
pub open spec fn sorted_strict(xs: Seq<Seq<char>>) -> bool {
    forall|i: int, j: int| 0 <= i < j < xs.len() ==> lex_lt(xs[i], xs[j])
}

/// Insert a string into a strictly sorted list, keeping it sorted and
/// dropping a duplicate.
fn sorted_insert(out: &mut Vec<String>, x: String)
    requires
        sorted_strict(old(out).deep_view()),
    ensures
        sorted_strict(final(out).deep_view()),
        forall|p: Seq<char>|
            final(out).deep_view().contains(p) <==> old(out).deep_view().contains(p) || p == x@,
{
    let ghost olds = out.deep_view();
    let n = out.len();
    let mut i: usize = 0;
    proof {
        assert(olds.len() == n);
        assert(forall|k: int| 0 <= k < n ==> olds[k] == out@[k]@);
    }
    while i < n && str_lex_lt(out[i].as_str(), x.as_str())
        invariant
            out.deep_view() == olds,
            n == olds.len(),
            n == out@.len(),
            0 <= i <= n,
            forall|k: int| 0 <= k < i ==> lex_lt(#[trigger] olds[k], x@),
        decreases n - i,
    {
        proof {
            assert(out.deep_view()[i as int] == out@[i as int]@);
        }
        i += 1;
    }
    proof {
        lemma_lex_irrefl(x@);
        assert forall|k: int| 0 <= k < i implies #[trigger] olds[k] != x@ by {
            if olds[k] == x@ {
                assert(lex_lt(x@, x@));
            }
        }
    }
    if i < n && str_eq(out[i].as_str(), x.as_str()) {
        proof {
            assert(out.deep_view()[i as int] == out@[i as int]@);
            assert(olds.contains(x@)) by {
                assert(olds[i as int] == x@);
            }
        }
        return ;
    }
    proof {
        if i < n {
            assert(out.deep_view()[i as int] == out@[i as int]@);
            lemma_lex_total(olds[i as int], x@);
            assert(lex_lt(x@, olds[i as int]));
        }
    }
    let ghost xv = x@;
    out.insert(i, x);
    proof {
        let news = out.deep_view();
        assert(news =~~= olds.insert(i as int, xv)) by {
            assert(out@ == old(out)@.insert(i as int, x));
            assert(forall|k: int| 0 <= k < news.len() ==> news[k] == out@[k]@);
            assert(forall|k: int| 0 <= k < i ==> out@[k] == old(out)@[k]);
            assert(forall|k: int| i < k < news.len() ==> out@[k] == old(out)@[k - 1]);
        }
        assert(forall|k: int| 0 <= k < i ==> news[k] == olds[k]);
        assert(news[i as int] == xv);
        assert(forall|k: int| i < k < news.len() ==> news[k] == olds[k - 1]);
        assert forall|a: int, b: int| 0 <= a < b < news.len() implies lex_lt(news[a], news[b]) by {
            if a == i as int {
                if b == i + 1 {
                    assert(news[b] == olds[i as int]);
                } else {
                    lemma_lex_trans(xv, olds[i as int], olds[b - 1]);
                }
            } else if b == i as int {
                assert(news[a] == olds[a]);
                assert(lex_lt(olds[a], xv));
            } else {
                let a2: int = if a < i as int {
                    a
                } else {
                    a - 1
                };
                let b2: int = if b < i as int {
                    b
                } else {
                    b - 1
                };
                assert(news[a] == olds[a2]);
                assert(news[b] == olds[b2]);
                assert(a2 < b2);
                assert(lex_lt(olds[a2], olds[b2]));
            }
        }
        assert forall|p: Seq<char>| news.contains(p) implies olds.contains(p) || p == xv by {
            let k = choose|k: int| 0 <= k < news.len() && news[k] == p;
            if k < i as int {
                assert(olds[k] == p);
            } else if k > i as int {
                assert(olds[k - 1] == p);
            }
        }
        assert forall|p: Seq<char>| olds.contains(p) || p == xv implies news.contains(p) by {
            if p == xv {
                assert(news[i as int] == p);
            } else {
                let k = choose|k: int| 0 <= k < olds.len() && olds[k] == p;
                if k < i as int {
                    assert(news[k] == p);
                } else {
                    assert(news[k + 1] == p);
                }
            }
        }
    }
}

/// The deduplicated, sorted watch patterns for the configured locale
/// paths: for each path, its own contribution (the path itself when it
/// names a locale file, else one recursive glob per recognized
/// extension); the result holds exactly those patterns, in strictly
/// increasing lexicographic order.
pub fn build_watch_globs(locale_paths: &Vec<String>) -> (r: Vec<String>)
    ensures
        sorted_strict(r.deep_view()),
        forall|p: Seq<char>|
            r.deep_view().contains(p) <==> spec_watch_patterns(
                locale_paths.deep_view(),
                locale_paths@.len() as int,
            ).contains(p),
{
    let ghost pv = locale_paths.deep_view();
    let mut out: Vec<String> = Vec::new();
    let mut i: usize = 0;
    while i < locale_paths.len()
        invariant
            pv == locale_paths.deep_view(),
            locale_paths@.len() == pv.len(),
            0 <= i <= pv.len(),
            sorted_strict(out.deep_view()),
            forall|p: Seq<char>|
                out.deep_view().contains(p) <==> spec_watch_patterns(pv, i as int).contains(p),
        decreases locale_paths.len() - i,
    {
        let ghost prev = spec_watch_patterns(pv, i as int);
        let ghost cur = spec_watch_patterns(pv, i + 1);
        proof {
            assert(locale_paths.deep_view()[i as int] == locale_paths@[i as int]@);
            assert(cur == prev + spec_patterns_for_path(pv[i as int]));
        }
        let trimmed = trim_end_seps(locale_paths[i].as_str());
        let ghost added = spec_patterns_for_path(pv[i as int]);
        if trimmed.as_str().unicode_len() == 0 {
            proof {
                assert(added.len() == 0);
                assert forall|p: Seq<char>| cur.contains(p) implies prev.contains(p) by {
                    let k = choose|k: int| 0 <= k < cur.len() && cur[k] == p;
                    assert(cur[k] == prev[k]);
                }
                assert forall|p: Seq<char>| prev.contains(p) implies cur.contains(p) by {
                    let k = choose|k: int| 0 <= k < prev.len() && prev[k] == p;
                    assert(cur[k] == p);
                }
            }
        } else if is_translation_file_path(trimmed.as_str()) {
            proof {
                assert(added =~~= seq![trimmed@]);
            }
            let ghost tv = trimmed@;
            sorted_insert(&mut out, trimmed);
            proof {
                assert(added[0] == tv);
                assert forall|p: Seq<char>| cur.contains(p) implies prev.contains(p) || p == tv
                    by {
                    let k = choose|k: int| 0 <= k < cur.len() && cur[k] == p;
                    if k < prev.len() {
                        assert(cur[k] == prev[k]);
                    } else {
                        assert(cur[k] == added[k - prev.len()]);
                    }
                }
                assert forall|p: Seq<char>| prev.contains(p) || p == tv implies cur.contains(p)
                    by {
                    if p == tv {
                        assert(cur[prev.len() as int] == p);
                    } else {
                        let k = choose|k: int| 0 <= k < prev.len() && prev[k] == p;
                        assert(cur[k] == p);
                    }
                }
            }
        } else {
            let mut g1 = trimmed.clone();
            g1.append("/**/*.json");
            let mut g2 = trimmed.clone();
            g2.append("/**/*.yaml");
            let mut g3 = trimmed.clone();
            g3.append("/**/*.yml");
            let mut g4 = trimmed.clone();
            g4.append("/**/*.php");
            let mut g5 = trimmed.clone();
            g5.append("/**/*.arb");
            let ghost vs = seq![g1@, g2@, g3@, g4@, g5@];
            proof {
                assert(added =~~= vs);
            }
            sorted_insert(&mut out, g1);
            sorted_insert(&mut out, g2);
            sorted_insert(&mut out, g3);
            sorted_insert(&mut out, g4);
            sorted_insert(&mut out, g5);
            proof {
                assert forall|p: Seq<char>| cur.contains(p) implies prev.contains(p) || vs.contains(
                    p,
                ) by {
                    let k = choose|k: int| 0 <= k < cur.len() && cur[k] == p;
                    if k < prev.len() {
                        assert(cur[k] == prev[k]);
                    } else {
                        assert(cur[k] == added[k - prev.len()]);
                        assert(vs[k - prev.len()] == p);
                    }
                }
                assert forall|p: Seq<char>| prev.contains(p) || vs.contains(p) implies cur.contains(
                    p,
                ) by {
                    if prev.contains(p) {
                        let k = choose|k: int| 0 <= k < prev.len() && prev[k] == p;
                        assert(cur[k] == p);
                    } else {
                        let k = choose|k: int| 0 <= k < vs.len() && vs[k] == p;
                        assert(cur[prev.len() + k] == p);
                    }
                }
            }
        }
        i += 1;
    }
    out
}

// ---------------------------------------------------------------------
// Absolute patterns.
// ---------------------------------------------------------------------

/// The path with every backslash replaced by a forward slash.
pub open spec fn spec_replace_bs(s: Seq<char>) -> Seq<char> {
    Seq::new(
        s.len(),
        |i: int|
            if s[i] == '\\' {
                '/'
            } else {
                s[i]
            },
    )
}

/// How many trailing characters are forward slashes.
pub open spec fn trailing_fslash_len(s: Seq<char>) -> int
    decreases s.len(),
{
    if s.len() == 0 || s.last() != '/' {
        0
    } else {
        1 + trailing_fslash_len(s.drop_last())
    }
}

/// Trailing forward slashes never outnumber the characters.
pub proof fn lemma_trailing_fslash_bounds(s: Seq<char>)
    ensures
        0 <= trailing_fslash_len(s) <= s.len(),
    decreases s.len(),
{
    if s.len() > 0 {
        lemma_trailing_fslash_bounds(s.drop_last());
    }
}

/// A pattern made absolute under a workspace root: the root normalized
/// to forward slashes and stripped of trailing slashes, then the
/// pattern, joined with exactly one slash.
pub open spec fn spec_to_absolute_pattern(root: Seq<char>, pattern: Seq<char>) -> Seq<char> {
    let rs0 = spec_replace_bs(root);
    let rs = rs0.take(rs0.len() - trailing_fslash_len(rs0));
    if pattern.len() == 0 {
        rs
    } else if pattern[0] == '/' {
        rs + pattern
    } else {
        rs + seq!['/'] + pattern
    }
}

/// Make a pattern absolute under the workspace root.
pub fn to_absolute_pattern(root: &str, pattern: &str) -> (r: String)
    ensures
        r@ == spec_to_absolute_pattern(root@, pattern@),
{
    // normalize the root to forward slashes
    let n = root.unicode_len();
    let mut rs = String::new();
    let mut i: usize = 0;
    while i < n
        invariant
            n == root@.len(),
            0 <= i <= n,
            rs@ == spec_replace_bs(root@).take(i as int),
        decreases n - i,
    {
        let c = root.get_char(i);
        if c == '\\' {
            push_char(&mut rs, '/');
        } else {
            push_char(&mut rs, c);
        }
        proof {
            assert(rs@ =~= spec_replace_bs(root@).take(i + 1));
        }
        i += 1;
    }
    proof {
        assert(spec_replace_bs(root@).take(n as int) =~= spec_replace_bs(root@));
    }
    // strip trailing slashes
    let ghost rv = spec_replace_bs(root@);
    let rn = rs.as_str().unicode_len();
    let mut j: usize = rn;
    proof {
        assert(rs@.take(rn as int) =~= rs@);
        lemma_trailing_fslash_bounds(rs@);
    }
    while j > 0
        invariant
            rv == spec_replace_bs(root@),
            rs@ == rv,
            rn == rs@.len(),
            0 <= j <= rn,
            trailing_fslash_len(rs@) == (rn - j) + trailing_fslash_len(rs@.take(j as int)),
        decreases j,
    {
        let c = rs.as_str().get_char(j - 1);
        proof {
            assert(rs@.take(j as int).last() == rs@[j - 1]);
            assert(rs@.take(j as int).drop_last() =~= rs@.take(j - 1));
        }
        if c != '/' {
            proof {
                lemma_trailing_fslash_bounds(rs@.take(j as int));
                assert(trailing_fslash_len(rs@.take(j as int)) == 0);
                assert(rv.len() - trailing_fslash_len(rv) == j);
            }
            let mut r = substring(rs.as_str(), 0, j);
            if pattern.unicode_len() == 0 {
                proof {
                    assert(r@ == rv.subrange(0, j as int));
                    assert(spec_to_absolute_pattern(root@, pattern@) == rv.take(
                        rv.len() - trailing_fslash_len(rv),
                    ));
                    assert(rv.take(rv.len() - trailing_fslash_len(rv)) == rv.take(j as int));
                    assert(rv.take(j as int) =~= rv.subrange(0, j as int));
                }
                return r;
            }
            if pattern.get_char(0) == '/' {
                r.append(pattern);
                proof {
                    assert(r@ =~= spec_to_absolute_pattern(root@, pattern@));
                }
                return r;
            }
            push_char(&mut r, '/');
            r.append(pattern);
            proof {
                assert(r@ =~= spec_to_absolute_pattern(root@, pattern@));
            }
            return r;
        }
        j -= 1;
    }
    proof {
        assert(rs@.take(0).len() == 0);
        assert(trailing_fslash_len(rs@) == rn);
    }
    let mut r = String::new();
    if pattern.unicode_len() == 0 {
        proof {
            assert(rv.take(0) =~= r@);
        }
        return r;
    }
    if pattern.get_char(0) == '/' {
        r.append(pattern);
        proof {
            assert(r@ =~= rv.take(0) + pattern@);
        }
        return r;
    }
    push_char(&mut r, '/');
    r.append(pattern);
    proof {
        assert(r@ =~= rv.take(0) + seq!['/'] + pattern@);
    }
    r
}

// ---------------------------------------------------------------------
// Is a changed file one of the watched locale files?
// ---------------------------------------------------------------------

/// The candidate a configured locale path resolves to: itself when it
/// is absolute (leading slash, in this library's path model), else the
/// workspace root, a slash, and the path.
pub open spec fn spec_candidate(root: Seq<char>, t: Seq<char>) -> Seq<char> {
    if t.len() > 0 && t[0] == '/' {
        t
    } else {
        root + seq!['/'] + t
    }
}

/// The path lies at or under the candidate: equal to it, or extending
/// it across a component boundary.
pub open spec fn spec_path_under(path: Seq<char>, cand: Seq<char>) -> bool {
    &&& cand.len() <= path.len()
    &&& path.subrange(0, cand.len() as int) == cand
    &&& (cand.len() == path.len() || path[cand.len() as int] == '/' || (cand.len() > 0
        && cand.last() == '/'))
}

/// Whether the changed path lies inside one of the first `i` configured
/// locale paths: a path configured as a single file must match exactly;
/// a directory contains the path.
pub open spec fn spec_in_locale_paths(
    path: Seq<char>,
    root: Seq<char>,
    paths: Seq<Seq<char>>,
    is_file: Seq<bool>,
    i: int,
) -> bool
    decreases i,
{
    if i <= 0 {
        false
    } else {
        spec_in_locale_paths(path, root, paths, is_file, i - 1) || {
            let t = spec_trim_end_seps(paths[i - 1]);
            t.len() > 0 && {
                let cand = spec_candidate(root, t);
                if is_file[i - 1] {
                    path == cand
                } else {
                    spec_path_under(path, cand)
                }
            }
        }
    }
}

/// Membership among the first `i` paths implies membership among more.
proof fn lemma_in_paths_mono(
    path: Seq<char>,
    root: Seq<char>,
    paths: Seq<Seq<char>>,
    is_file: Seq<bool>,
    i: int,
    n: int,
)
    requires
        i <= n,
        spec_in_locale_paths(path, root, paths, is_file, i),
    ensures
        spec_in_locale_paths(path, root, paths, is_file, n),
    decreases n - i,
{
    if i < n {
        lemma_in_paths_mono(path, root, paths, is_file, i + 1, n);
    }
}

/// Whether the path lies at or under the candidate, executably.
fn path_under(path: &str, cand: &str) -> (r: bool)
    ensures
        r == spec_path_under(path@, cand@),
{
    let n = path.unicode_len();
    let m = cand.unicode_len();
    if !starts_with(path, cand) {
        return false;
    }
    if m == n {
        return true;
    }
    if path.get_char(m) == '/' {
        return true;
    }
    if m > 0 && cand.get_char(m - 1) == '/' {
        return true;
    }
    false
}

/// Whether a changed file is one of the watched locale files: it must
/// carry a recognized extension and lie inside (or be) one of the
/// configured locale paths. `path_is_file` says, per configured path,
/// whether it resolves to a file on disk (the caller checks the disk).
pub fn is_translation_file_in_paths(
    path: &str,
    root: &str,
    locale_paths: &Vec<String>,
    path_is_file: &Vec<bool>,
) -> (r: bool)
    requires
        locale_paths@.len() == path_is_file@.len(),
    ensures
        r == (spec_is_translation_file_path(path@) && spec_in_locale_paths(
            path@,
            root@,
            locale_paths.deep_view(),
            path_is_file@,
            locale_paths@.len() as int,
        )),
{
    if !is_translation_file_path(path) {
        return false;
    }
    let ghost pv = locale_paths.deep_view();
    let mut i: usize = 0;
    while i < locale_paths.len()
        invariant
            pv == locale_paths.deep_view(),
            locale_paths@.len() == pv.len(),
            locale_paths@.len() == path_is_file@.len(),
            0 <= i <= pv.len(),
            spec_is_translation_file_path(path@),
            !spec_in_locale_paths(path@, root@, pv, path_is_file@, i as int),
        decreases locale_paths.len() - i,
    {
        proof {
            assert(locale_paths.deep_view()[i as int] == locale_paths@[i as int]@);
        }
        let trimmed = trim_end_seps(locale_paths[i].as_str());
        if trimmed.as_str().unicode_len() > 0 {
            let tn = trimmed.as_str().unicode_len();
            let cand = if tn > 0 && trimmed.as_str().get_char(0) == '/' {
                trimmed
            } else {
                let mut c = String::from_str(root);
                push_char(&mut c, '/');
                c.append(trimmed.as_str());
                proof {
                    assert(c@ =~= root@ + seq!['/'] + trimmed@);
                }
                c
            };
            proof {
                assert(cand@ == spec_candidate(root@, spec_trim_end_seps(pv[i as int])));
            }
            if path_is_file[i] {
                if str_eq(path, cand.as_str()) {
                    proof {
                        assert(spec_in_locale_paths(path@, root@, pv, path_is_file@, i + 1));
                        lemma_in_paths_mono(
                            path@,
                            root@,
                            pv,
                            path_is_file@,
                            i + 1,
                            pv.len() as int,
                        );
                    }
                    return true;
                }
            } else {
                if path_under(path, cand.as_str()) {
                    proof {
                        assert(spec_in_locale_paths(path@, root@, pv, path_is_file@, i + 1));
                        lemma_in_paths_mono(
                            path@,
                            root@,
                            pv,
                            path_is_file@,
                            i + 1,
                            pv.len() as int,
                        );
                    }
                    return true;
                }
            }
        }
        i += 1;
    }
    false
}

} // verus!
