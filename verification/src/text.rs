//! Character-sequence foundations used by the insertion engine and the
//! query providers: whitespace classification, searching, splitting a
//! text into pieces or lines, joining lines back, and the executable
//! string helpers that are proved against those specifications.

use vstd::prelude::*;

verus! {

/// The whitespace characters this library recognizes when trimming
/// lines and skipping space between tokens.
pub open spec fn is_ws(c: char) -> bool {
    c == ' ' || c == '\t' || c == '\r' || c == '\n'
}

pub fn ws_char(c: char) -> (r: bool)
    ensures
        r == is_ws(c),
{
    c == ' ' || c == '\t' || c == '\r' || c == '\n'
}

/// Index of the first occurrence of `c` at or after `from`.
pub open spec fn spec_find_char(s: Seq<char>, c: char, from: int) -> Option<int>
    decreases s.len() - from,
{
    if from < 0 || from >= s.len() {
        None
    } else if s[from] == c {
        Some(from)
    } else {
        spec_find_char(s, c, from + 1)
    }
}

/// Index of the last occurrence of `c` in `s`.
pub open spec fn spec_rfind_char(s: Seq<char>, c: char) -> Option<int>
    decreases s.len(),
{
    if s.len() == 0 {
        None
    } else if s[s.len() - 1] == c {
        Some(s.len() - 1)
    } else {
        spec_rfind_char(s.drop_last(), c)
    }
}

/// Number of occurrences of `c` in `s`.
pub open spec fn spec_count_char(s: Seq<char>, c: char) -> int
    decreases s.len(),
{
    if s.len() == 0 {
        0
    } else {
        (if s[0] == c { 1int } else { 0int }) + spec_count_char(s.drop_first(), c)
    }
}

/// `needle` occurs in `s` starting at index `i`.
pub open spec fn matches_at(s: Seq<char>, i: int, needle: Seq<char>) -> bool {
    0 <= i && i + needle.len() <= s.len() && s.subrange(i, i + needle.len()) == needle
}

/// Index of the first occurrence of `needle` at or after `from`.
pub open spec fn spec_find_substring(s: Seq<char>, from: int, needle: Seq<char>) -> Option<int>
    decreases s.len() - from,
{
    if from < 0 || from + needle.len() > s.len() {
        None
    } else if needle.len() == 0 || matches_at(s, from, needle) {
        Some(from)
    } else {
        spec_find_substring(s, from + 1, needle)
    }
}

/// Index of the last occurrence of `needle` in `s`.
pub open spec fn spec_rfind_substring(s: Seq<char>, needle: Seq<char>) -> Option<int>
    decreases s.len(),
{
    if s.len() < needle.len() {
        None
    } else if needle.len() == 0 || matches_at(s, s.len() - needle.len(), needle) {
        Some(s.len() - needle.len())
    } else {
        spec_rfind_substring(s.take(s.len() - 1), needle)
    }
}

/// The pieces of `s` between occurrences of the separator `sep`;
/// always at least one piece, and one more piece per separator.
pub open spec fn spec_split_char(s: Seq<char>, sep: char) -> Seq<Seq<char>>
    decreases s.len(),
{
    if s.len() == 0 {
        seq![Seq::<char>::empty()]
    } else if s[0] == sep {
        seq![Seq::<char>::empty()] + spec_split_char(s.drop_first(), sep)
    } else {
        let rest = spec_split_char(s.drop_first(), sep);
        seq![seq![s[0]] + rest[0]] + rest.drop_first()
    }
}

/// The pieces joined back with the separator between them.
pub open spec fn spec_join_char(ls: Seq<Seq<char>>, sep: char) -> Seq<char>
    decreases ls.len(),
{
    if ls.len() == 0 {
        Seq::empty()
    } else if ls.len() == 1 {
        ls[0]
    } else {
        ls[0] + seq![sep] + spec_join_char(ls.drop_first(), sep)
    }
}

/// The lines of a text: the `'\n'`-separated pieces, except that a
/// final empty piece (from a trailing newline, or an empty text) does
/// not count as a line.
pub open spec fn spec_lines(s: Seq<char>) -> Seq<Seq<char>> {
    let ps = spec_split_char(s, '\n');
    if ps.last().len() == 0 {
        ps.drop_last()
    } else {
        ps
    }
}

/// `s` repeated `n` times.
pub open spec fn spec_repeat(s: Seq<char>, n: int) -> Seq<char>
    decreases n,
{
    if n <= 0 {
        Seq::empty()
    } else {
        s + spec_repeat(s, n - 1)
    }
}

/// Length of the longest all-whitespace prefix of `l`.
pub open spec fn leading_ws_len(l: Seq<char>) -> int
    decreases l.len(),
{
    if l.len() == 0 || !is_ws(l[0]) {
        0
    } else {
        1 + leading_ws_len(l.drop_first())
    }
}

/// Length of the longest all-whitespace suffix of `l`.
pub open spec fn trailing_ws_len(l: Seq<char>) -> int
    decreases l.len(),
{
    if l.len() == 0 || !is_ws(l.last()) {
        0
    } else {
        1 + trailing_ws_len(l.drop_last())
    }
}

/// The line consists of whitespace only (or is empty).
pub open spec fn spec_all_ws(l: Seq<char>) -> bool {
    leading_ws_len(l) == l.len()
}

/// The last character of `l` that is not whitespace; meaningful only
/// when the line is not all whitespace.
pub open spec fn last_non_ws(l: Seq<char>) -> char {
    l[l.len() - 1 - trailing_ws_len(l)]
}

// ---------------------------------------------------------------------
// Basic lemmas about the split/join model.
// ---------------------------------------------------------------------

pub proof fn lemma_split_len(s: Seq<char>, sep: char)
    ensures
        spec_split_char(s, sep).len() >= 1,
    decreases s.len(),
{
    if s.len() == 0 {
    } else {
        lemma_split_len(s.drop_first(), sep);
    }
}

/// A text with no separator splits into just itself.
pub proof fn lemma_split_no_sep(s: Seq<char>, sep: char)
    requires
        forall|i: int| 0 <= i < s.len() ==> s[i] != sep,
    ensures
        spec_split_char(s, sep) == seq![s],
    decreases s.len(),
{
    if s.len() == 0 {
        assert(s =~= Seq::<char>::empty());
        assert(spec_split_char(s, sep) =~~= seq![s]);
    } else {
        lemma_split_no_sep(s.drop_first(), sep);
        assert(seq![s[0]] + s.drop_first() =~= s);
        assert(spec_split_char(s, sep) =~~= seq![s]);
    }
}

/// Splitting a text of the shape `a ++ sep ++ b`, where `a` is free of
/// the separator, yields `a` followed by the split of `b`.
pub proof fn lemma_split_concat(a: Seq<char>, b: Seq<char>, sep: char)
    requires
        forall|i: int| 0 <= i < a.len() ==> a[i] != sep,
    ensures
        spec_split_char(a + seq![sep] + b, sep) == seq![a] + spec_split_char(b, sep),
    decreases a.len(),
{
    let s = a + seq![sep] + b;
    if a.len() == 0 {
        assert(s =~= seq![sep] + b);
        assert(s[0] == sep);
        assert(s.drop_first() =~= b);
        assert(a =~= Seq::<char>::empty());
        assert(spec_split_char(s, sep) =~~= seq![a] + spec_split_char(b, sep));
    } else {
        lemma_split_concat(a.drop_first(), b, sep);
        assert(s[0] == a[0]);
        assert(s[0] != sep);
        assert(s.drop_first() =~= a.drop_first() + seq![sep] + b);
        let rest = spec_split_char(s.drop_first(), sep);
        assert(rest == seq![a.drop_first()] + spec_split_char(b, sep));
        assert(rest[0] == a.drop_first());
        assert(seq![s[0]] + rest[0] =~= a);
        assert(rest.drop_first() =~~= spec_split_char(b, sep));
        assert(spec_split_char(s, sep) =~~= seq![a] + spec_split_char(b, sep));
    }
}

/// Joining the split pieces gives the text back.
pub proof fn lemma_join_split(s: Seq<char>, sep: char)
    ensures
        spec_join_char(spec_split_char(s, sep), sep) =~= s,
    decreases s.len(),
{
    if s.len() == 0 {
    } else if s[0] == sep {
        lemma_join_split(s.drop_first(), sep);
        lemma_split_len(s.drop_first(), sep);
        let ps = spec_split_char(s, sep);
        assert(ps.drop_first() =~= spec_split_char(s.drop_first(), sep));
        assert(spec_join_char(ps, sep) =~= Seq::<char>::empty() + seq![sep] + spec_join_char(
            ps.drop_first(),
            sep,
        ));
        assert(seq![s[0]] + s.drop_first() =~= s);
    } else {
        lemma_join_split(s.drop_first(), sep);
        lemma_split_len(s.drop_first(), sep);
        let rest = spec_split_char(s.drop_first(), sep);
        let ps = spec_split_char(s, sep);
        if rest.len() == 1 {
            assert(ps =~= seq![seq![s[0]] + rest[0]]);
            assert(spec_join_char(ps, sep) == seq![s[0]] + rest[0]);
            assert(spec_join_char(rest, sep) == rest[0]);
            assert(seq![s[0]] + rest[0] =~= s);
        } else {
            assert(ps.len() > 1);
            assert(ps[0] == seq![s[0]] + rest[0]);
            assert(ps.drop_first() =~= rest.drop_first());
            assert(spec_join_char(rest, sep) =~= rest[0] + seq![sep] + spec_join_char(
                rest.drop_first(),
                sep,
            ));
            assert(spec_join_char(ps, sep) =~= ps[0] + seq![sep] + spec_join_char(
                ps.drop_first(),
                sep,
            ));
            assert(spec_join_char(ps, sep) =~= seq![s[0]] + spec_join_char(rest, sep));
            assert(seq![s[0]] + s.drop_first() =~= s);
        }
    }
}

/// Splitting the join of separator-free pieces gives the pieces back.
pub proof fn lemma_split_join(ls: Seq<Seq<char>>, sep: char)
    requires
        ls.len() >= 1,
        forall|i: int, j: int| 0 <= i < ls.len() && 0 <= j < ls[i].len() ==> ls[i][j] != sep,
    ensures
        spec_split_char(spec_join_char(ls, sep), sep) == ls,
    decreases ls.len(),
{
    assert(forall|k: int| 0 <= k < ls[0].len() ==> ls[0][k] != sep);
    if ls.len() == 1 {
        lemma_split_no_sep(ls[0], sep);
        assert(spec_join_char(ls, sep) == ls[0]);
        assert(seq![ls[0]] =~~= ls);
    } else {
        assert(forall|i: int, j: int|
            0 <= i < ls.drop_first().len() && 0 <= j < ls.drop_first()[i].len()
                ==> ls.drop_first()[i][j] != sep) by {
            assert(forall|i: int|
                0 <= i < ls.drop_first().len() ==> ls.drop_first()[i] == ls[i + 1]);
        }
        lemma_split_join(ls.drop_first(), sep);
        lemma_split_concat(ls[0], spec_join_char(ls.drop_first(), sep), sep);
        assert(spec_join_char(ls, sep) =~= ls[0] + seq![sep] + spec_join_char(
            ls.drop_first(),
            sep,
        ));
        assert(seq![ls[0]] + ls.drop_first() =~~= ls);
    }
}

// ---------------------------------------------------------------------
// Executable helpers.
// ---------------------------------------------------------------------

/// Relies on std's `String::push`: appends exactly the one character.
#[verifier::external_body]
pub(crate) fn push_char(s: &mut String, c: char)
    ensures
        final(s)@ == old(s)@.push(c),
{
    s.push(c);
}

/// Copy of the characters `from..to` of `s` as an owned string.
pub fn substring(s: &str, from: usize, to: usize) -> (r: String)
    requires
        from <= to <= s@.len(),
    ensures
        r@ == s@.subrange(from as int, to as int),
{
    let sub = s.substring_char(from, to);
    String::from_str(sub)
}

/// The two strings hold the same characters.
pub fn str_eq(a: &str, b: &str) -> (r: bool)
    ensures
        r == (a@ == b@),
{
    let n = a.unicode_len();
    if n != b.unicode_len() {
        return false;
    }
    let mut i: usize = 0;
    while i < n
        invariant
            n == a@.len(),
            n == b@.len(),
            0 <= i <= n,
            forall|j: int| 0 <= j < i ==> a@[j] == b@[j],
        decreases n - i,
    {
        if a.get_char(i) != b.get_char(i) {
            return false;
        }
        i += 1;
    }
    proof {
        assert(a@ =~= b@);
    }
    true
}

/// First occurrence of the character `c` at or after `from`.
pub fn find_char(s: &str, c: char, from: usize) -> (r: Option<usize>)
    ensures
        r is Some <==> spec_find_char(s@, c, from as int) is Some,
        r matches Some(i) ==> spec_find_char(s@, c, from as int) == Some(i as int),
    decreases s@.len() - from,
{
    let n = s.unicode_len();
    let mut i: usize = from;
    while i < n
        invariant
            n == s@.len(),
            from <= i,
            spec_find_char(s@, c, from as int) == spec_find_char(s@, c, i as int),
        decreases n - i,
    {
        if s.get_char(i) == c {
            return Some(i);
        }
        i += 1;
    }
    None
}

/// Last occurrence of the character `c` in `s`.
pub fn rfind_char(s: &str, c: char) -> (r: Option<usize>)
    ensures
        r is Some <==> spec_rfind_char(s@, c) is Some,
        r matches Some(i) ==> spec_rfind_char(s@, c) == Some(i as int),
{
    let n = s.unicode_len();
    let mut i: usize = n;
    proof {
        assert(s@.take(n as int) =~= s@);
    }
    while i > 0
        invariant
            n == s@.len(),
            i <= n,
            spec_rfind_char(s@, c) == spec_rfind_char(s@.take(i as int), c),
        decreases i,
    {
        i -= 1;
        if s.get_char(i) == c {
            proof {
                assert(s@.take(i + 1).last() == s@[i as int]);
            }
            return Some(i);
        }
        proof {
            assert(s@.take(i + 1).last() == s@[i as int]);
            assert(s@.take(i + 1).drop_last() =~= s@.take(i as int));
        }
    }
    proof {
        assert(s@.take(0).len() == 0);
    }
    None
}

/// Number of occurrences of `c` among the first `upto` characters.
pub fn count_char_upto(s: &str, c: char, upto: usize) -> (r: usize)
    requires
        upto <= s@.len(),
    ensures
        r == spec_count_char(s@.take(upto as int), c),
{
    let mut i: usize = 0;
    let mut cnt: usize = 0;
    proof {
        lemma_count_char_bound(s@.take(0), c);
    }
    while i < upto
        invariant
            upto <= s@.len(),
            0 <= i <= upto,
            cnt == spec_count_char(s@.take(i as int), c),
            cnt <= i,
        decreases upto - i,
    {
        proof {
            lemma_count_char_snoc(s@.take(i + 1), c);
            assert(s@.take(i + 1).drop_last() =~= s@.take(i as int));
        }
        if s.get_char(i) == c {
            cnt += 1;
        }
        i += 1;
    }
    cnt
}

/// Counting occurrences never exceeds the length.
pub proof fn lemma_count_char_bound(s: Seq<char>, c: char)
    ensures
        0 <= spec_count_char(s, c) <= s.len(),
    decreases s.len(),
{
    if s.len() > 0 {
        lemma_count_char_bound(s.drop_first(), c);
    }
}

/// Occurrences in `s` are those in `s` without its last character,
/// plus one if the last character matches.
pub proof fn lemma_count_char_snoc(s: Seq<char>, c: char)
    requires
        s.len() > 0,
    ensures
        spec_count_char(s, c) == spec_count_char(s.drop_last(), c) + (if s.last() == c {
            1int
        } else {
            0int
        }),
    decreases s.len(),
{
    if s.len() == 1 {
        assert(s.last() == s[0]);
        assert(spec_count_char(s.drop_first(), c) == 0);
        assert(spec_count_char(s.drop_last(), c) == 0);
    } else {
        lemma_count_char_snoc(s.drop_first(), c);
        assert(s.drop_first().drop_last() =~= s.drop_last().drop_first());
        assert(s.drop_first().last() == s.last());
        assert(s.drop_last().len() > 0);
        assert(s.drop_last()[0] == s[0]);
        assert(spec_count_char(s, c) == (if s[0] == c {
            1int
        } else {
            0int
        }) + spec_count_char(s.drop_first(), c));
        assert(spec_count_char(s.drop_last(), c) == (if s.drop_last()[0] == c {
            1int
        } else {
            0int
        }) + spec_count_char(s.drop_last().drop_first(), c));
    }
}

/// `needle` occurs at position `i` of `s`.
pub fn match_at(s: &str, i: usize, needle: &str) -> (r: bool)
    requires
        i + needle@.len() <= s@.len(),
    ensures
        r == matches_at(s@, i as int, needle@),
{
    let n = s.unicode_len();
    let m = needle.unicode_len();
    let mut j: usize = 0;
    while j < m
        invariant
            n == s@.len(),
            m == needle@.len(),
            i + m <= s@.len(),
            0 <= j <= m,
            forall|k: int| 0 <= k < j ==> s@[i + k] == needle@[k],
        decreases m - j,
    {
        if s.get_char(i + j) != needle.get_char(j) {
            proof {
                assert(s@.subrange(i as int, i + m) != needle@) by {
                    assert(s@.subrange(i as int, i + m)[j as int] == s@[i + j]);
                }
            }
            return false;
        }
        j += 1;
    }
    proof {
        assert(s@.subrange(i as int, i + m) =~= needle@);
    }
    true
}

/// First occurrence of `needle` at or after `from`.
pub fn find_substring(s: &str, from: usize, needle: &str) -> (r: Option<usize>)
    ensures
        r is Some <==> spec_find_substring(s@, from as int, needle@) is Some,
        r matches Some(i) ==> spec_find_substring(s@, from as int, needle@) == Some(i as int),
{
    let n = s.unicode_len();
    let m = needle.unicode_len();
    if m > n || from > n - m {
        proof {
            lemma_find_substring_none(s@, from as int, needle@);
        }
        return None;
    }
    if m == 0 {
        proof {
            assert(s@.subrange(from as int, from as int) =~= needle@);
        }
        return Some(from);
    }
    let mut i: usize = from;
    while i <= n - m
        invariant
            n == s@.len(),
            m == needle@.len(),
            1 <= m <= n,
            from <= i,
            i <= n - m + 1,
            spec_find_substring(s@, from as int, needle@) == spec_find_substring(
                s@,
                i as int,
                needle@,
            ),
        decreases n - i,
    {
        if match_at(s, i, needle) {
            return Some(i);
        }
        i += 1;
    }
    None
}

/// Beyond the last possible start there is no occurrence.
proof fn lemma_find_substring_none(s: Seq<char>, from: int, needle: Seq<char>)
    requires
        from + needle.len() > s.len() || from < 0,
    ensures
        spec_find_substring(s, from, needle) is None,
{
}

/// Last occurrence of `needle` in `s`.
pub fn rfind_substring(s: &str, needle: &str) -> (r: Option<usize>)
    ensures
        r is Some <==> spec_rfind_substring(s@, needle@) is Some,
        r matches Some(i) ==> spec_rfind_substring(s@, needle@) == Some(i as int),
{
    let n = s.unicode_len();
    let m = needle.unicode_len();
    if m > n {
        return None;
    }
    if m == 0 {
        proof {
            assert(s@.subrange(n as int, n as int) =~= needle@);
        }
        return Some(n);
    }
    let mut i: usize = n - m + 1;
    proof {
        assert(s@.take(n as int) =~= s@);
    }
    while i > 0
        invariant
            n == s@.len(),
            m == needle@.len(),
            1 <= m <= n,
            i <= n - m + 1,
            spec_rfind_substring(s@, needle@) == spec_rfind_substring(
                s@.take(i + m - 1),
                needle@,
            ),
        decreases i,
    {
        i -= 1;
        proof {
            assert(s@.take(i + m).len() == i + m);
            assert(s@.take(i + m).take(i + m - 1) =~= s@.take(i + m - 1));
        }
        if match_at(s, i, needle) {
            proof {
                assert(s@.take(i + m).subrange(i as int, i + m) =~= s@.subrange(
                    i as int,
                    i + m,
                ));
                assert(matches_at(s@.take(i + m), i as int, needle@));
            }
            return Some(i);
        }
        proof {
            assert(s@.take(i + m).subrange(i as int, i + m) =~= s@.subrange(i as int, i + m));
            assert(!matches_at(s@.take(i + m), i as int, needle@));
        }
    }
    proof {
        assert(s@.take(m - 1).len() < m);
    }
    None
}

/// The pieces of `s` between occurrences of `sep`.
pub fn split_on_char(s: &str, sep: char) -> (r: Vec<String>)
    ensures
        r.deep_view() == spec_split_char(s@, sep),
{
    let n = s.unicode_len();
    let mut r: Vec<String> = Vec::new();
    let mut cur = String::new();
    let mut start: usize = 0;
    let mut i: usize = 0;
    proof {
        assert(s@.skip(0) =~= s@);
        assert(r.deep_view() + spec_split_char(s@, sep) =~~= spec_split_char(s@, sep));
        assert(cur@ =~= s@.subrange(0, 0));
    }
    while i < n
        invariant
            n == s@.len(),
            0 <= start <= i <= n,
            cur@ == s@.subrange(start as int, i as int),
            forall|k: int| start <= k < i ==> s@[k] != sep,
            spec_split_char(s@, sep) == r.deep_view() + spec_split_char(
                s@.skip(start as int),
                sep,
            ),
        decreases n - i,
    {
        let c = s.get_char(i);
        if c == sep {
            proof {
                assert(s@.skip(start as int) =~= cur@ + seq![sep] + s@.skip(i + 1));
                lemma_split_concat(cur@, s@.skip(i + 1), sep);
            }
            let ghost old_deep = r.deep_view();
            let ghost cur_view = cur@;
            r.push(cur);
            cur = String::new();
            start = i + 1;
            proof {
                assert(r.deep_view() =~~= old_deep.push(cur_view));
                assert(old_deep.push(cur_view) + spec_split_char(s@.skip(start as int), sep)
                    =~~= old_deep + (seq![cur_view] + spec_split_char(
                    s@.skip(start as int),
                    sep,
                )));
                assert(cur@ =~= s@.subrange(start as int, start as int));
            }
        } else {
            push_char(&mut cur, c);
            proof {
                assert(cur@ =~= s@.subrange(start as int, i + 1));
            }
        }
        i += 1;
    }
    proof {
        assert(s@.skip(start as int) =~= cur@);
        lemma_split_no_sep(cur@, sep);
    }
    let ghost old_deep = r.deep_view();
    let ghost cur_view = cur@;
    r.push(cur);
    proof {
        assert(r.deep_view() =~~= old_deep.push(cur_view));
        assert(old_deep + seq![cur_view] =~~= old_deep.push(cur_view));
    }
    r
}

/// The pieces joined back with `sep` between them.
pub fn join_with_char(ls: &Vec<String>, sep: char) -> (r: String)
    ensures
        r@ == spec_join_char(ls.deep_view(), sep),
{
    let mut r = String::new();
    let mut i: usize = 0;
    while i < ls.len()
        invariant
            0 <= i <= ls.len(),
            r@ == spec_join_char(ls.deep_view().take(i as int), sep),
        decreases ls.len() - i,
    {
        if i > 0 {
            push_char(&mut r, sep);
        }
        r.append(ls[i].as_str());
        proof {
            lemma_join_snoc(ls.deep_view().take(i + 1), sep);
            assert(ls.deep_view().take(i + 1).drop_last() =~= ls.deep_view().take(i as int));
            assert(ls.deep_view().take(i + 1).last() == ls.deep_view()[i as int]);
        }
        i += 1;
    }
    proof {
        assert(ls.deep_view().take(ls.len() as int) =~= ls.deep_view());
    }
    r
}

/// Join of pieces with one more at the end.
pub proof fn lemma_join_snoc(ls: Seq<Seq<char>>, sep: char)
    requires
        ls.len() >= 1,
    ensures
        spec_join_char(ls, sep) =~= if ls.len() == 1 {
            ls.last()
        } else {
            spec_join_char(ls.drop_last(), sep) + seq![sep] + ls.last()
        },
    decreases ls.len(),
{
    if ls.len() <= 1 {
    } else if ls.len() == 2 {
        assert(ls.drop_first().len() == 1);
        assert(spec_join_char(ls.drop_first(), sep) == ls[1]);
        assert(ls.drop_last() =~= seq![ls[0]]);
        assert(spec_join_char(ls.drop_last(), sep) == ls[0]);
    } else {
        lemma_join_snoc(ls.drop_first(), sep);
        assert(ls.drop_first().drop_last() =~= ls.drop_last().drop_first());
        assert(ls.drop_first().last() == ls.last());
        assert(spec_join_char(ls.drop_last(), sep) =~= ls[0] + seq![sep] + spec_join_char(
            ls.drop_last().drop_first(),
            sep,
        ));
    }
}

/// The pieces joined with a separator string between them.
pub open spec fn spec_join_sep(ls: Seq<Seq<char>>, sep: Seq<char>) -> Seq<char>
    decreases ls.len(),
{
    if ls.len() == 0 {
        Seq::empty()
    } else if ls.len() == 1 {
        ls[0]
    } else {
        ls[0] + sep + spec_join_sep(ls.drop_first(), sep)
    }
}

/// Join with a separator string, one more piece at the end.
pub proof fn lemma_join_sep_snoc(ls: Seq<Seq<char>>, sep: Seq<char>)
    requires
        ls.len() >= 1,
    ensures
        spec_join_sep(ls, sep) =~= if ls.len() == 1 {
            ls.last()
        } else {
            spec_join_sep(ls.drop_last(), sep) + sep + ls.last()
        },
    decreases ls.len(),
{
    if ls.len() <= 1 {
    } else if ls.len() == 2 {
        assert(ls.drop_first().len() == 1);
        assert(spec_join_sep(ls.drop_first(), sep) == ls[1]);
        assert(ls.drop_last() =~= seq![ls[0]]);
        assert(spec_join_sep(ls.drop_last(), sep) == ls[0]);
    } else {
        lemma_join_sep_snoc(ls.drop_first(), sep);
        assert(ls.drop_first().drop_last() =~= ls.drop_last().drop_first());
        assert(ls.drop_first().last() == ls.last());
        assert(spec_join_sep(ls.drop_last(), sep) =~= ls[0] + sep + spec_join_sep(
            ls.drop_last().drop_first(),
            sep,
        ));
    }
}

/// The pieces joined with a separator string between them.
pub fn join_with_sep(ls: &Vec<String>, sep: &str) -> (r: String)
    ensures
        r@ == spec_join_sep(ls.deep_view(), sep@),
{
    let mut r = String::new();
    let mut i: usize = 0;
    while i < ls.len()
        invariant
            0 <= i <= ls.len(),
            r@ == spec_join_sep(ls.deep_view().take(i as int), sep@),
        decreases ls.len() - i,
    {
        if i > 0 {
            r.append(sep);
        }
        r.append(ls[i].as_str());
        proof {
            lemma_join_sep_snoc(ls.deep_view().take(i + 1), sep@);
            assert(ls.deep_view().take(i + 1).drop_last() =~= ls.deep_view().take(i as int));
            assert(ls.deep_view().take(i + 1).last() == ls.deep_view()[i as int]);
        }
        i += 1;
    }
    proof {
        assert(ls.deep_view().take(ls.len() as int) =~= ls.deep_view());
    }
    r
}

/// Whether some string in the list holds exactly these characters.
pub fn vec_contains_str(v: &Vec<String>, x: &str) -> (r: bool)
    ensures
        r == v.deep_view().contains(x@),
{
    let mut i: usize = 0;
    while i < v.len()
        invariant
            0 <= i <= v.len(),
            forall|k: int| 0 <= k < i ==> v.deep_view()[k] != x@,
        decreases v.len() - i,
    {
        proof {
            assert(v.deep_view()[i as int] == v@[i as int]@);
        }
        if str_eq(v[i].as_str(), x) {
            proof {
                assert(v.deep_view()[i as int] == x@);
            }
            return true;
        }
        i += 1;
    }
    proof {
        assert(!v.deep_view().contains(x@)) by {
            if v.deep_view().contains(x@) {
                let k = choose|k: int| 0 <= k < v.deep_view().len() && v.deep_view()[k] == x@;
            }
        }
    }
    false
}

/// The lines of the text, by the library's line model.
pub fn split_lines(s: &str) -> (r: Vec<String>)
    ensures
        r.deep_view() == spec_lines(s@),
{
    let mut ps = split_on_char(s, '\n');
    proof {
        lemma_split_len(s@, '\n');
    }
    let last = ps.len() - 1;
    if ps[last].unicode_len() == 0 {
        let _ = ps.pop();
        proof {
            assert(ps.deep_view() =~= spec_split_char(s@, '\n').drop_last());
        }
    }
    ps
}

/// `s` repeated `n` times.
pub fn repeat_str(s: &str, n: usize) -> (r: String)
    ensures
        r@ == spec_repeat(s@, n as int),
{
    let mut r = String::new();
    let mut i: usize = 0;
    while i < n
        invariant
            0 <= i <= n,
            r@ == spec_repeat(s@, i as int),
        decreases n - i,
    {
        r.append(s);
        proof {
            lemma_repeat_snoc(s@, i + 1);
        }
        i += 1;
    }
    r
}

/// Unfolding one repetition at the end instead of the front.
pub proof fn lemma_repeat_snoc(s: Seq<char>, n: int)
    requires
        n >= 1,
    ensures
        spec_repeat(s, n) =~= spec_repeat(s, n - 1) + s,
    decreases n,
{
    if n == 1 {
        assert(spec_repeat(s, 0) == Seq::<char>::empty());
        assert(spec_repeat(s, 1) =~= s + Seq::<char>::empty());
        assert(spec_repeat(s, 0) + s =~= s);
    } else {
        lemma_repeat_snoc(s, n - 1);
        assert(spec_repeat(s, n) == s + spec_repeat(s, n - 1));
        assert(spec_repeat(s, n - 1) == s + spec_repeat(s, n - 2));
        assert(s + (spec_repeat(s, n - 2) + s) =~= (s + spec_repeat(s, n - 2)) + s);
    }
}

/// Length of the whitespace prefix of `l`.
pub fn leading_ws_count(l: &str) -> (r: usize)
    ensures
        r == leading_ws_len(l@),
{
    let n = l.unicode_len();
    let mut i: usize = 0;
    proof {
        assert(l@.skip(0) =~= l@);
    }
    while i < n
        invariant
            n == l@.len(),
            0 <= i <= n,
            forall|j: int| 0 <= j < i ==> is_ws(l@[j]),
            leading_ws_len(l@) == i + leading_ws_len(l@.skip(i as int)),
        decreases n - i,
    {
        let c = l.get_char(i);
        if !ws_char(c) {
            proof {
                assert(l@.skip(i as int)[0] == l@[i as int]);
            }
            return i;
        }
        proof {
            assert(l@.skip(i as int)[0] == l@[i as int]);
            assert(l@.skip(i as int).drop_first() =~= l@.skip(i + 1));
        }
        i += 1;
    }
    proof {
        assert(l@.skip(n as int).len() == 0);
    }
    n
}

/// Length of the whitespace suffix of `l`.
pub fn trailing_ws_count(l: &str) -> (r: usize)
    ensures
        r == trailing_ws_len(l@),
{
    let n = l.unicode_len();
    let mut i: usize = n;
    proof {
        assert(l@.take(n as int) =~= l@);
    }
    while i > 0
        invariant
            n == l@.len(),
            0 <= i <= n,
            trailing_ws_len(l@) == (n - i) + trailing_ws_len(l@.take(i as int)),
        decreases i,
    {
        let c = l.get_char(i - 1);
        proof {
            assert(l@.take(i as int).last() == l@[i - 1]);
            assert(l@.take(i as int).drop_last() =~= l@.take(i - 1));
        }
        if !ws_char(c) {
            return n - i;
        }
        i -= 1;
    }
    proof {
        assert(l@.take(0).len() == 0);
    }
    n
}

/// Whitespace lengths stay within the line.
pub proof fn lemma_ws_len_bounds(l: Seq<char>)
    ensures
        0 <= leading_ws_len(l) <= l.len(),
        0 <= trailing_ws_len(l) <= l.len(),
    decreases l.len(),
{
    if l.len() > 0 {
        lemma_ws_len_bounds(l.drop_first());
        lemma_ws_len_bounds(l.drop_last());
    }
}

/// The number of pieces is one more than the number of separators.
pub proof fn lemma_split_count(s: Seq<char>, sep: char)
    ensures
        spec_split_char(s, sep).len() == spec_count_char(s, sep) + 1,
    decreases s.len(),
{
    if s.len() > 0 {
        lemma_split_count(s.drop_first(), sep);
    }
}

/// No piece of a split contains the separator.
pub proof fn lemma_split_pieces_free(s: Seq<char>, sep: char)
    ensures
        forall|i: int, j: int|
            0 <= i < spec_split_char(s, sep).len() && 0 <= j < spec_split_char(s, sep)[i].len()
                ==> spec_split_char(s, sep)[i][j] != sep,
    decreases s.len(),
{
    let ps = spec_split_char(s, sep);
    if s.len() == 0 {
    } else if s[0] == sep {
        lemma_split_pieces_free(s.drop_first(), sep);
        let rest = spec_split_char(s.drop_first(), sep);
        assert(forall|i: int| 1 <= i < ps.len() ==> ps[i] == rest[i - 1]);
        assert(ps[0].len() == 0);
    } else {
        lemma_split_pieces_free(s.drop_first(), sep);
        lemma_split_len(s.drop_first(), sep);
        let rest = spec_split_char(s.drop_first(), sep);
        assert(ps[0] == seq![s[0]] + rest[0]);
        assert(forall|j: int| 0 <= j < ps[0].len() ==> ps[0][j] != sep) by {
            assert(forall|j: int| 1 <= j < ps[0].len() ==> ps[0][j] == rest[0][j - 1]);
            assert(ps[0][0] == s[0]);
        }
        assert(forall|i: int| 1 <= i < ps.len() ==> ps[i] == rest[i]);
    }
}

/// A character absent from the text is absent from every split piece.
pub proof fn lemma_split_pieces_free_other(s: Seq<char>, sep: char, c: char)
    requires
        forall|k: int| 0 <= k < s.len() ==> s[k] != c,
    ensures
        forall|i: int, j: int|
            0 <= i < spec_split_char(s, sep).len() && 0 <= j < spec_split_char(s, sep)[i].len()
                ==> spec_split_char(s, sep)[i][j] != c,
    decreases s.len(),
{
    let ps = spec_split_char(s, sep);
    if s.len() == 0 {
    } else {
        assert(forall|k: int| 0 <= k < s.drop_first().len() ==> s.drop_first()[k] != c);
        lemma_split_pieces_free_other(s.drop_first(), sep, c);
        if s[0] == sep {
            let rest = spec_split_char(s.drop_first(), sep);
            assert(forall|i: int| 1 <= i < ps.len() ==> ps[i] == rest[i - 1]);
            assert(ps[0].len() == 0);
        } else {
            lemma_split_len(s.drop_first(), sep);
            let rest = spec_split_char(s.drop_first(), sep);
            assert(ps[0] == seq![s[0]] + rest[0]);
            assert(forall|j: int| 0 <= j < ps[0].len() ==> ps[0][j] != c) by {
                assert(forall|j: int| 1 <= j < ps[0].len() ==> ps[0][j] == rest[0][j - 1]);
                assert(ps[0][0] == s[0]);
            }
            assert(forall|i: int| 1 <= i < ps.len() ==> ps[i] == rest[i]);
        }
    }
}

/// A text that does not end with the separator splits into pieces whose
/// last one is not empty.
pub proof fn lemma_split_last_nonempty(s: Seq<char>, sep: char)
    requires
        s.len() > 0,
        s.last() != sep,
    ensures
        spec_split_char(s, sep).last().len() > 0,
    decreases s.len(),
{
    let ps = spec_split_char(s, sep);
    if s.len() == 1 {
    } else if s[0] == sep {
        lemma_split_last_nonempty(s.drop_first(), sep);
        lemma_split_len(s.drop_first(), sep);
        assert(s.drop_first().last() == s.last());
        assert(ps.last() == spec_split_char(s.drop_first(), sep).last());
    } else {
        lemma_split_last_nonempty(s.drop_first(), sep);
        lemma_split_len(s.drop_first(), sep);
        assert(s.drop_first().last() == s.last());
        let rest = spec_split_char(s.drop_first(), sep);
        if rest.len() == 1 {
            assert(ps.last() == seq![s[0]] + rest[0]);
        } else {
            assert(ps.last() == rest.last());
        }
    }
}

/// A found last occurrence is a position of the character.
pub proof fn lemma_rfind_char_props(s: Seq<char>, c: char)
    ensures
        spec_rfind_char(s, c) matches Some(i) ==> 0 <= i < s.len() && s[i] == c,
    decreases s.len(),
{
    if s.len() > 0 && s[s.len() - 1] != c {
        lemma_rfind_char_props(s.drop_last(), c);
    }
}

/// The whitespace prefix or suffix spans the whole line exactly when
/// every character of the line is whitespace.
pub proof fn lemma_all_ws(l: Seq<char>)
    ensures
        (leading_ws_len(l) == l.len()) <==> (forall|j: int| 0 <= j < l.len() ==> is_ws(l[j])),
        (trailing_ws_len(l) == l.len()) <==> (forall|j: int| 0 <= j < l.len() ==> is_ws(l[j])),
    decreases l.len(),
{
    lemma_ws_len_bounds(l);
    if l.len() > 0 {
        lemma_all_ws(l.drop_first());
        lemma_all_ws(l.drop_last());
        lemma_ws_len_bounds(l.drop_first());
        lemma_ws_len_bounds(l.drop_last());
        assert(forall|j: int| 0 <= j < l.drop_first().len() ==> l.drop_first()[j] == l[j + 1]);
        assert(forall|j: int| 0 <= j < l.drop_last().len() ==> l.drop_last()[j] == l[j]);
        if is_ws(l[0]) && forall|j: int| 0 <= j < l.drop_first().len() ==> is_ws(l.drop_first()[j]) {
            assert(forall|j: int| 0 <= j < l.len() ==> is_ws(#[trigger] l[j])) by {
                assert(forall|j: int|
                    1 <= j < l.len() ==> l[j] == l.drop_first()[j - 1] && is_ws(
                        l.drop_first()[j - 1],
                    ));
            }
        }
        if is_ws(l.last()) && forall|j: int| 0 <= j < l.drop_last().len() ==> is_ws(
            l.drop_last()[j],
        ) {
            assert(forall|j: int| 0 <= j < l.len() ==> is_ws(#[trigger] l[j])) by {
                assert(forall|j: int| 0 <= j < l.len() - 1 ==> l[j] == l.drop_last()[j]);
            }
        }
    }
}

/// `a` starts with `b`.
pub fn starts_with(a: &str, b: &str) -> (r: bool)
    ensures
        r == (b@.len() <= a@.len() && a@.subrange(0, b@.len() as int) == b@),
{
    let m = b.unicode_len();
    if m > a.unicode_len() {
        return false;
    }
    match_at(a, 0, b)
}

/// `a` ends with `b`.
pub fn ends_with(a: &str, b: &str) -> (r: bool)
    ensures
        r == (b@.len() <= a@.len() && a@.subrange(a@.len() - b@.len(), a@.len() as int) == b@),
{
    let n = a.unicode_len();
    let m = b.unicode_len();
    if m > n {
        return false;
    }
    match_at(a, n - m, b)
}

} // verus!
