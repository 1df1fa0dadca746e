//! Stability of indent detection: re-running detection on the output
//! of an insertion yields the same indent unit as detection on the
//! input, for every document that has at least one indented line. The
//! proof characterizes detection as a fold over the lines — a tab line
//! decides immediately; otherwise the shortest whitespace prefix wins,
//! earliest first — and shows the inserted lines can never change the
//! winner: they are indented by whole multiples of the detected unit.

use vstd::prelude::*;

use crate::text::{
    is_ws, spec_split_char, spec_join_char, spec_lines, spec_repeat, leading_ws_len,
    spec_all_ws, lemma_ws_len_bounds, spec_rfind_char, lemma_rfind_char_props,
    lemma_split_join, lemma_join_snoc, lemma_split_pieces_free_other,
};
use crate::insert::{
    json_root_shape, leading_ws, spec_detect_indent_from, spec_detect_indent,
    spec_line_of_offset, spec_fix_comma, spec_last_nonblank_before, spec_line_needs_comma,
    spec_splice_before, spec_entry_pair, spec_open_line, spec_close_line,
    spec_nested_entry_lines, spec_depth_found, spec_find_nested_range, spec_insert_key,
    lemma_depth_found_bounds, lemma_depth_found_some,
};
use crate::insert_laws::{
    lemma_splice_lines, lemma_detect_indent_no_newline, lemma_lines_no_newline,
    lemma_last_nonblank_props,
};

verus! {

// ---------------------------------------------------------------------
// What detection reads from a line.
// ---------------------------------------------------------------------

/// A line that takes part in indent detection: its whitespace prefix is
/// neither empty nor the whole line.
pub open spec fn is_cand(l: Seq<char>) -> bool {
    0 < leading_ws_len(l) < l.len()
}

/// Some line of the document is indented (so detection does not fall
/// back to its two-space default).
pub open spec fn spec_some_line_indented(lines: Seq<Seq<char>>) -> bool {
    exists|i: int| 0 <= i < lines.len() && is_cand(#[trigger] lines[i])
}

/// A line whose whitespace prefix starts with a tab; the first such
/// line decides a one-tab unit.
pub open spec fn is_tab_cand(l: Seq<char>) -> bool {
    is_cand(l) && leading_ws(l)[0] == '\t'
}

/// Some line is tab-indented.
pub open spec fn has_tab_cand(lines: Seq<Seq<char>>) -> bool {
    exists|i: int| 0 <= i < lines.len() && is_tab_cand(#[trigger] lines[i])
}

/// The shorter of the running best and a new candidate prefix; the
/// running best survives a tie.
pub open spec fn better(b: Option<Seq<char>>, lw: Seq<char>) -> Option<Seq<char>> {
    match b {
        None => Some(lw),
        Some(x) => if lw.len() < x.len() {
            Some(lw)
        } else {
            Some(x)
        },
    }
}

/// The fold detection performs when no tab line interrupts it: the
/// shortest candidate prefix, earliest first.
pub open spec fn fold_best(lines: Seq<Seq<char>>, b: Option<Seq<char>>) -> Option<Seq<char>>
    decreases lines.len(),
{
    if lines.len() == 0 {
        b
    } else {
        let l = lines[0];
        if is_cand(l) && leading_ws(l)[0] != '\t' {
            fold_best(lines.drop_first(), better(b, leading_ws(l)))
        } else {
            fold_best(lines.drop_first(), b)
        }
    }
}

/// Dropping the first line keeps a tab witness at a later index.
proof fn lemma_tab_cand_shift(lines: Seq<Seq<char>>)
    requires
        lines.len() > 0,
    ensures
        !is_tab_cand(lines[0]) ==> (has_tab_cand(lines) <==> has_tab_cand(lines.drop_first())),
{
    if !is_tab_cand(lines[0]) {
        if has_tab_cand(lines) {
            let i = choose|i: int| 0 <= i < lines.len() && is_tab_cand(#[trigger] lines[i]);
            assert(i >= 1);
            assert(lines.drop_first()[i - 1] == lines[i]);
            assert(has_tab_cand(lines.drop_first()));
        }
        if has_tab_cand(lines.drop_first()) {
            let i = choose|i: int|
                0 <= i < lines.drop_first().len() && is_tab_cand(#[trigger] lines.drop_first()[i]);
            assert(lines.drop_first()[i] == lines[i + 1]);
            assert(has_tab_cand(lines));
        }
    }
}

/// With a tab-indented line present, detection answers one tab,
/// whatever best it carries.
proof fn lemma_detect_tab(lines: Seq<Seq<char>>, best: Option<Seq<char>>)
    requires
        has_tab_cand(lines),
    ensures
        spec_detect_indent_from(lines, best) == seq!['\t'],
    decreases lines.len(),
{
    let l = lines[0];
    let lw = leading_ws(l);
    lemma_ws_len_bounds(l);
    if is_tab_cand(l) {
        assert(!(lw.len() == l.len() || lw.len() == 0));
    } else {
        lemma_tab_cand_shift(lines);
        if lw.len() == l.len() || lw.len() == 0 {
            lemma_detect_tab(lines.drop_first(), best);
        } else {
            assert(lw[0] != '\t');
            let nb = match best {
                None => Some(lw),
                Some(bb) => if lw.len() < bb.len() {
                    Some(lw)
                } else {
                    Some(bb)
                },
            };
            lemma_detect_tab(lines.drop_first(), nb);
        }
    }
}

/// With no tab-indented line, detection is exactly the fold (with the
/// two-space default when nothing competes).
proof fn lemma_detect_notab(lines: Seq<Seq<char>>, best: Option<Seq<char>>)
    requires
        !has_tab_cand(lines),
    ensures
        spec_detect_indent_from(lines, best) == (match fold_best(lines, best) {
            None => seq![' ', ' '],
            Some(x) => x,
        }),
    decreases lines.len(),
{
    if lines.len() > 0 {
        let l = lines[0];
        let lw = leading_ws(l);
        lemma_ws_len_bounds(l);
        assert(!is_tab_cand(l));
        lemma_tab_cand_shift(lines);
        if lw.len() == l.len() || lw.len() == 0 {
            lemma_detect_notab(lines.drop_first(), best);
        } else {
            assert(is_cand(l));
            assert(lw[0] != '\t');
            lemma_detect_notab(lines.drop_first(), better(best, lw));
        }
    }
}

/// The fold over a concatenation is the fold over the second part,
/// started from the fold over the first.
proof fn lemma_fold_concat(a: Seq<Seq<char>>, b: Seq<Seq<char>>, acc: Option<Seq<char>>)
    ensures
        fold_best(a + b, acc) == fold_best(b, fold_best(a, acc)),
    decreases a.len(),
{
    if a.len() == 0 {
        assert(a + b =~~= b);
    } else {
        assert((a + b)[0] == a[0]);
        assert((a + b).drop_first() =~~= a.drop_first() + b);
        let l = a[0];
        if is_cand(l) && leading_ws(l)[0] != '\t' {
            lemma_fold_concat(a.drop_first(), b, better(acc, leading_ws(l)));
        } else {
            lemma_fold_concat(a.drop_first(), b, acc);
        }
    }
}

/// What the fold yields: nothing only when nothing competed; otherwise
/// the carried best or some candidate's prefix, never longer than
/// either.
proof fn lemma_fold_min(lines: Seq<Seq<char>>, acc: Option<Seq<char>>)
    ensures
        fold_best(lines, acc) is None ==> acc is None && forall|i: int|
            0 <= i < lines.len() ==> !(is_cand(#[trigger] lines[i]) && leading_ws(lines[i])[0]
                != '\t'),
        fold_best(lines, acc) matches Some(y) ==> {
            &&& (acc matches Some(x) ==> y.len() <= x.len())
            &&& ((acc matches Some(x) && y == x) || exists|i: int|
                0 <= i < lines.len() && is_cand(#[trigger] lines[i]) && leading_ws(lines[i])[0]
                    != '\t' && leading_ws(lines[i]) == y)
            &&& forall|i: int|
                0 <= i < lines.len() && is_cand(#[trigger] lines[i]) && leading_ws(lines[i])[0]
                    != '\t' ==> y.len() <= leading_ws(lines[i]).len()
        },
    decreases lines.len(),
{
    if lines.len() > 0 {
        let l = lines[0];
        let rest = lines.drop_first();
        assert(forall|i: int| 0 <= i < rest.len() ==> rest[i] == lines[i + 1]);
        if is_cand(l) && leading_ws(l)[0] != '\t' {
            let lw = leading_ws(l);
            let acc2 = better(acc, lw);
            lemma_fold_min(rest, acc2);
            assert(fold_best(lines, acc) == fold_best(rest, acc2));
            match fold_best(rest, acc2) {
                None => {
                    assert(acc2 is Some);
                    assert(false);
                },
                Some(y) => {
                    // bound against the incoming best
                    match acc {
                        None => {},
                        Some(x) => {
                            assert(acc2->Some_0.len() <= x.len());
                            assert(y.len() <= x.len());
                        },
                    }
                    // the winner is the incoming best or some candidate's prefix
                    let a2 = acc2->Some_0;
                    if y == a2 {
                        match acc {
                            None => {
                                assert(a2 == lw);
                                assert(leading_ws(lines[0]) == y);
                            },
                            Some(x) => {
                                if lw.len() < x.len() {
                                    assert(a2 == lw);
                                    assert(leading_ws(lines[0]) == y);
                                } else {
                                    assert(a2 == x);
                                }
                            },
                        }
                    } else {
                        let j = choose|j: int|
                            0 <= j < rest.len() && is_cand(#[trigger] rest[j]) && leading_ws(
                                rest[j],
                            )[0] != '\t' && leading_ws(rest[j]) == y;
                        assert(lines[j + 1] == rest[j]);
                    }
                    // the winner undercuts every candidate
                    assert forall|i: int|
                        0 <= i < lines.len() && is_cand(#[trigger] lines[i]) && leading_ws(
                            lines[i],
                        )[0] != '\t' implies y.len() <= leading_ws(lines[i]).len() by {
                        if i == 0 {
                            assert(y.len() <= acc2->Some_0.len());
                            assert(acc2->Some_0.len() <= lw.len());
                        } else {
                            assert(rest[i - 1] == lines[i]);
                        }
                    }
                },
            }
        } else {
            lemma_fold_min(rest, acc);
            match fold_best(rest, acc) {
                None => {
                    assert forall|i: int|
                        0 <= i < lines.len() implies !(is_cand(#[trigger] lines[i]) && leading_ws(
                            lines[i],
                        )[0] != '\t') by {
                        if i > 0 {
                            assert(rest[i - 1] == lines[i]);
                        }
                    }
                },
                Some(y) => {
                    if !(acc matches Some(x) && y == x) {
                        let j = choose|j: int|
                            0 <= j < rest.len() && is_cand(#[trigger] rest[j]) && leading_ws(
                                rest[j],
                            )[0] != '\t' && leading_ws(rest[j]) == y;
                        assert(lines[j + 1] == rest[j]);
                    }
                    assert forall|i: int|
                        0 <= i < lines.len() && is_cand(#[trigger] lines[i]) && leading_ws(
                            lines[i],
                        )[0] != '\t' implies y.len() <= leading_ws(lines[i]).len() by {
                        assert(i > 0);
                        assert(rest[i - 1] == lines[i]);
                    }
                },
            }
        }
    }
}

/// A best at most as short as every candidate survives the fold.
proof fn lemma_fold_keep(lines: Seq<Seq<char>>, x: Seq<char>)
    requires
        forall|i: int|
            0 <= i < lines.len() && is_cand(#[trigger] lines[i]) && leading_ws(lines[i])[0] != '\t'
                ==> x.len() <= leading_ws(lines[i]).len(),
    ensures
        fold_best(lines, Some(x)) == Some(x),
    decreases lines.len(),
{
    if lines.len() > 0 {
        let l = lines[0];
        let rest = lines.drop_first();
        assert(forall|i: int| 0 <= i < rest.len() ==> rest[i] == lines[i + 1]);
        if is_cand(l) && leading_ws(l)[0] != '\t' {
            assert(better(Some(x), leading_ws(l)) == Some(x));
            lemma_fold_keep(rest, x);
        } else {
            lemma_fold_keep(rest, x);
        }
    }
}

/// A best longer than `m` stays longer than `m` while every candidate
/// is longer than `m`.
proof fn lemma_fold_high(lines: Seq<Seq<char>>, acc: Option<Seq<char>>, m: int)
    requires
        acc is None || acc->Some_0.len() > m,
        forall|i: int|
            0 <= i < lines.len() && is_cand(#[trigger] lines[i]) && leading_ws(lines[i])[0] != '\t'
                ==> leading_ws(lines[i]).len() > m,
    ensures
        fold_best(lines, acc) is None || fold_best(lines, acc)->Some_0.len() > m,
    decreases lines.len(),
{
    if lines.len() > 0 {
        let l = lines[0];
        let rest = lines.drop_first();
        assert(forall|i: int| 0 <= i < rest.len() ==> rest[i] == lines[i + 1]);
        if is_cand(l) && leading_ws(l)[0] != '\t' {
            lemma_fold_high(rest, better(acc, leading_ws(l)), m);
        } else {
            lemma_fold_high(rest, acc, m);
        }
    }
}

/// Two bests both longer than the minimum make no difference once some
/// candidate achieves the minimum: the first such candidate wins either
/// way.
proof fn lemma_fold_same(
    lines: Seq<Seq<char>>,
    a1: Option<Seq<char>>,
    a2: Option<Seq<char>>,
    m: int,
)
    requires
        a1 is None || a1->Some_0.len() > m,
        a2 is None || a2->Some_0.len() > m,
        forall|i: int|
            0 <= i < lines.len() && is_cand(#[trigger] lines[i]) && leading_ws(lines[i])[0] != '\t'
                ==> leading_ws(lines[i]).len() >= m,
        exists|i: int|
            0 <= i < lines.len() && is_cand(#[trigger] lines[i]) && leading_ws(lines[i])[0] != '\t'
                && leading_ws(lines[i]).len() == m,
    ensures
        fold_best(lines, a1) == fold_best(lines, a2),
    decreases lines.len(),
{
    assert(lines.len() > 0);
    let l = lines[0];
    let rest = lines.drop_first();
    assert(forall|i: int| 0 <= i < rest.len() ==> rest[i] == lines[i + 1]);
    let w = choose|i: int|
        0 <= i < lines.len() && is_cand(#[trigger] lines[i]) && leading_ws(lines[i])[0] != '\t'
            && leading_ws(lines[i]).len() == m;
    if is_cand(l) && leading_ws(l)[0] != '\t' {
        let lw = leading_ws(l);
        if lw.len() == m {
            assert(better(a1, lw) == Some(lw));
            assert(better(a2, lw) == Some(lw));
        } else {
            assert(lw.len() > m);
            assert(w >= 1);
            assert(rest[w - 1] == lines[w]);
            lemma_fold_same(rest, better(a1, lw), better(a2, lw), m);
        }
    } else {
        assert(w >= 1);
        assert(rest[w - 1] == lines[w]);
        lemma_fold_same(rest, a1, a2, m);
    }
}

// ---------------------------------------------------------------------
// What the spliced lines look like to detection.
// ---------------------------------------------------------------------

/// Every character of a line's whitespace prefix is whitespace.
proof fn lemma_lw_is_ws(l: Seq<char>)
    ensures
        forall|j: int| 0 <= j < leading_ws_len(l) ==> is_ws(#[trigger] l[j]),
    decreases l.len(),
{
    lemma_ws_len_bounds(l);
    if l.len() > 0 && is_ws(l[0]) {
        lemma_lw_is_ws(l.drop_first());
        assert(forall|j: int| 1 <= j < leading_ws_len(l) ==> l[j] == l.drop_first()[j - 1]);
    }
}

/// An all-whitespace text followed by a non-whitespace character has
/// exactly that text as whitespace prefix.
proof fn lemma_lw_concat(w: Seq<char>, rest: Seq<char>)
    requires
        forall|j: int| 0 <= j < w.len() ==> is_ws(#[trigger] w[j]),
        rest.len() > 0,
        !is_ws(rest[0]),
    ensures
        leading_ws_len(w + rest) == w.len(),
        leading_ws(w + rest) == w,
    decreases w.len(),
{
    let s = w + rest;
    if w.len() == 0 {
        assert(s =~= rest);
        assert(leading_ws(s) =~= w);
    } else {
        assert(s[0] == w[0]);
        assert(s.drop_first() =~= w.drop_first() + rest);
        assert(forall|j: int| 0 <= j < w.drop_first().len() ==> w.drop_first()[j] == w[j + 1]);
        lemma_lw_concat(w.drop_first(), rest);
        assert(leading_ws(s) =~= w);
    }
}

/// Appending one non-whitespace character to a line that is not all
/// whitespace leaves its whitespace prefix untouched.
proof fn lemma_lw_push(l: Seq<char>, c: char)
    requires
        leading_ws_len(l) < l.len(),
        !is_ws(c),
    ensures
        leading_ws_len(l.push(c)) == leading_ws_len(l),
        leading_ws(l.push(c)) == leading_ws(l),
    decreases l.len(),
{
    lemma_ws_len_bounds(l);
    let s = l.push(c);
    if l.len() == 0 {
    } else if !is_ws(l[0]) {
        assert(s[0] == l[0]);
        assert(leading_ws_len(s) == 0);
        assert(leading_ws(s) =~= leading_ws(l));
    } else {
        assert(s[0] == l[0]);
        assert(s.drop_first() =~= l.drop_first().push(c));
        assert(leading_ws_len(l.drop_first()) < l.drop_first().len()) by {
            lemma_ws_len_bounds(l.drop_first());
        }
        lemma_lw_push(l.drop_first(), c);
        assert(leading_ws(s) =~= leading_ws(l));
    }
}

/// The repetition of a text: its length and its whitespace content.
proof fn lemma_repeat_facts(s: Seq<char>, n: int)
    requires
        n >= 0,
    ensures
        spec_repeat(s, n).len() == n * s.len(),
        (forall|j: int| 0 <= j < s.len() ==> is_ws(#[trigger] s[j])) ==> (forall|j: int|
            0 <= j < spec_repeat(s, n).len() ==> is_ws(#[trigger] spec_repeat(s, n)[j])),
        (forall|j: int| 0 <= j < s.len() ==> s[j] != '\n') ==> (forall|j: int|
            0 <= j < spec_repeat(s, n).len() ==> spec_repeat(s, n)[j] != '\n'),
        n >= 1 && s.len() >= 1 ==> spec_repeat(s, n)[0] == s[0],
    decreases n,
{
    if n == 0 {
        assert(spec_repeat(s, 0).len() == 0);
    } else {
        lemma_repeat_facts(s, n - 1);
        assert(spec_repeat(s, n) == s + spec_repeat(s, n - 1));
        assert(spec_repeat(s, n).len() == s.len() + (n - 1) * s.len());
        assert(s.len() + (n - 1) * s.len() == n * s.len()) by (nonlinear_arith);
        assert(forall|j: int| 0 <= j < s.len() ==> spec_repeat(s, n)[j] == s[j]);
        assert(forall|j: int|
            s.len() <= j < spec_repeat(s, n).len() ==> spec_repeat(s, n)[j] == spec_repeat(
                s,
                n - 1,
            )[j - s.len()]);
    }
}

/// The detected unit is never empty, holds only whitespace, and never
/// holds a line feed.
proof fn lemma_detect_unit_shape(lines: Seq<Seq<char>>, best: Option<Seq<char>>)
    requires
        best matches Some(b) ==> b.len() > 0 && forall|j: int|
            0 <= j < b.len() ==> is_ws(#[trigger] b[j]),
    ensures
        spec_detect_indent_from(lines, best).len() > 0,
        forall|j: int|
            0 <= j < spec_detect_indent_from(lines, best).len() ==> is_ws(
                #[trigger] spec_detect_indent_from(lines, best)[j],
            ),
    decreases lines.len(),
{
    if lines.len() == 0 {
        match best {
            None => {
                let d = seq![' ', ' '];
                assert(spec_detect_indent_from(lines, best) == d);
                assert forall|j: int| 0 <= j < d.len() implies is_ws(#[trigger] d[j]) by {
                    if j == 0 {
                        assert(d[0] == ' ');
                    } else {
                        assert(d[1] == ' ');
                    }
                }
            },
            Some(b) => {},
        }
    } else {
        let l = lines[0];
        let lw = leading_ws(l);
        lemma_ws_len_bounds(l);
        lemma_lw_is_ws(l);
        assert(forall|j: int| 0 <= j < lw.len() ==> is_ws(#[trigger] lw[j])) by {
            assert(forall|j: int| 0 <= j < lw.len() ==> lw[j] == l[j]);
        }
        if lw.len() == l.len() || lw.len() == 0 {
            lemma_detect_unit_shape(lines.drop_first(), best);
        } else if lw[0] == '\t' {
            assert(spec_detect_indent_from(lines, best) == seq!['\t']);
            assert(seq!['\t'][0] == '\t');
        } else {
            let nb = match best {
                None => Some(lw),
                Some(bb) => if lw.len() < bb.len() {
                    Some(lw)
                } else {
                    Some(bb)
                },
            };
            lemma_detect_unit_shape(lines.drop_first(), nb);
        }
    }
}

/// Comma repair changes no line's whitespace prefix and no line's
/// standing with detection.
proof fn lemma_fixed_pointwise(lines: Seq<Seq<char>>, bl: int)
    requires
        bl <= lines.len(),
    ensures
        spec_fix_comma(lines, bl).len() == lines.len(),
        forall|i: int|
            0 <= i < lines.len() ==> is_cand(#[trigger] spec_fix_comma(lines, bl)[i]) == is_cand(
                lines[i],
            ) && (is_cand(lines[i]) ==> leading_ws(spec_fix_comma(lines, bl)[i]) == leading_ws(
                lines[i],
            )),
{
    let fixed = spec_fix_comma(lines, bl);
    lemma_last_nonblank_props(lines, bl);
    match spec_last_nonblank_before(lines, bl) {
        None => {},
        Some(ix) => {
            if spec_line_needs_comma(lines[ix]) {
                assert(fixed == lines.update(ix, lines[ix].push(',')));
                assert(forall|i: int| 0 <= i < lines.len() && i != ix ==> fixed[i] == lines[i]);
                let l = lines[ix];
                assert(!spec_all_ws(l));
                lemma_ws_len_bounds(l);
                assert(leading_ws_len(l) < l.len());
                assert(!is_ws(','));
                lemma_lw_push(l, ',');
                assert(fixed[ix] == l.push(','));
                assert(is_cand(fixed[ix]) == is_cand(l)) by {
                    assert(l.push(',').len() == l.len() + 1);
                }
            }
        },
    }
}

/// Pointwise detection-equal line lists fold alike and agree on tab
/// witnesses.
proof fn lemma_fold_pointwise(s1: Seq<Seq<char>>, s2: Seq<Seq<char>>, acc: Option<Seq<char>>)
    requires
        s1.len() == s2.len(),
        forall|i: int|
            0 <= i < s1.len() ==> is_cand(#[trigger] s1[i]) == is_cand(s2[i]) && (is_cand(s2[i])
                ==> leading_ws(s1[i]) == leading_ws(s2[i])),
    ensures
        fold_best(s1, acc) == fold_best(s2, acc),
        has_tab_cand(s1) == has_tab_cand(s2),
    decreases s1.len(),
{
    if s1.len() == 0 {
        if has_tab_cand(s1) {
            let i = choose|i: int| 0 <= i < s1.len() && is_tab_cand(#[trigger] s1[i]);
        }
        if has_tab_cand(s2) {
            let i = choose|i: int| 0 <= i < s2.len() && is_tab_cand(#[trigger] s2[i]);
        }
    } else {
        assert(forall|i: int|
            0 <= i < s1.drop_first().len() ==> s1.drop_first()[i] == s1[i + 1] && s2.drop_first()[
                i] == s2[i + 1]);
        if is_cand(s1[0]) && leading_ws(s1[0])[0] != '\t' {
            lemma_fold_pointwise(s1.drop_first(), s2.drop_first(), better(acc, leading_ws(s1[0])));
        } else {
            lemma_fold_pointwise(s1.drop_first(), s2.drop_first(), acc);
        }
        assert(is_tab_cand(s1[0]) == is_tab_cand(s2[0]));
        lemma_tab_cand_shift(s1);
        lemma_tab_cand_shift(s2);
        if is_tab_cand(s1[0]) {
            assert(has_tab_cand(s1));
            assert(has_tab_cand(s2)) by {
                assert(is_tab_cand(s2[0]));
            }
        }
    }
}

// ---------------------------------------------------------------------
// The law.
// ---------------------------------------------------------------------

/// Whether `lines` has, at some index at or after `from`, a candidate
/// of exactly the given prefix length.
spec fn has_min_cand(lines: Seq<Seq<char>>, m: int) -> bool {
    exists|i: int|
        0 <= i < lines.len() && is_cand(#[trigger] lines[i]) && leading_ws(lines[i])[0] != '\t'
            && leading_ws(lines[i]).len() == m
}

/// The inserted entry lines, their count, and their whitespace
/// prefixes: each is a candidate indented by `level >= low` repetitions
/// of the unit.
proof fn lemma_entry_lines_shape(
    ind: Seq<char>,
    remaining: Seq<Seq<char>>,
    base: int,
    value: Seq<char>,
)
    requires
        remaining.len() >= 1,
        base >= 1,
        ind.len() > 0,
        forall|j: int| 0 <= j < ind.len() ==> is_ws(#[trigger] ind[j]),
        forall|j: int| 0 <= j < ind.len() ==> ind[j] != '\n',
        forall|i: int, j: int|
            0 <= i < remaining.len() && 0 <= j < remaining[i].len() ==> remaining[i][j] != '\n',
        forall|j: int| 0 <= j < value.len() ==> value[j] != '\n',
    ensures
        ({
            let e = spec_nested_entry_lines(ind, remaining, base, value);
            &&& e.len() == 2 * remaining.len() - 1
            &&& forall|i: int|
                0 <= i < e.len() ==> is_cand(#[trigger] e[i]) && (exists|lvl: int|
                    base <= lvl && leading_ws(#[trigger] e[i]) == spec_repeat(ind, lvl))
            &&& forall|i: int, j: int|
                0 <= i < e.len() && 0 <= j < e[i].len() ==> e[i][j] != '\n'
        }),
{
    let r = remaining.len() as int;
    let e = spec_nested_entry_lines(ind, remaining, base, value);
    assert(e.len() == 2 * r - 1);
    assert forall|i: int| 0 <= i < e.len() implies is_cand(#[trigger] e[i]) && (exists|lvl: int|
        base <= lvl && leading_ws(#[trigger] e[i]) == spec_repeat(ind, lvl)) && (forall|j: int|
        0 <= j < e[i].len() ==> e[i][j] != '\n') by {
        if i < r - 1 {
            assert(e[i] == spec_open_line(ind, base + i, remaining[i]));
            lemma_one_entry_line(ind, base + i, seq!['"'] + remaining[i] + seq!['"', ':', ' ', '{']);
            assert(e[i] == spec_repeat(ind, base + i) + (seq!['"'] + remaining[i] + seq![
                '"', ':', ' ', '{',
            ])) by {
                assert(spec_open_line(ind, base + i, remaining[i]) =~= spec_repeat(ind, base + i)
                    + (seq!['"'] + remaining[i] + seq!['"', ':', ' ', '{']));
            }
            assert(leading_ws(e[i]) == spec_repeat(ind, base + i));
            lemma_repeat_facts(ind, base + i);
            assert(forall|j: int| 0 <= j < e[i].len() ==> e[i][j] != '\n');
        } else if i == r - 1 {
            assert(e[i] == spec_entry_pair(spec_repeat(ind, base + r - 1), remaining[r - 1], value));
            lemma_one_entry_line(
                ind,
                base + r - 1,
                seq!['"'] + remaining[r - 1] + seq!['"', ':', ' ', '"'] + value + seq!['"'],
            );
            assert(e[i] =~= spec_repeat(ind, base + r - 1) + (seq!['"'] + remaining[r - 1] + seq![
                '"', ':', ' ', '"',
            ] + value + seq!['"']));
            assert(leading_ws(e[i]) == spec_repeat(ind, base + r - 1));
            lemma_repeat_facts(ind, base + r - 1);
            assert(forall|j: int| 0 <= j < e[i].len() ==> e[i][j] != '\n');
        } else {
            assert(e[i] == spec_close_line(ind, base + r - 2 - (i - r)));
            let lvl = base + r - 2 - (i - r);
            assert(base <= lvl) by {
                assert(i <= 2 * r - 2);
            }
            lemma_one_entry_line(ind, lvl, seq!['}']);
            assert(e[i] =~= spec_repeat(ind, lvl) + seq!['}']);
            assert(leading_ws(e[i]) == spec_repeat(ind, lvl));
            lemma_repeat_facts(ind, lvl);
            assert(forall|j: int| 0 <= j < e[i].len() ==> e[i][j] != '\n');
        }
    }
}

/// One inserted line `repeat(ind, lvl) ++ rest`, with `rest` starting
/// at a visible character, is a candidate whose prefix is exactly the
/// repetition.
proof fn lemma_one_entry_line(ind: Seq<char>, lvl: int, rest: Seq<char>)
    requires
        lvl >= 1,
        ind.len() > 0,
        forall|j: int| 0 <= j < ind.len() ==> is_ws(#[trigger] ind[j]),
        rest.len() > 0,
        !is_ws(rest[0]),
    ensures
        leading_ws(spec_repeat(ind, lvl) + rest) == spec_repeat(ind, lvl),
        leading_ws_len(spec_repeat(ind, lvl) + rest) == lvl * ind.len(),
        is_cand(spec_repeat(ind, lvl) + rest),
        spec_repeat(ind, lvl).len() == lvl * ind.len(),
        (spec_repeat(ind, lvl) + rest)[leading_ws_len(spec_repeat(ind, lvl) + rest)] == rest[0],
{
    lemma_repeat_facts(ind, lvl);
    let w = spec_repeat(ind, lvl);
    lemma_lw_concat(w, rest);
    assert(w.len() >= ind.len()) by (nonlinear_arith)
        requires
            lvl >= 1,
            w.len() == lvl * ind.len(),
            ind.len() > 0,
    ;
    assert((w + rest).len() > w.len());
    assert((w + rest)[w.len() as int] == rest[0]);
}

/// Idempotent classification: detection is stable — running indent
/// detection on the output of an insertion yields the same unit as on
/// the input, for every document with at least one indented line.
pub proof fn lemma_indent_detection_stable(content: Seq<char>, key: Seq<char>, value: Seq<char>)
    requires
        spec_insert_key(content, key, value) is Some,
        forall|j: int| 0 <= j < key.len() ==> key[j] != '\n',
        forall|j: int| 0 <= j < value.len() ==> value[j] != '\n',
        spec_some_line_indented(spec_lines(content)),
    ensures
        spec_insert_key(content, key, value) matches Some(p) ==> spec_detect_indent(p.0)
            == spec_detect_indent(content),
{
    let lines = spec_lines(content);
    let unit = spec_detect_indent(content);
    let p = spec_insert_key(content, key, value)->Some_0;
    lemma_detect_unit_shape(lines, None);
    lemma_detect_indent_no_newline(content);
    lemma_lines_no_newline(content);
    // work out where the splice happened, what was inserted, and at
    // which minimum level
    let parts = spec_split_char(key, '.');
    crate::text::lemma_split_len(key, '.');
    lemma_split_pieces_free_other(key, '.', '\n');
    let is_flat = json_root_shape(content)->Some_0;
    let flat_path = is_flat || parts.len() == 1;
    let off: int = if flat_path {
        spec_rfind_char(content, '}')->Some_0
    } else {
        let d = spec_depth_found(content, parts, 0);
        if d > 0 {
            spec_find_nested_range(content, parts.take(d))->Some_0.1
        } else {
            match spec_rfind_char(content, '}') {
                Some(b) => b,
                None => content.len() as int,
            }
        }
    };
    let low: int = if flat_path {
        1
    } else {
        spec_depth_found(content, parts, 0) + 1
    };
    let elines: Seq<Seq<char>> = if flat_path {
        seq![spec_entry_pair(unit, key, value)]
    } else {
        spec_nested_entry_lines(
            unit,
            parts.skip(spec_depth_found(content, parts, 0)),
            spec_depth_found(content, parts, 0) + 1,
            value,
        )
    };
    let entry: Seq<char> = if flat_path {
        spec_entry_pair(unit, key, value)
    } else {
        spec_join_char(elines, '\n')
    };
    // bounds on the walk
    if !flat_path {
        lemma_depth_found_bounds(content, parts, 0);
    }
    if flat_path {
        lemma_rfind_char_props(content, '}');
    } else {
        let d = spec_depth_found(content, parts, 0);
        if d > 0 {
            crate::insert::lemma_find_nested_from_props(content, parts.take(d), 0, None);
        } else {
            lemma_rfind_char_props(content, '}');
        }
    }
    // every entry line is a candidate at level >= low, prefix a
    // repetition of the unit, free of line feeds
    if flat_path {
        let rest = seq!['"'] + key + seq!['"', ':', ' ', '"'] + value + seq!['"'];
        assert(rest[0] == '"');
        lemma_one_entry_line(unit, 1, rest);
        assert(elines[0] =~= spec_repeat(unit, 1) + rest) by {
            assert(spec_repeat(unit, 1) =~= unit + Seq::<char>::empty());
        }
        assert(leading_ws(elines[0]) == spec_repeat(unit, 1));
        assert(is_cand(elines[0]));
        assert(forall|i: int|
            0 <= i < elines.len() ==> is_cand(#[trigger] elines[i]) && (exists|lvl: int|
                low <= lvl && leading_ws(#[trigger] elines[i]) == spec_repeat(unit, lvl))) by {
            assert(low <= 1 && leading_ws(elines[0]) == spec_repeat(unit, 1));
        }
        assert(forall|i: int, j: int|
            0 <= i < elines.len() && 0 <= j < elines[i].len() ==> elines[i][j] != '\n') by {
            lemma_repeat_facts(unit, 1);
            assert(forall|j: int| 0 <= j < elines[0].len() ==> elines[0][j] != '\n');
        }
        assert(entry == spec_join_char(elines, '\n')) by {
            assert(spec_join_char(elines, '\n') == elines[0]);
        }
    } else {
        let d = spec_depth_found(content, parts, 0);
        assert(parts.skip(d).len() >= 1);
        assert(forall|i: int, j: int|
            0 <= i < parts.skip(d).len() && 0 <= j < parts.skip(d)[i].len() ==> parts.skip(d)[i][j]
                != '\n') by {
            assert(forall|i: int|
                0 <= i < parts.skip(d).len() ==> parts.skip(d)[i] == parts[i + d]);
        }
        lemma_entry_lines_shape(unit, parts.skip(d), d + 1, value);
        assert(forall|i: int|
            0 <= i < elines.len() ==> is_cand(#[trigger] elines[i]) && (exists|lvl: int|
                low <= lvl && leading_ws(#[trigger] elines[i]) == spec_repeat(unit, lvl)));
    }
    // the spliced entry text splits back into exactly these lines
    lemma_entry_text_lines(elines, entry, unit);
    // the splice offset lies inside the document
    assert(0 <= off <= content.len()) by {
        if flat_path {
            assert(crate::insert::spec_insert_flat(content, key, value) is Some);
            assert(spec_rfind_char(content, '}') is Some);
            lemma_rfind_char_props(content, '}');
        } else {
            let d = spec_depth_found(content, parts, 0);
            if d > 0 {
                lemma_depth_found_some(content, parts, 0);
                assert(spec_find_nested_range(content, parts.take(d)) is Some);
                crate::insert::lemma_find_nested_from_props(content, parts.take(d), 0, None);
            } else {
                match spec_rfind_char(content, '}') {
                    Some(b) => {
                        lemma_rfind_char_props(content, '}');
                    },
                    None => {},
                }
            }
        }
    }
    assert(lines.len() > 0) by {
        let i = choose|i: int| 0 <= i < lines.len() && is_cand(#[trigger] lines[i]);
    }
    // the output's lines
    lemma_splice_lines(content, off, entry);
    let bl = spec_line_of_offset(content, off);
    let fixed = spec_fix_comma(lines, bl);
    let out = spec_lines(spec_splice_before(content, off, entry).0);
    assert(out == fixed.take(bl) + spec_lines(entry) + fixed.skip(bl));
    assert(spec_lines(entry) == elines);
    assert(p.0 == spec_splice_before(content, off, entry).0);
    lemma_fixed_pointwise(lines, bl);
    // compare detection on both sides
    lemma_detect_split_stable(lines, fixed, elines, bl, unit, low);
    assert(spec_detect_indent(p.0) == spec_detect_indent_from(out, None));
}

/// The joined entry lines split back into themselves: they are
/// line-feed-free and the last ends with a visible character.
proof fn lemma_entry_text_lines(elines: Seq<Seq<char>>, entry: Seq<char>, unit: Seq<char>)
    requires
        elines.len() >= 1,
        entry == spec_join_char(elines, '\n'),
        forall|i: int| 0 <= i < elines.len() ==> is_cand(#[trigger] elines[i]),
        forall|i: int, j: int|
            0 <= i < elines.len() && 0 <= j < elines[i].len() ==> elines[i][j] != '\n',
    ensures
        spec_lines(entry) == elines,
        entry.len() > 0,
        entry.last() != '\n',
{
    lemma_split_join(elines, '\n');
    assert(spec_split_char(entry, '\n') == elines);
    assert(elines.last().len() > 0) by {
        assert(is_cand(elines[elines.len() - 1]));
    }
    assert(spec_lines(entry) =~~= elines);
    lemma_join_snoc(elines, '\n');
    if elines.len() == 1 {
        assert(entry == elines[0]);
        assert(entry.last() == elines[0][elines[0].len() - 1]);
        lemma_cand_last_visible(elines[0]);
    } else {
        assert(entry =~= spec_join_char(elines.drop_last(), '\n') + seq!['\n'] + elines.last());
        assert(entry.last() == elines.last().last());
        lemma_cand_last_visible(elines.last());
    }
    assert(entry.len() > 0) by {
        assert(is_cand(elines[0]));
        crate::text::lemma_ws_len_bounds(elines[0]);
    }
}

/// A candidate line does not end in a line feed (it holds none at all
/// here, but its last character in particular).
proof fn lemma_cand_last_visible(l: Seq<char>)
    requires
        is_cand(l),
        forall|j: int| 0 <= j < l.len() ==> l[j] != '\n',
    ensures
        l.len() > 0,
        l.last() != '\n',
{
    crate::text::lemma_ws_len_bounds(l);
}

/// The heart of the stability argument: splicing candidate lines whose
/// prefixes are whole repetitions of the detected unit, at levels at
/// least `low`, never changes what detection answers.
proof fn lemma_detect_split_stable(
    lines: Seq<Seq<char>>,
    fixed: Seq<Seq<char>>,
    elines: Seq<Seq<char>>,
    bl: int,
    unit: Seq<char>,
    low: int,
)
    requires
        unit == spec_detect_indent_from(lines, None),
        unit.len() > 0,
        low >= 1,
        0 <= bl <= lines.len(),
        fixed.len() == lines.len(),
        forall|i: int|
            0 <= i < lines.len() ==> is_cand(#[trigger] fixed[i]) == is_cand(lines[i]) && (is_cand(
                lines[i],
            ) ==> leading_ws(fixed[i]) == leading_ws(lines[i])),
        spec_some_line_indented(lines),
        forall|i: int|
            0 <= i < elines.len() ==> is_cand(#[trigger] elines[i]) && (exists|lvl: int|
                low <= lvl && leading_ws(#[trigger] elines[i]) == spec_repeat(unit, lvl)),
    ensures
        spec_detect_indent_from(fixed.take(bl) + elines + fixed.skip(bl), None) == unit,
{
    let out = fixed.take(bl) + elines + fixed.skip(bl);
    let ftake = fixed.take(bl);
    let fskip = fixed.skip(bl);
    let ltake = lines.take(bl);
    let lskip = lines.skip(bl);
    assert(forall|i: int| 0 <= i < ftake.len() ==> ftake[i] == fixed[i] && ltake[i] == lines[i]);
    assert(forall|i: int|
        0 <= i < fskip.len() ==> fskip[i] == fixed[i + bl] && lskip[i] == lines[i + bl]);
    assert(lines =~~= ltake + lskip);
    if has_tab_cand(lines) {
        // the unit is one tab, and the inserted lines are tab-indented
        lemma_detect_tab(lines, None);
        assert(unit == seq!['\t']);
        assert(has_tab_cand(out)) by {
            let i = choose|i: int| 0 <= i < lines.len() && is_tab_cand(#[trigger] lines[i]);
            if i < bl {
                assert(out[i] == fixed[i]);
                assert(is_tab_cand(out[i]));
            } else {
                assert(out[i + elines.len()] == fixed[i]);
                assert(is_tab_cand(out[i + elines.len()]));
            }
        }
        lemma_detect_tab(out, None);
    } else {
        // space style: the fold decides; the inserted lines only ever
        // add prefixes at least as long as the unit
        lemma_detect_notab(lines, None);
        // every inserted line's prefix length is a multiple of the unit
        assert(forall|i: int|
            0 <= i < elines.len() ==> leading_ws(#[trigger] elines[i]).len() >= low * unit.len())
            by {
            assert forall|i: int|
                0 <= i < elines.len() implies leading_ws(#[trigger] elines[i]).len() >= low
                * unit.len() by {
                let lvl = choose|lvl: int|
                    low <= lvl && leading_ws(elines[i]) == spec_repeat(unit, lvl);
                lemma_repeat_facts(unit, lvl);
                assert(lvl * unit.len() >= low * unit.len()) by (nonlinear_arith)
                    requires
                        lvl >= low,
                        unit.len() > 0,
                ;
            }
        }
        assert(low * unit.len() >= unit.len()) by (nonlinear_arith)
            requires
                low >= 1,
                unit.len() > 0,
        ;
        // no tab-indented line anywhere in the output
        assert(!has_tab_cand(out)) by {
            if has_tab_cand(out) {
                let i = choose|i: int| 0 <= i < out.len() && is_tab_cand(#[trigger] out[i]);
                if i < bl {
                    assert(out[i] == fixed[i]);
                    assert(is_tab_cand(lines[i]));
                    assert(has_tab_cand(lines));
                } else if i < bl + elines.len() {
                    assert(out[i] == elines[i - bl]);
                    let lvl = choose|lvl: int|
                        low <= lvl && leading_ws(elines[i - bl]) == spec_repeat(unit, lvl);
                    lemma_repeat_facts(unit, lvl);
                    assert(leading_ws(elines[i - bl])[0] == unit[0]);
                    // the unit starts with the first character of some
                    // space-style candidate, never a tab
                    lemma_unit_head_not_tab(lines, unit);
                } else {
                    assert(out[i] == fixed[i - elines.len()]);
                    assert(is_tab_cand(lines[i - elines.len()]));
                    assert(has_tab_cand(lines));
                }
            }
        }
        lemma_detect_notab(out, None);
        // fold over the three segments
        lemma_fold_pointwise(ftake, ltake, None);
        let b1 = fold_best(ltake, None);
        lemma_fold_concat(ftake, elines + fskip, None);
        lemma_fold_concat(elines, fskip, b1);
        assert(out =~~= ftake + (elines + fskip));
        assert(fold_best(out, None) == fold_best(fskip, fold_best(elines, b1)));
        lemma_fold_concat(ltake, lskip, None);
        assert(fold_best(lines, None) == fold_best(lskip, b1));
        let b2 = fold_best(elines, b1);
        lemma_fold_pointwise(fskip, lskip, b2);
        lemma_fold_pointwise(fskip, lskip, fold_best(elines, b1));
        // the input fold is Some: some line is indented and none is
        // tab-indented
        lemma_fold_min(lines, None);
        let u0 = fold_best(lines, None);
        assert(u0 is Some) by {
            if u0 is None {
                let i = choose|i: int| 0 <= i < lines.len() && is_cand(#[trigger] lines[i]);
                assert(!is_tab_cand(lines[i]));
                assert(leading_ws(lines[i])[0] != '\t') by {
                    assert(!(is_cand(lines[i]) && leading_ws(lines[i])[0] == '\t'));
                }
            }
        }
        assert(unit == u0->Some_0);
        let m = unit.len() as int;
        // every candidate in the input is at least as long as the unit
        assert(forall|i: int|
            0 <= i < lines.len() && is_cand(#[trigger] lines[i]) && leading_ws(lines[i])[0]
                != '\t' ==> m <= leading_ws(lines[i]).len());
        // and in both halves
        lemma_fold_min(ltake, None);
        match b1 {
            None => {
                // all candidates sit in the suffix; the entry lines are
                // all at least as long as the unit
                lemma_min_witness_in_suffix(lines, ltake, lskip, bl, b1, unit, m);
                lemma_same_after_entry(lines, ltake, lskip, elines, fskip, b1, unit, m, low);
            },
            Some(x) => {
                if x.len() == m {
                    // the prefix already holds a minimal candidate: the
                    // fold keeps it to the end, so x is the unit itself
                    assert(forall|i: int|
                        0 <= i < lskip.len() && is_cand(#[trigger] lskip[i]) && leading_ws(
                            lskip[i],
                        )[0] != '\t' ==> x.len() <= leading_ws(lskip[i]).len()) by {
                        assert(forall|i: int| 0 <= i < lskip.len() ==> lskip[i] == lines[i + bl]);
                    }
                    lemma_fold_keep(lskip, x);
                    assert(fold_best(lskip, b1) == Some(x));
                    assert(unit == x);
                    // the entry lines cannot displace a minimal best
                    assert(fold_best(elines, Some(x)) == Some(x)) by {
                        assert(forall|i: int|
                            0 <= i < elines.len() && is_cand(#[trigger] elines[i]) && leading_ws(
                                elines[i],
                            )[0] != '\t' ==> x.len() <= leading_ws(elines[i]).len());
                        lemma_fold_keep(elines, x);
                    }
                    assert(fold_best(fskip, Some(x)) == Some(x)) by {
                        assert(forall|i: int|
                            0 <= i < fskip.len() && is_cand(#[trigger] fskip[i]) && leading_ws(
                                fskip[i],
                            )[0] != '\t' ==> x.len() <= leading_ws(fskip[i]).len()) by {
                            assert(forall|i: int|
                                0 <= i < fskip.len() && is_cand(#[trigger] fskip[i]) ==> is_cand(
                                    lskip[i],
                                ) && leading_ws(fskip[i]) == leading_ws(lskip[i]) && lskip[i]
                                    == lines[i + bl]);
                        }
                        lemma_fold_keep(fskip, x);
                    }
                } else {
                    assert(x.len() > m);
                    lemma_min_witness_in_suffix(lines, ltake, lskip, bl, b1, unit, m);
                    lemma_same_after_entry(lines, ltake, lskip, elines, fskip, b1, unit, m, low);
                }
            },
        }
    }
}

/// When the prefix fold is empty or longer than the unit, a candidate
/// of exactly the unit's length sits in the suffix.
proof fn lemma_min_witness_in_suffix(
    lines: Seq<Seq<char>>,
    ltake: Seq<Seq<char>>,
    lskip: Seq<Seq<char>>,
    bl: int,
    b1: Option<Seq<char>>,
    unit: Seq<char>,
    m: int,
)
    requires
        0 <= bl <= lines.len(),
        ltake == lines.take(bl),
        lskip == lines.skip(bl),
        b1 == fold_best(ltake, None),
        b1 is None || b1->Some_0.len() > m,
        fold_best(lines, None) == Some(unit),
        unit.len() == m,
    ensures
        exists|i: int|
            0 <= i < lskip.len() && is_cand(#[trigger] lskip[i]) && leading_ws(lskip[i])[0] != '\t'
                && leading_ws(lskip[i]).len() == m,
{
    lemma_fold_min(lines, None);
    let i = choose|i: int|
        0 <= i < lines.len() && is_cand(#[trigger] lines[i]) && leading_ws(lines[i])[0] != '\t'
            && leading_ws(lines[i]) == unit;
    lemma_fold_min(ltake, None);
    if i < bl {
        assert(ltake[i] == lines[i]);
        match b1 {
            None => {
                assert(!(is_cand(ltake[i]) && leading_ws(ltake[i])[0] != '\t'));
                assert(false);
            },
            Some(x) => {
                assert(x.len() <= leading_ws(ltake[i]).len());
                assert(false);
            },
        }
    } else {
        assert(lskip[i - bl] == lines[i]);
        assert(is_cand(lskip[i - bl]) && leading_ws(lskip[i - bl])[0] != '\t' && leading_ws(
            lskip[i - bl],
        ).len() == m);
    }
}

/// When the prefix best (if any) is longer than the unit, the minimal
/// candidate lies in the suffix, and the fold lands on it whether or
/// not the entry lines went in between.
proof fn lemma_same_after_entry(
    lines: Seq<Seq<char>>,
    ltake: Seq<Seq<char>>,
    lskip: Seq<Seq<char>>,
    elines: Seq<Seq<char>>,
    fskip: Seq<Seq<char>>,
    b1: Option<Seq<char>>,
    unit: Seq<char>,
    m: int,
    low: int,
)
    requires
        lines =~~= ltake + lskip,
        b1 == fold_best(ltake, None),
        b1 is None || b1->Some_0.len() > m,
        unit.len() == m,
        m > 0,
        low >= 1,
        fold_best(lines, None) == Some(unit),
        fskip.len() == lskip.len(),
        forall|i: int|
            0 <= i < fskip.len() ==> is_cand(#[trigger] fskip[i]) == is_cand(lskip[i]) && (is_cand(
                lskip[i],
            ) ==> leading_ws(fskip[i]) == leading_ws(lskip[i])),
        forall|i: int|
            0 <= i < lines.len() && is_cand(#[trigger] lines[i]) && leading_ws(lines[i])[0] != '\t'
                ==> m <= leading_ws(lines[i]).len(),
        forall|i: int|
            0 <= i < elines.len() ==> is_cand(#[trigger] elines[i]) && leading_ws(elines[i])[0]
                != '\t' && leading_ws(elines[i]).len() >= low * unit.len(),
        forall|i: int|
            0 <= i < elines.len() ==> exists|lvl: int|
                low <= lvl && leading_ws(#[trigger] elines[i]) == spec_repeat(unit, lvl),
        low * unit.len() >= unit.len(),
        (exists|i: int|
            0 <= i < elines.len() && leading_ws(#[trigger] elines[i]).len() == m) || (exists|
            i: int,
        |
            0 <= i < lskip.len() && is_cand(#[trigger] lskip[i]) && leading_ws(lskip[i])[0] != '\t'
                && leading_ws(lskip[i]).len() == m),
    ensures
        fold_best(fskip, fold_best(elines, b1)) == Some(unit),
{
    // where does the first minimal candidate sit?
    if exists|i: int| 0 <= i < elines.len() && leading_ws(#[trigger] elines[i]).len() == m {
        // an entry line at the base level carries exactly the unit: the
        // fold adopts it and nothing dislodges it
        let i = choose|i: int|
            0 <= i < elines.len() && leading_ws(#[trigger] elines[i]).len() == m;
        lemma_fold_min(elines, b1);
        let b2 = fold_best(elines, b1);
        assert(b2 is Some);
        let y = b2->Some_0;
        assert(y.len() <= m);
        assert(y.len() >= m) by {
            match b1 {
                None => {
                    assert((b1 matches Some(x) && y == x) || exists|k: int|
                        0 <= k < elines.len() && is_cand(#[trigger] elines[k]) && leading_ws(
                            elines[k],
                        )[0] != '\t' && leading_ws(elines[k]) == y);
                    let k = choose|k: int|
                        0 <= k < elines.len() && is_cand(#[trigger] elines[k]) && leading_ws(
                            elines[k],
                        )[0] != '\t' && leading_ws(elines[k]) == y;
                    assert(y.len() >= low * unit.len());
                },
                Some(x) => {
                    if y == x {
                        assert(x.len() > m);
                    } else {
                        let k = choose|k: int|
                            0 <= k < elines.len() && is_cand(#[trigger] elines[k]) && leading_ws(
                                elines[k],
                            )[0] != '\t' && leading_ws(elines[k]) == y;
                        assert(y.len() >= low * unit.len());
                    }
                },
            }
        }
        assert(y.len() == m);
        // y is an entry prefix of length m == unit.len(), hence a
        // one-level repetition: the unit itself
        assert(y == unit) by {
            match b1 {
                None => {},
                Some(x) => {
                    assert(y != x);
                },
            }
            let k = choose|k: int|
                0 <= k < elines.len() && is_cand(#[trigger] elines[k]) && leading_ws(elines[k])[0]
                    != '\t' && leading_ws(elines[k]) == y;
            assert(exists|lvl: int|
                low <= lvl && leading_ws(#[trigger] elines[k]) == spec_repeat(unit, lvl));
            lemma_entry_prefix_exact(elines, k, unit, m, low);
        }
        assert(fold_best(fskip, Some(unit)) == Some(unit)) by {
            assert(forall|i2: int|
                0 <= i2 < fskip.len() && is_cand(#[trigger] fskip[i2]) && leading_ws(fskip[i2])[0]
                    != '\t' ==> unit.len() <= leading_ws(fskip[i2]).len()) by {
                assert(forall|i2: int|
                    0 <= i2 < fskip.len() && is_cand(#[trigger] fskip[i2]) ==> is_cand(lskip[i2])
                        && leading_ws(fskip[i2]) == leading_ws(lskip[i2]) && lskip[i2] == lines[
                        i2 + ltake.len()]);
            }
            lemma_fold_keep(fskip, unit);
        }
    } else {
        // the minimal candidate sits in the suffix: both runs land on
        // the first one there
        let b2 = fold_best(elines, b1);
        assert(b2 is None || b2->Some_0.len() > m) by {
            assert(forall|i: int|
                0 <= i < elines.len() && is_cand(#[trigger] elines[i]) && leading_ws(elines[i])[0]
                    != '\t' ==> leading_ws(elines[i]).len() > m) by {
                assert(forall|i: int|
                    0 <= i < elines.len() ==> leading_ws(#[trigger] elines[i]).len() != m);
                assert(forall|i: int|
                    0 <= i < elines.len() ==> leading_ws(#[trigger] elines[i]).len() >= low
                        * unit.len() >= m);
            }
            lemma_fold_high(elines, b1, m);
        }
        let w = choose|i: int|
            0 <= i < lskip.len() && is_cand(#[trigger] lskip[i]) && leading_ws(lskip[i])[0] != '\t'
                && leading_ws(lskip[i]).len() == m;
        assert(forall|i: int|
            0 <= i < lskip.len() && is_cand(#[trigger] lskip[i]) && leading_ws(lskip[i])[0] != '\t'
                ==> m <= leading_ws(lskip[i]).len()) by {
            assert(forall|i: int| 0 <= i < lskip.len() ==> lskip[i] == lines[i + ltake.len()]);
        }
        lemma_fold_same(lskip, b1, b2, m);
        lemma_fold_pointwise(fskip, lskip, b2);
        assert(fold_best(fskip, b2) == fold_best(lskip, b1));
        assert(fold_best(lskip, b1) == fold_best(lines, None)) by {
            lemma_fold_concat(ltake, lskip, None);
        }
    }
}

/// An entry prefix of exactly the unit's length is one repetition of
/// the unit — the unit itself.
proof fn lemma_entry_prefix_exact(
    elines: Seq<Seq<char>>,
    k: int,
    unit: Seq<char>,
    m: int,
    low: int,
)
    requires
        0 <= k < elines.len(),
        unit.len() == m,
        m > 0,
        low >= 1,
        leading_ws(elines[k]).len() == m,
        exists|lvl: int| low <= lvl && leading_ws(elines[k]) == spec_repeat(unit, lvl),
    ensures
        leading_ws(elines[k]) == unit,
{
    let lvl = choose|lvl: int| low <= lvl && leading_ws(elines[k]) == spec_repeat(unit, lvl);
    lemma_repeat_facts(unit, lvl);
    assert(lvl * m == m);
    assert(lvl == 1) by (nonlinear_arith)
        requires
            lvl * m == m,
            m > 0,
            lvl >= 1,
    ;
    assert(spec_repeat(unit, 1) =~= unit);
}

/// In a space-style document, the detected unit starts with a
/// non-tab character.
proof fn lemma_unit_head_not_tab(lines: Seq<Seq<char>>, unit: Seq<char>)
    requires
        !has_tab_cand(lines),
        unit == spec_detect_indent_from(lines, None),
        fold_best(lines, None) is Some,
        unit.len() > 0,
    ensures
        unit[0] != '\t',
{
    lemma_detect_notab(lines, None);
    lemma_fold_min(lines, None);
    let y = fold_best(lines, None)->Some_0;
    assert(unit == y);
    let k = choose|k: int|
        0 <= k < lines.len() && is_cand(#[trigger] lines[k]) && leading_ws(lines[k])[0] != '\t'
            && leading_ws(lines[k]) == y;
    assert(y[0] != '\t');
}

} // verus!
