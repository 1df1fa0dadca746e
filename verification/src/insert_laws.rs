//! The insertion engine's guarantees, stated and proved over the spec
//! model: what a flat insertion adds, where a nested insertion's whole
//! block of lines lands (for any matched prefix depth), how many levels
//! a fully synthesized insertion opens, what comma repair touches, and
//! that malformed input yields no change.

use vstd::prelude::*;

use crate::text::{
    spec_rfind_char, spec_split_char, spec_join_char, spec_lines, spec_repeat, spec_all_ws,
    lemma_split_len, lemma_count_char_bound, lemma_split_pieces_free,
    lemma_split_pieces_free_other, lemma_split_last_nonempty, lemma_split_join,
    lemma_join_snoc, lemma_rfind_char_props,
};
use crate::insert::{
    json_root_shape, leading_ws, spec_detect_indent_from, spec_detect_indent,
    spec_find_key_object_range, spec_find_nested_from, spec_find_nested_range,
    spec_line_of_offset, spec_last_nonblank_before, spec_line_needs_comma, spec_fix_comma,
    spec_splice_before, spec_entry_pair, spec_open_line, spec_close_line,
    spec_nested_entry_lines, spec_depth_found, spec_insert_key, lemma_depth_found_bounds,
    lemma_depth_found_some,
};
use crate::insert::lemma_find_nested_from_props;

verus! {

/// The detected indent unit never contains a line feed.
proof fn lemma_detect_from_no_newline(lines: Seq<Seq<char>>, best: Option<Seq<char>>)
    requires
        forall|i: int, j: int|
            0 <= i < lines.len() && 0 <= j < lines[i].len() ==> lines[i][j] != '\n',
        best matches Some(b) ==> forall|j: int| 0 <= j < b.len() ==> b[j] != '\n',
    ensures
        forall|j: int|
            0 <= j < spec_detect_indent_from(lines, best).len() ==> spec_detect_indent_from(
                lines,
                best,
            )[j] != '\n',
    decreases lines.len(),
{
    let res = spec_detect_indent_from(lines, best);
    if lines.len() == 0 {
        match best {
            None => {
                assert(res == seq![' ', ' ']);
                assert forall|j: int| 0 <= j < res.len() implies res[j] != '\n' by {
                    if j == 0 {
                        assert(seq![' ', ' '][0] == ' ');
                    } else {
                        assert(seq![' ', ' '][1] == ' ');
                    }
                }
            },
            Some(b) => {
                assert forall|j: int| 0 <= j < res.len() implies res[j] != '\n' by {
                    assert(res == b);
                    assert(b[j] != '\n');
                }
            },
        }
    } else {
        let l = lines[0];
        let lw = leading_ws(l);
        assert(forall|i: int, j: int|
            0 <= i < lines.drop_first().len() && 0 <= j < lines.drop_first()[i].len()
                ==> lines.drop_first()[i][j] != '\n') by {
            assert(forall|i: int|
                0 <= i < lines.drop_first().len() ==> lines.drop_first()[i] == lines[i + 1]);
        }
        crate::text::lemma_ws_len_bounds(l);
        assert(forall|j: int| 0 <= j < lw.len() ==> lw[j] != '\n');
        if lw.len() == l.len() || lw.len() == 0 {
            lemma_detect_from_no_newline(lines.drop_first(), best);
            assert forall|j: int| 0 <= j < res.len() implies res[j] != '\n' by {
                assert(res == spec_detect_indent_from(lines.drop_first(), best));
                assert(spec_detect_indent_from(lines.drop_first(), best)[j] != '\n');
            }
        } else if lw[0] == '\t' {
            assert(res == seq!['\t']);
            assert forall|j: int| 0 <= j < res.len() implies res[j] != '\n' by {
                assert(seq!['\t'][0] == '\t');
            }
        } else {
            let nb = match best {
                None => Some(lw),
                Some(b) => if lw.len() < b.len() {
                    Some(lw)
                } else {
                    Some(b)
                },
            };
            lemma_detect_from_no_newline(lines.drop_first(), nb);
            assert forall|j: int| 0 <= j < res.len() implies res[j] != '\n' by {
                assert(res == spec_detect_indent_from(lines.drop_first(), nb));
                assert(spec_detect_indent_from(lines.drop_first(), nb)[j] != '\n');
            }
        }
    }
}

/// The lines of a text never contain a line feed.
pub proof fn lemma_lines_no_newline(s: Seq<char>)
    ensures
        forall|i: int, j: int|
            0 <= i < spec_lines(s).len() && 0 <= j < spec_lines(s)[i].len() ==> spec_lines(s)[i][j]
                != '\n',
{
    lemma_split_pieces_free(s, '\n');
    let ps = spec_split_char(s, '\n');
    assert(forall|i: int| 0 <= i < spec_lines(s).len() ==> spec_lines(s)[i] == ps[i]);
}

/// The detected indent unit of a document never contains a line feed.
pub proof fn lemma_detect_indent_no_newline(s: Seq<char>)
    ensures
        forall|j: int|
            0 <= j < spec_detect_indent(s).len() ==> spec_detect_indent(s)[j] != '\n',
{
    lemma_lines_no_newline(s);
    lemma_detect_from_no_newline(spec_lines(s), None);
}

/// A found nearest non-blank line lies before the insertion line.
pub proof fn lemma_last_nonblank_props(lines: Seq<Seq<char>>, bl: int)
    ensures
        spec_last_nonblank_before(lines, bl) matches Some(i) ==> 0 <= i < bl,
    decreases bl,
{
    if bl > 0 && spec_all_ws(lines[bl - 1]) {
        lemma_last_nonblank_props(lines, bl - 1);
    }
}

/// How the spliced document reads line by line: the lines before the
/// insertion line (with at most one comma repaired), then the entry's
/// lines, then the rest.
pub proof fn lemma_splice_lines(content: Seq<char>, off: int, entry: Seq<char>)
    requires
        0 <= off <= content.len(),
        spec_lines(content).len() > 0 || (entry.len() > 0 && entry.last() != '\n'),
    ensures
        ({
            let lines = spec_lines(content);
            let bl = spec_line_of_offset(content, off);
            let fixed = spec_fix_comma(lines, bl);
            &&& spec_lines(spec_splice_before(content, off, entry).0) == fixed.take(bl)
                + spec_lines(entry) + fixed.skip(bl)
            &&& spec_splice_before(content, off, entry).1 == bl
            &&& 0 <= bl <= lines.len()
            &&& (lines.len() > 0 ==> bl < lines.len())
            &&& fixed.len() == lines.len()
        }),
{
    let ps = spec_split_char(content, '\n');
    let lines = spec_lines(content);
    let bl = spec_line_of_offset(content, off);
    let fixed = spec_fix_comma(lines, bl);
    let elines = spec_lines(entry);
    let eps = spec_split_char(entry, '\n');
    let newlines = fixed.take(bl) + elines + fixed.skip(bl);
    lemma_split_len(content, '\n');
    lemma_split_len(entry, '\n');
    lemma_count_char_bound(content.take(off), '\n');
    lemma_lines_no_newline(content);
    lemma_lines_no_newline(entry);
    lemma_last_nonblank_props(lines, bl);
    // the repaired lines still hold no line feed, and only one changed
    assert(fixed.len() == lines.len());
    assert(forall|i: int, j: int|
        0 <= i < fixed.len() && 0 <= j < fixed[i].len() ==> fixed[i][j] != '\n') by {
        match spec_last_nonblank_before(lines, bl) {
            Some(ix) => {
                if spec_line_needs_comma(lines[ix]) {
                    assert(forall|j: int|
                        0 <= j < fixed[ix].len() ==> fixed[ix][j] != '\n') by {
                        assert(fixed[ix] == lines[ix].push(','));
                        assert(forall|j: int|
                            0 <= j < lines[ix].len() ==> fixed[ix][j] == lines[ix][j]);
                        assert(fixed[ix][lines[ix].len() as int] == ',');
                    }
                    assert(forall|i: int|
                        0 <= i < fixed.len() && i != ix ==> fixed[i] == lines[i]);
                }
            },
            None => {},
        }
    }
    // every line of the spliced sequence is free of line feeds
    assert(forall|i: int, j: int|
        0 <= i < newlines.len() && 0 <= j < newlines[i].len() ==> newlines[i][j] != '\n') by {
        assert(forall|i: int| 0 <= i < bl ==> newlines[i] == fixed[i]);
        assert(forall|i: int|
            bl <= i < bl + elines.len() ==> newlines[i] == elines[i - bl]);
        assert(forall|i: int|
            bl + elines.len() <= i < newlines.len() ==> newlines[i] == fixed[i - elines.len()]);
    }
    if content.len() > 0 && content.last() == '\n' {
        // the trailing newline is restored: the spliced text is the join
        // of the new lines plus one empty final piece
        assert(newlines.len() >= 1) by {
            if lines.len() == 0 {
                assert(ps.last().len() == 0);
                assert(ps.len() == 1) by {
                    if ps.len() > 1 {
                        assert(lines.len() == ps.len() - 1);
                    }
                }
                crate::text::lemma_join_split(content, '\n');
                assert(spec_join_char(ps, '\n') == ps[0]);
                assert(content.len() == 0);
            }
        }
        let pushed = newlines.push(Seq::<char>::empty());
        lemma_join_snoc(pushed, '\n');
        assert(pushed.drop_last() =~~= newlines);
        assert(pushed.last() =~= Seq::<char>::empty());
        assert(spec_join_char(pushed, '\n') =~= spec_join_char(newlines, '\n') + seq!['\n']);
        assert(spec_splice_before(content, off, entry).0 == spec_join_char(pushed, '\n'));
        assert(forall|i: int, j: int|
            0 <= i < pushed.len() && 0 <= j < pushed[i].len() ==> pushed[i][j] != '\n') by {
            assert(forall|i: int| 0 <= i < newlines.len() ==> pushed[i] == newlines[i]);
        }
        lemma_split_join(pushed, '\n');
        let out = spec_splice_before(content, off, entry).0;
        assert(spec_split_char(out, '\n') == pushed);
        assert(spec_split_char(out, '\n').last().len() == 0);
        assert(spec_lines(out) =~~= newlines);
    } else {
        // no trailing newline: the spliced text is exactly the join
        assert(spec_splice_before(content, off, entry).0 =~= spec_join_char(newlines, '\n'));
        // the last spliced line is not empty
        if lines.len() > 0 {
            assert(content.len() > 0) by {
                if content.len() == 0 {
                    assert(ps =~~= seq![Seq::<char>::empty()]);
                    assert(lines.len() == 0);
                }
            }
            lemma_split_last_nonempty(content, '\n');
            assert(lines.last() == ps.last()) by {
                assert(ps.last().len() > 0);
            }
            assert(bl < lines.len());
            assert(fixed.last().len() > 0) by {
                match spec_last_nonblank_before(lines, bl) {
                    Some(ix) => {
                        if spec_line_needs_comma(lines[ix]) {
                            if ix == lines.len() - 1 {
                                assert(fixed[ix] == lines[ix].push(','));
                                assert(fixed.last().len() == lines.last().len() + 1);
                            } else {
                                assert(fixed.last() == lines.last());
                            }
                        } else {
                            assert(fixed.last() == lines.last());
                        }
                    },
                    None => {
                        assert(fixed.last() == lines.last());
                    },
                }
            }
            assert(newlines.last() == fixed.skip(bl).last());
            assert(fixed.skip(bl).last() == fixed.last());
        } else {
            assert(entry.len() > 0 && entry.last() != '\n');
            lemma_split_last_nonempty(entry, '\n');
            assert(elines =~~= eps);
            assert(newlines =~~= elines);
            assert(newlines.last().len() > 0);
        }
        assert(newlines.len() >= 1);
        lemma_split_join(newlines, '\n');
        let out = spec_splice_before(content, off, entry).0;
        assert(spec_split_char(out, '\n') == newlines);
        assert(spec_lines(out) =~~= newlines);
    }
}

/// Malformed input — text that does not parse as JSON, or whose root is
/// not an object — always yields no change from the insertion engine.
pub proof fn lemma_insert_rejects_malformed(content: Seq<char>, key: Seq<char>, value: Seq<char>)
    requires
        json_root_shape(content) is None,
    ensures
        spec_insert_key(content, key, value) is None,
{
}

/// For every well-formed flat-style document, insertion of a key adds
/// exactly one new line holding the literal `"key": "value"` entry at
/// the detected indent, and the reported cursor position points exactly
/// past that entry's opening value quote.
pub proof fn lemma_flat_insert_adds_one_line(content: Seq<char>, key: Seq<char>, value: Seq<char>)
    requires
        json_root_shape(content) == Some(true),
        spec_insert_key(content, key, value) is Some,
        forall|j: int| 0 <= j < key.len() ==> key[j] != '\n',
        forall|j: int| 0 <= j < value.len() ==> value[j] != '\n',
    ensures
        spec_insert_key(content, key, value) matches Some(p) && ({
            let lines = spec_lines(content);
            let ind = spec_detect_indent(content);
            let out = spec_lines(p.0);
            &&& out.len() == lines.len() + 1
            &&& 0 <= p.1 < out.len()
            &&& out[p.1] == spec_entry_pair(ind, key, value)
            &&& p.2 == ind.len() + key.len() + 5
            &&& out[p.1].take(p.2) == ind + seq!['"'] + key + seq!['"', ':', ' ', '"']
        }),
{
    let ind = spec_detect_indent(content);
    let entry = spec_entry_pair(ind, key, value);
    assert(crate::insert::spec_insert_flat(content, key, value) is Some);
    assert(spec_rfind_char(content, '}') is Some);
    let b = spec_rfind_char(content, '}')->Some_0;
    lemma_rfind_char_props(content, '}');
    lemma_detect_indent_no_newline(content);
    assert(forall|j: int| 0 <= j < entry.len() ==> entry[j] != '\n');
    assert(entry.last() == '"');
    assert(entry.len() > 0);
    lemma_splice_lines(content, b, entry);
    let lines = spec_lines(content);
    let bl = spec_line_of_offset(content, b);
    let fixed = spec_fix_comma(lines, bl);
    // the entry is one single line
    crate::text::lemma_split_no_sep(entry, '\n');
    assert(spec_lines(entry) =~~= seq![entry]);
    let out = spec_lines(spec_splice_before(content, b, entry).0);
    assert(out == fixed.take(bl) + seq![entry] + fixed.skip(bl));
    assert(out.len() == lines.len() + 1);
    assert(out[bl] == entry);
    let p = spec_insert_key(content, key, value)->Some_0;
    assert(p.0 == spec_splice_before(content, b, entry).0);
    assert(p.1 == bl);
    assert(p.2 == ind.len() + key.len() + 5);
    assert(entry.take(p.2) =~= ind + seq!['"'] + key + seq!['"', ':', ' ', '"']);
}

/// Comma repair: when the nearest non-blank line before the insertion
/// line does not already end — ignoring trailing whitespace — in a
/// comma, an opening brace or an opening bracket, splicing appends
/// exactly one comma to that line, and no other existing line changes.
pub proof fn lemma_comma_repair(content: Seq<char>, off: int, entry: Seq<char>)
    requires
        0 <= off <= content.len(),
        spec_lines(content).len() > 0 || (entry.len() > 0 && entry.last() != '\n'),
        ({
            let lines = spec_lines(content);
            let bl = spec_line_of_offset(content, off);
            spec_last_nonblank_before(lines, bl) matches Some(i) && spec_line_needs_comma(
                lines[i],
            )
        }),
    ensures
        ({
            let lines = spec_lines(content);
            let bl = spec_line_of_offset(content, off);
            let e = spec_lines(entry);
            let out = spec_lines(spec_splice_before(content, off, entry).0);
            let i = spec_last_nonblank_before(lines, bl)->Some_0;
            &&& out.len() == lines.len() + e.len()
            &&& 0 <= i < bl
            &&& out[i] == lines[i].push(',')
            &&& forall|j: int| 0 <= j < bl && j != i ==> out[j] == lines[j]
            &&& forall|j: int| 0 <= j < e.len() ==> out[bl + j] == e[j]
            &&& forall|j: int| bl <= j < lines.len() ==> out[j + e.len()] == lines[j]
        }),
{
    lemma_splice_lines(content, off, entry);
    let lines = spec_lines(content);
    let bl = spec_line_of_offset(content, off);
    let fixed = spec_fix_comma(lines, bl);
    let e = spec_lines(entry);
    let out = spec_lines(spec_splice_before(content, off, entry).0);
    let i = spec_last_nonblank_before(lines, bl)->Some_0;
    lemma_last_nonblank_props(lines, bl);
    assert(fixed == lines.update(i, lines[i].push(',')));
    assert(out == fixed.take(bl) + e + fixed.skip(bl));
    assert(out[i] == fixed[i]);
    assert(forall|j: int| 0 <= j < bl && j != i ==> out[j] == fixed[j] && fixed[j] == lines[j]);
    assert(forall|j: int| 0 <= j < e.len() ==> out[bl + j] == e[j]);
    assert(forall|j: int|
        bl <= j < lines.len() ==> out[j + e.len()] == fixed.skip(bl)[j + e.len() - bl - e.len()]
            && fixed[j] == lines[j]);
}

/// One leading segment of the chain also names a nested object when the
/// whole chain does.
proof fn lemma_nested_prefix(
    s: Seq<char>,
    chain: Seq<Seq<char>>,
    from: int,
    acc: Option<(int, int)>,
    k: int,
)
    requires
        spec_find_nested_from(s, chain, from, acc) is Some,
        0 <= k <= chain.len(),
        k == 0 ==> acc is Some,
    ensures
        spec_find_nested_from(s, chain.take(k), from, acc) is Some,
    decreases k,
{
    if k == 0 {
        assert(chain.take(0).len() == 0);
    } else {
        assert(chain.len() >= 1);
        let r = spec_find_key_object_range(s, from, chain[0])->Some_0;
        assert(spec_find_key_object_range(s, from, chain[0]) is Some);
        lemma_nested_prefix(s, chain.drop_first(), r.0 + 1, Some(r), k - 1);
        assert(chain.take(k)[0] == chain[0]);
        assert(chain.take(k).drop_first() =~~= chain.drop_first().take(k - 1));
    }
}

/// When every proper prefix of the key names an existing object, the
/// walk consumes all segments but the last.
proof fn lemma_depth_found_full(content: Seq<char>, parts: Seq<Seq<char>>, i: int)
    requires
        0 <= i <= parts.len() - 1,
        forall|k: int|
            i < k <= parts.len() - 1 ==> spec_find_nested_range(content, #[trigger] parts.take(k))
                is Some,
    ensures
        spec_depth_found(content, parts, i) == parts.len() - 1,
    decreases parts.len() - i,
{
    if i < parts.len() - 1 {
        assert(spec_find_nested_range(content, parts.take(i + 1)) is Some);
        lemma_depth_found_full(content, parts, i + 1);
    }
}

/// For a nested-style document and a dotted key whose leading segments
/// all name an existing chain of nested objects spanning more than one
/// line, the leaf entry is inserted strictly inside the deepest
/// matching object: on a line after the one holding its opening brace
/// and immediately before the one holding its closing brace — so never
/// at the root and never inside an unrelated sibling object.
pub proof fn lemma_insert_into_existing_parent(
    content: Seq<char>,
    key: Seq<char>,
    value: Seq<char>,
)
    requires
        json_root_shape(content) == Some(false),
        spec_split_char(key, '.').len() >= 2,
        spec_find_nested_range(
            content,
            spec_split_char(key, '.').take(spec_split_char(key, '.').len() - 1),
        ) is Some,
        ({
            let pr = spec_find_nested_range(
                content,
                spec_split_char(key, '.').take(spec_split_char(key, '.').len() - 1),
            )->Some_0;
            spec_line_of_offset(content, pr.0) < spec_line_of_offset(content, pr.1)
        }),
        forall|j: int| 0 <= j < key.len() ==> key[j] != '\n',
        forall|j: int| 0 <= j < value.len() ==> value[j] != '\n',
    ensures
        spec_insert_key(content, key, value) matches Some(p) && ({
            let parts = spec_split_char(key, '.');
            let n = parts.len() as int;
            let ind = spec_detect_indent(content);
            let lines = spec_lines(content);
            let out = spec_lines(p.0);
            let pr = spec_find_nested_range(content, parts.take(n - 1))->Some_0;
            &&& p.1 == spec_line_of_offset(content, pr.1)
            &&& spec_line_of_offset(content, pr.0) < p.1
            &&& out.len() == lines.len() + 1
            &&& 0 <= p.1 < out.len()
            &&& out[p.1] == spec_entry_pair(spec_repeat(ind, n), parts[n - 1], value)
        }),
{
    let parts = spec_split_char(key, '.');
    let n = parts.len() as int;
    let ind = spec_detect_indent(content);
    let pr = spec_find_nested_range(content, parts.take(n - 1))->Some_0;
    // every proper prefix of the key names an object, so the walk
    // consumes all segments but the last
    assert(forall|k: int|
        0 < k <= n - 1 ==> spec_find_nested_range(content, #[trigger] parts.take(k)) is Some) by {
        assert forall|k: int| 0 < k <= n - 1 implies spec_find_nested_range(
            content,
            #[trigger] parts.take(k),
        ) is Some by {
            lemma_nested_prefix(content, parts.take(n - 1), 0, None, k);
            assert(parts.take(n - 1).take(k) =~~= parts.take(k));
        }
    }
    lemma_depth_found_full(content, parts, 0);
    let d = spec_depth_found(content, parts, 0);
    assert(d == n - 1);
    let remaining = parts.skip(d);
    assert(remaining.len() == 1);
    assert(remaining[0] == parts[n - 1]);
    let leaf = spec_entry_pair(spec_repeat(ind, n), parts[n - 1], value);
    let elines = spec_nested_entry_lines(ind, remaining, d + 1, value);
    assert(elines =~~= seq![leaf]) by {
        assert(spec_repeat(ind, d + 1 + remaining.len() - 1) == spec_repeat(ind, n));
    }
    let entry = spec_join_char(elines, '\n');
    assert(entry == leaf);
    lemma_detect_indent_no_newline(content);
    lemma_repeat_free(ind, '\n');
    lemma_split_pieces_free_other(key, '.', '\n');
    assert(forall|j: int| 0 <= j < entry.len() ==> entry[j] != '\n');
    assert(entry.last() == '"');
    assert(entry.len() > 0);
    lemma_find_nested_props_pub(content, parts.take(n - 1));
    lemma_splice_lines(content, pr.1, entry);
    crate::text::lemma_split_no_sep(entry, '\n');
    assert(spec_lines(entry) =~~= seq![entry]);
    let lines = spec_lines(content);
    let bl = spec_line_of_offset(content, pr.1);
    let fixed = spec_fix_comma(lines, bl);
    let out = spec_lines(spec_splice_before(content, pr.1, entry).0);
    assert(out == fixed.take(bl) + seq![entry] + fixed.skip(bl));
    assert(out[bl] == entry);
    assert(out.len() == lines.len() + 1);
}

/// A found nested range lies within the text (public face of the walk's
/// range property, for this module's proofs).
proof fn lemma_find_nested_props_pub(s: Seq<char>, chain: Seq<Seq<char>>)
    ensures
        spec_find_nested_range(s, chain) matches Some(p) ==> 0 <= p.0 < p.1 < s.len(),
{
    crate::insert::lemma_find_nested_from_props(s, chain, 0, None);
}

/// For a dotted key none of whose segments names an existing nested
/// object in a nested-style document, insertion writes exactly
/// `segments - 1` intermediate opening lines, then the leaf entry, then
/// the matching closing braces in reverse order.
pub proof fn lemma_insert_creates_levels(content: Seq<char>, key: Seq<char>, value: Seq<char>)
    requires
        json_root_shape(content) == Some(false),
        spec_split_char(key, '.').len() >= 2,
        spec_find_key_object_range(content, 0, spec_split_char(key, '.')[0]) is None,
        forall|j: int| 0 <= j < key.len() ==> key[j] != '\n',
        forall|j: int| 0 <= j < value.len() ==> value[j] != '\n',
    ensures
        spec_insert_key(content, key, value) matches Some(p) && ({
            let parts = spec_split_char(key, '.');
            let n = parts.len() as int;
            let ind = spec_detect_indent(content);
            let lines = spec_lines(content);
            let out = spec_lines(p.0);
            let bl = p.1 - (n - 1);
            &&& out.len() == lines.len() + (2 * n - 1)
            &&& 0 <= bl
            &&& bl + 2 * n - 1 <= out.len()
            &&& forall|i: int|
                0 <= i < n - 1 ==> out[bl + i] == spec_open_line(ind, 1 + i, parts[i])
            &&& out[bl + n - 1] == spec_entry_pair(spec_repeat(ind, n), parts[n - 1], value)
            &&& forall|i: int|
                0 <= i < n - 1 ==> #[trigger] out[bl + n + i] == spec_close_line(ind, n - 1 - i)
            &&& p.2 == spec_repeat(ind, n).len() + parts[n - 1].len() + 5
        }),
{
    let parts = spec_split_char(key, '.');
    let n = parts.len() as int;
    let ind = spec_detect_indent(content);
    // the walk stops at the very first segment
    assert(spec_find_nested_range(content, parts.take(1)) is None) by {
        assert(parts.take(1)[0] == parts[0]);
        assert(parts.take(1).drop_first().len() == 0);
    }
    assert(spec_depth_found(content, parts, 0) == 0);
    let remaining = parts.skip(0);
    assert(remaining =~~= parts);
    let elines = spec_nested_entry_lines(ind, parts, 1, value);
    assert(elines.len() == 2 * n - 1);
    // every entry line is free of line feeds and ends visibly
    lemma_detect_indent_no_newline(content);
    crate::text::lemma_split_pieces_free(key, '.');
    lemma_split_pieces_free_other(key, '.', '\n');
    lemma_repeat_free(ind, '\n');
    assert(forall|i: int, j: int|
        0 <= i < elines.len() && 0 <= j < elines[i].len() ==> elines[i][j] != '\n') by {
        assert(forall|i: int| 0 <= i < n - 1 ==> elines[i] == spec_open_line(ind, 1 + i, parts[i]));
        assert(elines[n - 1] == spec_entry_pair(spec_repeat(ind, n), parts[n - 1], value));
        assert(forall|i: int|
            0 <= i < n - 1 ==> #[trigger] elines[n + i] == spec_close_line(ind, n - 2 - i + 1));
    }
    let entry = spec_join_char(elines, '\n');
    lemma_join_snoc(elines, '\n');
    assert(elines.last() == spec_close_line(ind, 1)) by {
        assert(elines[2 * n - 2] == spec_close_line(ind, 1 + n - 2 - (n - 2)));
    }
    assert(entry.len() > 0 && entry.last() != '\n') by {
        assert(entry =~= spec_join_char(elines.drop_last(), '\n') + seq!['\n'] + elines.last());
        assert(elines.last().last() == '}');
        assert(entry.last() == '}');
    }
    let brace: int = match spec_rfind_char(content, '}') {
        Some(b) => b,
        None => content.len() as int,
    };
    lemma_rfind_char_props(content, '}');
    lemma_splice_lines(content, brace, entry);
    lemma_split_join(elines, '\n');
    assert(spec_lines(entry) =~~= elines) by {
        assert(spec_split_char(entry, '\n') == elines);
        assert(elines.last().len() > 0);
    }
    let lines = spec_lines(content);
    let bl = spec_line_of_offset(content, brace);
    let fixed = spec_fix_comma(lines, bl);
    let out = spec_lines(spec_splice_before(content, brace, entry).0);
    assert(out == fixed.take(bl) + elines + fixed.skip(bl));
    let p = spec_insert_key(content, key, value)->Some_0;
    assert(p.1 == bl + n - 1);
    assert(forall|i: int| 0 <= i < elines.len() ==> out[bl + i] == elines[i]);
    assert(forall|i: int|
        0 <= i < n - 1 ==> out[bl + i] == spec_open_line(ind, 1 + i, parts[i]));
    assert(out[bl + n - 1] == spec_entry_pair(spec_repeat(ind, n), parts[n - 1], value));
    assert(forall|i: int|
        0 <= i < n - 1 ==> #[trigger] out[bl + n + i] == spec_close_line(ind, n - 1 - i)) by {
        assert(forall|i: int|
            0 <= i < n - 1 ==> #[trigger] out[bl + n + i] == elines[n + i] && elines[n + i]
                == spec_close_line(ind, 1 + n - 2 - i));
    }
}

/// For a nested-style document and a dotted key, insertion writes one
/// block of lines — an opening line per unmatched intermediate segment,
/// the leaf pair, and the matching closing braces in reverse order —
/// anchored immediately before the closing brace of the deepest object
/// matched by the key's leading segments (before the root's closing
/// brace when no segment matches), so never inside an unrelated object.
#[verifier::rlimit(100)]
pub proof fn lemma_insert_nested_block(content: Seq<char>, key: Seq<char>, value: Seq<char>)
    requires
        json_root_shape(content) == Some(false),
        spec_split_char(key, '.').len() >= 2,
        forall|j: int| 0 <= j < key.len() ==> key[j] != '\n',
        forall|j: int| 0 <= j < value.len() ==> value[j] != '\n',
    ensures
        spec_insert_key(content, key, value) matches Some(p) && ({
            let parts = spec_split_char(key, '.');
            let n = parts.len() as int;
            let d = spec_depth_found(content, parts, 0);
            let r = n - d;
            let ind = spec_detect_indent(content);
            let lines = spec_lines(content);
            let out = spec_lines(p.0);
            let bl = p.1 - (r - 1);
            &&& 0 <= d <= n - 1
            &&& out.len() == lines.len() + (2 * r - 1)
            &&& 0 <= bl
            &&& bl + 2 * r - 1 <= out.len()
            &&& forall|i: int|
                0 <= i < r - 1 ==> #[trigger] out[bl + i] == spec_open_line(
                    ind,
                    d + 1 + i,
                    parts[d + i],
                )
            &&& out[bl + r - 1] == spec_entry_pair(spec_repeat(ind, n), parts[n - 1], value)
            &&& forall|i: int|
                0 <= i < r - 1 ==> #[trigger] out[bl + r + i] == spec_close_line(ind, n - 1 - i)
            &&& (d >= 1 ==> (spec_find_nested_range(content, parts.take(d)) matches Some(pr)
                && bl == spec_line_of_offset(content, pr.1)))
            &&& p.2 == spec_repeat(ind, n).len() + parts[n - 1].len() + 5
        }),
{
    let parts = spec_split_char(key, '.');
    let n = parts.len() as int;
    let ind = spec_detect_indent(content);
    lemma_depth_found_bounds(content, parts, 0);
    let d = spec_depth_found(content, parts, 0);
    let r = n - d;
    let remaining = parts.skip(d);
    assert(remaining.len() == r);
    assert(forall|i: int| 0 <= i < r ==> remaining[i] == parts[d + i]);
    let elines = spec_nested_entry_lines(ind, remaining, d + 1, value);
    assert(elines.len() == 2 * r - 1);
    // every entry line is free of line feeds and carries visible text
    lemma_detect_indent_no_newline(content);
    crate::text::lemma_split_pieces_free(key, '.');
    lemma_split_pieces_free_other(key, '.', '\n');
    lemma_repeat_free(ind, '\n');
    assert(forall|i: int, j: int|
        0 <= i < elines.len() && 0 <= j < elines[i].len() ==> elines[i][j] != '\n') by {
        assert(forall|i: int|
            0 <= i < r - 1 ==> elines[i] == spec_open_line(ind, d + 1 + i, remaining[i]));
        assert(elines[r - 1] == spec_entry_pair(spec_repeat(ind, n), remaining[r - 1], value)) by {
            assert(d + 1 + r - 1 == n);
        }
        assert(forall|i: int|
            0 <= i < r - 1 ==> #[trigger] elines[r + i] == spec_close_line(ind, d + r - 1 - i));
    }
    let entry = spec_join_char(elines, '\n');
    // the entry ends with the leaf's closing quote or a closing brace
    assert(entry.len() > 0 && entry.last() != '\n') by {
        if r == 1 {
            assert(elines =~~= seq![
                spec_entry_pair(spec_repeat(ind, n), remaining[0], value),
            ]) by {
                assert(d + 1 + r - 1 == n);
            }
            assert(spec_join_char(elines, '\n') == elines[0]);
            assert(elines[0].last() == '"');
        } else {
            lemma_join_snoc(elines, '\n');
            assert(elines.last() == spec_close_line(ind, d + 1)) by {
                assert(elines[2 * r - 2] == spec_close_line(ind, d + 1 + r - 2 - (r - 2)));
            }
            assert(entry =~= spec_join_char(elines.drop_last(), '\n') + seq!['\n']
                + elines.last());
            assert(elines.last().last() == '}');
        }
    }
    // the anchor offset lies inside the document
    let brace: int = if d > 0 {
        spec_find_nested_range(content, parts.take(d))->Some_0.1
    } else {
        match spec_rfind_char(content, '}') {
            Some(b) => b,
            None => content.len() as int,
        }
    };
    if d > 0 {
        lemma_depth_found_some(content, parts, 0);
        lemma_find_nested_from_props(content, parts.take(d), 0, None);
    } else {
        lemma_rfind_char_props(content, '}');
    }
    assert(0 <= brace <= content.len());
    lemma_splice_lines(content, brace, entry);
    // the entry text splits back into exactly the block's lines
    assert(spec_lines(entry) == elines) by {
        if r == 1 {
            crate::text::lemma_split_no_sep(entry, '\n');
            assert(spec_join_char(elines, '\n') == elines[0]);
            assert(spec_lines(entry) =~~= elines);
        } else {
            lemma_split_join(elines, '\n');
            assert(spec_split_char(entry, '\n') == elines);
            assert(elines.last().len() > 0) by {
                assert(elines[2 * r - 2] == spec_close_line(ind, d + 1 + r - 2 - (r - 2)));
            }
            assert(spec_lines(entry) =~~= elines);
        }
    }
    let lines = spec_lines(content);
    let bl = spec_line_of_offset(content, brace);
    let fixed = spec_fix_comma(lines, bl);
    let out = spec_lines(spec_splice_before(content, brace, entry).0);
    assert(out == fixed.take(bl) + elines + fixed.skip(bl));
    let p = spec_insert_key(content, key, value)->Some_0;
    assert(p.1 == bl + r - 1);
    assert(forall|i: int| 0 <= i < elines.len() ==> out[bl + i] == elines[i]);
    assert(forall|i: int|
        0 <= i < r - 1 ==> #[trigger] out[bl + i] == spec_open_line(ind, d + 1 + i, parts[d + i]));
    assert(out[bl + r - 1] == spec_entry_pair(spec_repeat(ind, n), parts[n - 1], value)) by {
        assert(d + 1 + r - 1 == n);
        assert(remaining[r - 1] == parts[n - 1]);
    }
    assert(forall|i: int|
        0 <= i < r - 1 ==> #[trigger] out[bl + r + i] == spec_close_line(ind, n - 1 - i)) by {
        assert(forall|i: int|
            0 <= i < r - 1 ==> #[trigger] out[bl + r + i] == elines[r + i] && elines[r + i]
                == spec_close_line(ind, d + 1 + r - 2 - i));
    }
}

/// A repetition of a sequence free of some character stays free of it.
proof fn lemma_repeat_free(s: Seq<char>, c: char)
    ensures
        (forall|j: int| 0 <= j < s.len() ==> s[j] != c) ==> (forall|n: int, j: int|
            0 <= j < spec_repeat(s, n).len() ==> spec_repeat(s, n)[j] != c),
{
    if forall|j: int| 0 <= j < s.len() ==> s[j] != c {
        assert forall|n: int, j: int|
            0 <= j < spec_repeat(s, n).len() implies spec_repeat(s, n)[j] != c by {
            lemma_repeat_free_one(s, c, n);
        }
    }
}

/// Helper for `lemma_repeat_free`, by induction on the count.
proof fn lemma_repeat_free_one(s: Seq<char>, c: char, n: int)
    requires
        forall|j: int| 0 <= j < s.len() ==> s[j] != c,
    ensures
        forall|j: int| 0 <= j < spec_repeat(s, n).len() ==> spec_repeat(s, n)[j] != c,
    decreases n,
{
    if n > 0 {
        lemma_repeat_free_one(s, c, n - 1);
        assert(forall|j: int|
            0 <= j < spec_repeat(s, n).len() ==> spec_repeat(s, n)[j] == (s + spec_repeat(
                s,
                n - 1,
            ))[j]);
    }
}

} // verus!
