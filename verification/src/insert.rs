//! The structured insertion engine: given an object-shaped JSON text, a
//! dotted key and a value, produce new text with the key inserted at the
//! right nesting depth while leaving all other formatting untouched, and
//! report where the cursor should land (just past the opening quote of
//! the inserted value).
//!
//! The engine edits the text line by line instead of re-serializing a
//! parsed tree, so untouched regions pass through character for
//! character. Everything is specified over the character-sequence model
//! of `crate::text`; the one outside call (validating the document and
//! classifying it as flat or nested) sits behind one trusted wrapper.

use vstd::prelude::*;
use vstd::pervasive::VecAdditionalExecFns;

use crate::text::{
    is_ws, ws_char, spec_rfind_char, spec_count_char, matches_at, spec_find_substring,
    spec_split_char, spec_join_char, spec_lines, spec_repeat, leading_ws_len, spec_all_ws,
    last_non_ws, lemma_split_len, lemma_count_char_bound, push_char, substring,
    find_substring, rfind_char, count_char_upto, split_on_char, join_with_char, split_lines,
    repeat_str, leading_ws_count, trailing_ws_count, lemma_ws_len_bounds, lemma_split_count,
    lemma_all_ws, lemma_rfind_char_props,
};

verus! {

// ---------------------------------------------------------------------
// Validation and classification of the document root.
// ---------------------------------------------------------------------

/// What `serde_json::from_str` finds at the root of `s`: `None` when
/// the text is not JSON or its root is not an object; otherwise whether
/// the root object is flat, that is, no top-level value is itself an
/// object. Parsing is a function of the text alone.
pub uninterp spec fn json_root_shape(s: Seq<char>) -> Option<bool>;

/// Relies on `serde_json::from_str::<Value>`, `Value::as_object` and
/// `Value::is_object`: parses the text, reports `None` when parsing
/// fails or the root is not an object, and otherwise whether every
/// top-level value is a non-object.
#[verifier::external_body]
fn classify_json_root(content: &str) -> (r: Option<bool>)
    ensures
        r == json_root_shape(content@),
{
    let root: serde_json::Value = match serde_json::from_str(content) {
        Ok(v) => v,
        Err(_) => return None,
    };
    match root.as_object() {
        Some(obj) => Some(obj.values().all(|v| !v.is_object())),
        None => None,
    }
}

// ---------------------------------------------------------------------
// Indent detection.
// ---------------------------------------------------------------------

/// The whitespace prefix of a line.
pub open spec fn leading_ws(l: Seq<char>) -> Seq<char> {
    l.take(leading_ws_len(l))
}

/// Indent detection over the lines that remain, carrying the shortest
/// space-style indent seen so far: a line that is blank or not indented
/// is skipped; the first tab-indented line decides a one-tab unit; any
/// other indented line competes by length; when nothing is indented the
/// unit defaults to two spaces.
pub open spec fn spec_detect_indent_from(lines: Seq<Seq<char>>, best: Option<Seq<char>>) -> Seq<
    char,
>
    decreases lines.len(),
{
    if lines.len() == 0 {
        match best {
            None => seq![' ', ' '],
            Some(b) => b,
        }
    } else {
        let l = lines[0];
        let lw = leading_ws(l);
        if lw.len() == l.len() || lw.len() == 0 {
            spec_detect_indent_from(lines.drop_first(), best)
        } else if lw[0] == '\t' {
            seq!['\t']
        } else {
            let nb = match best {
                None => Some(lw),
                Some(b) => if lw.len() < b.len() {
                    Some(lw)
                } else {
                    Some(b)
                },
            };
            spec_detect_indent_from(lines.drop_first(), nb)
        }
    }
}

/// The indent unit of a document.
pub open spec fn spec_detect_indent(s: Seq<char>) -> Seq<char> {
    spec_detect_indent_from(spec_lines(s), None)
}

/// Detect the indentation unit used in a document (for example two
/// spaces, four spaces, or one tab).
pub fn detect_indent_unit(content: &str) -> (r: String)
    ensures
        r@ == spec_detect_indent(content@),
{
    let lines = split_lines(content);
    let ghost lv = lines.deep_view();
    let mut best: Option<String> = None;
    let mut i: usize = 0;
    proof {
        assert(lv.skip(0) =~~= lv);
    }
    while i < lines.len()
        invariant
            lv == lines.deep_view(),
            lv == spec_lines(content@),
            lines.len() == lv.len(),
            0 <= i <= lines.len(),
            spec_detect_indent_from(lv, None) == spec_detect_indent_from(
                lv.skip(i as int),
                best.deep_view(),
            ),
        decreases lines.len() - i,
    {
        proof {
            assert(lines.deep_view()[i as int] == lines@[i as int]@);
            assert(lv.skip(i as int)[0] == lv[i as int]);
            assert(lv.skip(i as int).drop_first() =~~= lv.skip(i + 1));
            lemma_ws_len_bounds(lv[i as int]);
        }
        let line = &lines[i];
        let n = line.as_str().unicode_len();
        let lead = leading_ws_count(line.as_str());
        if lead == n || lead == 0 {
            // blank or not indented: skipped
        } else {
            proof {
                assert(leading_ws(lv[i as int])[0] == lv[i as int][0]);
                assert(leading_ws(lv[i as int]).len() == lead);
            }
            if line.as_str().get_char(0) == '\t' {
                let mut r = String::new();
                push_char(&mut r, '\t');
                proof {
                    assert(r@ =~= seq!['\t']);
                }
                return r;
            }
            let cand = substring(line.as_str(), 0, lead);
            proof {
                assert(cand@ =~= leading_ws(lv[i as int]));
            }
            let replace = match &best {
                None => true,
                Some(b) => cand.as_str().unicode_len() < b.as_str().unicode_len(),
            };
            if replace {
                best = Some(cand);
            }
        }
        i += 1;
    }
    proof {
        assert(lv.skip(lv.len() as int).len() == 0);
    }
    match best {
        None => {
            let mut r = String::new();
            push_char(&mut r, ' ');
            push_char(&mut r, ' ');
            proof {
                assert(r@ =~= seq![' ', ' ']);
            }
            r
        },
        Some(b) => b,
    }
}

// ---------------------------------------------------------------------
// Locating an existing nested object by its key chain.
// ---------------------------------------------------------------------

/// After a quoted key, scan for `:` and then `{`, skipping whitespace;
/// any other character means the key's value is not an object.
pub open spec fn spec_colon_brace(s: Seq<char>, i: int, found_colon: bool) -> Option<int>
    decreases s.len() - i,
{
    if i < 0 || i >= s.len() {
        None
    } else {
        let ch = s[i];
        if ch == ':' && !found_colon {
            spec_colon_brace(s, i + 1, true)
        } else if ch == '{' && found_colon {
            Some(i)
        } else if is_ws(ch) {
            spec_colon_brace(s, i + 1, found_colon)
        } else {
            None
        }
    }
}

/// The small state machine that finds the brace closing the object
/// opened before index `i` at nesting `depth`, ignoring braces inside
/// quoted strings and honoring backslash escapes.
pub open spec fn spec_match_brace(
    s: Seq<char>,
    i: int,
    depth: int,
    in_string: bool,
    escape: bool,
) -> Option<int>
    decreases s.len() - i,
{
    if i < 0 || i >= s.len() {
        None
    } else {
        let ch = s[i];
        if escape {
            spec_match_brace(s, i + 1, depth, in_string, false)
        } else if ch == '\\' && in_string {
            spec_match_brace(s, i + 1, depth, in_string, true)
        } else if ch == '"' {
            spec_match_brace(s, i + 1, depth, !in_string, false)
        } else if ch == '{' && !in_string {
            spec_match_brace(s, i + 1, depth + 1, in_string, false)
        } else if ch == '}' && !in_string {
            if depth == 1 {
                Some(i)
            } else {
                spec_match_brace(s, i + 1, depth - 1, in_string, false)
            }
        } else {
            spec_match_brace(s, i + 1, depth, in_string, false)
        }
    }
}

/// The quoted occurrence of `key`, searched from `from`, followed by
/// `:` and an object: the byte range `(open, close)` of that object.
pub open spec fn spec_find_key_object_range(s: Seq<char>, from: int, key: Seq<char>) -> Option<
    (int, int),
> {
    let needle = seq!['"'] + key + seq!['"'];
    match spec_find_substring(s, from, needle) {
        None => None,
        Some(k) => match spec_colon_brace(s, k + needle.len(), false) {
            None => None,
            Some(open) => match spec_match_brace(s, open + 1, 1, false, false) {
                None => None,
                Some(close) => Some((open, close)),
            },
        },
    }
}

/// A found brace lies at or after the start of the scan and holds the
/// expected character.
pub proof fn lemma_colon_brace_props(s: Seq<char>, i: int, found_colon: bool)
    ensures
        spec_colon_brace(s, i, found_colon) matches Some(o) ==> i <= o < s.len() && s[o] == '{',
    decreases s.len() - i,
{
    if i < 0 || i >= s.len() {
    } else {
        lemma_colon_brace_props(s, i + 1, true);
        lemma_colon_brace_props(s, i + 1, found_colon);
    }
}

/// A found closing brace lies at or after the start of the scan and
/// holds the expected character.
pub proof fn lemma_match_brace_props(s: Seq<char>, i: int, depth: int, in_string: bool, escape: bool)
    ensures
        spec_match_brace(s, i, depth, in_string, escape) matches Some(c) ==> i <= c < s.len()
            && s[c] == '}',
    decreases s.len() - i,
{
    if i < 0 || i >= s.len() {
    } else {
        lemma_match_brace_props(s, i + 1, depth, in_string, false);
        lemma_match_brace_props(s, i + 1, depth, in_string, true);
        lemma_match_brace_props(s, i + 1, depth, !in_string, false);
        lemma_match_brace_props(s, i + 1, depth + 1, in_string, false);
        lemma_match_brace_props(s, i + 1, depth - 1, in_string, false);
    }
}

/// A found key-object range lies within the text, with the open brace
/// before the close brace and both holding the expected characters.
pub proof fn lemma_find_key_object_range_props(s: Seq<char>, from: int, key: Seq<char>)
    ensures
        spec_find_key_object_range(s, from, key) matches Some(r) ==> 0 <= r.0 < r.1 < s.len()
            && s[r.0] == '{' && s[r.1] == '}',
{
    let needle = seq!['"'] + key + seq!['"'];
    match spec_find_substring(s, from, needle) {
        Some(k) => {
            lemma_colon_brace_props(s, k + needle.len(), false);
            match spec_colon_brace(s, k + needle.len(), false) {
                Some(open) => {
                    lemma_match_brace_props(s, open + 1, 1, false, false);
                },
                None => {},
            }
        },
        None => {},
    }
}

/// Find the byte offsets `(open, close)` of the JSON object that is the
/// value of the quoted `key_name`, searching forward from `search_from`.
pub fn find_key_object_range(content: &str, search_from: usize, key_name: &str) -> (r: Option<
    (usize, usize),
>)
    ensures
        r is Some <==> spec_find_key_object_range(content@, search_from as int, key_name@)
            is Some,
        r matches Some(p) ==> spec_find_key_object_range(content@, search_from as int, key_name@)
            == Some((p.0 as int, p.1 as int)),
{
    let n = content.unicode_len();
    let mut needle = String::new();
    push_char(&mut needle, '"');
    needle.append(key_name);
    push_char(&mut needle, '"');
    proof {
        assert(needle@ =~= seq!['"'] + key_name@ + seq!['"']);
    }
    let key_abs = match find_substring(content, search_from, needle.as_str()) {
        None => {
            return None;
        },
        Some(k) => k,
    };
    proof {
        lemma_find_substring_range(content@, search_from as int, needle@);
    }
    // scan for `:` then `{`
    let mut i: usize = key_abs + needle.as_str().unicode_len();
    let mut found_colon = false;
    let ghost start_i = i as int;
    let mut open: usize = 0;
    let mut have_open = false;
    while i < n && !have_open
        invariant
            n == content@.len(),
            0 <= i,
            spec_find_key_object_range(content@, search_from as int, key_name@) == (
            match spec_colon_brace(content@, start_i, false) {
                None => None,
                Some(o) => match spec_match_brace(content@, o + 1, 1, false, false) {
                    None => None,
                    Some(c) => Some((o, c)),
                },
            }),
            !have_open ==> spec_colon_brace(content@, start_i, false) == spec_colon_brace(
                content@,
                i as int,
                found_colon,
            ),
            have_open ==> spec_colon_brace(content@, start_i, false) == Some(open as int)
                && open < n,
        decreases n - i, (if have_open { 0int } else { 1int }),
    {
        let ch = content.get_char(i);
        if ch == ':' && !found_colon {
            found_colon = true;
        } else if ch == '{' && found_colon {
            open = i;
            have_open = true;
        } else if ws_char(ch) {
        } else {
            return None;
        }
        if !have_open {
            i += 1;
        }
    }
    if !have_open {
        return None;
    }
    // track braces to the matching close, respecting strings
    let mut j: usize = open + 1;
    let mut depth: usize = 1;
    let mut in_string = false;
    let mut escape = false;
    while j < n
        invariant
            n == content@.len(),
            open < j,
            depth >= 1,
            depth <= j - open,
            spec_find_key_object_range(content@, search_from as int, key_name@) == (
            match spec_match_brace(content@, open + 1, 1, false, false) {
                None => None,
                Some(c) => Some((open as int, c)),
            }),
            spec_match_brace(content@, open + 1, 1, false, false) == spec_match_brace(
                content@,
                j as int,
                depth as int,
                in_string,
                escape,
            ),
        decreases n - j,
    {
        let ch = content.get_char(j);
        if escape {
            escape = false;
        } else if ch == '\\' && in_string {
            escape = true;
        } else if ch == '"' {
            in_string = !in_string;
        } else if ch == '{' && !in_string {
            depth = depth + 1;
        } else if ch == '}' && !in_string {
            if depth == 1 {
                return Some((open, j));
            }
            depth = depth - 1;
        }
        j += 1;
    }
    None
}

/// Where a substring was found it fits inside the text.
pub proof fn lemma_find_substring_range(s: Seq<char>, from: int, needle: Seq<char>)
    ensures
        spec_find_substring(s, from, needle) matches Some(k) ==> 0 <= k && k + needle.len()
            <= s.len() && (from >= 0 ==> k >= from),
    decreases s.len() - from,
{
    if from < 0 || from + needle.len() > s.len() {
    } else if needle.len() == 0 || matches_at(s, from, needle) {
    } else {
        lemma_find_substring_range(s, from + 1, needle);
    }
}

/// Walk a chain of key segments from the root: each segment must name
/// an object nested in the previous one; the range of the innermost is
/// the result.
pub open spec fn spec_find_nested_from(
    s: Seq<char>,
    chain: Seq<Seq<char>>,
    from: int,
    acc: Option<(int, int)>,
) -> Option<(int, int)>
    decreases chain.len(),
{
    if chain.len() == 0 {
        acc
    } else {
        match spec_find_key_object_range(s, from, chain[0]) {
            None => None,
            Some(r) => spec_find_nested_from(s, chain.drop_first(), r.0 + 1, Some(r)),
        }
    }
}

/// The byte range of the innermost object named by the key chain.
pub open spec fn spec_find_nested_range(s: Seq<char>, chain: Seq<Seq<char>>) -> Option<
    (int, int),
> {
    spec_find_nested_from(s, chain, 0, None)
}

/// Walk a chain of key segments from the root to find the byte range
/// `(open_brace, close_brace)` of the innermost object.
pub fn find_nested_object_range(content: &str, key_chain: &Vec<String>) -> (r: Option<
    (usize, usize),
>)
    ensures
        r is Some <==> spec_find_nested_range(content@, key_chain.deep_view()) is Some,
        r matches Some(p) ==> spec_find_nested_range(content@, key_chain.deep_view()) == Some(
            (p.0 as int, p.1 as int),
        ),
{
    let ghost cv = key_chain.deep_view();
    let mut search_from: usize = 0;
    let mut result: Option<(usize, usize)> = None;
    let mut i: usize = 0;
    proof {
        assert(cv.skip(0) =~~= cv);
    }
    while i < key_chain.len()
        invariant
            cv == key_chain.deep_view(),
            key_chain.len() == cv.len(),
            0 <= i <= key_chain.len(),
            spec_find_nested_range(content@, cv) == spec_find_nested_from(
                content@,
                cv.skip(i as int),
                search_from as int,
                match result {
                    None => None,
                    Some(p) => Some((p.0 as int, p.1 as int)),
                },
            ),
        decreases key_chain.len() - i,
    {
        proof {
            assert(cv.skip(i as int)[0] == cv[i as int]);
            assert(key_chain.deep_view()[i as int] == key_chain@[i as int]@);
            assert(cv.skip(i as int).drop_first() =~~= cv.skip(i + 1));
        }
        let range = find_key_object_range(content, search_from, key_chain[i].as_str());
        match range {
            Some(p) => {
                proof {
                    lemma_find_key_object_range_props(content@, search_from as int, cv[i as int]);
                }
                search_from = p.0 + 1;
                result = Some(p);
            },
            None => {
                return None;
            },
        }
        i += 1;
    }
    proof {
        assert(cv.skip(cv.len() as int).len() == 0);
    }
    result
}

/// A found nested range lies within the text.
pub proof fn lemma_find_nested_from_props(
    s: Seq<char>,
    chain: Seq<Seq<char>>,
    from: int,
    acc: Option<(int, int)>,
)
    requires
        acc matches Some(p) ==> 0 <= p.0 < p.1 < s.len(),
    ensures
        spec_find_nested_from(s, chain, from, acc) matches Some(p) ==> 0 <= p.0 < p.1 < s.len(),
    decreases chain.len(),
{
    if chain.len() > 0 {
        lemma_find_key_object_range_props(s, from, chain[0]);
        match spec_find_key_object_range(s, from, chain[0]) {
            Some(r) => {
                lemma_find_nested_from_props(s, chain.drop_first(), r.0 + 1, Some(r));
            },
            None => {},
        }
    }
}

// ---------------------------------------------------------------------
// Splicing new lines into a document before a closing brace.
// ---------------------------------------------------------------------

/// The index of the line that holds character offset `off`: the number
/// of line feeds before `off`, clamped to the last line.
pub open spec fn spec_line_of_offset(s: Seq<char>, off: int) -> int {
    let lines = spec_lines(s);
    let cnt = spec_count_char(s.take(off), '\n');
    if lines.len() == 0 {
        0
    } else if cnt > lines.len() - 1 {
        lines.len() - 1
    } else {
        cnt
    }
}

/// The nearest line before line `bl` that is not blank.
pub open spec fn spec_last_nonblank_before(lines: Seq<Seq<char>>, bl: int) -> Option<int>
    decreases bl,
{
    if bl <= 0 {
        None
    } else if !spec_all_ws(lines[bl - 1]) {
        Some(bl - 1)
    } else {
        spec_last_nonblank_before(lines, bl - 1)
    }
}

/// A non-blank line needs a comma when its last non-whitespace
/// character is not already a comma or an opening brace or bracket.
pub open spec fn spec_line_needs_comma(l: Seq<char>) -> bool {
    &&& !spec_all_ws(l)
    &&& last_non_ws(l) != ','
    &&& last_non_ws(l) != '{'
    &&& last_non_ws(l) != '['
}

/// Comma repair: the nearest non-blank line before the insertion line
/// gains a trailing comma when it needs one; no other line changes.
pub open spec fn spec_fix_comma(lines: Seq<Seq<char>>, bl: int) -> Seq<Seq<char>> {
    match spec_last_nonblank_before(lines, bl) {
        None => lines,
        Some(i) => if spec_line_needs_comma(lines[i]) {
            lines.update(i, lines[i].push(','))
        } else {
            lines
        },
    }
}

/// The document with the entry's lines spliced in immediately before
/// the line holding offset `off`, after comma repair, keeping the
/// document's trailing-newline presence; and the index of the first
/// inserted line.
pub open spec fn spec_splice_before(content: Seq<char>, off: int, entry: Seq<char>) -> (
    Seq<char>,
    int,
) {
    let lines = spec_lines(content);
    let bl = spec_line_of_offset(content, off);
    let fixed = spec_fix_comma(lines, bl);
    let newlines = fixed.take(bl) + spec_lines(entry) + fixed.skip(bl);
    let tail: Seq<char> = if content.len() > 0 && content.last() == '\n' {
        seq!['\n']
    } else {
        Seq::<char>::empty()
    };
    (spec_join_char(newlines, '\n') + tail, bl)
}

/// The line count of a text is at most its length plus one.
pub proof fn lemma_lines_count(s: Seq<char>)
    ensures
        spec_lines(s).len() <= s.len() + 1,
        spec_lines(s).len() <= spec_split_char(s, '\n').len(),
{
    lemma_split_count(s, '\n');
    lemma_count_char_bound(s, '\n');
    lemma_split_len(s, '\n');
}

/// Whether the line is blank (all whitespace or empty).
fn line_all_ws(l: &str) -> (r: bool)
    ensures
        r == spec_all_ws(l@),
{
    let n = l.unicode_len();
    leading_ws_count(l) == n
}

/// Insert `entry`'s lines before the line that holds offset
/// `brace_offset`, adding a trailing comma to the previous entry if it
/// needs one. Returns the new text and the first inserted line's index.
pub fn insert_text_before_offset(content: &str, brace_offset: usize, entry: &str) -> (r: Option<
    (String, usize),
>)
    requires
        brace_offset <= content@.len(),
    ensures
        r is Some,
        r matches Some(p) ==> (p.0@, p.1 as int) == spec_splice_before(
            content@,
            brace_offset as int,
            entry@,
        ),
{
    let mut lines = split_lines(content);
    let ghost lv0 = lines.deep_view();
    let cnt = count_char_upto(content, '\n', brace_offset);
    let bl: usize = if lines.len() == 0 {
        0
    } else if cnt > lines.len() - 1 {
        lines.len() - 1
    } else {
        cnt
    };
    proof {
        assert(bl as int == spec_line_of_offset(content@, brace_offset as int));
    }
    // find the nearest preceding non-blank line
    let mut j: usize = bl;
    let mut found_idx: usize = 0;
    let mut have_found = false;
    while j > 0 && !have_found
        invariant
            lines.deep_view() == lv0,
            j <= bl,
            bl <= lines.len(),
            lines.len() == lv0.len(),
            !have_found ==> spec_last_nonblank_before(lv0, bl as int)
                == spec_last_nonblank_before(lv0, j as int),
            have_found ==> spec_last_nonblank_before(lv0, bl as int) == Some(found_idx as int)
                && found_idx < lines.len() && !spec_all_ws(lv0[found_idx as int]),
        decreases j, (if have_found { 0int } else { 1int }),
    {
        proof {
            assert(lines.deep_view()[j - 1] == lines@[j - 1]@);
        }
        if !line_all_ws(lines[j - 1].as_str()) {
            found_idx = j - 1;
            have_found = true;
        } else {
            j -= 1;
        }
    }
    // comma repair on the found line
    if have_found {
        proof {
            assert(lines.deep_view()[found_idx as int] == lines@[found_idx as int]@);
            lemma_all_ws(lv0[found_idx as int]);
            lemma_ws_len_bounds(lv0[found_idx as int]);
        }
        let l = &lines[found_idx];
        let n = l.as_str().unicode_len();
        let t = trailing_ws_count(l.as_str());
        let last = l.as_str().get_char(n - 1 - t);
        if last != ',' && last != '{' && last != '[' {
            let mut nl = lines[found_idx].clone();
            push_char(&mut nl, ',');
            lines.set(found_idx, nl);
            proof {
                assert(lines.deep_view() =~~= spec_fix_comma(lv0, bl as int));
            }
        } else {
            proof {
                assert(lines.deep_view() =~~= spec_fix_comma(lv0, bl as int));
            }
        }
    } else {
        proof {
            assert(lines.deep_view() =~~= spec_fix_comma(lv0, bl as int));
        }
    }
    let ghost fixed = spec_fix_comma(lv0, bl as int);
    proof {
        assert(fixed.len() == lv0.len());
    }
    // splice the entry's lines in before line `bl`
    let elines = split_lines(entry);
    let mut out: Vec<String> = Vec::new();
    let mut k: usize = 0;
    proof {
        assert(out.deep_view() =~~= fixed.take(0));
    }
    while k < bl
        invariant
            lines.deep_view() == fixed,
            lines.len() == fixed.len(),
            bl <= lines.len(),
            0 <= k <= bl,
            out.deep_view() == fixed.take(k as int),
        decreases bl - k,
    {
        let ghost od = out.deep_view();
        out.push(lines[k].clone());
        proof {
            assert(lines.deep_view()[k as int] == lines@[k as int]@);
            assert(out.deep_view() =~~= od.push(fixed[k as int]));
            assert(od.push(fixed[k as int]) =~~= fixed.take(k + 1));
        }
        k += 1;
    }
    let mut k2: usize = 0;
    let ghost ev = elines.deep_view();
    while k2 < elines.len()
        invariant
            elines.deep_view() == ev,
            elines.len() == ev.len(),
            0 <= k2 <= elines.len(),
            out.deep_view() == fixed.take(bl as int) + ev.take(k2 as int),
        decreases elines.len() - k2,
    {
        let ghost od = out.deep_view();
        out.push(elines[k2].clone());
        proof {
            assert(elines.deep_view()[k2 as int] == elines@[k2 as int]@);
            assert(out.deep_view() =~~= od.push(ev[k2 as int]));
            assert(od.push(ev[k2 as int]) =~~= fixed.take(bl as int) + ev.take(k2 + 1));
        }
        k2 += 1;
    }
    let mut k3: usize = bl;
    while k3 < lines.len()
        invariant
            lines.deep_view() == fixed,
            lines.len() == fixed.len(),
            bl <= k3 <= lines.len(),
            out.deep_view() == fixed.take(bl as int) + ev + fixed.skip(bl as int).take(
                k3 - bl,
            ),
        decreases lines.len() - k3,
    {
        let ghost od = out.deep_view();
        out.push(lines[k3].clone());
        proof {
            assert(lines.deep_view()[k3 as int] == lines@[k3 as int]@);
            assert(out.deep_view() =~~= od.push(fixed[k3 as int]));
            assert(fixed.skip(bl as int).take(k3 - bl).push(fixed[k3 as int]) =~~= fixed.skip(
                bl as int,
            ).take(k3 + 1 - bl));
            assert(od.push(fixed[k3 as int]) =~~= fixed.take(bl as int) + ev + fixed.skip(
                bl as int,
            ).take(k3 + 1 - bl));
        }
        k3 += 1;
    }
    proof {
        assert(fixed.skip(bl as int).take(fixed.len() - bl) =~~= fixed.skip(bl as int));
        assert(out.deep_view() =~~= fixed.take(bl as int) + ev + fixed.skip(bl as int));
    }
    let mut res = join_with_char(&out, '\n');
    let n = content.unicode_len();
    if n > 0 && content.get_char(n - 1) == '\n' {
        push_char(&mut res, '\n');
        proof {
            assert(res@ =~= spec_join_char(out.deep_view(), '\n') + seq!['\n']);
        }
    } else {
        proof {
            assert(res@ =~= spec_join_char(out.deep_view(), '\n') + Seq::<char>::empty());
        }
    }
    Some((res, bl))
}

// ---------------------------------------------------------------------
// Building the inserted entry and the top-level insertion.
// ---------------------------------------------------------------------

/// One `"key": "value"` line at the given indentation.
pub open spec fn spec_entry_pair(ind: Seq<char>, key: Seq<char>, value: Seq<char>) -> Seq<char> {
    ind + seq!['"'] + key + seq!['"', ':', ' ', '"'] + value + seq!['"']
}

/// One `"part": {` line opening a synthesized nested object.
pub open spec fn spec_open_line(ind: Seq<char>, level: int, part: Seq<char>) -> Seq<char> {
    spec_repeat(ind, level) + seq!['"'] + part + seq!['"', ':', ' ', '{']
}

/// One closing-brace line of a synthesized nested object.
pub open spec fn spec_close_line(ind: Seq<char>, level: int) -> Seq<char> {
    spec_repeat(ind, level) + seq!['}']
}

/// The lines written for the unmatched key segments: one opening line
/// per intermediate segment, the leaf pair, and the closing braces in
/// reverse order.
pub open spec fn spec_nested_entry_lines(
    ind: Seq<char>,
    remaining: Seq<Seq<char>>,
    base: int,
    value: Seq<char>,
) -> Seq<Seq<char>> {
    let r = remaining.len() as int;
    Seq::new((r - 1) as nat, |i: int| spec_open_line(ind, base + i, remaining[i])) + seq![
        spec_entry_pair(spec_repeat(ind, base + r - 1), remaining[r - 1], value),
    ] + Seq::new((r - 1) as nat, |i: int| spec_close_line(ind, base + r - 2 - i))
}

/// How many leading segments of the dotted key name a chain of existing
/// nested objects, walking from `i` and stopping at the first segment
/// with no existing object (the last segment is never walked).
pub open spec fn spec_depth_found(content: Seq<char>, parts: Seq<Seq<char>>, i: int) -> int
    decreases parts.len() - i,
{
    if i < 0 || i >= parts.len() - 1 {
        i
    } else if spec_find_nested_range(content, parts.take(i + 1)) is Some {
        spec_depth_found(content, parts, i + 1)
    } else {
        i
    }
}

/// The walk's depth stays within the segments.
pub proof fn lemma_depth_found_bounds(content: Seq<char>, parts: Seq<Seq<char>>, i: int)
    requires
        0 <= i <= parts.len() - 1,
    ensures
        i <= spec_depth_found(content, parts, i) <= parts.len() - 1,
    decreases parts.len() - i,
{
    if i < parts.len() - 1 && spec_find_nested_range(content, parts.take(i + 1)) is Some {
        lemma_depth_found_bounds(content, parts, i + 1);
    }
}

/// A walk that advanced found its deepest prefix.
pub proof fn lemma_depth_found_some(content: Seq<char>, parts: Seq<Seq<char>>, i: int)
    requires
        0 <= i <= parts.len() - 1,
    ensures
        spec_depth_found(content, parts, i) > i ==> spec_find_nested_range(
            content,
            parts.take(spec_depth_found(content, parts, i)),
        ) is Some,
    decreases parts.len() - i,
{
    if i < parts.len() - 1 && spec_find_nested_range(content, parts.take(i + 1)) is Some {
        lemma_depth_found_some(content, parts, i + 1);
    }
}

/// Insertion into a flat document (or of a single-segment key): the
/// dotted key becomes one literal entry before the root's closing
/// brace; fails only when the text has no closing brace at all.
pub open spec fn spec_insert_flat(content: Seq<char>, key: Seq<char>, value: Seq<char>) -> Option<
    (Seq<char>, int, int),
> {
    let ind = spec_detect_indent(content);
    match spec_rfind_char(content, '}') {
        None => None,
        Some(b) => {
            let sp = spec_splice_before(content, b, spec_entry_pair(ind, key, value));
            Some((sp.0, sp.1, (ind.len() + key.len() + 5) as int))
        },
    }
}

/// Insertion into a nested document: segments already matched by
/// existing objects anchor the entry inside the deepest match; the rest
/// are synthesized as new nested objects around the leaf.
pub open spec fn spec_insert_nested(content: Seq<char>, parts: Seq<Seq<char>>, value: Seq<char>) -> (
    Seq<char>,
    int,
    int,
) {
    let ind = spec_detect_indent(content);
    let d = spec_depth_found(content, parts, 0);
    let brace: int = if d > 0 {
        spec_find_nested_range(content, parts.take(d))->Some_0.1
    } else {
        match spec_rfind_char(content, '}') {
            Some(b) => b,
            None => content.len() as int,
        }
    };
    let remaining = parts.skip(d);
    let elines = spec_nested_entry_lines(ind, remaining, d + 1, value);
    let entry = spec_join_char(elines, '\n');
    let sp = spec_splice_before(content, brace, entry);
    let leaf_level = parts.len() as int;
    (
        sp.0,
        sp.1 + remaining.len() - 1,
        (spec_repeat(ind, leaf_level).len() + remaining[remaining.len() - 1].len() + 5) as int,
    )
}

/// What insertion yields: nothing when the text does not parse as a
/// JSON object (or a flat insertion finds no closing brace); otherwise
/// the new text, and the line and column just past the opening quote of
/// the inserted value.
pub open spec fn spec_insert_key(content: Seq<char>, key: Seq<char>, value: Seq<char>) -> Option<
    (Seq<char>, int, int),
> {
    match json_root_shape(content) {
        None => None,
        Some(is_flat) => {
            let parts = spec_split_char(key, '.');
            if is_flat || parts.len() == 1 {
                spec_insert_flat(content, key, value)
            } else {
                Some(spec_insert_nested(content, parts, value))
            }
        },
    }
}

/// Insert a (possibly dotted) key with the given value into an
/// object-shaped JSON text, preserving existing formatting and key
/// order. Returns the new text and the cursor position just past the
/// opening quote of the inserted value; returns nothing when the text
/// is not a JSON object (so the caller must not write anything).
pub fn insert_key_into_json(content: &str, key: &str, value: &str) -> (res: Option<
    (String, usize, usize),
>)
    requires
        content@.len() + key@.len() < usize::MAX,
    ensures
        res is Some <==> spec_insert_key(content@, key@, value@) is Some,
        res matches Some(p) ==> spec_insert_key(content@, key@, value@) == Some(
            (p.0@, p.1 as int, p.2 as int),
        ),
{
    let is_flat = match classify_json_root(content) {
        None => {
            return None;
        },
        Some(b) => b,
    };
    let parts = split_on_char(key, '.');
    let ghost pv = parts.deep_view();
    proof {
        lemma_split_len(key@, '.');
        lemma_split_count(key@, '.');
        lemma_count_char_bound(key@, '.');
    }
    let ind = detect_indent_unit(content);
    if is_flat || parts.len() == 1 {
        let mut entry = String::new();
        entry.append(ind.as_str());
        push_char(&mut entry, '"');
        entry.append(key);
        entry.append("\": \"");
        entry.append(value);
        push_char(&mut entry, '"');
        proof {
            reveal_strlit("\": \"");
            assert("\": \""@ =~= seq!['"', ':', ' ', '"']);
            assert(entry@ =~= spec_entry_pair(spec_detect_indent(content@), key@, value@));
        }
        let b = match rfind_char(content, '}') {
            None => {
                return None;
            },
            Some(b) => b,
        };
        proof {
            lemma_rfind_char_props(content@, '}');
        }
        let cursor_col = entry.as_str().unicode_len() - value.unicode_len() - 1;
        match insert_text_before_offset(content, b, entry.as_str()) {
            None => {
                proof {
                    assert(false);
                }
                None
            },
            Some(p) => Some((p.0, p.1, cursor_col)),
        }
    } else {
        // walk existing parents
        let mut prefix: Vec<String> = Vec::new();
        let mut d: usize = 0;
        let mut parent_close: usize = 0;
        let mut have_parent = false;
        let mut stop = false;
        proof {
            assert(prefix.deep_view() =~~= pv.take(0));
        }
        while d < parts.len() - 1 && !stop
            invariant
                pv == parts.deep_view(),
                parts.len() == pv.len(),
                pv.len() >= 2,
                0 <= d <= pv.len() - 1,
                prefix.deep_view() == pv.take(d as int),
                !stop ==> spec_depth_found(content@, pv, 0) == spec_depth_found(
                    content@,
                    pv,
                    d as int,
                ),
                stop ==> spec_depth_found(content@, pv, 0) == d as int,
                have_parent <==> d > 0,
                have_parent ==> (spec_find_nested_range(content@, pv.take(d as int))
                    matches Some(pr) && pr.1 == parent_close as int && parent_close
                    < content@.len()),
            decreases pv.len() - d, (if stop { 0int } else { 1int }),
        {
            let ghost od = prefix.deep_view();
            prefix.push(parts[d].clone());
            proof {
                assert(parts.deep_view()[d as int] == parts@[d as int]@);
                assert(prefix.deep_view() =~~= od.push(pv[d as int]));
                assert(od.push(pv[d as int]) =~~= pv.take(d + 1));
            }
            match find_nested_object_range(content, &prefix) {
                Some(p) => {
                    proof {
                        lemma_find_nested_from_props(content@, pv.take(d + 1), 0, None);
                    }
                    parent_close = p.1;
                    have_parent = true;
                    d += 1;
                },
                None => {
                    let _ = prefix.pop();
                    proof {
                        assert(prefix.deep_view() =~~= pv.take(d as int));
                    }
                    stop = true;
                },
            }
        }
        proof {
            if !stop {
                assert(spec_depth_found(content@, pv, d as int) == d as int);
            }
            assert(spec_depth_found(content@, pv, 0) == d as int);
        }
        let r_cnt = parts.len() - d;
        let ghost remaining = pv.skip(d as int);
        proof {
            assert(remaining.len() == r_cnt as int);
        }
        // build the entry lines: opens, leaf, closers
        let mut elines_v: Vec<String> = Vec::new();
        let mut q: usize = 0;
        proof {
            reveal_strlit("\": {");
            assert("\": {"@ =~= seq!['"', ':', ' ', '{']);
        }
        while q < r_cnt - 1
            invariant
                pv == parts.deep_view(),
                parts.len() == pv.len(),
                remaining == pv.skip(d as int),
                d + r_cnt == pv.len(),
                r_cnt >= 1,
                0 <= q <= r_cnt - 1,
                elines_v.deep_view() == Seq::new(q as nat, |i: int| spec_open_line(
                    spec_detect_indent(content@),
                    d + 1 + i,
                    remaining[i],
                )),
                ind@ == spec_detect_indent(content@),
            decreases r_cnt - q,
        {
            let rep = repeat_str(ind.as_str(), d + 1 + q);
            let mut l = rep;
            push_char(&mut l, '"');
            l.append(parts[d + q].as_str());
            l.append("\": {");
            proof {
                reveal_strlit("\": {");
                assert("\": {"@ =~= seq!['"', ':', ' ', '{']);
                assert(parts.deep_view()[d + q] == parts@[(d + q) as int]@);
                assert(remaining[q as int] == pv[d + q]);
                assert(l@ =~= spec_open_line(
                    spec_detect_indent(content@),
                    d + 1 + q,
                    remaining[q as int],
                ));
            }
            let ghost od = elines_v.deep_view();
            elines_v.push(l);
            proof {
                assert(elines_v.deep_view() =~~= od.push(l@));
                assert(od.push(l@) =~~= Seq::new((q + 1) as nat, |i: int| spec_open_line(
                    spec_detect_indent(content@),
                    d + 1 + i,
                    remaining[i],
                )));
            }
            q += 1;
        }
        // leaf line
        let rep_leaf = repeat_str(ind.as_str(), parts.len());
        let mut leaf = rep_leaf;
        push_char(&mut leaf, '"');
        leaf.append(parts[parts.len() - 1].as_str());
        leaf.append("\": \"");
        leaf.append(value);
        push_char(&mut leaf, '"');
        proof {
            reveal_strlit("\": \"");
            assert("\": \""@ =~= seq!['"', ':', ' ', '"']);
            assert(parts.deep_view()[pv.len() - 1] == parts@[(parts.len() - 1) as int]@);
            assert(remaining[r_cnt - 1] == pv[pv.len() - 1]);
            assert(leaf@ =~= spec_entry_pair(
                spec_repeat(spec_detect_indent(content@), pv.len() as int),
                remaining[r_cnt - 1],
                value@,
            ));
        }
        let cursor_col = leaf.as_str().unicode_len() - value.unicode_len() - 1;
        let ghost leaf_view = leaf@;
        let ghost od2 = elines_v.deep_view();
        elines_v.push(leaf);
        proof {
            assert(elines_v.deep_view() =~~= od2.push(leaf_view));
        }
        // closers in reverse
        let mut q2: usize = 0;
        let ghost after_leaf = elines_v.deep_view();
        while q2 < r_cnt - 1
            invariant
                pv == parts.deep_view(),
                parts.len() == pv.len(),
                d + r_cnt == pv.len(),
                r_cnt >= 1,
                0 <= q2 <= r_cnt - 1,
                ind@ == spec_detect_indent(content@),
                elines_v.deep_view() == after_leaf + Seq::new(q2 as nat, |i: int| spec_close_line(
                    spec_detect_indent(content@),
                    d + r_cnt - 1 - i,
                )),
            decreases r_cnt - q2,
        {
            let rep = repeat_str(ind.as_str(), d + r_cnt - 1 - q2);
            let mut cl = rep;
            push_char(&mut cl, '}');
            proof {
                assert(cl@ =~= spec_close_line(spec_detect_indent(content@), d + r_cnt - 1 - q2));
            }
            let ghost od3 = elines_v.deep_view();
            elines_v.push(cl);
            proof {
                assert(elines_v.deep_view() =~~= od3.push(cl@));
                assert(od3.push(cl@) =~~= after_leaf + Seq::new((q2 + 1) as nat, |i: int|
                    spec_close_line(spec_detect_indent(content@), d + r_cnt - 1 - i)));
            }
            q2 += 1;
        }
        proof {
            assert(elines_v.deep_view() =~~= spec_nested_entry_lines(
                spec_detect_indent(content@),
                remaining,
                d + 1,
                value@,
            ));
        }
        let entry = join_with_char(&elines_v, '\n');
        let brace: usize = if have_parent {
            parent_close
        } else {
            match rfind_char(content, '}') {
                Some(b) => {
                    proof {
                        lemma_rfind_char_props(content@, '}');
                    }
                    b
                },
                None => content.unicode_len(),
            }
        };
        match insert_text_before_offset(content, brace, entry.as_str()) {
            None => {
                proof {
                    assert(false);
                }
                None
            },
            Some(p) => {
                proof {
                    lemma_lines_count(content@);
                    lemma_count_char_bound(content@.take(brace as int), '\n');
                }
                let cursor_line = p.1 + (r_cnt - 1);
                Some((p.0, cursor_line, cursor_col))
            },
        }
    }
}

} // verus!
