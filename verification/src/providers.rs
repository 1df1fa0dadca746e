//! Read-only query providers over the catalog and document state:
//! completion candidates, hover rendering, go-to-definition ordering,
//! inlay hints, and the code-action helpers that recover a key from a
//! diagnostic message.

use vstd::prelude::*;

use crate::catalog::CatalogSnapshot;
use crate::diagnostics::UsageView;
use crate::diagnostics::FoundKeyUsage;
use crate::text::{
    spec_find_char, spec_rfind_substring, spec_lines, matches_at, push_char, substring,
    find_char, rfind_substring, split_lines, starts_with, str_eq, vec_contains_str,
};

verus! {

// ---------------------------------------------------------------------
// Truncation for hint labels.
// ---------------------------------------------------------------------

/// The text cut to at most `max` characters; a cut text keeps its first
/// `max - 3` characters and ends in three dots.
pub open spec fn spec_truncate(s: Seq<char>, max: int) -> Seq<char> {
    if s.len() <= max {
        s
    } else {
        s.take(
            if max >= 3 {
                max - 3
            } else {
                0
            },
        ) + seq!['.', '.', '.']
    }
}

/// Cut a text to at most `max_chars` characters, ending a cut text in
/// three dots. Counts character units, not storage units.
pub fn truncate_string(s: &str, max_chars: usize) -> (r: String)
    ensures
        r@ == spec_truncate(s@, max_chars as int),
{
    let n = s.unicode_len();
    if n <= max_chars {
        return String::from_str(s);
    }
    let keep: usize = if max_chars >= 3 {
        max_chars - 3
    } else {
        0
    };
    let mut r = substring(s, 0, keep);
    r.append("...");
    proof {
        reveal_strlit("...");
        assert("..."@ =~= seq!['.', '.', '.']);
        assert(r@ =~= spec_truncate(s@, max_chars as int));
    }
    r
}

// ---------------------------------------------------------------------
// Completion.
// ---------------------------------------------------------------------

/// The completion prefix found under one call pattern: the text between
/// the pattern's last occurrence and the cursor, provided no quote
/// intervenes (an intervening quote means the call already closed).
pub open spec fn spec_prefix_for(before: Seq<char>, pat: Seq<char>) -> Option<Seq<char>> {
    match spec_rfind_substring(before, pat) {
        None => None,
        Some(pos) => {
            let prefix = before.skip(pos + pat.len());
            if spec_find_char(prefix, '"', 0) is None && spec_find_char(prefix, '\'', 0) is None {
                Some(prefix)
            } else {
                None
            }
        },
    }
}

/// The completion prefix at a cursor position: the recognized call
/// patterns are tried in a fixed order on the text before the cursor.
pub open spec fn spec_extract_completion_prefix(line: Seq<char>, character: int) -> Option<
    Seq<char>,
> {
    let before = line.take(
        if character < line.len() {
            character
        } else {
            line.len() as int
        },
    );
    match spec_prefix_for(before, "t(\""@) {
        Some(p) => Some(p),
        None => match spec_prefix_for(before, "t('"@) {
            Some(p) => Some(p),
            None => match spec_prefix_for(before, "$t(\""@) {
                Some(p) => Some(p),
                None => match spec_prefix_for(before, "$t('"@) {
                    Some(p) => Some(p),
                    None => match spec_prefix_for(before, "i18n.t(\""@) {
                        Some(p) => Some(p),
                        None => spec_prefix_for(before, "i18n.t('"@),
                    },
                },
            },
        },
    }
}

/// A found last occurrence fits inside the text.
proof fn lemma_rfind_substring_range(s: Seq<char>, needle: Seq<char>)
    ensures
        spec_rfind_substring(s, needle) matches Some(i) ==> 0 <= i && i + needle.len() <= s.len(),
    decreases s.len(),
{
    if s.len() >= needle.len() && needle.len() > 0 && !matches_at(
        s,
        s.len() - needle.len(),
        needle,
    ) {
        lemma_rfind_substring_range(s.take(s.len() - 1), needle);
    }
}

/// The prefix under one pattern, executably.
fn try_pattern(before: &str, pat: &str) -> (r: Option<String>)
    ensures
        r is Some <==> spec_prefix_for(before@, pat@) is Some,
        r matches Some(p) ==> spec_prefix_for(before@, pat@) == Some(p@),
{
    let pos = match rfind_substring(before, pat) {
        None => {
            return None;
        },
        Some(p) => p,
    };
    proof {
        lemma_rfind_substring_range(before@, pat@);
    }
    let n = before.unicode_len();
    let start = pos + pat.unicode_len();
    let prefix = substring(before, start, n);
    let clean = match find_char(prefix.as_str(), '"', 0) {
        Some(_) => false,
        None => match find_char(prefix.as_str(), '\'', 0) {
            Some(_) => false,
            None => true,
        },
    };
    if clean {
        Some(prefix)
    } else {
        None
    }
}

/// The completion prefix at a cursor position inside one line, if the
/// cursor sits in an unterminated quoted argument of a recognized
/// translation-call pattern.
pub fn extract_completion_prefix(line: &str, character: usize) -> (r: Option<String>)
    ensures
        r is Some <==> spec_extract_completion_prefix(line@, character as int) is Some,
        r matches Some(p) ==> spec_extract_completion_prefix(line@, character as int) == Some(p@),
{
    let n = line.unicode_len();
    let upto = if character < n {
        character
    } else {
        n
    };
    let before_owned = substring(line, 0, upto);
    let before = before_owned.as_str();
    match try_pattern(before, "t(\"") {
        Some(p) => Some(p),
        None => match try_pattern(before, "t('") {
            Some(p) => Some(p),
            None => match try_pattern(before, "$t(\"") {
                Some(p) => Some(p),
                None => match try_pattern(before, "$t('") {
                    Some(p) => Some(p),
                    None => match try_pattern(before, "i18n.t(\"") {
                        Some(p) => Some(p),
                        None => try_pattern(before, "i18n.t('"),
                    },
                },
            },
        },
    }
}

/// One completion candidate.
pub struct CompletionEntry {
    pub label: String,
    pub detail: Option<String>,
    pub documentation: Option<String>,
    pub insert_text: String,
}

/// The mathematical image of a completion candidate.
pub struct CompletionEntryView {
    pub label: Seq<char>,
    pub detail: Option<Seq<char>>,
    pub documentation: Option<Seq<char>>,
    pub insert_text: Seq<char>,
}

impl View for CompletionEntry {
    type V = CompletionEntryView;

    open spec fn view(&self) -> CompletionEntryView {
        CompletionEntryView {
            label: self.label@,
            detail: match self.detail {
                None => None,
                Some(ref d) => Some(d@),
            },
            documentation: match self.documentation {
                None => None,
                Some(ref d) => Some(d@),
            },
            insert_text: self.insert_text@,
        }
    }
}

impl DeepView for CompletionEntry {
    type V = CompletionEntryView;

    open spec fn deep_view(&self) -> CompletionEntryView {
        self.view()
    }
}

/// One sequence starts with another.
pub open spec fn spec_starts_with(s: Seq<char>, p: Seq<char>) -> bool {
    p.len() <= s.len() && s.subrange(0, p.len() as int) == p
}

/// The candidate built for one key: the source-locale value is its
/// detail and, rendered as markdown, its documentation.
pub open spec fn spec_completion_entry(
    cat: CatalogSnapshot,
    src: Seq<char>,
    key: Seq<char>,
) -> CompletionEntryView {
    let t = cat.spec_translation(key, src);
    CompletionEntryView {
        label: key,
        detail: t,
        documentation: match t {
            None => None,
            Some(v) => Some("**"@ + src + "**: "@ + v),
        },
        insert_text: key,
    }
}

/// The candidates gathered from the first `i` catalog entries: keys
/// that start with the prefix (all keys when it is empty), capped at
/// one hundred.
pub open spec fn spec_completions_upto(
    cat: CatalogSnapshot,
    src: Seq<char>,
    prefix: Seq<char>,
    i: int,
) -> Seq<CompletionEntryView>
    decreases i,
{
    if i <= 0 {
        Seq::empty()
    } else {
        let prev = spec_completions_upto(cat, src, prefix, i - 1);
        let key = cat.entries@[i - 1].key@;
        if prev.len() < 100 && (spec_starts_with(key, prefix) || prefix.len() == 0) {
            prev.push(spec_completion_entry(cat, src, key))
        } else {
            prev
        }
    }
}

/// The completion candidates for a prefix: all catalog keys that start
/// with it (all keys when it is empty), capped at one hundred, each
/// carrying the source-locale value as detail and documentation.
pub fn get_completions(cat: &CatalogSnapshot, source_locale: &str, prefix: &str) -> (r: Vec<
    CompletionEntry,
>)
    ensures
        r.deep_view() == spec_completions_upto(
            *cat,
            source_locale@,
            prefix@,
            cat.entries@.len() as int,
        ),
{
    let mut r: Vec<CompletionEntry> = Vec::new();
    let mut i: usize = 0;
    while i < cat.entries.len()
        invariant
            0 <= i <= cat.entries@.len(),
            r@.len() <= i,
            r.deep_view() == spec_completions_upto(*cat, source_locale@, prefix@, i as int),
        decreases cat.entries.len() - i,
    {
        let key = &cat.entries[i].key;
        let keep = r.len() < 100 && (starts_with(key.as_str(), prefix) || prefix.unicode_len()
            == 0);
        if keep {
            let detail = cat.get_translation(key.as_str(), source_locale);
            let documentation = match &detail {
                None => None,
                Some(v) => {
                    let mut d = String::from_str("**");
                    d.append(source_locale);
                    d.append("**: ");
                    d.append(v.as_str());
                    Some(d)
                },
            };
            let entry = CompletionEntry {
                label: key.clone(),
                detail,
                documentation,
                insert_text: key.clone(),
            };
            proof {
                assert(entry@ == spec_completion_entry(*cat, source_locale@, cat.entries@[
                    i as int].key@));
            }
            let ghost od = r.deep_view();
            let ghost ev = entry@;
            r.push(entry);
            proof {
                assert(r.deep_view() =~~= od.push(ev));
            }
        }
        i += 1;
    }
    r
}

// ---------------------------------------------------------------------
// Decimal rendering (for hover links).
// ---------------------------------------------------------------------

/// The character for one decimal digit.
pub open spec fn spec_digit_char(d: int) -> char {
    if d == 0 {
        '0'
    } else if d == 1 {
        '1'
    } else if d == 2 {
        '2'
    } else if d == 3 {
        '3'
    } else if d == 4 {
        '4'
    } else if d == 5 {
        '5'
    } else if d == 6 {
        '6'
    } else if d == 7 {
        '7'
    } else if d == 8 {
        '8'
    } else {
        '9'
    }
}

/// The decimal rendering of a non-negative number.
pub open spec fn spec_decimal(n: int) -> Seq<char>
    decreases n,
{
    if n < 10 {
        seq![spec_digit_char(n)]
    } else {
        spec_decimal(n / 10) + seq![spec_digit_char(n % 10)]
    }
}

/// The character for one decimal digit.
fn digit_char(d: u64) -> (r: char)
    requires
        d < 10,
    ensures
        r == spec_digit_char(d as int),
{
    if d == 0 {
        '0'
    } else if d == 1 {
        '1'
    } else if d == 2 {
        '2'
    } else if d == 3 {
        '3'
    } else if d == 4 {
        '4'
    } else if d == 5 {
        '5'
    } else if d == 6 {
        '6'
    } else if d == 7 {
        '7'
    } else if d == 8 {
        '8'
    } else {
        '9'
    }
}

/// The decimal rendering of a number.
pub fn u64_to_string(n: u64) -> (r: String)
    ensures
        r@ == spec_decimal(n as int),
    decreases n,
{
    if n < 10 {
        let mut r = String::new();
        push_char(&mut r, digit_char(n));
        proof {
            assert(r@ =~= seq![spec_digit_char(n as int)]);
        }
        r
    } else {
        let mut r = u64_to_string(n / 10);
        push_char(&mut r, digit_char(n % 10));
        proof {
            assert(r@ =~= spec_decimal(n as int / 10) + seq![spec_digit_char(n as int % 10)]);
        }
        r
    }
}

// ---------------------------------------------------------------------
// Hover.
// ---------------------------------------------------------------------

/// What `Url::from_file_path` renders for a file path: nothing for a
/// relative path; otherwise the `file:` URL string. The rendering is a
/// function of the path alone.
pub uninterp spec fn file_url_of(path: Seq<char>) -> Option<Seq<char>>;

/// Relies on `Url::from_file_path` (the `url` crate, re-exported by
/// `tower_lsp::lsp_types`) and its `Display`: an absolute file path
/// rendered as a `file:` URL string; a relative path yields nothing.
/// The rendering depends on the path alone.
#[verifier::external_body]
fn file_url_string(path: &str) -> (r: Option<String>)
    ensures
        r is Some <==> file_url_of(path@) is Some,
        r matches Some(u) ==> file_url_of(path@) == Some(u@),
{
    match tower_lsp::lsp_types::Url::from_file_path(path) {
        Ok(u) => Some(format!("{}", u)),
        Err(_) => None,
    }
}

/// One locale's line of a hover: its code, its value, and perhaps a
/// jump-to-definition link.
pub struct HoverRow {
    pub locale: String,
    pub value: String,
    pub link: Option<String>,
}

/// The mathematical image of a hover row.
pub struct HoverRowView {
    pub locale: Seq<char>,
    pub value: Seq<char>,
    pub link: Option<Seq<char>>,
}

impl View for HoverRow {
    type V = HoverRowView;

    open spec fn view(&self) -> HoverRowView {
        HoverRowView {
            locale: self.locale@,
            value: self.value@,
            link: match self.link {
                None => None,
                Some(ref l) => Some(l@),
            },
        }
    }
}

impl DeepView for HoverRow {
    type V = HoverRowView;

    open spec fn deep_view(&self) -> HoverRowView {
        self.view()
    }
}

/// One rendered hover line: bold locale, value, and the optional link.
pub open spec fn spec_hover_line(row: HoverRowView) -> Seq<char> {
    "**"@ + row.locale + "**: "@ + row.value + (match row.link {
        None => Seq::<char>::empty(),
        Some(l) => " ([↗]("@ + l + " \"Go to Definition\"))"@,
    }) + "\n\n"@
}

/// The first `i` other-locale lines, concatenated.
pub open spec fn spec_hover_lines(rows: Seq<HoverRowView>, i: int) -> Seq<char>
    decreases i,
{
    if i <= 0 {
        Seq::empty()
    } else {
        spec_hover_lines(rows, i - 1) + spec_hover_line(rows[i - 1])
    }
}

/// The whole hover text: a heading with the key, the source-locale
/// line if present, a separator, then every other locale's line.
pub open spec fn spec_render_hover(
    key: Seq<char>,
    source_row: Option<HoverRowView>,
    others: Seq<HoverRowView>,
) -> Seq<char> {
    "### 🌍 `"@ + key + "`\n\n"@ + (match source_row {
        None => Seq::<char>::empty(),
        Some(r) => spec_hover_line(r),
    }) + "---\n\n"@ + spec_hover_lines(others, others.len() as int)
}

/// Render one hover row as its markdown line.
fn render_hover_row(row: &HoverRow) -> (r: String)
    ensures
        r@ == spec_hover_line(row@),
{
    let mut r = String::from_str("**");
    r.append(row.locale.as_str());
    r.append("**: ");
    r.append(row.value.as_str());
    match &row.link {
        None => {},
        Some(l) => {
            r.append(" ([↗](");
            r.append(l.as_str());
            r.append(" \"Go to Definition\"))");
        },
    }
    r.append("\n\n");
    proof {
        assert(r@ =~= spec_hover_line(row@));
    }
    r
}

/// Render the whole hover text from its rows.
pub fn render_hover_content(key: &str, source_row: &Option<HoverRow>, others: &Vec<HoverRow>) -> (r:
    String)
    ensures
        r@ == spec_render_hover(
            key@,
            match source_row {
                None => None,
                Some(x) => Some(x@),
            },
            others.deep_view(),
        ),
{
    let mut r = String::from_str("### 🌍 `");
    r.append(key);
    r.append("`\n\n");
    match source_row {
        None => {},
        Some(row) => {
            let line = render_hover_row(row);
            r.append(line.as_str());
        },
    }
    r.append("---\n\n");
    let mut i: usize = 0;
    let ghost head = r@;
    while i < others.len()
        invariant
            0 <= i <= others@.len(),
            r@ == head + spec_hover_lines(others.deep_view(), i as int),
        decreases others.len() - i,
    {
        proof {
            assert(others.deep_view()[i as int] == others@[i as int]@);
        }
        let line = render_hover_row(&others[i]);
        r.append(line.as_str());
        i += 1;
    }
    proof {
        assert(r@ =~= spec_render_hover(
            key@,
            match source_row {
                None => None,
                Some(x) => Some(x@),
            },
            others.deep_view(),
        ));
    }
    r
}

/// The known locales other than the source locale, in order, that hold
/// a value for the key, among the first `i` locales.
pub open spec fn spec_other_locales_upto(
    cat: CatalogSnapshot,
    key: Seq<char>,
    src: Seq<char>,
    i: int,
) -> Seq<Seq<char>>
    decreases i,
{
    if i <= 0 {
        Seq::empty()
    } else {
        let prev = spec_other_locales_upto(cat, key, src, i - 1);
        let loc = cat.locales@[i - 1]@;
        if loc != src && cat.spec_translation(key, loc) is Some {
            prev.push(loc)
        } else {
            prev
        }
    }
}

/// The jump-to-definition link rendered for a key in a locale: the
/// locale file's URL, `#L`, and the one-based line number — present
/// exactly when a file location is known and its path renders as a URL.
pub open spec fn spec_link_for(cat: CatalogSnapshot, key: Seq<char>, locale: Seq<char>) -> Option<
    Seq<char>,
> {
    match cat.spec_location(key, locale) {
        None => None,
        Some(p) => match file_url_of(p.0) {
            None => None,
            Some(u) => Some(u + "#L"@ + spec_decimal(p.1 as int + 1)),
        },
    }
}

/// The hover row rendered for a locale that holds a value for the key.
pub open spec fn spec_row_for(
    cat: CatalogSnapshot,
    key: Seq<char>,
    locale: Seq<char>,
) -> HoverRowView {
    HoverRowView {
        locale: locale,
        value: cat.spec_translation(key, locale)->Some_0,
        link: spec_link_for(cat, key, locale),
    }
}

/// Build one hover row for a locale that holds a value for the key.
fn hover_row_for(cat: &CatalogSnapshot, key: &str, locale: &str, value: String) -> (r: HoverRow)
    requires
        cat.spec_translation(key@, locale@) == Some(value@),
    ensures
        r@ == spec_row_for(*cat, key@, locale@),
{
    let link = match cat.get_translation_location(key, locale) {
        None => None,
        Some(loc) => {
            match file_url_string(loc.0.as_str()) {
                None => None,
                Some(u) => {
                    let ghost uv = u@;
                    let mut l = u;
                    l.append("#L");
                    let digits = u64_to_string((loc.1 as u64) + 1);
                    l.append(digits.as_str());
                    proof {
                        assert(l@ =~= uv + "#L"@ + spec_decimal(loc.1 as int + 1));
                    }
                    Some(l)
                },
            }
        },
    };
    let r = HoverRow { locale: String::from_str(locale), value, link };
    proof {
        assert(r@ == spec_row_for(*cat, key@, locale@));
    }
    r
}

/// The hover rows for a key: the source locale's row if it holds a
/// value, and one row per other locale holding a value, in
/// lexicographic order; each row carries its rendered link exactly
/// where a file location is known and renders as a URL.
pub fn hover_rows(cat: &CatalogSnapshot, key: &str, source_locale: &str) -> (r: (
    Option<HoverRow>,
    Vec<HoverRow>,
))
    ensures
        r.0 is Some <==> cat.spec_translation(key@, source_locale@) is Some,
        r.0 matches Some(row) ==> row@ == spec_row_for(*cat, key@, source_locale@),
        ({
            let others = spec_other_locales_upto(
                *cat,
                key@,
                source_locale@,
                cat.locales@.len() as int,
            );
            r.1.deep_view() == Seq::new(
                others.len(),
                |i: int| spec_row_for(*cat, key@, others[i]),
            )
        }),
{
    let source_row = match cat.get_translation(key, source_locale) {
        None => None,
        Some(v) => Some(hover_row_for(cat, key, source_locale, v)),
    };
    let mut others: Vec<HoverRow> = Vec::new();
    let ghost mut rows: Seq<HoverRowView> = Seq::empty();
    let mut i: usize = 0;
    proof {
        assert(others.deep_view() =~~= rows);
    }
    while i < cat.locales.len()
        invariant
            0 <= i <= cat.locales@.len(),
            others.deep_view() == rows,
            rows == Seq::new(
                spec_other_locales_upto(*cat, key@, source_locale@, i as int).len(),
                |k: int|
                    spec_row_for(
                        *cat,
                        key@,
                        spec_other_locales_upto(*cat, key@, source_locale@, i as int)[k],
                    ),
            ),
        decreases cat.locales.len() - i,
    {
        let ghost prev = spec_other_locales_upto(*cat, key@, source_locale@, i as int);
        let ghost cur = spec_other_locales_upto(*cat, key@, source_locale@, i + 1);
        let loc = &cat.locales[i];
        if !str_eq(loc.as_str(), source_locale) {
            match cat.get_translation(key, loc.as_str()) {
                Some(v) => {
                    let row = hover_row_for(cat, key, loc.as_str(), v);
                    let ghost rv = row@;
                    let ghost odv = others.deep_view();
                    others.push(row);
                    proof {
                        assert(cur == prev.push(cat.locales@[i as int]@));
                        assert(forall|k: int| 0 <= k < prev.len() ==> cur[k] == prev[k]);
                        assert(cur[prev.len() as int] == cat.locales@[i as int]@);
                        assert(others.deep_view() =~~= rows.push(rv));
                        rows = rows.push(rv);
                        assert(rows =~~= Seq::new(
                            cur.len(),
                            |k: int| spec_row_for(*cat, key@, cur[k]),
                        ));
                    }
                },
                None => {
                    proof {
                        assert(cur == prev);
                    }
                },
            }
        } else {
            proof {
                assert(cur == prev);
            }
        }
        i += 1;
    }
    (source_row, others)
}

/// The whole hover markdown owed to a key: the heading with the key,
/// the source locale's row if it holds a value, the separator, then one
/// row per other locale holding a value, in lexicographic order.
pub open spec fn spec_hover_markdown(
    cat: CatalogSnapshot,
    key: Seq<char>,
    src: Seq<char>,
) -> Seq<char> {
    let others = spec_other_locales_upto(cat, key, src, cat.locales@.len() as int);
    spec_render_hover(
        key,
        if cat.spec_translation(key, src) is Some {
            Some(spec_row_for(cat, key, src))
        } else {
            None
        },
        Seq::new(others.len(), |i: int| spec_row_for(cat, key, others[i])),
    )
}

/// The whole hover text for a key: nothing when no locale holds a
/// value; otherwise exactly the rendered heading, source line,
/// separator and other-locale lines.
pub fn get_hover_content(cat: &CatalogSnapshot, key: &str, source_locale: &str) -> (r: Option<
    String,
>)
    ensures
        r is Some <==> (cat.spec_translation(key@, source_locale@) is Some
            || spec_other_locales_upto(
            *cat,
            key@,
            source_locale@,
            cat.locales@.len() as int,
        ).len() > 0),
        r matches Some(md) ==> md@ == spec_hover_markdown(*cat, key@, source_locale@),
{
    let (source_row, others) = hover_rows(cat, key, source_locale);
    proof {
        assert(others.deep_view().len() == others@.len());
        assert(others@.len() == spec_other_locales_upto(
            *cat,
            key@,
            source_locale@,
            cat.locales@.len() as int,
        ).len());
    }
    let none_at_all = match &source_row {
        None => others.len() == 0,
        Some(_) => false,
    };
    if none_at_all {
        return None;
    }
    let md = render_hover_content(key, &source_row, &others);
    proof {
        assert((match source_row {
            None => None,
            Some(ref x) => Some(x@),
        }) == (if cat.spec_translation(key@, source_locale@) is Some {
            Some(spec_row_for(*cat, key@, source_locale@))
        } else {
            None::<HoverRowView>
        }));
        assert(md@ == spec_hover_markdown(*cat, key@, source_locale@));
    }
    Some(md)
}

// ---------------------------------------------------------------------
// Go-to-definition.
// ---------------------------------------------------------------------

/// One place a key is defined: a locale file and a line in it.
pub struct DefinitionSite {
    pub file_path: String,
    pub line: u32,
}

/// The mathematical image of a definition site.
pub struct DefinitionSiteView {
    pub file_path: Seq<char>,
    pub line: u32,
}

impl View for DefinitionSite {
    type V = DefinitionSiteView;

    open spec fn view(&self) -> DefinitionSiteView {
        DefinitionSiteView { file_path: self.file_path@, line: self.line }
    }
}

impl DeepView for DefinitionSite {
    type V = DefinitionSiteView;

    open spec fn deep_view(&self) -> DefinitionSiteView {
        self.view()
    }
}

/// The locales consulted for definitions: the source locale first when
/// it holds a value, then every other locale holding one, in
/// lexicographic order.
pub open spec fn spec_definition_locales(
    cat: CatalogSnapshot,
    key: Seq<char>,
    src: Seq<char>,
) -> Seq<Seq<char>> {
    (if cat.spec_translation(key, src) is Some {
        seq![src]
    } else {
        Seq::<Seq<char>>::empty()
    }) + spec_other_locales_upto(cat, key, src, cat.locales@.len() as int)
}

/// The sites gathered from the first `i` consulted locales: one per
/// locale that records a file location for the key.
pub open spec fn spec_definition_sites_upto(
    cat: CatalogSnapshot,
    key: Seq<char>,
    locales: Seq<Seq<char>>,
    i: int,
) -> Seq<DefinitionSiteView>
    decreases i,
{
    if i <= 0 {
        Seq::empty()
    } else {
        let prev = spec_definition_sites_upto(cat, key, locales, i - 1);
        match cat.spec_location(key, locales[i - 1]) {
            None => prev,
            Some(p) => prev.push(DefinitionSiteView { file_path: p.0, line: p.1 }),
        }
    }
}

/// Where a key is defined: one site per locale that records a file
/// location for it, source locale first, other locales in lexicographic
/// order.
pub fn definition_sites(cat: &CatalogSnapshot, key: &str, source_locale: &str) -> (r: Vec<
    DefinitionSite,
>)
    ensures
        ({
            let locales = spec_definition_locales(*cat, key@, source_locale@);
            r.deep_view() == spec_definition_sites_upto(
                *cat,
                key@,
                locales,
                locales.len() as int,
            )
        }),
{
    let ghost locales = spec_definition_locales(*cat, key@, source_locale@);
    let mut r: Vec<DefinitionSite> = Vec::new();
    let mut consulted: usize = 0;
    match cat.get_translation(key, source_locale) {
        Some(_) => {
            proof {
                assert(locales[0] == source_locale@);
            }
            match cat.get_translation_location(key, source_locale) {
                Some(p) => {
                    let site = DefinitionSite { file_path: p.0, line: p.1 };
                    let ghost sv = site@;
                    r.push(site);
                    proof {
                        assert(r.deep_view() =~~= Seq::<DefinitionSiteView>::empty().push(sv));
                    }
                },
                None => {},
            }
            consulted = 1;
            proof {
                assert(spec_definition_sites_upto(*cat, key@, locales, 0)
                    =~~= Seq::<DefinitionSiteView>::empty());
                assert(r.deep_view() =~~= spec_definition_sites_upto(*cat, key@, locales, 1));
            }
        },
        None => {
            proof {
                assert(r.deep_view() =~~= spec_definition_sites_upto(*cat, key@, locales, 0));
            }
        },
    }
    let ghost base = consulted as int;
    let mut i: usize = 0;
    while i < cat.locales.len()
        invariant
            0 <= i <= cat.locales@.len(),
            base == if cat.spec_translation(key@, source_locale@) is Some {
                1int
            } else {
                0int
            },
            locales == spec_definition_locales(*cat, key@, source_locale@),
            locales =~~= (if cat.spec_translation(key@, source_locale@) is Some {
                seq![source_locale@]
            } else {
                Seq::<Seq<char>>::empty()
            }) + spec_other_locales_upto(*cat, key@, source_locale@, cat.locales@.len() as int),
            spec_other_locales_upto(*cat, key@, source_locale@, i as int).len() + base
                <= locales.len(),
            r.deep_view() == spec_definition_sites_upto(
                *cat,
                key@,
                locales,
                spec_other_locales_upto(*cat, key@, source_locale@, i as int).len() + base,
            ),
        decreases cat.locales.len() - i,
    {
        let ghost prev = spec_other_locales_upto(*cat, key@, source_locale@, i as int);
        let ghost cur = spec_other_locales_upto(*cat, key@, source_locale@, i + 1);
        let loc = &cat.locales[i];
        if !str_eq(loc.as_str(), source_locale) {
            match cat.get_translation(key, loc.as_str()) {
                Some(_) => {
                    proof {
                        assert(cur == prev.push(cat.locales@[i as int]@));
                        lemma_other_locales_prefix(
                            *cat,
                            key@,
                            source_locale@,
                            i + 1,
                            cat.locales@.len() as int,
                        );
                        assert(locales[prev.len() + base] == cat.locales@[i as int]@);
                    }
                    match cat.get_translation_location(key, loc.as_str()) {
                        Some(p) => {
                            let site = DefinitionSite { file_path: p.0, line: p.1 };
                            let ghost sv = site@;
                            let ghost od = r.deep_view();
                            r.push(site);
                            proof {
                                assert(r.deep_view() =~~= od.push(sv));
                            }
                        },
                        None => {},
                    }
                },
                None => {
                    proof {
                        assert(cur == prev);
                    }
                },
            }
        } else {
            proof {
                assert(cur == prev);
            }
        }
        i += 1;
    }
    proof {
        assert(spec_other_locales_upto(*cat, key@, source_locale@, cat.locales@.len() as int).len()
            + base == locales.len());
    }
    r
}

/// Other-locale lists over growing bounds agree on their common prefix.
proof fn lemma_other_locales_prefix(
    cat: CatalogSnapshot,
    key: Seq<char>,
    src: Seq<char>,
    i: int,
    n: int,
)
    requires
        0 <= i <= n,
    ensures
        spec_other_locales_upto(cat, key, src, i).len() <= spec_other_locales_upto(
            cat,
            key,
            src,
            n,
        ).len(),
        forall|k: int|
            0 <= k < spec_other_locales_upto(cat, key, src, i).len()
                ==> #[trigger] spec_other_locales_upto(cat, key, src, n)[k]
                == spec_other_locales_upto(cat, key, src, i)[k],
    decreases n - i,
{
    if i < n {
        lemma_other_locales_prefix(cat, key, src, i + 1, n);
    }
}

// ---------------------------------------------------------------------
// Inlay hints.
// ---------------------------------------------------------------------

/// A line/character span of a request.
#[derive(PartialEq, Eq, Structural, Clone, Copy, Debug)]
pub struct TextRange {
    pub start_line: u32,
    pub start_char: u32,
    pub end_line: u32,
    pub end_char: u32,
}

/// Position order: line first, then character.
pub open spec fn pos_leq(l1: u32, c1: u32, l2: u32, c2: u32) -> bool {
    l1 < l2 || (l1 == l2 && c1 <= c2)
}

/// A zero-width request range means the whole document.
pub open spec fn spec_range_empty(r: TextRange) -> bool {
    r.start_line == r.end_line && r.start_char == r.end_char
}

/// A usage overlaps the request span.
pub open spec fn spec_overlaps(u: UsageView, r: TextRange) -> bool {
    pos_leq(r.start_line, r.start_char, u.line, u.end_char) && pos_leq(
        u.line,
        u.start_char,
        r.end_line,
        r.end_char,
    )
}

/// One inlay hint: a position and its label.
pub struct InlayHintEntry {
    pub line: u32,
    pub character: u32,
    pub label: String,
}

/// The mathematical image of an inlay hint.
pub struct InlayHintEntryView {
    pub line: u32,
    pub character: u32,
    pub label: Seq<char>,
}

impl View for InlayHintEntry {
    type V = InlayHintEntryView;

    open spec fn view(&self) -> InlayHintEntryView {
        InlayHintEntryView { line: self.line, character: self.character, label: self.label@ }
    }
}

impl DeepView for InlayHintEntry {
    type V = InlayHintEntryView;

    open spec fn deep_view(&self) -> InlayHintEntryView {
        self.view()
    }
}

/// The hint owed to one usage, if its key has a source-locale value:
/// placed just past the usage, skipping one position when the next
/// character is a quote so the hint renders outside the literal; the
/// label is the value cut to thirty characters after `= `.
pub open spec fn spec_hint_for(
    cat: CatalogSnapshot,
    src: Seq<char>,
    lines: Seq<Seq<char>>,
    u: UsageView,
) -> Option<InlayHintEntryView> {
    match cat.spec_translation(u.key, src) {
        None => None,
        Some(v) => {
            let bump = (u.line as int) < lines.len() && (u.end_char as int) < lines[
                u.line as int].len() && (lines[u.line as int][u.end_char as int] == '\''
                || lines[u.line as int][u.end_char as int] == '"') && u.end_char < u32::MAX;
            Some(
                InlayHintEntryView {
                    line: u.line,
                    character: if bump {
                        (u.end_char + 1) as u32
                    } else {
                        u.end_char
                    },
                    label: "= "@ + spec_truncate(v, 30),
                },
            )
        },
    }
}

/// The hints owed to the first `i` usages that fall inside the request
/// range (all of them when the range is zero-width).
pub open spec fn spec_hints_upto(
    cat: CatalogSnapshot,
    src: Seq<char>,
    lines: Seq<Seq<char>>,
    range: TextRange,
    us: Seq<UsageView>,
    i: int,
) -> Seq<InlayHintEntryView>
    decreases i,
{
    if i <= 0 {
        Seq::empty()
    } else {
        let prev = spec_hints_upto(cat, src, lines, range, us, i - 1);
        if spec_range_empty(range) || spec_overlaps(us[i - 1], range) {
            match spec_hint_for(cat, src, lines, us[i - 1]) {
                None => prev,
                Some(h) => prev.push(h),
            }
        } else {
            prev
        }
    }
}

/// The inlay hints for one document: for each found usage inside the
/// request range (or all of them for a zero-width range) whose key has
/// a source-locale value, a hint just past the usage labeled with the
/// value cut to thirty characters.
pub fn compute_inlay_hints(
    content: &str,
    usages: &Vec<FoundKeyUsage>,
    cat: &CatalogSnapshot,
    source_locale: &str,
    range: &TextRange,
) -> (r: Vec<InlayHintEntry>)
    ensures
        r.deep_view() == spec_hints_upto(
            *cat,
            source_locale@,
            spec_lines(content@),
            *range,
            usages.deep_view(),
            usages@.len() as int,
        ),
{
    let lines = split_lines(content);
    let ghost lv = lines.deep_view();
    let range_empty = range.start_line == range.end_line && range.start_char == range.end_char;
    let mut r: Vec<InlayHintEntry> = Vec::new();
    let mut i: usize = 0;
    while i < usages.len()
        invariant
            lv == lines.deep_view(),
            lv == spec_lines(content@),
            lines.len() == lv.len(),
            range_empty == spec_range_empty(*range),
            0 <= i <= usages@.len(),
            r.deep_view() == spec_hints_upto(
                *cat,
                source_locale@,
                lv,
                *range,
                usages.deep_view(),
                i as int,
            ),
        decreases usages.len() - i,
    {
        proof {
            assert(usages.deep_view()[i as int] == usages@[i as int]@);
        }
        let u = &usages[i];
        let overlaps = (range.start_line < u.line || (range.start_line == u.line
            && range.start_char <= u.end_char)) && (u.line < range.end_line || (u.line
            == range.end_line && u.start_char <= range.end_char));
        if range_empty || overlaps {
            match cat.get_translation(u.key.as_str(), source_locale) {
                Some(v) => {
                    let truncated = truncate_string(v.as_str(), 30);
                    let mut label = String::from_str("= ");
                    label.append(truncated.as_str());
                    let mut hint_char = u.end_char;
                    let uline = u.line as usize;
                    if uline < lines.len() {
                        proof {
                            assert(lines.deep_view()[uline as int] == lines@[uline as int]@);
                        }
                        let line_str = lines[uline].as_str();
                        let llen = line_str.unicode_len();
                        if (u.end_char as usize) < llen && u.end_char < u32::MAX {
                            let c = line_str.get_char(u.end_char as usize);
                            if c == '\'' || c == '"' {
                                hint_char = u.end_char + 1;
                            }
                        }
                    }
                    let hint = InlayHintEntry { line: u.line, character: hint_char, label };
                    let ghost hv = hint@;
                    let ghost od = r.deep_view();
                    r.push(hint);
                    proof {
                        assert(r.deep_view() =~~= od.push(hv));
                    }
                },
                None => {},
            }
        }
        i += 1;
    }
    r
}

// ---------------------------------------------------------------------
// Code actions and the key-creation command.
// ---------------------------------------------------------------------

/// The key recovered from a missing-translation message of the fixed
/// shape `Translation key '<key>' not found`, if the message has that
/// shape.
pub open spec fn spec_extract_missing_key(m: Seq<char>) -> Option<Seq<char>> {
    let p = "Translation key '"@;
    let s = "' not found"@;
    if m.len() >= p.len() + s.len() && m.subrange(0, p.len() as int) == p && m.subrange(
        m.len() - s.len(),
        m.len() as int,
    ) == s {
        Some(m.subrange(p.len() as int, m.len() - s.len()))
    } else {
        None
    }
}

/// Recover the key named by a missing-translation diagnostic message.
pub fn extract_missing_key(message: &str) -> (r: Option<String>)
    ensures
        r is Some <==> spec_extract_missing_key(message@) is Some,
        r matches Some(k) ==> spec_extract_missing_key(message@) == Some(k@),
{
    let p = "Translation key '";
    let s = "' not found";
    let n = message.unicode_len();
    let pn = p.unicode_len();
    let sn = s.unicode_len();
    if n < pn {
        return None;
    }
    if n - pn < sn {
        return None;
    }
    if !starts_with(message, p) {
        return None;
    }
    if !crate::text::ends_with(message, s) {
        return None;
    }
    Some(substring(message, pn, n - sn))
}

/// The quick-fix title offered for creating a key.
pub open spec fn spec_create_key_title(key: Seq<char>) -> Seq<char> {
    "Create raw translation key '"@ + key + "'"@
}

/// The quick-fix title offered for creating a key.
pub fn create_key_title(key: &str) -> (r: String)
    ensures
        r@ == spec_create_key_title(key@),
{
    let mut r = String::from_str("Create raw translation key '");
    r.append(key);
    r.append("'");
    proof {
        assert(r@ =~= spec_create_key_title(key@));
    }
    r
}

/// The file paths with their first occurrences kept and later
/// repetitions dropped, among the first `i` paths.
pub open spec fn spec_dedup_upto(xs: Seq<Seq<char>>, i: int) -> Seq<Seq<char>>
    decreases i,
{
    if i <= 0 {
        Seq::empty()
    } else {
        let prev = spec_dedup_upto(xs, i - 1);
        if prev.contains(xs[i - 1]) {
            prev
        } else {
            prev.push(xs[i - 1])
        }
    }
}

/// Drop repeated paths, keeping first occurrences in order.
pub fn dedup_paths(paths: &Vec<String>) -> (r: Vec<String>)
    ensures
        r.deep_view() == spec_dedup_upto(paths.deep_view(), paths@.len() as int),
{
    let mut r: Vec<String> = Vec::new();
    let mut i: usize = 0;
    while i < paths.len()
        invariant
            0 <= i <= paths@.len(),
            r.deep_view() == spec_dedup_upto(paths.deep_view(), i as int),
        decreases paths.len() - i,
    {
        proof {
            assert(paths.deep_view()[i as int] == paths@[i as int]@);
        }
        if !vec_contains_str(&r, paths[i].as_str()) {
            let ghost od = r.deep_view();
            r.push(paths[i].clone());
            proof {
                assert(r.deep_view() =~~= od.push(paths@[i as int]@));
            }
        }
        i += 1;
    }
    r
}

} // verus!
