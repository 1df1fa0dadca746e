//! The diagnostics engine: maps found key usages in one document to
//! diagnostics using the current catalog. A usage of an unknown key is
//! a warning; a key whose source-locale value is a raw placeholder is a
//! warning (and supersedes the completeness check); a key lacking one
//! or more non-source locales is a hint listing those locale codes.

use vstd::prelude::*;

use crate::catalog::CatalogSnapshot;
use crate::text::{spec_join_sep, join_with_sep};

verus! {

/// A located textual occurrence of a catalog key inside one document.
pub struct FoundKeyUsage {
    pub key: String,
    pub line: u32,
    pub start_char: u32,
    pub end_char: u32,
}

/// The mathematical image of a found usage.
pub struct UsageView {
    pub key: Seq<char>,
    pub line: u32,
    pub start_char: u32,
    pub end_char: u32,
}

impl View for FoundKeyUsage {
    type V = UsageView;

    open spec fn view(&self) -> UsageView {
        UsageView {
            key: self.key@,
            line: self.line,
            start_char: self.start_char,
            end_char: self.end_char,
        }
    }
}

impl DeepView for FoundKeyUsage {
    type V = UsageView;

    open spec fn deep_view(&self) -> UsageView {
        self.view()
    }
}

/// How strongly a diagnostic is reported.
#[derive(PartialEq, Eq, Structural, Clone, Copy, Debug)]
pub enum Severity {
    Warning,
    Hint,
}

/// Which rule produced a diagnostic.
#[derive(PartialEq, Eq, Structural, Clone, Copy, Debug)]
pub enum DiagnosticCode {
    MissingTranslation,
    RawTranslation,
    IncompleteTranslation,
}

impl DiagnosticCode {
    /// The protocol string for this code.
    pub open spec fn spec_code_string(self) -> Seq<char> {
        match self {
            DiagnosticCode::MissingTranslation => "missing-translation"@,
            DiagnosticCode::RawTranslation => "raw-translation"@,
            DiagnosticCode::IncompleteTranslation => "incomplete-translation"@,
        }
    }

    /// The protocol string for this code.
    pub fn code_string(&self) -> (r: String)
        ensures
            r@ == self.spec_code_string(),
    {
        match self {
            DiagnosticCode::MissingTranslation => String::from_str("missing-translation"),
            DiagnosticCode::RawTranslation => String::from_str("raw-translation"),
            DiagnosticCode::IncompleteTranslation => String::from_str("incomplete-translation"),
        }
    }
}

/// One diagnostic over a usage's span.
pub struct Diagnostic {
    pub line: u32,
    pub start_char: u32,
    pub end_char: u32,
    pub severity: Severity,
    pub code: DiagnosticCode,
    pub message: String,
}

/// The mathematical image of a diagnostic.
pub struct DiagnosticView {
    pub line: u32,
    pub start_char: u32,
    pub end_char: u32,
    pub severity: Severity,
    pub code: DiagnosticCode,
    pub message: Seq<char>,
}

impl View for Diagnostic {
    type V = DiagnosticView;

    open spec fn view(&self) -> DiagnosticView {
        DiagnosticView {
            line: self.line,
            start_char: self.start_char,
            end_char: self.end_char,
            severity: self.severity,
            code: self.code,
            message: self.message@,
        }
    }
}

impl DeepView for Diagnostic {
    type V = DiagnosticView;

    open spec fn deep_view(&self) -> DiagnosticView {
        self.view()
    }
}

/// Message for a key absent from the catalog. Code actions parse this
/// exact shape back, so it is fixed.
pub open spec fn spec_missing_message(key: Seq<char>) -> Seq<char> {
    "Translation key '"@ + key + "' not found"@
}

/// Message for a key whose source-locale value is a raw placeholder.
pub open spec fn spec_raw_message(key: Seq<char>) -> Seq<char> {
    "Translation '"@ + key + "' has a raw placeholder value — use Go to Definition to edit"@
}

/// Message for a key lacking one or more locales.
pub open spec fn spec_incomplete_message(key: Seq<char>, missing: Seq<Seq<char>>) -> Seq<char> {
    "Translation '"@ + key + "' missing in: "@ + spec_join_sep(missing, ", "@)
}

/// A raw placeholder value: wrapped in underscores and longer than the
/// two underscores alone.
pub open spec fn spec_is_raw_placeholder(v: Seq<char>) -> bool {
    v.len() > 2 && v[0] == '_' && v.last() == '_'
}

/// The known locales other than the source locale, in order, that lack
/// a value for the key, among the first `i` locales. Completeness is
/// judged against the non-source locales only: the source locale's own
/// value is the raw-placeholder rule's concern.
pub open spec fn spec_missing_others(
    cat: CatalogSnapshot,
    key: Seq<char>,
    src: Seq<char>,
    i: int,
) -> Seq<Seq<char>>
    decreases i,
{
    if i <= 0 {
        Seq::empty()
    } else {
        let prev = spec_missing_others(cat, key, src, i - 1);
        let loc = cat.locales@[i - 1]@;
        if loc != src && cat.spec_translation(key, loc) is None {
            prev.push(loc)
        } else {
            prev
        }
    }
}

/// The non-source locales lacking a value for the key, in lexicographic
/// order (the catalog keeps its locales sorted).
pub fn missing_other_locales(cat: &CatalogSnapshot, key: &str, source_locale: &str) -> (r: Vec<
    String,
>)
    ensures
        r.deep_view() == spec_missing_others(
            *cat,
            key@,
            source_locale@,
            cat.locales@.len() as int,
        ),
{
    let mut r: Vec<String> = Vec::new();
    let mut i: usize = 0;
    while i < cat.locales.len()
        invariant
            0 <= i <= cat.locales@.len(),
            r.deep_view() == spec_missing_others(*cat, key@, source_locale@, i as int),
        decreases cat.locales.len() - i,
    {
        let loc = &cat.locales[i];
        if !crate::text::str_eq(loc.as_str(), source_locale) {
            match cat.get_translation(key, loc.as_str()) {
                None => {
                    let ghost od = r.deep_view();
                    r.push(loc.clone());
                    proof {
                        assert(r.deep_view() =~~= od.push(cat.locales@[i as int]@));
                    }
                },
                Some(_) => {},
            }
        }
        i += 1;
    }
    r
}

/// The diagnostic owed to one usage, if any: missing key, then raw
/// placeholder (which supersedes completeness), then incomplete over
/// the non-source locales.
pub open spec fn spec_diag_for(cat: CatalogSnapshot, src: Seq<char>, u: UsageView) -> Option<
    DiagnosticView,
> {
    if !cat.spec_key_exists(u.key) {
        Some(
            DiagnosticView {
                line: u.line,
                start_char: u.start_char,
                end_char: u.end_char,
                severity: Severity::Warning,
                code: DiagnosticCode::MissingTranslation,
                message: spec_missing_message(u.key),
            },
        )
    } else if cat.spec_translation(u.key, src) matches Some(v) && spec_is_raw_placeholder(v) {
        Some(
            DiagnosticView {
                line: u.line,
                start_char: u.start_char,
                end_char: u.end_char,
                severity: Severity::Warning,
                code: DiagnosticCode::RawTranslation,
                message: spec_raw_message(u.key),
            },
        )
    } else {
        let missing = spec_missing_others(cat, u.key, src, cat.locales@.len() as int);
        if missing.len() > 0 {
            Some(
                DiagnosticView {
                    line: u.line,
                    start_char: u.start_char,
                    end_char: u.end_char,
                    severity: Severity::Hint,
                    code: DiagnosticCode::IncompleteTranslation,
                    message: spec_incomplete_message(u.key, missing),
                },
            )
        } else {
            None
        }
    }
}

/// The diagnostics owed to the first `i` usages, in order.
pub open spec fn spec_diagnostics(
    cat: CatalogSnapshot,
    src: Seq<char>,
    us: Seq<UsageView>,
    i: int,
) -> Seq<DiagnosticView>
    decreases i,
{
    if i <= 0 {
        Seq::empty()
    } else {
        let prev = spec_diagnostics(cat, src, us, i - 1);
        match spec_diag_for(cat, src, us[i - 1]) {
            None => prev,
            Some(d) => prev.push(d),
        }
    }
}

/// The diagnostic owed to one found usage, if any.
pub fn diagnose_usage(cat: &CatalogSnapshot, source_locale: &str, u: &FoundKeyUsage) -> (r: Option<
    Diagnostic,
>)
    ensures
        r is Some <==> spec_diag_for(*cat, source_locale@, u@) is Some,
        r matches Some(d) ==> spec_diag_for(*cat, source_locale@, u@) == Some(d@),
{
    if !cat.key_exists(u.key.as_str()) {
        let mut msg = String::from_str("Translation key '");
        msg.append(u.key.as_str());
        msg.append("' not found");
        return Some(
            Diagnostic {
                line: u.line,
                start_char: u.start_char,
                end_char: u.end_char,
                severity: Severity::Warning,
                code: DiagnosticCode::MissingTranslation,
                message: msg,
            },
        );
    }
    let raw = match cat.get_translation(u.key.as_str(), source_locale) {
        Some(v) => {
            let n = v.as_str().unicode_len();
            n > 2 && v.as_str().get_char(0) == '_' && v.as_str().get_char(n - 1) == '_'
        },
        None => false,
    };
    if raw {
        let mut msg = String::from_str("Translation '");
        msg.append(u.key.as_str());
        msg.append("' has a raw placeholder value — use Go to Definition to edit");
        return Some(
            Diagnostic {
                line: u.line,
                start_char: u.start_char,
                end_char: u.end_char,
                severity: Severity::Warning,
                code: DiagnosticCode::RawTranslation,
                message: msg,
            },
        );
    }
    let missing = missing_other_locales(cat, u.key.as_str(), source_locale);
    if missing.len() > 0 {
        let joined = join_with_sep(&missing, ", ");
        let mut msg = String::from_str("Translation '");
        msg.append(u.key.as_str());
        msg.append("' missing in: ");
        msg.append(joined.as_str());
        return Some(
            Diagnostic {
                line: u.line,
                start_char: u.start_char,
                end_char: u.end_char,
                severity: Severity::Hint,
                code: DiagnosticCode::IncompleteTranslation,
                message: msg,
            },
        );
    }
    None
}

/// All diagnostics for one document's found usages against the current
/// catalog; with no catalog loaded yet, no diagnostics.
pub fn compute_diagnostics(
    usages: &Vec<FoundKeyUsage>,
    catalog: Option<&CatalogSnapshot>,
    source_locale: &str,
) -> (r: Vec<Diagnostic>)
    ensures
        catalog is None ==> r@.len() == 0,
        catalog matches Some(c) ==> r.deep_view() == spec_diagnostics(
            *c,
            source_locale@,
            usages.deep_view(),
            usages@.len() as int,
        ),
{
    let cat = match catalog {
        None => {
            let r: Vec<Diagnostic> = Vec::new();
            return r;
        },
        Some(c) => c,
    };
    let mut r: Vec<Diagnostic> = Vec::new();
    let mut i: usize = 0;
    while i < usages.len()
        invariant
            0 <= i <= usages@.len(),
            r.deep_view() == spec_diagnostics(
                *cat,
                source_locale@,
                usages.deep_view(),
                i as int,
            ),
        decreases usages.len() - i,
    {
        proof {
            assert(usages.deep_view()[i as int] == usages@[i as int]@);
        }
        match diagnose_usage(cat, source_locale, &usages[i]) {
            Some(d) => {
                let ghost od = r.deep_view();
                let ghost dv = d@;
                r.push(d);
                proof {
                    assert(r.deep_view() =~~= od.push(dv));
                }
            },
            None => {},
        }
        i += 1;
    }
    r
}

} // verus!
