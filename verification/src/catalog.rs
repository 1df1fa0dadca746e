//! The catalog snapshot: an immutable-after-construction view mapping
//! each dotted key to its per-locale translations and file locations.
//! The snapshot is built once per scan and swapped wholesale into the
//! workspace state, so readers never observe a partial update.

use vstd::prelude::*;

use crate::text::str_eq;

verus! {

/// Where one translation value was read from.
pub struct FileLocation {
    pub file_path: String,
    pub line: u32,
}

/// One locale's translation of one key.
pub struct TranslationRecord {
    pub locale: String,
    pub value: String,
    pub location: Option<FileLocation>,
}

/// All translations of one key.
pub struct KeyEntry {
    pub key: String,
    pub records: Vec<TranslationRecord>,
}

/// Strict lexicographic order on character sequences, by code point; it
/// coincides with the byte order of their UTF-8 encodings.
pub open spec fn lex_lt(a: Seq<char>, b: Seq<char>) -> bool
    decreases a.len(),
{
    if b.len() == 0 {
        false
    } else if a.len() == 0 {
        true
    } else if a[0] != b[0] {
        (a[0] as u32) < (b[0] as u32)
    } else {
        lex_lt(a.drop_first(), b.drop_first())
    }
}

/// Nothing is lexicographically below itself.
pub proof fn lemma_lex_irrefl(a: Seq<char>)
    ensures
        !lex_lt(a, a),
    decreases a.len(),
{
    if a.len() > 0 {
        lemma_lex_irrefl(a.drop_first());
    }
}

/// Two sequences are equal or one is lexicographically below the other.
pub proof fn lemma_lex_total(a: Seq<char>, b: Seq<char>)
    ensures
        a == b || lex_lt(a, b) || lex_lt(b, a),
    decreases a.len(),
{
    if b.len() == 0 {
        if a.len() == 0 {
            assert(a =~= b);
        }
    } else if a.len() == 0 {
    } else if a[0] != b[0] {
        assert((a[0] as u32) != (b[0] as u32)) by {
            vstd::utf8::char_u32_cast(a[0], a[0] as u32);
            vstd::utf8::char_u32_cast(b[0], b[0] as u32);
        }
    } else {
        lemma_lex_total(a.drop_first(), b.drop_first());
        if a.drop_first() == b.drop_first() {
            assert(a.len() == b.len()) by {
                assert(a.drop_first().len() == b.drop_first().len());
            }
            assert(forall|i: int|
                1 <= i < a.len() ==> a[i] == a.drop_first()[i - 1] && b[i]
                    == b.drop_first()[i - 1]);
            assert(a =~= b);
        }
    }
}

/// Lexicographic order is transitive.
pub proof fn lemma_lex_trans(a: Seq<char>, b: Seq<char>, c: Seq<char>)
    requires
        lex_lt(a, b),
        lex_lt(b, c),
    ensures
        lex_lt(a, c),
    decreases a.len(),
{
    if a.len() == 0 {
    } else {
        assert(b.len() > 0);
        assert(c.len() > 0);
        if a[0] != b[0] {
            if b[0] != c[0] {
                assert((a[0] as u32) < (c[0] as u32));
            } else {
                assert(a[0] != c[0]);
            }
        } else {
            if b[0] != c[0] {
                assert(a[0] != c[0]);
                assert((a[0] as u32) < (c[0] as u32));
            } else {
                lemma_lex_trans(a.drop_first(), b.drop_first(), c.drop_first());
            }
        }
    }
}

/// Executable strict lexicographic comparison of two strings.
pub fn str_lex_lt(a: &str, b: &str) -> (r: bool)
    ensures
        r == lex_lt(a@, b@),
    decreases a@.len(),
{
    let an = a.unicode_len();
    let bn = b.unicode_len();
    let mut i: usize = 0;
    proof {
        assert(a@.skip(0) =~= a@);
        assert(b@.skip(0) =~= b@);
    }
    loop
        invariant
            an == a@.len(),
            bn == b@.len(),
            0 <= i <= an,
            i <= bn,
            lex_lt(a@, b@) == lex_lt(a@.skip(i as int), b@.skip(i as int)),
        decreases an - i,
    {
        proof {
            if i < an && i < bn {
                assert(a@.skip(i as int)[0] == a@[i as int]);
                assert(b@.skip(i as int)[0] == b@[i as int]);
                assert(a@.skip(i as int).drop_first() =~= a@.skip(i + 1));
                assert(b@.skip(i as int).drop_first() =~= b@.skip(i + 1));
            }
        }
        if i >= bn {
            proof {
                assert(b@.skip(i as int).len() == 0);
            }
            return false;
        }
        if i >= an {
            proof {
                assert(a@.skip(i as int).len() == 0);
                assert(b@.skip(i as int).len() > 0);
            }
            return true;
        }
        let ca = a.get_char(i);
        let cb = b.get_char(i);
        if ca != cb {
            return (ca as u32) < (cb as u32);
        }
        i += 1;
    }
}

/// First index at or after `i` whose entry holds the key.
pub open spec fn spec_find_entry_at(entries: Seq<KeyEntry>, key: Seq<char>, i: int) -> Option<int>
    decreases entries.len() - i,
{
    if i < 0 || i >= entries.len() {
        None
    } else if entries[i].key@ == key {
        Some(i)
    } else {
        spec_find_entry_at(entries, key, i + 1)
    }
}

/// First index whose entry holds the key.
pub open spec fn spec_find_entry(entries: Seq<KeyEntry>, key: Seq<char>) -> Option<int> {
    spec_find_entry_at(entries, key, 0)
}

/// First index at or after `i` whose record holds the locale.
pub open spec fn spec_find_record_at(
    records: Seq<TranslationRecord>,
    locale: Seq<char>,
    i: int,
) -> Option<int>
    decreases records.len() - i,
{
    if i < 0 || i >= records.len() {
        None
    } else if records[i].locale@ == locale {
        Some(i)
    } else {
        spec_find_record_at(records, locale, i + 1)
    }
}

/// First index whose record holds the locale.
pub open spec fn spec_find_record(records: Seq<TranslationRecord>, locale: Seq<char>) -> Option<
    int,
> {
    spec_find_record_at(records, locale, 0)
}

/// First index at or after `i` holding the locale string.
pub open spec fn spec_find_locale_at(locales: Seq<String>, locale: Seq<char>, i: int) -> Option<
    int,
>
    decreases locales.len() - i,
{
    if i < 0 || i >= locales.len() {
        None
    } else if locales[i]@ == locale {
        Some(i)
    } else {
        spec_find_locale_at(locales, locale, i + 1)
    }
}

/// First index holding the locale string.
pub open spec fn spec_find_locale(locales: Seq<String>, locale: Seq<char>) -> Option<int> {
    spec_find_locale_at(locales, locale, 0)
}

/// What a found entry index means, and what `None` means.
pub proof fn lemma_find_entry_props(entries: Seq<KeyEntry>, key: Seq<char>, from: int)
    requires
        0 <= from,
    ensures
        spec_find_entry_at(entries, key, from) matches Some(i) ==> from <= i < entries.len()
            && entries[i].key@ == key && forall|k: int|
            from <= k < i ==> entries[k].key@ != key,
        spec_find_entry_at(entries, key, from) is None ==> forall|k: int|
            from <= k < entries.len() ==> entries[k].key@ != key,
    decreases entries.len() - from,
{
    if from < entries.len() && entries[from].key@ != key {
        lemma_find_entry_props(entries, key, from + 1);
    }
}

/// What a found record index means, and what `None` means.
pub proof fn lemma_find_record_props(records: Seq<TranslationRecord>, locale: Seq<char>, from: int)
    requires
        0 <= from,
    ensures
        spec_find_record_at(records, locale, from) matches Some(i) ==> from <= i < records.len()
            && records[i].locale@ == locale && forall|k: int|
            from <= k < i ==> records[k].locale@ != locale,
        spec_find_record_at(records, locale, from) is None ==> forall|k: int|
            from <= k < records.len() ==> records[k].locale@ != locale,
    decreases records.len() - from,
{
    if from < records.len() && records[from].locale@ != locale {
        lemma_find_record_props(records, locale, from + 1);
    }
}

/// What a found locale index means, and what `None` means.
pub proof fn lemma_find_locale_props(locales: Seq<String>, locale: Seq<char>, from: int)
    requires
        0 <= from,
    ensures
        spec_find_locale_at(locales, locale, from) matches Some(i) ==> from <= i < locales.len()
            && locales[i]@ == locale,
        spec_find_locale_at(locales, locale, from) is None ==> forall|k: int|
            from <= k < locales.len() ==> locales[k]@ != locale,
    decreases locales.len() - from,
{
    if from < locales.len() && locales[from]@ != locale {
        lemma_find_locale_props(locales, locale, from + 1);
    }
}

/// The first match is the one found: a present index with no earlier
/// match from `from` is what the search returns.
pub proof fn lemma_find_locale_present(locales: Seq<String>, locale: Seq<char>, from: int, i: int)
    requires
        0 <= from <= i < locales.len(),
        locales[i]@ == locale,
        forall|k: int| from <= k < i ==> locales[k]@ != locale,
    ensures
        spec_find_locale_at(locales, locale, from) == Some(i),
    decreases i - from,
{
    if from < i {
        lemma_find_locale_present(locales, locale, from + 1, i);
    }
}

/// Entry searches agree on sequences whose keys agree pointwise.
pub proof fn lemma_find_entry_same_keys(
    s1: Seq<KeyEntry>,
    s2: Seq<KeyEntry>,
    key: Seq<char>,
    from: int,
)
    requires
        s1.len() == s2.len(),
        forall|i: int| 0 <= i < s1.len() ==> s1[i].key@ == s2[i].key@,
    ensures
        spec_find_entry_at(s1, key, from) == spec_find_entry_at(s2, key, from),
    decreases s1.len() - from,
{
    if 0 <= from < s1.len() {
        lemma_find_entry_same_keys(s1, s2, key, from + 1);
    }
}

/// Record searches agree on sequences whose locales agree pointwise.
pub proof fn lemma_find_record_same_locales(
    s1: Seq<TranslationRecord>,
    s2: Seq<TranslationRecord>,
    locale: Seq<char>,
    from: int,
)
    requires
        s1.len() == s2.len(),
        forall|i: int| 0 <= i < s1.len() ==> s1[i].locale@ == s2[i].locale@,
    ensures
        spec_find_record_at(s1, locale, from) == spec_find_record_at(s2, locale, from),
    decreases s1.len() - from,
{
    if 0 <= from < s1.len() {
        lemma_find_record_same_locales(s1, s2, locale, from + 1);
    }
}

/// Searching a sequence extended at the end: an existing result stands;
/// otherwise the new element alone can match.
pub proof fn lemma_find_entry_push(s: Seq<KeyEntry>, e: KeyEntry, key: Seq<char>, from: int)
    requires
        0 <= from,
    ensures
        spec_find_entry_at(s.push(e), key, from) == (match spec_find_entry_at(s, key, from) {
            Some(i) => Some(i),
            None => if e.key@ == key && from <= s.len() {
                Some(s.len() as int)
            } else {
                None
            },
        }),
    decreases s.len() + 1 - from,
{
    if from < s.len() {
        assert(s.push(e)[from] == s[from]);
        lemma_find_entry_push(s, e, key, from + 1);
    } else if from == s.len() {
        assert(s.push(e)[from] == e);
        assert(spec_find_entry_at(s, key, from) is None);
        if e.key@ != key {
            assert(spec_find_entry_at(s.push(e), key, from + 1) is None);
        }
    } else {
        assert(spec_find_entry_at(s, key, from) is None);
        assert(spec_find_entry_at(s.push(e), key, from) is None);
    }
}

/// Searching a record list extended at the end.
pub proof fn lemma_find_record_push(
    s: Seq<TranslationRecord>,
    e: TranslationRecord,
    locale: Seq<char>,
    from: int,
)
    requires
        0 <= from,
    ensures
        spec_find_record_at(s.push(e), locale, from) == (match spec_find_record_at(
            s,
            locale,
            from,
        ) {
            Some(i) => Some(i),
            None => if e.locale@ == locale && from <= s.len() {
                Some(s.len() as int)
            } else {
                None
            },
        }),
    decreases s.len() + 1 - from,
{
    if from < s.len() {
        assert(s.push(e)[from] == s[from]);
        lemma_find_record_push(s, e, locale, from + 1);
    } else if from == s.len() {
        assert(s.push(e)[from] == e);
        assert(spec_find_record_at(s, locale, from) is None);
        if e.locale@ != locale {
            assert(spec_find_record_at(s.push(e), locale, from + 1) is None);
        }
    } else {
        assert(spec_find_record_at(s, locale, from) is None);
        assert(spec_find_record_at(s.push(e), locale, from) is None);
    }
}

/// The full set of translation keys with their per-locale values and
/// locations, plus the known locales (kept strictly sorted) and the
/// locale files they were read from, as `(locale, path)` pairs.
pub struct CatalogSnapshot {
    pub locales: Vec<String>,
    pub entries: Vec<KeyEntry>,
    pub locale_files: Vec<(String, String)>,
}

impl CatalogSnapshot {
    /// Well-formedness: keys unique, locales within one key's records
    /// unique, known locales strictly sorted (hence unique), and every
    /// record's locale among the known locales.
    pub open spec fn wf(self) -> bool {
        &&& forall|i: int, j: int|
            0 <= i < j < self.entries@.len() ==> self.entries@[i].key@ != self.entries@[j].key@
        &&& forall|e: int, i: int, j: int|
            0 <= e < self.entries@.len() && 0 <= i < j < self.entries@[e].records@.len()
                ==> self.entries@[e].records@[i].locale@ != self.entries@[e].records@[j].locale@
        &&& forall|i: int, j: int|
            0 <= i < j < self.locales@.len() ==> lex_lt(self.locales@[i]@, self.locales@[j]@)
        &&& forall|e: int, i: int|
            0 <= e < self.entries@.len() && 0 <= i < self.entries@[e].records@.len()
                ==> spec_find_locale(
                self.locales@,
                #[trigger] self.entries@[e].records@[i].locale@,
            ) is Some
    }

    /// The key is known to the catalog.
    pub open spec fn spec_key_exists(self, key: Seq<char>) -> bool {
        spec_find_entry(self.entries@, key) is Some
    }

    /// The value stored for a key in a locale, if any.
    pub open spec fn spec_translation(self, key: Seq<char>, locale: Seq<char>) -> Option<
        Seq<char>,
    > {
        match spec_find_entry(self.entries@, key) {
            None => None,
            Some(i) => match spec_find_record(self.entries@[i].records@, locale) {
                None => None,
                Some(j) => Some(self.entries@[i].records@[j].value@),
            },
        }
    }

    /// The file location stored for a key in a locale, if any.
    pub open spec fn spec_location(self, key: Seq<char>, locale: Seq<char>) -> Option<
        (Seq<char>, u32),
    > {
        match spec_find_entry(self.entries@, key) {
            None => None,
            Some(i) => match spec_find_record(self.entries@[i].records@, locale) {
                None => None,
                Some(j) => match self.entries@[i].records@[j].location {
                    None => None,
                    Some(loc) => Some((loc.file_path@, loc.line)),
                },
            },
        }
    }

    /// The known locales, in order, that lack a value for the key.
    pub open spec fn spec_missing_upto(self, key: Seq<char>, i: int) -> Seq<Seq<char>>
        decreases i,
    {
        if i <= 0 {
            Seq::empty()
        } else {
            let prev = self.spec_missing_upto(key, i - 1);
            if self.spec_translation(key, self.locales@[i - 1]@) is None {
                prev.push(self.locales@[i - 1]@)
            } else {
                prev
            }
        }
    }

    /// An empty catalog.
    pub fn new() -> (r: Self)
        ensures
            r.wf(),
            r.entries@.len() == 0,
            r.locales@.len() == 0,
            r.locale_files@.len() == 0,
    {
        CatalogSnapshot { locales: Vec::new(), entries: Vec::new(), locale_files: Vec::new() }
    }

    /// Record that a locale exists, keeping the list sorted; adding one
    /// that is already known changes nothing.
    pub fn add_locale(&mut self, locale: String)
        requires
            old(self).wf(),
        ensures
            final(self).wf(),
            final(self).entries@ == old(self).entries@,
            final(self).locale_files@ == old(self).locale_files@,
            spec_find_locale(final(self).locales@, locale@) is Some,
            forall|l: Seq<char>|
                spec_find_locale(old(self).locales@, l) is Some ==> spec_find_locale(
                    final(self).locales@,
                    l,
                ) is Some,
            forall|l: Seq<char>|
                spec_find_locale(final(self).locales@, l) is Some ==> spec_find_locale(
                    old(self).locales@,
                    l,
                ) is Some || l == locale@,
    {
        let ghost olds = self.locales@;
        let n = self.locales.len();
        let mut i: usize = 0;
        while i < n && str_lex_lt(self.locales[i].as_str(), locale.as_str())
            invariant
                self.locales@ == olds,
                n == olds.len(),
                0 <= i <= n,
                forall|k: int| 0 <= k < i ==> lex_lt(#[trigger] olds[k]@, locale@),
            decreases n - i,
        {
            i += 1;
        }
        proof {
            lemma_lex_irrefl(locale@);
            assert(forall|k: int| 0 <= k < i ==> #[trigger] olds[k]@ != locale@) by {
                assert forall|k: int| 0 <= k < i implies #[trigger] olds[k]@ != locale@ by {
                    if olds[k]@ == locale@ {
                        assert(lex_lt(locale@, locale@));
                    }
                }
            }
        }
        if i < n && str_eq(self.locales[i].as_str(), locale.as_str()) {
            proof {
                lemma_find_locale_present(olds, locale@, 0, i as int);
            }
            return ;
        }
        proof {
            if i < n {
                lemma_lex_total(olds[i as int]@, locale@);
                assert(lex_lt(locale@, olds[i as int]@));
            }
        }
        self.locales.insert(i, locale);
        proof {
            let news = self.locales@;
            assert(news == olds.insert(i as int, locale));
            assert(forall|k: int| 0 <= k < i ==> news[k] == olds[k]);
            assert(news[i as int] == locale);
            assert(forall|k: int| i < k < news.len() ==> news[k] == olds[k - 1]);
            assert(forall|a: int, b: int| 0 <= a < b < news.len() ==> lex_lt(news[a]@, news[b]@))
                by {
                assert forall|a: int, b: int| 0 <= a < b < news.len() implies lex_lt(
                    news[a]@,
                    news[b]@,
                ) by {
                    if a == i as int {
                        if b == i + 1 {
                            assert(news[b]@ == olds[i as int]@);
                        } else {
                            lemma_lex_trans(locale@, olds[i as int]@, olds[b - 1]@);
                        }
                    } else if b == i as int {
                        assert(news[a]@ == olds[a]@);
                        if a == i - 1 {
                            lemma_lex_total(olds[a]@, locale@);
                            if olds[a]@ == locale@ {
                                assert(false);
                            }
                            if lex_lt(locale@, olds[a]@) {
                                if i as int <= olds.len() - 1 {
                                }
                                assert(lex_lt(olds[a]@, locale@));
                                lemma_lex_trans(locale@, olds[a]@, locale@);
                                lemma_lex_irrefl(locale@);
                            }
                        } else {
                            assert(lex_lt(olds[a]@, locale@));
                        }
                    } else {
                        let a2: int = if a < i as int { a } else { a - 1 };
                        let b2: int = if b < i as int { b } else { b - 1 };
                        assert(news[a]@ == olds[a2]@);
                        assert(news[b]@ == olds[b2]@);
                        assert(a2 < b2);
                        assert(lex_lt(olds[a2]@, olds[b2]@));
                    }
                }
            }
            lemma_find_locale_present(news, locale@, 0, i as int);
            assert forall|l: Seq<char>|
                spec_find_locale(olds, l) is Some implies spec_find_locale(news, l) is Some by {
                lemma_find_locale_props(olds, l, 0);
                let k = spec_find_locale(olds, l)->Some_0;
                if k < i as int {
                    lemma_find_first_prefix(news, l, k);
                } else {
                    lemma_find_first_prefix(news, l, k + 1);
                }
            }
            assert forall|l: Seq<char>|
                spec_find_locale(news, l) is Some implies spec_find_locale(olds, l) is Some || l
                    == locale@ by {
                lemma_find_locale_props(news, l, 0);
                let k = spec_find_locale(news, l)->Some_0;
                if l != locale@ {
                    if k < i as int {
                        lemma_find_first_prefix(olds, l, k);
                    } else {
                        lemma_find_first_prefix(olds, l, k - 1);
                    }
                }
            }
        }
    }

    /// Record that a locale file was loaded.
    pub fn add_locale_file(&mut self, locale: String, path: String)
        requires
            old(self).wf(),
        ensures
            final(self).wf(),
            final(self).entries@ == old(self).entries@,
            final(self).locales@ == old(self).locales@,
            final(self).locale_files@ == old(self).locale_files@.push((locale, path)),
    {
        self.locale_files.push((locale, path));
    }

    /// Store a value (and optionally its file location) for a key in a
    /// locale already known to the catalog, replacing any previous value
    /// for that pair and leaving every other pair as it was.
    pub fn add_translation(
        &mut self,
        key: String,
        locale: String,
        value: String,
        location: Option<FileLocation>,
    )
        requires
            old(self).wf(),
            spec_find_locale(old(self).locales@, locale@) is Some,
        ensures
            final(self).wf(),
            final(self).locales@ == old(self).locales@,
            final(self).locale_files@ == old(self).locale_files@,
            final(self).spec_translation(key@, locale@) == Some(value@),
            final(self).spec_location(key@, locale@) == (match location {
                None => None::<(Seq<char>, u32)>,
                Some(loc) => Some((loc.file_path@, loc.line)),
            }),
            forall|k: Seq<char>, l: Seq<char>|
                k != key@ || l != locale@ ==> final(self).spec_translation(k, l) == old(
                    self,
                ).spec_translation(k, l),
            forall|k: Seq<char>, l: Seq<char>|
                k != key@ || l != locale@ ==> final(self).spec_location(k, l) == old(
                    self,
                ).spec_location(k, l),
            forall|k: Seq<char>|
                final(self).spec_key_exists(k) <==> old(self).spec_key_exists(k) || k == key@,
    {
        let ghost oldentries = self.entries@;
        let rec = TranslationRecord { locale, value, location };
        let ghost recg = rec;
        let e_opt = self.find_entry(key.as_str());
        match e_opt {
            None => {
                proof {
                    lemma_find_entry_props(oldentries, key@, 0);
                }
                let mut records: Vec<TranslationRecord> = Vec::new();
                records.push(rec);
                let ghost keyg = key@;
                self.entries.push(KeyEntry { key, records });
                proof {
                    let news = self.entries@;
                    let newe = news[news.len() - 1];
                    assert(news == oldentries.push(newe));
                    assert(newe.key@ == keyg);
                    assert(newe.records@.len() == 1);
                    assert(newe.records@[0] == recg);
                    assert forall|k: Seq<char>| true implies spec_find_entry_at(news, k, 0) == (
                    match spec_find_entry_at(oldentries, k, 0) {
                        Some(i) => Some(i),
                        None => if keyg == k {
                            Some(oldentries.len() as int)
                        } else {
                            None
                        },
                    }) by {
                        lemma_find_entry_push(oldentries, newe, k, 0);
                    }
                    assert forall|k: Seq<char>, l: Seq<char>| k != keyg || l != recg.locale@
                        implies self.spec_translation(k, l) == old(self).spec_translation(k, l)
                        && self.spec_location(k, l) == old(self).spec_location(k, l) by {
                        lemma_find_entry_props(oldentries, k, 0);
                        lemma_find_entry_props(news, k, 0);
                        if k == keyg {
                            assert(spec_find_entry(news, k) == Some(oldentries.len() as int));
                            assert(spec_find_record_at(newe.records@, l, 1) is None);
                            assert(spec_find_record_at(newe.records@, l, 0) is None);
                        } else {
                            match spec_find_entry_at(oldentries, k, 0) {
                                Some(i) => {
                                    assert(news[i] == oldentries[i]);
                                },
                                None => {},
                            }
                        }
                    }
                    assert(self.wf()) by {
                        assert(forall|i: int, j: int|
                            0 <= i < j < news.len() ==> news[i].key@ != news[j].key@) by {
                            assert(forall|i: int|
                                0 <= i < oldentries.len() ==> news[i] == oldentries[i]);
                        }
                        assert(forall|e: int, i: int, j: int|
                            0 <= e < news.len() && 0 <= i < j < news[e].records@.len()
                                ==> news[e].records@[i].locale@ != news[e].records@[j].locale@)
                            by {
                            assert(forall|e: int|
                                0 <= e < oldentries.len() ==> news[e] == oldentries[e]);
                            assert(news[news.len() - 1].records@.len() == 1);
                        }
                        assert(forall|e: int, i: int|
                            0 <= e < news.len() && 0 <= i < news[e].records@.len()
                                ==> spec_find_locale(
                                self.locales@,
                                #[trigger] news[e].records@[i].locale@,
                            ) is Some) by {
                            assert(forall|e: int|
                                0 <= e < oldentries.len() ==> news[e] == oldentries[e]);
                            assert(news[news.len() - 1].records@[0].locale@ == recg.locale@);
                        }
                    }
                    lemma_find_entry_props(news, keyg, 0);
                    assert(spec_find_entry(news, keyg) == Some(oldentries.len() as int));
                }
            },
            Some(e) => {
                proof {
                    lemma_find_entry_props(oldentries, key@, 0);
                }
                let mut ent = self.entries.remove(e);
                let ghost oldrecords = ent.records@;
                let j_opt = Self::find_record_in(&ent.records, rec.locale.as_str());
                match j_opt {
                    None => {
                        proof {
                            lemma_find_record_props(oldrecords, recg.locale@, 0);
                        }
                        ent.records.push(rec);
                        proof {
                            assert forall|l: Seq<char>| true implies spec_find_record_at(
                                ent.records@,
                                l,
                                0,
                            ) == (match spec_find_record_at(oldrecords, l, 0) {
                                Some(i) => Some(i),
                                None => if recg.locale@ == l {
                                    Some(oldrecords.len() as int)
                                } else {
                                    None
                                },
                            }) by {
                                lemma_find_record_push(oldrecords, recg, l, 0);
                            }
                        }
                    },
                    Some(j) => {
                        proof {
                            lemma_find_record_props(oldrecords, recg.locale@, 0);
                        }
                        ent.records.set(j, rec);
                        proof {
                            assert(ent.records@ == oldrecords.update(j as int, recg));
                            assert forall|l: Seq<char>| true implies spec_find_record_at(
                                ent.records@,
                                l,
                                0,
                            ) == spec_find_record_at(oldrecords, l, 0) by {
                                lemma_find_record_same_locales(ent.records@, oldrecords, l, 0);
                            }
                        }
                    },
                }
                let ghost entg = ent;
                self.entries.insert(e, ent);
                proof {
                    let news = self.entries@;
                    assert(news =~= oldentries.update(e as int, entg));
                    assert(forall|i: int| 0 <= i < news.len() ==> news[i].key@ == oldentries[i].key@);
                    assert forall|k: Seq<char>| true implies spec_find_entry_at(news, k, 0)
                        == spec_find_entry_at(oldentries, k, 0) by {
                        lemma_find_entry_same_keys(news, oldentries, k, 0);
                    }
                    assert forall|k: Seq<char>, l: Seq<char>| k != key@ || l != recg.locale@
                        implies self.spec_translation(k, l) == old(self).spec_translation(k, l)
                        && self.spec_location(k, l) == old(self).spec_location(k, l) by {
                        lemma_find_entry_props(oldentries, k, 0);
                        lemma_find_entry_props(news, k, 0);
                        match spec_find_entry_at(oldentries, k, 0) {
                            Some(i) => {
                                if i == e as int {
                                    assert(k == key@);
                                    assert(l != recg.locale@);
                                    lemma_find_record_props(oldrecords, l, 0);
                                    lemma_find_record_props(entg.records@, l, 0);
                                    match spec_find_record_at(oldrecords, recg.locale@, 0) {
                                        Some(jj) => {
                                            match spec_find_record_at(oldrecords, l, 0) {
                                                Some(x) => {
                                                    assert(x != jj);
                                                    assert(entg.records@[x] == oldrecords[x]);
                                                },
                                                None => {},
                                            }
                                        },
                                        None => {
                                            match spec_find_record_at(oldrecords, l, 0) {
                                                Some(x) => {
                                                    assert(entg.records@[x] == oldrecords[x]);
                                                },
                                                None => {},
                                            }
                                        },
                                    }
                                } else {
                                    assert(news[i] == oldentries[i]);
                                }
                            },
                            None => {},
                        }
                    }
                    lemma_find_record_props(entg.records@, recg.locale@, 0);
                    assert(self.wf()) by {
                        assert(forall|x: int, y: int|
                            0 <= x < y < news.len() ==> news[x].key@ != news[y].key@);
                        assert(forall|ee: int|
                            0 <= ee < news.len() && ee != e as int ==> news[ee] == oldentries[ee]);
                        assert(forall|i: int, j: int|
                            0 <= i < j < entg.records@.len() ==> entg.records@[i].locale@
                                != entg.records@[j].locale@) by {
                            match spec_find_record_at(oldrecords, recg.locale@, 0) {
                                Some(jj) => {
                                    assert(forall|i: int|
                                        0 <= i < entg.records@.len() && i != jj
                                            ==> entg.records@[i] == oldrecords[i]);
                                    assert(entg.records@[jj].locale@ == oldrecords[jj].locale@);
                                },
                                None => {
                                    assert(forall|i: int|
                                        0 <= i < oldrecords.len() ==> entg.records@[i]
                                            == oldrecords[i]);
                                },
                            }
                        }
                        assert(forall|i: int|
                            0 <= i < entg.records@.len() ==> spec_find_locale(
                                self.locales@,
                                #[trigger] entg.records@[i].locale@,
                            ) is Some) by {
                            match spec_find_record_at(oldrecords, recg.locale@, 0) {
                                Some(jj) => {
                                    assert(forall|i: int|
                                        0 <= i < entg.records@.len() && i != jj
                                            ==> entg.records@[i] == oldrecords[i]);
                                    assert(entg.records@[jj].locale@ == recg.locale@);
                                },
                                None => {
                                    assert(forall|i: int|
                                        0 <= i < oldrecords.len() ==> entg.records@[i]
                                            == oldrecords[i]);
                                    assert(entg.records@[oldrecords.len() as int].locale@
                                        == recg.locale@);
                                },
                            }
                        }
                    }
                }
            },
        }
    }

    /// Whether the key is known to the catalog.
    pub fn key_exists(&self, key: &str) -> (r: bool)
        ensures
            r == self.spec_key_exists(key@),
    {
        match self.find_entry(key) {
            Some(_) => true,
            None => false,
        }
    }

    /// Index of the entry for the key, if any.
    fn find_entry(&self, key: &str) -> (r: Option<usize>)
        ensures
            r is Some <==> spec_find_entry(self.entries@, key@) is Some,
            r matches Some(i) ==> spec_find_entry(self.entries@, key@) == Some(i as int),
    {
        let mut i: usize = 0;
        while i < self.entries.len()
            invariant
                0 <= i <= self.entries@.len(),
                spec_find_entry_at(self.entries@, key@, 0) == spec_find_entry_at(
                    self.entries@,
                    key@,
                    i as int,
                ),
            decreases self.entries.len() - i,
        {
            if str_eq(self.entries[i].key.as_str(), key) {
                return Some(i);
            }
            i += 1;
        }
        None
    }

    /// Index of the record for the locale within a record list, if any.
    fn find_record_in(records: &Vec<TranslationRecord>, locale: &str) -> (r: Option<usize>)
        ensures
            r is Some <==> spec_find_record(records@, locale@) is Some,
            r matches Some(i) ==> spec_find_record(records@, locale@) == Some(i as int),
    {
        let mut i: usize = 0;
        while i < records.len()
            invariant
                0 <= i <= records@.len(),
                spec_find_record_at(records@, locale@, 0) == spec_find_record_at(
                    records@,
                    locale@,
                    i as int,
                ),
            decreases records.len() - i,
        {
            if str_eq(records[i].locale.as_str(), locale) {
                return Some(i);
            }
            i += 1;
        }
        None
    }

    /// The value stored for the key in the locale, if any.
    pub fn get_translation(&self, key: &str, locale: &str) -> (r: Option<String>)
        ensures
            r is Some <==> self.spec_translation(key@, locale@) is Some,
            r matches Some(v) ==> self.spec_translation(key@, locale@) == Some(v@),
    {
        let e = match self.find_entry(key) {
            None => {
                return None;
            },
            Some(e) => e,
        };
        proof {
            lemma_find_entry_props(self.entries@, key@, 0);
        }
        let j = match Self::find_record_in(&self.entries[e].records, locale) {
            None => {
                return None;
            },
            Some(j) => j,
        };
        proof {
            lemma_find_record_props(self.entries@[e as int].records@, locale@, 0);
        }
        Some(self.entries[e].records[j].value.clone())
    }

    /// The file location stored for the key in the locale, if any.
    pub fn get_translation_location(&self, key: &str, locale: &str) -> (r: Option<(String, u32)>)
        ensures
            r is Some <==> self.spec_location(key@, locale@) is Some,
            r matches Some(p) ==> self.spec_location(key@, locale@) == Some((p.0@, p.1)),
    {
        let e = match self.find_entry(key) {
            None => {
                return None;
            },
            Some(e) => e,
        };
        proof {
            lemma_find_entry_props(self.entries@, key@, 0);
        }
        let j = match Self::find_record_in(&self.entries[e].records, locale) {
            None => {
                return None;
            },
            Some(j) => j,
        };
        proof {
            lemma_find_record_props(self.entries@[e as int].records@, locale@, 0);
        }
        match &self.entries[e].records[j].location {
            None => None,
            Some(loc) => Some((loc.file_path.clone(), loc.line)),
        }
    }

    /// All known locales, in lexicographic order.
    pub fn get_locales(&self) -> (r: Vec<String>)
        ensures
            r.deep_view() == Seq::new(self.locales@.len(), |i: int| self.locales@[i]@),
    {
        let mut r: Vec<String> = Vec::new();
        let mut i: usize = 0;
        while i < self.locales.len()
            invariant
                0 <= i <= self.locales@.len(),
                r.deep_view() == Seq::new(i as nat, |k: int| self.locales@[k]@),
            decreases self.locales.len() - i,
        {
            let ghost od = r.deep_view();
            r.push(self.locales[i].clone());
            proof {
                assert(r.deep_view() =~~= od.push(self.locales@[i as int]@));
                assert(od.push(self.locales@[i as int]@) =~~= Seq::new(
                    (i + 1) as nat,
                    |k: int| self.locales@[k]@,
                ));
            }
            i += 1;
        }
        proof {
            assert(r.deep_view() =~~= Seq::new(self.locales@.len(), |k: int| self.locales@[k]@));
        }
        r
    }

    /// All known keys, in entry order.
    pub fn get_all_keys(&self) -> (r: Vec<String>)
        ensures
            r.deep_view() == Seq::new(self.entries@.len(), |i: int| self.entries@[i].key@),
    {
        let mut r: Vec<String> = Vec::new();
        let mut i: usize = 0;
        while i < self.entries.len()
            invariant
                0 <= i <= self.entries@.len(),
                r.deep_view() == Seq::new(i as nat, |k: int| self.entries@[k].key@),
            decreases self.entries.len() - i,
        {
            let ghost od = r.deep_view();
            r.push(self.entries[i].key.clone());
            proof {
                assert(r.deep_view() =~~= od.push(self.entries@[i as int].key@));
                assert(od.push(self.entries@[i as int].key@) =~~= Seq::new(
                    (i + 1) as nat,
                    |k: int| self.entries@[k].key@,
                ));
            }
            i += 1;
        }
        proof {
            assert(r.deep_view() =~~= Seq::new(self.entries@.len(), |k: int| self.entries@[k].key@));
        }
        r
    }

    /// The known locales that lack a value for the key, in lexicographic
    /// order (the locale list is kept sorted).
    pub fn get_missing_locales(&self, key: &str) -> (r: Vec<String>)
        ensures
            r.deep_view() == self.spec_missing_upto(key@, self.locales@.len() as int),
    {
        let mut r: Vec<String> = Vec::new();
        let mut i: usize = 0;
        while i < self.locales.len()
            invariant
                0 <= i <= self.locales@.len(),
                r.deep_view() == self.spec_missing_upto(key@, i as int),
            decreases self.locales.len() - i,
        {
            match self.get_translation(key, self.locales[i].as_str()) {
                None => {
                    let ghost od = r.deep_view();
                    r.push(self.locales[i].clone());
                    proof {
                        assert(r.deep_view() =~~= od.push(self.locales@[i as int]@));
                    }
                },
                Some(_) => {},
            }
            i += 1;
        }
        r
    }

    /// The file paths loaded for one locale, in load order.
    pub fn get_locale_file_paths(&self, locale: &str) -> (r: Vec<String>)
        ensures
            r.deep_view() == spec_files_for(
                self.locale_files@,
                locale@,
                self.locale_files@.len() as int,
            ),
    {
        let mut r: Vec<String> = Vec::new();
        let mut i: usize = 0;
        while i < self.locale_files.len()
            invariant
                0 <= i <= self.locale_files@.len(),
                r.deep_view() == spec_files_for(self.locale_files@, locale@, i as int),
            decreases self.locale_files.len() - i,
        {
            if str_eq(self.locale_files[i].0.as_str(), locale) {
                let ghost od = r.deep_view();
                r.push(self.locale_files[i].1.clone());
                proof {
                    assert(r.deep_view() =~~= od.push(self.locale_files@[i as int].1@));
                }
            }
            i += 1;
        }
        r
    }
}

/// A present index with no earlier match is what the search returns
/// (generic helper, stated for locale lists).
pub proof fn lemma_find_first_prefix(locales: Seq<String>, locale: Seq<char>, i: int)
    requires
        0 <= i < locales.len(),
        locales[i]@ == locale,
    ensures
        spec_find_locale(locales, locale) is Some,
{
    lemma_find_locale_exists(locales, locale, 0, i);
}

/// Any match at or after `from` makes the search from `from` succeed.
proof fn lemma_find_locale_exists(locales: Seq<String>, locale: Seq<char>, from: int, i: int)
    requires
        0 <= from <= i < locales.len(),
        locales[i]@ == locale,
    ensures
        spec_find_locale_at(locales, locale, from) is Some,
    decreases i - from,
{
    if from < i && locales[from]@ != locale {
        lemma_find_locale_exists(locales, locale, from + 1, i);
    }
}

/// The file paths recorded for one locale among the first `i` files.
pub open spec fn spec_files_for(files: Seq<(String, String)>, locale: Seq<char>, i: int) -> Seq<
    Seq<char>,
>
    decreases i,
{
    if i <= 0 {
        Seq::empty()
    } else {
        let prev = spec_files_for(files, locale, i - 1);
        if files[i - 1].0@ == locale {
            prev.push(files[i - 1].1@)
        } else {
            prev
        }
    }
}

} // verus!
