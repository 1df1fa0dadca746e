//! The workspace state owned by the session: the configuration, the
//! catalog snapshot (absent until the first load), the workspace root,
//! the negotiated capability flags, and the open-document cache. The
//! session wraps this value in its own locks; the methods here are the
//! narrow, atomic updates those locks guard, so a reload publishes the
//! catalog as one logical update and no reader sees a torn one.

use vstd::prelude::*;

use crate::catalog::CatalogSnapshot;
use crate::text::str_eq;
use crate::watch::CapabilityFlags;

verus! {

/// One open document: its full text and the client's edit version.
pub struct OpenDocument {
    pub content: String,
    pub version: i32,
}

/// The workspace configuration: where locale files live, which locale
/// is the source, and which call patterns name translations.
#[derive(Clone)]
pub struct WorkspaceConfig {
    pub locale_paths: Vec<String>,
    pub source_locale: String,
    pub function_patterns: Vec<String>,
}

impl WorkspaceConfig {
    /// The configuration before any workspace is loaded: no locale
    /// paths, `en` as source locale, no extra call patterns.
    pub fn new_default() -> (r: Self)
        ensures
            r.locale_paths@.len() == 0,
            r.source_locale@ == "en"@,
            r.function_patterns@.len() == 0,
    {
        WorkspaceConfig {
            locale_paths: Vec::new(),
            source_locale: String::from_str("en"),
            function_patterns: Vec::new(),
        }
    }
}

/// First index at or after `i` whose entry holds the URI.
pub open spec fn spec_find_doc_at(docs: Seq<(String, OpenDocument)>, uri: Seq<char>, i: int) -> Option<
    int,
>
    decreases docs.len() - i,
{
    if i < 0 || i >= docs.len() {
        None
    } else if docs[i].0@ == uri {
        Some(i)
    } else {
        spec_find_doc_at(docs, uri, i + 1)
    }
}

/// First index whose entry holds the URI.
pub open spec fn spec_find_doc(docs: Seq<(String, OpenDocument)>, uri: Seq<char>) -> Option<int> {
    spec_find_doc_at(docs, uri, 0)
}

/// What a found index means, and what `None` means.
pub proof fn lemma_find_doc_props(docs: Seq<(String, OpenDocument)>, uri: Seq<char>, from: int)
    requires
        0 <= from,
    ensures
        spec_find_doc_at(docs, uri, from) matches Some(i) ==> from <= i < docs.len()
            && docs[i].0@ == uri && forall|k: int| from <= k < i ==> docs[k].0@ != uri,
        spec_find_doc_at(docs, uri, from) is None ==> forall|k: int|
            from <= k < docs.len() ==> docs[k].0@ != uri,
    decreases docs.len() - from,
{
    if from < docs.len() && docs[from].0@ != uri {
        lemma_find_doc_props(docs, uri, from + 1);
    }
}

/// Document searches agree on lists whose URIs agree pointwise.
proof fn lemma_find_doc_same_uris(
    s1: Seq<(String, OpenDocument)>,
    s2: Seq<(String, OpenDocument)>,
    uri: Seq<char>,
    from: int,
)
    requires
        s1.len() == s2.len(),
        forall|i: int| 0 <= i < s1.len() ==> s1[i].0@ == s2[i].0@,
    ensures
        spec_find_doc_at(s1, uri, from) == spec_find_doc_at(s2, uri, from),
    decreases s1.len() - from,
{
    if 0 <= from < s1.len() {
        lemma_find_doc_same_uris(s1, s2, uri, from + 1);
    }
}

/// Searching a list extended at the end.
proof fn lemma_find_doc_push(
    s: Seq<(String, OpenDocument)>,
    e: (String, OpenDocument),
    uri: Seq<char>,
    from: int,
)
    requires
        0 <= from,
    ensures
        spec_find_doc_at(s.push(e), uri, from) == (match spec_find_doc_at(s, uri, from) {
            Some(i) => Some(i),
            None => if e.0@ == uri && from <= s.len() {
                Some(s.len() as int)
            } else {
                None
            },
        }),
    decreases s.len() + 1 - from,
{
    if from < s.len() {
        assert(s.push(e)[from] == s[from]);
        lemma_find_doc_push(s, e, uri, from + 1);
    } else if from == s.len() {
        assert(s.push(e)[from] == e);
        assert(spec_find_doc_at(s, uri, from) is None);
        if e.0@ != uri {
            assert(spec_find_doc_at(s.push(e), uri, from + 1) is None);
        }
    } else {
        assert(spec_find_doc_at(s, uri, from) is None);
        assert(spec_find_doc_at(s.push(e), uri, from) is None);
    }
}

/// Searching a list with one entry removed, when that entry's URI
/// matches nothing searched for.
proof fn lemma_find_doc_remove(
    s: Seq<(String, OpenDocument)>,
    i: int,
    uri: Seq<char>,
)
    requires
        0 <= i < s.len(),
        s[i].0@ != uri,
        forall|a: int, b: int| 0 <= a < b < s.len() ==> s[a].0@ != s[b].0@,
    ensures
        spec_find_doc(s.remove(i), uri) is Some <==> spec_find_doc(s, uri) is Some,
{
    lemma_find_doc_props(s, uri, 0);
    lemma_find_doc_props(s.remove(i), uri, 0);
    match spec_find_doc(s, uri) {
        Some(k) => {
            assert(k != i);
            if k < i {
                assert(s.remove(i)[k] == s[k]);
                lemma_find_doc_exists(s.remove(i), uri, k);
            } else {
                assert(s.remove(i)[k - 1] == s[k]);
                lemma_find_doc_exists(s.remove(i), uri, k - 1);
            }
        },
        None => {
            match spec_find_doc(s.remove(i), uri) {
                Some(k) => {
                    if k < i {
                        assert(s.remove(i)[k] == s[k]);
                    } else {
                        assert(s.remove(i)[k] == s[k + 1]);
                    }
                },
                None => {},
            }
        },
    }
}

/// A match anywhere makes the search succeed.
proof fn lemma_find_doc_exists(docs: Seq<(String, OpenDocument)>, uri: Seq<char>, i: int)
    requires
        0 <= i < docs.len(),
        docs[i].0@ == uri,
    ensures
        spec_find_doc(docs, uri) is Some,
{
    lemma_find_doc_exists_from(docs, uri, 0, i);
}

/// A match at or after `from` makes the search from `from` succeed.
proof fn lemma_find_doc_exists_from(
    docs: Seq<(String, OpenDocument)>,
    uri: Seq<char>,
    from: int,
    i: int,
)
    requires
        0 <= from <= i < docs.len(),
        docs[i].0@ == uri,
    ensures
        spec_find_doc_at(docs, uri, from) is Some,
    decreases i - from,
{
    if from < i && docs[from].0@ != uri {
        lemma_find_doc_exists_from(docs, uri, from + 1, i);
    }
}

/// The open-document cache: the full text and version of every open
/// document, keyed by URI, each URI held once. Each change replaces the
/// text wholesale; the latest write wins.
pub struct DocumentCache {
    pub docs: Vec<(String, OpenDocument)>,
}

impl DocumentCache {
    /// URIs are unique.
    pub open spec fn wf(self) -> bool {
        forall|a: int, b: int| 0 <= a < b < self.docs@.len() ==> self.docs@[a].0@ != self.docs@[b].0@
    }

    /// The content and version stored for a URI, if it is open.
    pub open spec fn spec_get(self, uri: Seq<char>) -> Option<(Seq<char>, i32)> {
        match spec_find_doc(self.docs@, uri) {
            None => None,
            Some(i) => Some((self.docs@[i].1.content@, self.docs@[i].1.version)),
        }
    }

    /// An empty cache.
    pub fn new() -> (r: Self)
        ensures
            r.wf(),
            r.docs@.len() == 0,
            forall|u: Seq<char>| r.spec_get(u) is None,
    {
        DocumentCache { docs: Vec::new() }
    }

    /// Index of the entry for the URI, if any.
    fn find(&self, uri: &str) -> (r: Option<usize>)
        ensures
            r is Some <==> spec_find_doc(self.docs@, uri@) is Some,
            r matches Some(i) ==> spec_find_doc(self.docs@, uri@) == Some(i as int),
    {
        let mut i: usize = 0;
        while i < self.docs.len()
            invariant
                0 <= i <= self.docs@.len(),
                spec_find_doc_at(self.docs@, uri@, 0) == spec_find_doc_at(
                    self.docs@,
                    uri@,
                    i as int,
                ),
            decreases self.docs.len() - i,
        {
            if str_eq(self.docs[i].0.as_str(), uri) {
                return Some(i);
            }
            i += 1;
        }
        None
    }

    /// Store the text and version for a URI, whether newly opened or
    /// replaced wholesale; the latest write wins.
    pub fn open(&mut self, uri: String, text: String, version: i32)
        requires
            old(self).wf(),
        ensures
            final(self).wf(),
            final(self).spec_get(uri@) == Some((text@, version)),
            forall|u: Seq<char>| u != uri@ ==> final(self).spec_get(u) == old(self).spec_get(u),
    {
        let ghost olds = self.docs@;
        let doc = OpenDocument { content: text, version };
        let found = self.find(uri.as_str());
        match found {
            Some(i) => {
                proof {
                    lemma_find_doc_props(olds, uri@, 0);
                }
                let ghost urig = uri@;
                self.docs.set(i, (uri, doc));
                proof {
                    let news = self.docs@;
                    assert(news == olds.update(i as int, news[i as int]));
                    assert(news[i as int].0@ == urig);
                    assert(forall|k: int| 0 <= k < news.len() ==> news[k].0@ == olds[k].0@);
                    assert forall|u: Seq<char>| true implies spec_find_doc(news, u)
                        == spec_find_doc(olds, u) by {
                        lemma_find_doc_same_uris(news, olds, u, 0);
                    }
                    assert forall|u: Seq<char>| u != urig implies self.spec_get(u) == old(
                        self,
                    ).spec_get(u) by {
                        lemma_find_doc_props(olds, u, 0);
                        match spec_find_doc(olds, u) {
                            Some(k) => {
                                assert(k != i);
                                assert(news[k] == olds[k]);
                            },
                            None => {},
                        }
                    }
                    lemma_find_doc_props(news, urig, 0);
                }
            },
            None => {
                proof {
                    lemma_find_doc_props(olds, uri@, 0);
                }
                let ghost urig = uri@;
                self.docs.push((uri, doc));
                proof {
                    let news = self.docs@;
                    let newe = news[news.len() - 1];
                    assert(news == olds.push(newe));
                    assert(newe.0@ == urig);
                    assert forall|u: Seq<char>| true implies spec_find_doc(news, u) == (
                    match spec_find_doc(olds, u) {
                        Some(k) => Some(k),
                        None => if urig == u {
                            Some(olds.len() as int)
                        } else {
                            None
                        },
                    }) by {
                        lemma_find_doc_push(olds, newe, u, 0);
                    }
                    assert(self.wf()) by {
                        assert(forall|k: int| 0 <= k < olds.len() ==> news[k] == olds[k]);
                    }
                    assert forall|u: Seq<char>| u != urig implies self.spec_get(u) == old(
                        self,
                    ).spec_get(u) by {
                        lemma_find_doc_props(olds, u, 0);
                        match spec_find_doc(olds, u) {
                            Some(k) => {
                                assert(news[k] == olds[k]);
                            },
                            None => {},
                        }
                    }
                    lemma_find_doc_props(news, urig, 0);
                }
            },
        }
    }

    /// Replace the text and version for a URI (full replace, no
    /// incremental patching).
    pub fn update(&mut self, uri: &str, text: String, version: i32)
        requires
            old(self).wf(),
        ensures
            final(self).wf(),
            final(self).spec_get(uri@) == Some((text@, version)),
            forall|u: Seq<char>| u != uri@ ==> final(self).spec_get(u) == old(self).spec_get(u),
    {
        self.open(String::from_str(uri), text, version);
    }

    /// Forget a document when it closes; closing one that is not open
    /// changes nothing.
    pub fn close(&mut self, uri: &str)
        requires
            old(self).wf(),
        ensures
            final(self).wf(),
            final(self).spec_get(uri@) is None,
            forall|u: Seq<char>| u != uri@ ==> final(self).spec_get(u) == old(self).spec_get(u),
    {
        let ghost olds = self.docs@;
        let found = self.find(uri);
        match found {
            Some(i) => {
                proof {
                    lemma_find_doc_props(olds, uri@, 0);
                }
                let _ = self.docs.remove(i);
                proof {
                    let news = self.docs@;
                    assert(news == olds.remove(i as int));
                    assert(forall|k: int| 0 <= k < i ==> news[k] == olds[k]);
                    assert(forall|k: int| i <= k < news.len() ==> news[k] == olds[k + 1]);
                    assert(self.wf());
                    assert(final(self).spec_get(uri@) is None) by {
                        lemma_find_doc_props(news, uri@, 0);
                        match spec_find_doc(news, uri@) {
                            Some(k) => {
                                if k < i as int {
                                    assert(olds[k].0@ == uri@);
                                    assert(k != i);
                                } else {
                                    assert(olds[k + 1].0@ == uri@);
                                    assert(k + 1 != i);
                                }
                                assert(false);
                            },
                            None => {},
                        }
                    }
                    assert forall|u: Seq<char>| u != uri@ implies self.spec_get(u) == old(
                        self,
                    ).spec_get(u) by {
                        lemma_find_doc_props(olds, u, 0);
                        lemma_find_doc_props(news, u, 0);
                        match spec_find_doc(olds, u) {
                            Some(k) => {
                                assert(k != i);
                                if k < i as int {
                                    assert(news[k] == olds[k]);
                                    lemma_find_doc_exists(news, u, k);
                                } else {
                                    assert(news[k - 1] == olds[k]);
                                    lemma_find_doc_exists(news, u, k - 1);
                                }
                                let k2 = spec_find_doc(news, u)->Some_0;
                                if k2 < i as int {
                                    assert(news[k2] == olds[k2]);
                                } else {
                                    assert(news[k2] == olds[k2 + 1]);
                                }
                            },
                            None => {
                                match spec_find_doc(news, u) {
                                    Some(k2) => {
                                        if k2 < i as int {
                                            assert(news[k2] == olds[k2]);
                                        } else {
                                            assert(news[k2] == olds[k2 + 1]);
                                        }
                                        assert(false);
                                    },
                                    None => {},
                                }
                            },
                        }
                    }
                }
            },
            None => {
                proof {
                    lemma_find_doc_props(olds, uri@, 0);
                }
            },
        }
    }

    /// The text and version stored for a URI, if it is open.
    pub fn get(&self, uri: &str) -> (r: Option<(String, i32)>)
        ensures
            r is Some <==> self.spec_get(uri@) is Some,
            r matches Some(p) ==> self.spec_get(uri@) == Some((p.0@, p.1)),
    {
        match self.find(uri) {
            None => None,
            Some(i) => {
                proof {
                    lemma_find_doc_props(self.docs@, uri@, 0);
                }
                Some((self.docs[i].1.content.clone(), self.docs[i].1.version))
            },
        }
    }

    /// Every open URI with its current text, in cache order.
    pub fn all_documents(&self) -> (r: Vec<(String, String)>)
        ensures
            r@.len() == self.docs@.len(),
            forall|i: int|
                0 <= i < r@.len() ==> (#[trigger] r@[i]).0@ == self.docs@[i].0@ && r@[i].1@
                    == self.docs@[i].1.content@,
    {
        let mut r: Vec<(String, String)> = Vec::new();
        let mut i: usize = 0;
        while i < self.docs.len()
            invariant
                0 <= i <= self.docs@.len(),
                r@.len() == i,
                forall|k: int|
                    0 <= k < i ==> (#[trigger] r@[k]).0@ == self.docs@[k].0@ && r@[k].1@
                        == self.docs@[k].1.content@,
            decreases self.docs.len() - i,
        {
            r.push((self.docs[i].0.clone(), self.docs[i].1.content.clone()));
            i += 1;
        }
        r
    }
}

/// The whole workspace state: configuration, the current catalog
/// snapshot (absent until the first load), the workspace root, the
/// negotiated capabilities, and the open-document cache.
pub struct WorkspaceState {
    pub config: WorkspaceConfig,
    pub catalog: Option<CatalogSnapshot>,
    pub root: Option<String>,
    pub caps: CapabilityFlags,
    pub documents: DocumentCache,
}

impl WorkspaceState {
    /// Both the document cache and the catalog (when present) are
    /// well-formed.
    pub open spec fn wf(self) -> bool {
        &&& self.documents.wf()
        &&& match self.catalog {
            None => true,
            Some(c) => c.wf(),
        }
    }

    /// The state before initialize: default configuration, no catalog,
    /// no root, no capabilities, no open documents.
    pub fn new() -> (r: Self)
        ensures
            r.wf(),
            r.catalog is None,
            r.root is None,
            r.documents.docs@.len() == 0,
    {
        WorkspaceState {
            config: WorkspaceConfig::new_default(),
            catalog: None,
            root: None,
            caps: CapabilityFlags::none(),
            documents: DocumentCache::new(),
        }
    }

    /// Record the negotiated capabilities, touching nothing else.
    pub fn set_capabilities(&mut self, caps: CapabilityFlags)
        ensures
            final(self).caps == caps,
            final(self).config == old(self).config,
            final(self).catalog == old(self).catalog,
            final(self).root == old(self).root,
            final(self).documents == old(self).documents,
    {
        self.caps = caps;
    }

    /// Publish a freshly loaded workspace — configuration, catalog and
    /// root together, as one logical update — leaving the open
    /// documents and capabilities as they were.
    pub fn publish_workspace(&mut self, config: WorkspaceConfig, catalog: CatalogSnapshot, root: String)
        requires
            catalog.wf(),
            old(self).wf(),
        ensures
            final(self).wf(),
            final(self).config == config,
            final(self).catalog == Some(catalog),
            final(self).root == Some(root),
            final(self).caps == old(self).caps,
            final(self).documents == old(self).documents,
    {
        self.config = config;
        self.catalog = Some(catalog);
        self.root = Some(root);
    }

    /// Publish a re-scanned catalog alone, wholesale — readers see the
    /// old snapshot or the new one, never a mixture — leaving
    /// everything else as it was.
    pub fn publish_catalog(&mut self, catalog: CatalogSnapshot)
        requires
            catalog.wf(),
            old(self).wf(),
        ensures
            final(self).wf(),
            final(self).catalog == Some(catalog),
            final(self).config == old(self).config,
            final(self).root == old(self).root,
            final(self).caps == old(self).caps,
            final(self).documents == old(self).documents,
    {
        self.catalog = Some(catalog);
    }
}

} // verus!
