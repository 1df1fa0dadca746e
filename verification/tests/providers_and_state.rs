use intl_lens::catalog::{CatalogSnapshot, FileLocation};
use intl_lens::diagnostics::FoundKeyUsage;
use intl_lens::providers::{
    compute_inlay_hints, create_key_title, dedup_paths, definition_sites,
    extract_completion_prefix, extract_missing_key, get_completions, get_hover_content,
    render_hover_content, truncate_string, u64_to_string, HoverRow, TextRange,
};
use intl_lens::raw_placeholder;
use intl_lens::state::{DocumentCache, WorkspaceConfig, WorkspaceState};
use intl_lens::watch::{
    build_watch_globs, is_translation_file_in_paths, is_translation_file_path,
    negotiate_capabilities, to_absolute_pattern,
};

fn sample_catalog() -> CatalogSnapshot {
    let mut cat = CatalogSnapshot::new();
    cat.add_locale("en".to_string());
    cat.add_locale("fr".to_string());
    cat.add_translation(
        "common.hello".to_string(),
        "en".to_string(),
        "Hello".to_string(),
        Some(FileLocation {
            file_path: "/ws/locales/en.json".to_string(),
            line: 1,
        }),
    );
    cat.add_translation(
        "common.hello".to_string(),
        "fr".to_string(),
        "Bonjour".to_string(),
        Some(FileLocation {
            file_path: "/ws/locales/fr.json".to_string(),
            line: 2,
        }),
    );
    cat.add_translation(
        "common.bye".to_string(),
        "en".to_string(),
        "Bye".to_string(),
        None,
    );
    cat.add_translation(
        "other".to_string(),
        "en".to_string(),
        "Other".to_string(),
        None,
    );
    cat
}

#[test]
fn truncation_is_exact() {
    assert_eq!(truncate_string("short", 30), "short");
    // exactly at the cap: unchanged
    assert_eq!(
        truncate_string("012345678901234567890123456789", 30),
        "012345678901234567890123456789"
    );
    // one over the cap: cut to 27 plus dots
    assert_eq!(
        truncate_string("0123456789012345678901234567890", 30),
        "012345678901234567890123456..."
    );
    assert_eq!(truncate_string("abcdefghij", 5), "ab...");
}

#[test]
fn decimal_rendering_is_exact() {
    assert_eq!(u64_to_string(0), "0");
    assert_eq!(u64_to_string(7), "7");
    assert_eq!(u64_to_string(1234567890), "1234567890");
}

#[test]
fn completion_prefix_inside_open_call() {
    let line = "let x = t(\"common.he";
    let r = extract_completion_prefix(line, line.chars().count());
    assert_eq!(r.unwrap(), "common.he");
}

#[test]
fn completion_prefix_variants() {
    let line = "$t('menu.";
    let r = extract_completion_prefix(line, line.chars().count());
    assert_eq!(r.unwrap(), "menu.");
    let line2 = "i18n.t(\"a";
    let r2 = extract_completion_prefix(line2, line2.chars().count());
    assert_eq!(r2.unwrap(), "a");
}

#[test]
fn completion_prefix_refused_after_closed_call() {
    let line = "let x = t(\"done\")";
    let r = extract_completion_prefix(line, line.chars().count());
    assert!(r.is_none());
    assert!(extract_completion_prefix("no call here", 7).is_none());
}

#[test]
fn completions_filter_by_prefix_and_carry_values() {
    let cat = sample_catalog();
    let items = get_completions(&cat, "en", "common.");
    assert_eq!(items.len(), 2);
    assert_eq!(items[0].label, "common.hello");
    assert_eq!(items[0].detail.as_deref(), Some("Hello"));
    assert_eq!(
        items[0].documentation.as_deref(),
        Some("**en**: Hello")
    );
    assert_eq!(items[0].insert_text, "common.hello");
    assert_eq!(items[1].label, "common.bye");
    let all = get_completions(&cat, "en", "");
    assert_eq!(all.len(), 3);
}

#[test]
fn hover_renders_source_first_then_other_locales() {
    let cat = sample_catalog();
    let content = get_hover_content(&cat, "common.hello", "en").unwrap();
    assert!(content.starts_with("### 🌍 `common.hello`\n\n"));
    let en_at = content.find("**en**: Hello").unwrap();
    let sep_at = content.find("---").unwrap();
    let fr_at = content.find("**fr**: Bonjour").unwrap();
    assert!(en_at < sep_at && sep_at < fr_at);
    // the link points into the locale file, one past the stored line
    assert!(content.contains("file:///ws/locales/en.json#L2"));
    assert!(get_hover_content(&cat, "nope", "en").is_none());
}

#[test]
fn hover_rendering_is_exact_for_given_rows() {
    let source = Some(HoverRow {
        locale: "en".to_string(),
        value: "Hello".to_string(),
        link: None,
    });
    let others = vec![HoverRow {
        locale: "fr".to_string(),
        value: "Bonjour".to_string(),
        link: Some("file:///f.json#L3".to_string()),
    }];
    let r = render_hover_content("k", &source, &others);
    assert_eq!(
        r,
        "### 🌍 `k`\n\n**en**: Hello\n\n---\n\n**fr**: Bonjour ([↗](file:///f.json#L3 \"Go to Definition\"))\n\n"
    );
}

#[test]
fn definition_sites_put_source_locale_first() {
    let cat = sample_catalog();
    let sites = definition_sites(&cat, "common.hello", "fr");
    assert_eq!(sites.len(), 2);
    assert_eq!(sites[0].file_path, "/ws/locales/fr.json");
    assert_eq!(sites[0].line, 2);
    assert_eq!(sites[1].file_path, "/ws/locales/en.json");
    assert_eq!(sites[1].line, 1);
    assert_eq!(definition_sites(&cat, "nope", "en").len(), 0);
}

#[test]
fn inlay_hints_label_and_position() {
    let cat = sample_catalog();
    let content = "t(\"common.hello\")\n";
    let usages = vec![FoundKeyUsage {
        key: "common.hello".to_string(),
        line: 0,
        start_char: 3,
        end_char: 15,
    }];
    let whole = TextRange {
        start_line: 0,
        start_char: 0,
        end_line: 0,
        end_char: 0,
    };
    let hints = compute_inlay_hints(content, &usages, &cat, "en", &whole);
    assert_eq!(hints.len(), 1);
    assert_eq!(hints[0].label, "= Hello");
    assert_eq!(hints[0].line, 0);
    // the character after the usage is the closing quote, so the hint
    // skips one position to render outside the literal
    assert_eq!(hints[0].character, 16);
}

#[test]
fn inlay_hints_respect_the_request_range() {
    let cat = sample_catalog();
    let content = "t(\"common.hello\")\nt(\"common.hello\")\n";
    let usages = vec![
        FoundKeyUsage {
            key: "common.hello".to_string(),
            line: 0,
            start_char: 3,
            end_char: 15,
        },
        FoundKeyUsage {
            key: "common.hello".to_string(),
            line: 1,
            start_char: 3,
            end_char: 15,
        },
    ];
    let first_line_only = TextRange {
        start_line: 0,
        start_char: 0,
        end_line: 0,
        end_char: 17,
    };
    let hints = compute_inlay_hints(content, &usages, &cat, "en", &first_line_only);
    assert_eq!(hints.len(), 1);
    assert_eq!(hints[0].line, 0);
}

#[test]
fn missing_key_recovered_from_message() {
    assert_eq!(
        extract_missing_key("Translation key 'a.b.c' not found").unwrap(),
        "a.b.c"
    );
    assert!(extract_missing_key("Translation 'a' missing in: fr").is_none());
    assert!(extract_missing_key("Translation key 'a' not founX").is_none());
}

#[test]
fn create_key_title_is_exact() {
    assert_eq!(
        create_key_title("a.b"),
        "Create raw translation key 'a.b'"
    );
}

#[test]
fn raw_placeholder_wraps_key() {
    assert_eq!(raw_placeholder("a.b"), "_a.b_");
}

#[test]
fn dedup_keeps_first_occurrences() {
    let paths = vec![
        "/a.json".to_string(),
        "/b.json".to_string(),
        "/a.json".to_string(),
    ];
    assert_eq!(
        dedup_paths(&paths),
        vec!["/a.json".to_string(), "/b.json".to_string()]
    );
}

#[test]
fn capability_negotiation_defaults_to_false() {
    let caps = negotiate_capabilities(Some(true), None, Some(false), Some(true));
    assert!(caps.inlay_hint_dynamic_registration);
    assert!(!caps.inlay_hint_refresh);
    assert!(!caps.watched_files_dynamic_registration);
    assert!(caps.watched_files_relative_pattern);
}

#[test]
fn watch_globs_expand_sort_and_dedup() {
    let globs = build_watch_globs(&vec!["locales/".to_string(), "locales".to_string()]);
    assert_eq!(
        globs,
        vec![
            "locales/**/*.arb".to_string(),
            "locales/**/*.json".to_string(),
            "locales/**/*.php".to_string(),
            "locales/**/*.yaml".to_string(),
            "locales/**/*.yml".to_string(),
        ]
    );
    // a path that already names a locale file is used verbatim
    let single = build_watch_globs(&vec!["translations/en.JSON".to_string()]);
    assert_eq!(single, vec!["translations/en.JSON".to_string()]);
    // an all-separator path contributes nothing
    assert_eq!(build_watch_globs(&vec!["///".to_string()]).len(), 0);
}

#[test]
fn absolute_patterns_normalize_the_root() {
    assert_eq!(to_absolute_pattern("/ws/", "**/*.json"), "/ws/**/*.json");
    assert_eq!(
        to_absolute_pattern("C:\\ws\\", "**/*.json"),
        "C:/ws/**/*.json"
    );
    assert_eq!(to_absolute_pattern("/ws", "/abs"), "/ws/abs");
    assert_eq!(to_absolute_pattern("/ws", ""), "/ws");
}

#[test]
fn translation_file_detection() {
    assert!(is_translation_file_path("locales/en.json"));
    assert!(is_translation_file_path("locales/EN.YAML"));
    assert!(is_translation_file_path("x.arb"));
    assert!(!is_translation_file_path("x.txt"));
    assert!(is_translation_file_in_paths(
        "/ws/locales/en.json",
        "/ws",
        &vec!["locales".to_string()],
        &vec![false],
    ));
    // a sibling directory sharing a prefix is not inside the path
    assert!(!is_translation_file_in_paths(
        "/ws/locales2/en.json",
        "/ws",
        &vec!["locales".to_string()],
        &vec![false],
    ));
    // a locale path naming one file must match exactly
    assert!(is_translation_file_in_paths(
        "/ws/en.json",
        "/ws",
        &vec!["en.json".to_string()],
        &vec![true],
    ));
    assert!(!is_translation_file_in_paths(
        "/ws/other.json",
        "/ws",
        &vec!["en.json".to_string()],
        &vec![true],
    ));
}

#[test]
fn document_cache_open_update_close() {
    let mut docs = DocumentCache::new();
    docs.open("file:///a".to_string(), "one".to_string(), 1);
    docs.open("file:///b".to_string(), "two".to_string(), 1);
    assert_eq!(docs.get("file:///a").unwrap(), ("one".to_string(), 1));
    docs.update("file:///a", "three".to_string(), 2);
    assert_eq!(docs.get("file:///a").unwrap(), ("three".to_string(), 2));
    assert_eq!(docs.get("file:///b").unwrap(), ("two".to_string(), 1));
    let all = docs.all_documents();
    assert_eq!(all.len(), 2);
    docs.close("file:///a");
    assert!(docs.get("file:///a").is_none());
    assert!(docs.get("file:///b").is_some());
}

#[test]
fn workspace_state_publishes_atomically() {
    let mut state = WorkspaceState::new();
    assert!(state.catalog.is_none());
    state
        .documents
        .open("file:///a".to_string(), "x".to_string(), 1);
    let config = WorkspaceConfig {
        locale_paths: vec!["locales".to_string()],
        source_locale: "en".to_string(),
        function_patterns: vec![],
    };
    let mut cat = CatalogSnapshot::new();
    cat.add_locale("en".to_string());
    state.publish_workspace(config, cat, "/ws".to_string());
    assert!(state.catalog.is_some());
    assert_eq!(state.root.as_deref(), Some("/ws"));
    // open documents survive a workspace load
    assert!(state.documents.get("file:///a").is_some());
    let mut cat2 = CatalogSnapshot::new();
    cat2.add_locale("fr".to_string());
    state.publish_catalog(cat2);
    assert_eq!(
        state.catalog.as_ref().unwrap().get_locales(),
        vec!["fr".to_string()]
    );
    assert_eq!(state.root.as_deref(), Some("/ws"));
}
