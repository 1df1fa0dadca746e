use intl_lens::catalog::{CatalogSnapshot, FileLocation};
use intl_lens::diagnostics::{compute_diagnostics, DiagnosticCode, FoundKeyUsage, Severity};

fn usage(key: &str) -> FoundKeyUsage {
    FoundKeyUsage {
        key: key.to_string(),
        line: 0,
        start_char: 3,
        end_char: 11,
    }
}

#[test]
fn raw_placeholder_yields_exactly_one_raw_diagnostic() {
    // the key exists only for the source locale, with a raw placeholder
    let mut cat = CatalogSnapshot::new();
    cat.add_locale("en".to_string());
    cat.add_locale("fr".to_string());
    cat.add_translation(
        "greeting".to_string(),
        "en".to_string(),
        "_greeting_".to_string(),
        None,
    );
    let diags = compute_diagnostics(&vec![usage("greeting")], Some(&cat), "en");
    assert_eq!(diags.len(), 1);
    assert!(matches!(diags[0].code, DiagnosticCode::RawTranslation));
    assert!(matches!(diags[0].severity, Severity::Warning));
    assert_eq!(
        diags[0].message,
        "Translation 'greeting' has a raw placeholder value — use Go to Definition to edit"
    );
}

#[test]
fn absent_key_yields_exactly_one_missing_diagnostic() {
    let mut cat = CatalogSnapshot::new();
    cat.add_locale("en".to_string());
    let diags = compute_diagnostics(&vec![usage("greeting")], Some(&cat), "en");
    assert_eq!(diags.len(), 1);
    assert!(matches!(diags[0].code, DiagnosticCode::MissingTranslation));
    assert!(matches!(diags[0].severity, Severity::Warning));
    assert_eq!(diags[0].message, "Translation key 'greeting' not found");
    assert_eq!(diags[0].line, 0);
    assert_eq!(diags[0].start_char, 3);
    assert_eq!(diags[0].end_char, 11);
}

#[test]
fn incomplete_key_lists_missing_locales_lexicographically() {
    let mut cat = CatalogSnapshot::new();
    // inserted out of order; the catalog keeps locales sorted
    cat.add_locale("fr".to_string());
    cat.add_locale("de".to_string());
    cat.add_locale("en".to_string());
    cat.add_translation(
        "greeting".to_string(),
        "en".to_string(),
        "Hello".to_string(),
        None,
    );
    let diags = compute_diagnostics(&vec![usage("greeting")], Some(&cat), "en");
    assert_eq!(diags.len(), 1);
    assert!(matches!(diags[0].code, DiagnosticCode::IncompleteTranslation));
    assert!(matches!(diags[0].severity, Severity::Hint));
    assert_eq!(diags[0].message, "Translation 'greeting' missing in: de, fr");
}

#[test]
fn incomplete_counts_non_source_locales_only() {
    // the key exists only in a non-source locale: the source locale is
    // not listed among the missing
    let mut cat = CatalogSnapshot::new();
    cat.add_locale("en".to_string());
    cat.add_locale("fr".to_string());
    cat.add_locale("de".to_string());
    cat.add_translation(
        "greeting".to_string(),
        "fr".to_string(),
        "Bonjour".to_string(),
        None,
    );
    let diags = compute_diagnostics(&vec![usage("greeting")], Some(&cat), "en");
    assert_eq!(diags.len(), 1);
    assert!(matches!(diags[0].code, DiagnosticCode::IncompleteTranslation));
    assert_eq!(diags[0].message, "Translation 'greeting' missing in: de");
}

#[test]
fn missing_source_locale_alone_yields_no_diagnostic() {
    // every non-source locale holds the key; only the source locale
    // lacks it, which the completeness rule does not report
    let mut cat = CatalogSnapshot::new();
    cat.add_locale("en".to_string());
    cat.add_locale("fr".to_string());
    cat.add_translation(
        "greeting".to_string(),
        "fr".to_string(),
        "Bonjour".to_string(),
        None,
    );
    let diags = compute_diagnostics(&vec![usage("greeting")], Some(&cat), "en");
    assert_eq!(diags.len(), 0);
}

#[test]
fn complete_key_yields_no_diagnostic() {
    let mut cat = CatalogSnapshot::new();
    cat.add_locale("en".to_string());
    cat.add_locale("fr".to_string());
    cat.add_translation(
        "greeting".to_string(),
        "en".to_string(),
        "Hello".to_string(),
        None,
    );
    cat.add_translation(
        "greeting".to_string(),
        "fr".to_string(),
        "Bonjour".to_string(),
        None,
    );
    let diags = compute_diagnostics(&vec![usage("greeting")], Some(&cat), "en");
    assert_eq!(diags.len(), 0);
}

#[test]
fn no_catalog_yields_no_diagnostics() {
    let diags = compute_diagnostics(&vec![usage("greeting")], None, "en");
    assert_eq!(diags.len(), 0);
}

#[test]
fn catalog_lookup_and_replacement() {
    let mut cat = CatalogSnapshot::new();
    cat.add_locale("en".to_string());
    assert!(!cat.key_exists("a"));
    cat.add_translation("a".to_string(), "en".to_string(), "one".to_string(), None);
    assert!(cat.key_exists("a"));
    assert_eq!(cat.get_translation("a", "en").unwrap(), "one");
    // the latest value for a (key, locale) pair wins
    cat.add_translation("a".to_string(), "en".to_string(), "two".to_string(), None);
    assert_eq!(cat.get_translation("a", "en").unwrap(), "two");
    assert!(cat.get_translation("a", "fr").is_none());
    assert!(cat.get_translation("b", "en").is_none());
}

#[test]
fn catalog_keys_and_locales() {
    let mut cat = CatalogSnapshot::new();
    cat.add_locale("fr".to_string());
    cat.add_locale("en".to_string());
    cat.add_locale("fr".to_string());
    let locales = cat.get_locales();
    assert_eq!(locales, vec!["en".to_string(), "fr".to_string()]);
    cat.add_translation("b".to_string(), "en".to_string(), "x".to_string(), None);
    cat.add_translation("a".to_string(), "en".to_string(), "y".to_string(), None);
    assert_eq!(cat.get_all_keys(), vec!["b".to_string(), "a".to_string()]);
}

#[test]
fn catalog_missing_locales_cover_all_known_locales() {
    // the catalog's own missing-locale query counts every known locale,
    // the source included; the diagnostics engine filters on top of it
    let mut cat = CatalogSnapshot::new();
    cat.add_locale("en".to_string());
    cat.add_locale("fr".to_string());
    cat.add_translation(
        "greeting".to_string(),
        "fr".to_string(),
        "Bonjour".to_string(),
        None,
    );
    assert_eq!(cat.get_missing_locales("greeting"), vec!["en".to_string()]);
}

#[test]
fn catalog_locale_files() {
    let mut cat = CatalogSnapshot::new();
    cat.add_locale("en".to_string());
    cat.add_locale_file("en".to_string(), "/ws/locales/en.json".to_string());
    cat.add_locale_file("fr".to_string(), "/ws/locales/fr.json".to_string());
    cat.add_locale_file("en".to_string(), "/ws/extra/en.json".to_string());
    assert_eq!(
        cat.get_locale_file_paths("en"),
        vec![
            "/ws/locales/en.json".to_string(),
            "/ws/extra/en.json".to_string()
        ]
    );
    assert_eq!(
        cat.get_locale_file_paths("fr"),
        vec!["/ws/locales/fr.json".to_string()]
    );
}

#[test]
fn catalog_translation_location() {
    let mut cat = CatalogSnapshot::new();
    cat.add_locale("en".to_string());
    cat.add_translation(
        "a".to_string(),
        "en".to_string(),
        "x".to_string(),
        Some(FileLocation {
            file_path: "/ws/en.json".to_string(),
            line: 7,
        }),
    );
    let loc = cat.get_translation_location("a", "en").unwrap();
    assert_eq!(loc.0, "/ws/en.json");
    assert_eq!(loc.1, 7);
    assert!(cat.get_translation_location("a", "fr").is_none());
}
