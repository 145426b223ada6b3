use std::sync::Arc;

use highlight_cache::cache::CacheStore;
use highlight_cache::theme::parse_theme;
use highlight_cache::theme::Theme;

#[test]
fn parse_theme_reads_the_color_mapping() {
    let parsed = parse_theme("{\"theme\": {\"keyword\": \"#ff0000\", \"string\": \"#00ff00\"}}");
    assert_eq!(
        parsed.theme,
        vec![
            ("keyword".to_string(), "#ff0000".to_string()),
            ("string".to_string(), "#00ff00".to_string()),
        ]
    );
}

#[test]
fn parse_theme_orders_entries_by_name() {
    let parsed = parse_theme("{\"theme\": {\"zeta\": \"z\", \"alpha\": \"a\"}}");
    assert_eq!(
        parsed.theme,
        vec![("alpha".to_string(), "a".to_string()), ("zeta".to_string(), "z".to_string())]
    );
}

#[test]
fn parse_theme_degrades_to_empty_on_malformed_input() {
    assert_eq!(parse_theme("not json at all").theme, Vec::new());
    assert_eq!(parse_theme("{}").theme, Vec::new());
    assert_eq!(parse_theme("{\"theme\": 17}").theme, Vec::new());
    assert_eq!(parse_theme("{\"theme\": {\"keyword\": 3}}").theme, Vec::new());
}

#[test]
fn calculate_hash_is_deterministic() {
    let a = Theme {
        theme: vec![("keyword".to_string(), "#ff0000".to_string())],
    };
    let b = Theme {
        theme: vec![("keyword".to_string(), "#ff0000".to_string())],
    };
    assert_eq!(a.calculate_hash(), b.calculate_hash());
}

#[test]
fn calculate_hash_depends_on_the_entries() {
    let a = Theme {
        theme: vec![("keyword".to_string(), "#ff0000".to_string())],
    };
    let b = Theme {
        theme: vec![("keyword".to_string(), "#0000ff".to_string())],
    };
    assert_ne!(a.calculate_hash(), b.calculate_hash());
}

#[test]
fn fingerprint_depends_on_the_mapping_not_the_json_order() {
    // the parser canonicalizes entries by name, so two definitions of the
    // same mapping fingerprint identically however their JSON orders them
    let a = parse_theme("{\"theme\": {\"zeta\": \"z\", \"alpha\": \"a\"}}");
    let b = parse_theme("{\"theme\": {\"alpha\": \"a\", \"zeta\": \"z\"}}");
    assert_eq!(a.theme, b.theme);
    assert_eq!(a.calculate_hash(), b.calculate_hash());
}

#[test]
fn identical_theme_text_returns_the_same_shared_mapping() {
    let mut store = CacheStore::new();
    let json = "{\"theme\": {\"keyword\": \"#ff0000\"}}";
    let first = store.get_cached_theme(json);
    let second = store.get_cached_theme(json);
    assert!(Arc::ptr_eq(&first, &second));
    assert_eq!(first.theme, second.theme);
}

#[test]
fn different_theme_texts_get_their_own_entries() {
    let mut store = CacheStore::new();
    let first = store.get_cached_theme("{\"theme\": {\"keyword\": \"#ff0000\"}}");
    let second = store.get_cached_theme("{\"theme\": {\"keyword\": \"#00ff00\"}}");
    assert!(!Arc::ptr_eq(&first, &second));
    assert_eq!(first.theme[0].1, "#ff0000");
    assert_eq!(second.theme[0].1, "#00ff00");
}

#[test]
fn failing_theme_text_is_cached_like_a_good_one() {
    let mut store = CacheStore::new();
    let first = store.get_cached_theme("broken {{{");
    let second = store.get_cached_theme("broken {{{");
    assert!(Arc::ptr_eq(&first, &second));
    assert_eq!(first.theme, Vec::new());
}
