use std::sync::Arc;

use highlight_cache::cache::combined_input_hash;
use highlight_cache::cache::text_hash_key;
use highlight_cache::cache::CacheStore;
use highlight_cache::cache::HighlightCache;
use highlight_cache::types::HighlightDelta;
use highlight_cache::types::HighlightRange;

fn make_tree(code: &str) -> Arc<tree_sitter::Tree> {
    let mut parser = tree_sitter::Parser::new();
    parser
        .set_language(&tree_sitter::Language::from(tree_sitter_cpp::LANGUAGE))
        .unwrap();
    Arc::new(parser.parse(code, None).unwrap())
}

fn make_delta(version: u64, text_len: usize) -> HighlightDelta {
    HighlightDelta {
        ranges: vec![HighlightRange { start: 0, end: 3, highlight_type: 1 }],
        highlight_names: vec!["keyword".to_string()],
        reused_ranges: None,
        version,
        changed_ranges: vec![(0, text_len)],
    }
}

fn make_entry(input: &str, version: u64, now: u64) -> HighlightCache {
    HighlightCache::new(
        make_tree(input),
        vec![HighlightRange { start: 0, end: 3, highlight_type: 1 }],
        make_delta(version, input.len()),
        input.to_string(),
        now,
    )
}

#[test]
fn entry_carries_version_from_delta_and_time_from_caller() {
    let entry = make_entry("int x;", 7, 1234);
    assert_eq!(entry.version, 7);
    assert_eq!(entry.delta.version, 7);
    assert_eq!(entry.last_update, 1234);
    assert_eq!(entry.input, "int x;");
}

#[test]
fn staleness_begins_after_the_window() {
    let entry = make_entry("int x;", 1, 0);
    assert!(!entry.is_stale(0));
    assert!(!entry.is_stale(300));
    assert!(entry.is_stale(301));
    assert!(entry.is_stale(100_000));
}

#[test]
fn clock_running_backwards_is_not_stale() {
    let entry = make_entry("int x;", 1, 500);
    assert!(!entry.is_stale(400));
}

#[test]
fn stale_entry_never_matches_any_input() {
    let entry = make_entry("int x;", 1, 0);
    // byte-identical text, but 301 seconds later
    assert!(!entry.matches_input("int x;", 301));
    // within the window the same text matches
    assert!(entry.matches_input("int x;", 300));
}

#[test]
fn matches_input_respects_the_similarity_threshold() {
    let entry = make_entry("aaaa", 1, 0);
    assert!(entry.matches_input("aaab", 10));
    assert!(!entry.matches_input("bbbb", 10));
}

#[test]
fn highlight_cache_is_keyed_by_language() {
    let mut store = CacheStore::new();
    let text = "int x;";
    let hash = combined_input_hash(text, "cpp");
    store.update_highlight_cache(
        "cpp".to_string(),
        hash,
        make_tree(text),
        text.to_string(),
        vec![HighlightRange { start: 0, end: 3, highlight_type: 1 }],
        make_delta(1, text.len()),
        50,
    );
    let entry = store.get_highlight_cache("cpp").expect("entry stored for cpp");
    assert_eq!(entry.version, 1);
    assert_eq!(entry.input, text);
    assert_eq!(entry.last_update, 50);
    assert!(store.get_highlight_cache("python").is_none());
}

#[test]
fn update_replaces_the_language_slot_wholesale() {
    let mut store = CacheStore::new();
    let first = "int x;";
    let second = "int x; int y;";
    store.update_highlight_cache(
        "cpp".to_string(),
        combined_input_hash(first, "cpp"),
        make_tree(first),
        first.to_string(),
        Vec::new(),
        make_delta(1, first.len()),
        10,
    );
    store.update_highlight_cache(
        "cpp".to_string(),
        combined_input_hash(second, "cpp"),
        make_tree(second),
        second.to_string(),
        Vec::new(),
        make_delta(2, second.len()),
        20,
    );
    let entry = store.get_highlight_cache("cpp").expect("entry stored for cpp");
    assert_eq!(entry.version, 2);
    assert_eq!(entry.input, second);
    assert_eq!(entry.last_update, 20);
}

#[test]
fn parse_lookup_needs_hash_and_exact_text() {
    let mut store = CacheStore::new();
    let text = "int x;";
    let hash = combined_input_hash(text, "cpp");
    store.update_highlight_cache(
        "cpp".to_string(),
        hash,
        make_tree(text),
        text.to_string(),
        Vec::new(),
        make_delta(1, text.len()),
        0,
    );
    assert!(store.lookup_parse_tree(hash, text).is_some());
    // same key, different text: the collision guard treats it as a miss
    assert!(store.lookup_parse_tree(hash, "int y;").is_none());
    // different key: a plain miss
    assert!(store.lookup_parse_tree(hash.wrapping_add(1), text).is_none());
}

#[test]
fn text_hash_keys_are_deterministic() {
    assert_eq!(text_hash_key("abc"), text_hash_key("abc"));
    assert_ne!(text_hash_key("abc"), text_hash_key("abd"));
    assert_eq!(combined_input_hash("abc", "cpp"), combined_input_hash("abc", "cpp"));
    assert_ne!(combined_input_hash("abc", "cpp"), combined_input_hash("abc", "python"));
}
