use std::sync::Arc;

use highlight_cache::cache::HighlightCache;
use highlight_cache::diff::get_reused_ranges;
use highlight_cache::diff::get_text_changes;
use highlight_cache::diff::text_difference_ratio;
use highlight_cache::highlighting::decide_highlight;
use highlight_cache::highlighting::needs_recompute;
use highlight_cache::highlighting::try_incremental_highlight;
use highlight_cache::highlighting::HighlightDecision;
use highlight_cache::types::HighlightDelta;
use highlight_cache::types::HighlightRange;

fn make_tree(code: &str) -> Arc<tree_sitter::Tree> {
    let mut parser = tree_sitter::Parser::new();
    parser
        .set_language(&tree_sitter::Language::from(tree_sitter_cpp::LANGUAGE))
        .unwrap();
    Arc::new(parser.parse(code, None).unwrap())
}

fn make_entry(input: &str, version: u64, now: u64) -> HighlightCache {
    let delta = HighlightDelta {
        ranges: vec![HighlightRange { start: 0, end: 2, highlight_type: 0 }],
        highlight_names: vec!["keyword".to_string()],
        reused_ranges: None,
        version,
        changed_ranges: vec![(0, input.len())],
    };
    HighlightCache::new(
        make_tree(input),
        vec![HighlightRange { start: 0, end: 2, highlight_type: 0 }],
        delta,
        input.to_string(),
        now,
    )
}

#[test]
fn no_entry_forces_a_full_recompute() {
    let d = decide_highlight(None, "abcdef", 10);
    assert_eq!(d, HighlightDecision::NoCache);
    assert!(needs_recompute(d));
}

#[test]
fn stale_entry_forces_a_full_recompute() {
    let entry = make_entry("abcdef", 3, 0);
    let d = decide_highlight(Some(&entry), "abcdef", 301);
    assert_eq!(d, HighlightDecision::Stale);
    assert!(needs_recompute(d));
}

#[test]
fn identical_text_is_reused_with_version_unchanged() {
    // old == new == "abcdef": no change, ratio zero, verbatim reuse
    let entry = make_entry("abcdef", 3, 0);
    assert_eq!(get_text_changes("abcdef", "abcdef"), Vec::<(usize, usize)>::new());
    assert_eq!(text_difference_ratio("abcdef", "abcdef").0, 0);
    let d = decide_highlight(Some(&entry), "abcdef", 10);
    assert_eq!(d, HighlightDecision::Identical);
    assert!(!needs_recompute(d));
    let names = vec!["keyword".to_string()];
    let delta = try_incremental_highlight(&entry, "abcdef", &names).expect("verbatim reuse");
    assert_eq!(delta.version, 3);
    assert_eq!(delta.changed_ranges, Vec::<(usize, usize)>::new());
    assert_eq!(delta.reused_ranges, Some(vec![(0, 6)]));
    assert_eq!(delta.ranges.len(), entry.ranges.len());
}

#[test]
fn identical_requests_are_idempotent() {
    let entry = make_entry("abcdef", 3, 0);
    let names = vec!["keyword".to_string()];
    let first = try_incremental_highlight(&entry, "abcdef", &names).expect("first reuse");
    // answering verbatim writes nothing back, so the second request meets
    // the same entry
    let second = try_incremental_highlight(&entry, "abcdef", &names).expect("second reuse");
    assert_eq!(first.version, second.version);
    assert_eq!(second.changed_ranges, Vec::<(usize, usize)>::new());
}

#[test]
fn small_trailing_edit_is_a_partial_change() {
    // old "aaaa", new "aaab": ratio 1/4, below the 3/10 threshold
    let entry = make_entry("aaaa", 5, 0);
    let (num, den) = text_difference_ratio("aaaa", "aaab");
    assert_eq!((num, den), (1, 4));
    assert!((num as f64 / den as f64) < 0.3);
    let changes = get_text_changes("aaaa", "aaab");
    assert_eq!(changes, vec![(3, 4)]);
    assert_eq!(get_reused_ranges(&changes, 4), vec![(0, 3)]);
    let d = decide_highlight(Some(&entry), "aaab", 10);
    assert_eq!(d, HighlightDecision::PartialChange);
    // the contracted behavior: a partial change still recomputes fully
    assert!(needs_recompute(d));
    let names = vec!["keyword".to_string()];
    assert!(try_incremental_highlight(&entry, "aaab", &names).is_none());
}

#[test]
fn emptied_text_forces_a_full_recompute() {
    // old ten bytes, new empty: the positional measure compares no byte, so
    // the ratio is zero and the truncation marker is the one changed range;
    // the decision still falls to a full recompute
    let entry = make_entry("0123456789", 2, 0);
    let (num, den) = text_difference_ratio("0123456789", "");
    assert_eq!((num, den), (0, 10));
    assert_eq!(get_text_changes("0123456789", ""), vec![(0, 0)]);
    let d = decide_highlight(Some(&entry), "", 10);
    assert_eq!(d, HighlightDecision::PartialChange);
    assert!(needs_recompute(d));
    let names = vec!["keyword".to_string()];
    assert!(try_incremental_highlight(&entry, "", &names).is_none());
}

#[test]
fn very_different_text_is_too_different() {
    let entry = make_entry("aaaa", 1, 0);
    let d = decide_highlight(Some(&entry), "bbbb", 10);
    assert_eq!(d, HighlightDecision::TooDifferent);
    assert!(needs_recompute(d));
    let names = vec!["keyword".to_string()];
    assert!(try_incremental_highlight(&entry, "bbbb", &names).is_none());
}
