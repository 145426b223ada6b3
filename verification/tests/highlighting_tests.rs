use highlight_cache::cache::CacheStore;
use highlight_cache::highlighting::collect_highlight_ranges;
use highlight_cache::highlighting::default_highlight_names;
use highlight_cache::highlighting::full_highlight;
use highlight_cache::highlighting::get_language_from_tree;
use highlight_cache::highlighting::highlight_names_from_json;
use highlight_cache::highlighting::load_language;
use highlight_cache::highlighting::process_highlights;
use highlight_cache::highlighting::splice_reusable_ranges;
use highlight_cache::types::ExecutionResult;
use highlight_cache::types::HighlightError;
use highlight_cache::types::HighlightEventType;
use highlight_cache::types::HighlightRange;

#[test]
fn load_language_cpp() {
    assert!(load_language("cpp").is_ok());
}

#[test]
fn load_language_unknown() {
    assert!(load_language("unknown").is_err());
}

#[test]
fn all_registered_grammars_load() {
    assert!(load_language("javascript").is_ok());
    assert!(load_language("python").is_ok());
    assert_eq!(load_language("rust").unwrap_err(), HighlightError::UnsupportedLanguage);
}

#[test]
fn grammar_without_a_name_reads_back_as_unknown() {
    // this C++ grammar build records no name, so the fallback applies
    let mut parser = tree_sitter::Parser::new();
    parser
        .set_language(&tree_sitter::Language::from(tree_sitter_cpp::LANGUAGE))
        .unwrap();
    let tree = parser.parse("int x;", None).unwrap();
    assert_eq!(get_language_from_tree(&tree), "unknown");
}

#[test]
fn supplied_highlight_names_are_used() {
    let names = highlight_names_from_json("[\"keyword\", \"string\"]");
    assert_eq!(names, vec!["keyword".to_string(), "string".to_string()]);
}

#[test]
fn unparseable_highlight_names_fall_back_to_the_default_set() {
    let expected = vec![
        "keyword", "function", "type", "string", "number", "comment", "constant", "variable",
    ];
    assert_eq!(highlight_names_from_json("not json"), expected);
    assert_eq!(highlight_names_from_json("{\"a\": 1}"), expected);
    assert_eq!(default_highlight_names(), expected);
}

#[test]
fn events_fold_into_categorized_ranges() {
    let events = vec![
        HighlightEventType::Start { index: 2 },
        HighlightEventType::Source { start: 0, end: 5 },
        HighlightEventType::End,
        HighlightEventType::Source { start: 5, end: 9 },
        HighlightEventType::Start { index: 4 },
        HighlightEventType::Source { start: 9, end: 12 },
        HighlightEventType::End,
    ];
    let ranges = collect_highlight_ranges(&events);
    assert_eq!(
        ranges,
        vec![
            HighlightRange { start: 0, end: 5, highlight_type: 2 },
            HighlightRange { start: 9, end: 12, highlight_type: 4 },
        ]
    );
}

#[test]
fn process_without_prior_marks_everything_changed() {
    let events = vec![
        HighlightEventType::Start { index: 0 },
        HighlightEventType::Source { start: 0, end: 3 },
        HighlightEventType::End,
    ];
    let (delta, ranges) = process_highlights(
        events,
        vec!["keyword".to_string()],
        None,
        "int x;",
    );
    assert_eq!(ranges, vec![HighlightRange { start: 0, end: 3, highlight_type: 0 }]);
    assert_eq!(delta.ranges, ranges);
    assert_eq!(delta.version, 1);
    assert_eq!(delta.changed_ranges, vec![(0, 6)]);
    assert_eq!(delta.reused_ranges, None);
    assert_eq!(delta.highlight_names, vec!["keyword".to_string()]);
}

#[test]
fn splice_keeps_ranges_clear_of_the_changed_spans() {
    let cached = vec![
        HighlightRange { start: 0, end: 5, highlight_type: 0 },
        HighlightRange { start: 10, end: 15, highlight_type: 1 },
        HighlightRange { start: 20, end: 25, highlight_type: 2 },
    ];
    let spliced = splice_reusable_ranges(&cached, &vec![(8, 12)]);
    assert_eq!(
        spliced,
        vec![
            HighlightRange { start: 0, end: 5, highlight_type: 0 },
            HighlightRange { start: 20, end: 25, highlight_type: 2 },
        ]
    );
}

#[test]
fn splice_without_changes_keeps_everything() {
    let cached = vec![HighlightRange { start: 3, end: 9, highlight_type: 1 }];
    assert_eq!(splice_reusable_ranges(&cached, &Vec::new()), cached);
}

#[test]
fn full_highlight_rejects_an_unknown_language() {
    let mut store = CacheStore::new();
    let r = full_highlight(
        &mut store,
        "cobol",
        "x",
        "(identifier) @variable",
        "",
        "",
        "{}",
        vec!["variable".to_string()],
        0,
    );
    assert_eq!(r.unwrap_err(), HighlightError::UnsupportedLanguage);
    assert!(store.get_highlight_cache("cobol").is_none());
}

#[test]
fn full_highlight_rejects_a_broken_query() {
    let mut store = CacheStore::new();
    let r = full_highlight(
        &mut store,
        "cpp",
        "int x;",
        "(((",
        "",
        "",
        "{}",
        vec!["variable".to_string()],
        0,
    );
    assert_eq!(r.unwrap_err(), HighlightError::HighlightConfigurationError);
    assert!(store.get_highlight_cache("cpp").is_none());
}

#[test]
fn full_highlight_runs_and_versions_advance() {
    let mut store = CacheStore::new();
    let text = "int x;";
    let query = "(identifier) @variable";
    let names = vec!["variable".to_string()];
    let first = full_highlight(
        &mut store, "cpp", text, query, "", "", "{}", names.clone(), 100,
    )
    .expect("first pass succeeds");
    assert_eq!(first.version, 1);
    assert_eq!(first.changed_ranges, vec![(0, text.len())]);
    assert_eq!(first.reused_ranges, None);
    assert!(!first.ranges.is_empty());

    // the same text again: the prior entry is similar (identical), so the
    // recomputed delta reports no change and the next version
    let second = full_highlight(
        &mut store, "cpp", text, query, "", "", "{}", names.clone(), 110,
    )
    .expect("second pass succeeds");
    assert_eq!(second.version, 2);
    assert_eq!(second.changed_ranges, Vec::<(usize, usize)>::new());
    assert_eq!(second.reused_ranges, Some(vec![(0, text.len())]));

    // the stored entry now answers identical requests verbatim
    let entry = store.get_highlight_cache("cpp").expect("entry stored");
    assert!(entry.matches_input(text, 120));
    let reused = highlight_cache::highlighting::try_incremental_highlight(&entry, text, &names)
        .expect("verbatim reuse");
    assert_eq!(reused.version, 2);
    assert_eq!(reused.changed_ranges, Vec::<(usize, usize)>::new());

    // the one-call decision agrees, and a stale clock rules the reuse out
    let answered = highlight_cache::highlighting::try_reuse_highlight(
        &store, "cpp", text, &names, 120,
    )
    .expect("answered from the cache");
    assert_eq!(answered.version, 2);
    assert!(highlight_cache::highlighting::try_reuse_highlight(
        &store, "cpp", text, &names, 110 + 301,
    )
    .is_none());
    assert!(highlight_cache::highlighting::try_reuse_highlight(
        &store, "python", text, &names, 120,
    )
    .is_none());
}

#[test]
fn version_continues_even_when_texts_are_too_different() {
    // a recomputation always steps the version while an entry exists, even
    // when the new text is at or above the similarity threshold
    let mut store = CacheStore::new();
    let query = "(identifier) @variable";
    let names = vec!["variable".to_string()];
    let first = full_highlight(
        &mut store, "cpp", "int aaa;", query, "", "", "{}", names.clone(), 10,
    )
    .expect("first pass succeeds");
    assert_eq!(first.version, 1);
    let second = full_highlight(
        &mut store, "cpp", "while (x) { y(); }", query, "", "", "{}", names.clone(), 20,
    )
    .expect("second pass succeeds");
    assert_eq!(second.version, 2);
    assert_eq!(second.changed_ranges, vec![(0, "while (x) { y(); }".len())]);
    assert_eq!(second.reused_ranges, None);
    let third = full_highlight(
        &mut store, "cpp", "int aaa;", query, "", "", "{}", names.clone(), 30,
    )
    .expect("third pass succeeds");
    assert_eq!(third.version, 3);
}

#[test]
fn error_messages_name_the_failure() {
    assert_eq!(HighlightError::UnsupportedLanguage.message(), "unsupported language");
    assert_eq!(
        HighlightError::ThemeParseFailure.message(),
        "theme definition could not be parsed"
    );
    assert_eq!(
        HighlightError::HighlightConfigurationError.message(),
        "highlight configuration failed to compile"
    );
    assert_eq!(HighlightError::ParseFailure.message(), "parsing produced no syntax tree");
    assert_eq!(
        HighlightError::LockInconsistency.message(),
        "cache lock was left inconsistent"
    );
}

#[test]
fn execution_result_carries_both_outputs() {
    let with_compile = ExecutionResult {
        output: "hello\n".to_string(),
        compile_output: Some("warnings: none".to_string()),
    };
    assert_eq!(with_compile.output, "hello\n");
    assert_eq!(with_compile.compile_output.as_deref(), Some("warnings: none"));
    let plain = ExecutionResult { output: String::new(), compile_output: None };
    assert!(plain.compile_output.is_none());
}
