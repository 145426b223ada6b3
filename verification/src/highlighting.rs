//! Grammar loading, highlight-event processing and the reuse decision.
//!
//! The grammar-driven work itself — parsing a text and classifying its spans
//! — is delegated to outside crates behind a handful of trusted wrappers.
//! Everything that can be decided from plain values is verified here: which
//! grammars are registered, how a stream of highlight events folds into
//! ranges, how a new outcome relates to the cached one, and when a cached
//! outcome may be reused.

use vstd::prelude::*;

verus! {

use std::sync::Arc;
use vstd::string::StringSliceAdditionalSpecFns;

use core::hash::Hasher;
use std::collections::hash_map::DefaultHasher;
use vstd::std_specs::hash::DefaultHasherAdditionalSpecFns;

use crate::cache::CacheStore;
use crate::cache::HighlightCache;
use crate::cache::arc_as_ref;
use crate::cache::arc_clone;
use crate::cache::combined_input_hash;
use crate::diff::is_similar;
use crate::diff::ranges_model;
use crate::diff::spec_reused_ranges;
use crate::diff::spec_text_changes;
use crate::diff::str_eq;
use crate::types::HighlightDelta;
use crate::types::HighlightError;
use crate::types::HighlightEventType;
use crate::types::HighlightRange;
use vstd::utf8::encode_utf8;

#[verifier::external_type_specification]
#[verifier::external_body]
pub struct ExTree(tree_sitter::Tree);

#[verifier::external_type_specification]
#[verifier::external_body]
pub struct ExLanguage(tree_sitter::Language);

#[verifier::external_type_specification]
#[verifier::external_body]
pub struct ExParser(tree_sitter::Parser);

#[verifier::external_type_specification]
#[verifier::external_body]
pub struct ExHighlighter(tree_sitter_highlight::Highlighter);

#[verifier::external_type_specification]
#[verifier::external_body]
pub struct ExHighlightConfiguration(tree_sitter_highlight::HighlightConfiguration);

/// Relies on tree_sitter_cpp::LANGUAGE: the C++ grammar as a runtime handle.
#[verifier::external_body]
fn language_cpp() -> tree_sitter::Language {
    tree_sitter::Language::from(tree_sitter_cpp::LANGUAGE)
}

/// Relies on tree_sitter_javascript::LANGUAGE: the JavaScript grammar as a
/// runtime handle.
#[verifier::external_body]
fn language_javascript() -> tree_sitter::Language {
    tree_sitter::Language::from(tree_sitter_javascript::LANGUAGE)
}

/// Relies on tree_sitter_python::LANGUAGE: the Python grammar as a runtime
/// handle.
#[verifier::external_body]
fn language_python() -> tree_sitter::Language {
    tree_sitter::Language::from(tree_sitter_python::LANGUAGE)
}

/// Which grammars are registered: exactly C++, JavaScript and Python.
pub open spec fn supported_language(name: Seq<char>) -> bool {
    name == "cpp"@ || name == "javascript"@ || name == "python"@
}

/// The grammar registered under the given name.  Every other name is an
/// [`HighlightError::UnsupportedLanguage`] failure.
pub fn load_language(language_name: &str) -> (r: Result<tree_sitter::Language, HighlightError>)
    ensures
        r is Ok <==> supported_language(language_name@),
        r matches Err(e) ==> e == HighlightError::UnsupportedLanguage,
{
    if str_eq(language_name, "cpp") {
        Ok(language_cpp())
    } else if str_eq(language_name, "javascript") {
        Ok(language_javascript())
    } else if str_eq(language_name, "python") {
        Ok(language_python())
    } else {
        Err(HighlightError::UnsupportedLanguage)
    }
}

/// Relies on Tree::language and Language::name: the name the grammar behind
/// the tree was generated with, or "unknown" where the grammar records none.
#[verifier::external_body]
pub fn get_language_from_tree(tree: &tree_sitter::Tree) -> String {
    match tree.language().name() {
        Some(name) => name.to_string(),
        None => "unknown".to_string(),
    }
}

/// Relies on Parser::new: a parser with no language assigned yet.
#[verifier::external_body]
fn new_parser() -> tree_sitter::Parser {
    tree_sitter::Parser::new()
}

/// Relies on Parser::set_language: true exactly when the grammar could be
/// assigned; it fails on a grammar whose version the runtime does not
/// support or that is not parseable.
#[verifier::external_body]
fn parser_set_language(
    parser: &mut tree_sitter::Parser,
    language: &tree_sitter::Language,
) -> bool {
    parser.set_language(language).is_ok()
}

/// Relies on Parser::parse: a new syntax tree for the text, taking the prior
/// artifact as a reuse hint when one is supplied; no tree comes back when
/// the parser has no language assigned or parsing was broken off.
#[verifier::external_body]
fn parser_parse(
    parser: &mut tree_sitter::Parser,
    text: &str,
    old_tree: Option<&Arc<tree_sitter::Tree>>,
) -> Option<tree_sitter::Tree> {
    parser.parse(text, old_tree.map(|t| &**t))
}

/// Relies on Highlighter::new.
#[verifier::external_body]
fn new_highlighter() -> tree_sitter_highlight::Highlighter {
    tree_sitter_highlight::Highlighter::new()
}

/// Whether the three highlight query texts compile against the grammar
/// registered under the given language name.  Query compilation is a pure
/// function of the grammar and the query texts.
pub uninterp spec fn queries_compile_of(
    language: Seq<char>,
    highlights: Seq<char>,
    injections: Seq<char>,
    locals: Seq<char>,
) -> bool;

/// Relies on HighlightConfiguration::new over the C++ grammar: whether the
/// query texts compile against a fixed grammar is a function of the texts
/// alone.
#[verifier::external_body]
fn cpp_highlight_configuration(
    highlights_query: &str,
    injection_query: &str,
    locals_query: &str,
) -> (r: Option<tree_sitter_highlight::HighlightConfiguration>)
    ensures
        r is Some <==> queries_compile_of(
            "cpp"@,
            highlights_query@,
            injection_query@,
            locals_query@,
        ),
{
    tree_sitter_highlight::HighlightConfiguration::new(
        tree_sitter_cpp::LANGUAGE.into(),
        "highlighter",
        highlights_query,
        injection_query,
        locals_query,
    ).ok()
}

/// Relies on HighlightConfiguration::new over the JavaScript grammar, as
/// for the C++ grammar.
#[verifier::external_body]
fn javascript_highlight_configuration(
    highlights_query: &str,
    injection_query: &str,
    locals_query: &str,
) -> (r: Option<tree_sitter_highlight::HighlightConfiguration>)
    ensures
        r is Some <==> queries_compile_of(
            "javascript"@,
            highlights_query@,
            injection_query@,
            locals_query@,
        ),
{
    tree_sitter_highlight::HighlightConfiguration::new(
        tree_sitter_javascript::LANGUAGE.into(),
        "highlighter",
        highlights_query,
        injection_query,
        locals_query,
    ).ok()
}

/// Relies on HighlightConfiguration::new over the Python grammar, as for
/// the C++ grammar.
#[verifier::external_body]
fn python_highlight_configuration(
    highlights_query: &str,
    injection_query: &str,
    locals_query: &str,
) -> (r: Option<tree_sitter_highlight::HighlightConfiguration>)
    ensures
        r is Some <==> queries_compile_of(
            "python"@,
            highlights_query@,
            injection_query@,
            locals_query@,
        ),
{
    tree_sitter_highlight::HighlightConfiguration::new(
        tree_sitter_python::LANGUAGE.into(),
        "highlighter",
        highlights_query,
        injection_query,
        locals_query,
    ).ok()
}

/// The compiled highlight configuration for the named grammar: present
/// exactly when the grammar is registered and the query texts compile
/// against it.
fn configuration_for_language(
    language_name: &str,
    highlights_query: &str,
    injection_query: &str,
    locals_query: &str,
) -> (r: Option<tree_sitter_highlight::HighlightConfiguration>)
    ensures
        r is Some <==> supported_language(language_name@) && queries_compile_of(
            language_name@,
            highlights_query@,
            injection_query@,
            locals_query@,
        ),
{
    if str_eq(language_name, "cpp") {
        cpp_highlight_configuration(highlights_query, injection_query, locals_query)
    } else if str_eq(language_name, "javascript") {
        javascript_highlight_configuration(highlights_query, injection_query, locals_query)
    } else if str_eq(language_name, "python") {
        python_highlight_configuration(highlights_query, injection_query, locals_query)
    } else {
        None
    }
}

/// Relies on HighlightConfiguration::configure: restricts recognition to the
/// given category names.
#[verifier::external_body]
fn configure_highlight_names(
    config: &mut tree_sitter_highlight::HighlightConfiguration,
    names: &Vec<String>,
) {
    config.configure(names);
}

/// Relies on Highlighter::highlight: the highlight events for the text under
/// the given configuration, each converted to the crate's own event type;
/// any error — a cancellation or a grammar mismatch — yields nothing.
#[verifier::external_body]
fn run_highlighter(
    highlighter: &mut tree_sitter_highlight::Highlighter,
    config: &tree_sitter_highlight::HighlightConfiguration,
    text: &str,
) -> Option<Vec<HighlightEventType>> {
    let events = highlighter.highlight(config, text.as_bytes(), None, None, |_| None).ok()?;
    let mut out = Vec::new();
    for event in events {
        out.push(match event.ok()? {
            tree_sitter_highlight::HighlightEvent::Source { start, end } => HighlightEventType::Source { start, end },
            tree_sitter_highlight::HighlightEvent::HighlightStart(h) => HighlightEventType::Start { index: h.0 },
            tree_sitter_highlight::HighlightEvent::HighlightEnd => HighlightEventType::End,
        });
    }
    Some(out)
}

/// What parsing a JSON array of strings yields, or nothing where the text
/// is no such array.
pub uninterp spec fn string_list_of(s: Seq<char>) -> Option<Seq<Seq<char>>>;

/// Relies on serde_json::from_str: parsing is a function of the input text
/// alone.
#[verifier::external_body]
fn parse_string_list(s: &str) -> (r: Option<Vec<String>>)
    ensures
        match r {
            Some(v) => string_list_of(s@) == Some(v.deep_view()),
            None => string_list_of(s@) is None,
        },
{
    serde_json::from_str::<Vec<String>>(s).ok()
}

/// The fixed fallback category names.
pub open spec fn spec_default_highlight_names() -> Seq<Seq<char>> {
    seq![
        "keyword"@,
        "function"@,
        "type"@,
        "string"@,
        "number"@,
        "comment"@,
        "constant"@,
        "variable"@,
    ]
}

/// The fixed fallback category names, used when a caller supplies none.
pub fn default_highlight_names() -> (r: Vec<String>)
    ensures
        r.deep_view() == spec_default_highlight_names(),
{
    let mut v: Vec<String> = Vec::new();
    v.push("keyword".to_owned());
    v.push("function".to_owned());
    v.push("type".to_owned());
    v.push("string".to_owned());
    v.push("number".to_owned());
    v.push("comment".to_owned());
    v.push("constant".to_owned());
    v.push("variable".to_owned());
    proof {
        assert(v.deep_view() =~= spec_default_highlight_names());
    }
    v
}

/// The category names for a request: the names in the given JSON array, or
/// the fixed default set where the text is no array of strings.
pub fn highlight_names_from_json(names_json: &str) -> (r: Vec<String>)
    ensures
        match string_list_of(names_json@) {
            Some(names) => r.deep_view() == names,
            None => r.deep_view() == spec_default_highlight_names(),
        },
{
    match parse_string_list(names_json) {
        Some(names) => names,
        None => default_highlight_names(),
    }
}

/// The ranges a stream of highlight events folds into: each source span is
/// tagged with the category opened by the latest unclosed start event, and
/// source spans outside any category are dropped.
pub open spec fn ranges_of_events(
    events: Seq<HighlightEventType>,
    current: Option<usize>,
) -> Seq<HighlightRange>
    decreases events.len(),
{
    if events.len() == 0 {
        Seq::<HighlightRange>::empty()
    } else {
        let rest = events.drop_first();
        match events[0] {
            HighlightEventType::Start { index } => ranges_of_events(rest, Some(index)),
            HighlightEventType::End => ranges_of_events(rest, None),
            HighlightEventType::Source { start, end } => (match current {
                Some(t) => seq![HighlightRange { start, end, highlight_type: t }],
                None => Seq::<HighlightRange>::empty(),
            }) + ranges_of_events(rest, current),
        }
    }
}

/// The highlight ranges of an event stream, starting outside any category.
pub fn collect_highlight_ranges(events: &Vec<HighlightEventType>) -> (r: Vec<HighlightRange>)
    ensures
        r@ == ranges_of_events(events@, None),
{
    let mut out: Vec<HighlightRange> = Vec::new();
    let mut current: Option<usize> = None;
    let mut i: usize = 0;
    proof {
        assert(events@.skip(0) =~= events@);
        assert(Seq::<HighlightRange>::empty() + ranges_of_events(events@, None) =~= ranges_of_events(
            events@,
            None,
        ));
    }
    while i < events.len()
        invariant
            i <= events@.len(),
            out@ + ranges_of_events(events@.skip(i as int), current) == ranges_of_events(
                events@,
                None,
            ),
        decreases events@.len() - i,
    {
        let event = events[i];
        proof {
            assert(events@.skip(i as int)[0] == event);
            assert(events@.skip(i as int).drop_first() =~= events@.skip(i as int + 1));
        }
        match event {
            HighlightEventType::Start { index } => {
                current = Some(index);
            },
            HighlightEventType::End => {
                current = None;
            },
            HighlightEventType::Source { start, end } => {
                if let Some(t) = current {
                    let pushed = HighlightRange { start, end, highlight_type: t };
                    proof {
                        assert((out@ + seq![pushed]) + ranges_of_events(
                            events@.skip(i as int + 1),
                            current,
                        ) =~= out@ + (seq![pushed] + ranges_of_events(
                            events@.skip(i as int + 1),
                            current,
                        )));
                        assert(out@.push(pushed) =~= out@ + seq![pushed]);
                    }
                    out.push(pushed);
                } else {
                    proof {
                        assert(Seq::<HighlightRange>::empty() + ranges_of_events(
                            events@.skip(i as int + 1),
                            current,
                        ) =~= ranges_of_events(events@.skip(i as int + 1), current));
                    }
                }
            },
        }
        i = i + 1;
    }
    proof {
        assert(events@.skip(i as int) =~= Seq::<HighlightEventType>::empty());
        assert(out@ + Seq::<HighlightRange>::empty() =~= out@);
    }
    out
}

/// The version after `v`.  The counter is monotone and saturates at its
/// ceiling rather than wrapping.
pub open spec fn spec_next_version(v: u64) -> u64 {
    if v < u64::MAX {
        (v + 1) as u64
    } else {
        v
    }
}

/// Versions never regress: whenever a prior outcome exists, a
/// recomputation assigns the next version after it (see
/// [`process_highlights`]), which is at least the version it follows; an
/// identical-text request leaves the version unchanged altogether (see
/// [`try_incremental_highlight`]).  The version of a language's outcome is
/// therefore monotone across its lifetime.
pub proof fn lemma_version_monotone(v: u64)
    ensures
        spec_next_version(v) >= v,
{
}

/// The version a recomputed outcome gets after an outcome of version `v`.
pub fn next_version(v: u64) -> (r: u64)
    ensures
        r == spec_next_version(v),
{
    if v < u64::MAX {
        v + 1
    } else {
        v
    }
}

/// The version a first outcome starts at.
pub const STARTING_VERSION: u64 = 1;

/// Builds the delta of a freshly recomputed outcome from the highlighter's
/// events.  When a prior outcome for the language exists, the delta always
/// carries the next version after it — the counter never restarts while an
/// entry exists — and, when the prior text also lies below the similarity
/// threshold, reports the positional changes against it and their reusable
/// complement; against a too-different prior text the whole text counts as
/// changed and nothing as reusable.  Only with no prior outcome does the
/// version start at [`STARTING_VERSION`].  Returned are the delta and the
/// folded ranges (the delta carries its own copy of them).
pub fn process_highlights(
    events: Vec<HighlightEventType>,
    highlight_names: Vec<String>,
    prior: Option<&HighlightCache>,
    text: &str,
) -> (r: (HighlightDelta, Vec<HighlightRange>))
    ensures
        r.1@ == ranges_of_events(events@, None),
        r.0@.ranges == r.1@,
        r.0@.highlight_names == highlight_names.deep_view(),
        match prior {
            None => r.0@.version == STARTING_VERSION && ranges_model(r.0@.changed_ranges) == seq![
                (0int, text.spec_bytes().len() as int),
            ] && r.0@.reused_ranges is None,
            Some(c) => {
                &&& r.0@.version == spec_next_version(c.version)
                &&& if is_similar(encode_utf8(c.input@), text.spec_bytes()) {
                    &&& ranges_model(r.0@.changed_ranges) == spec_text_changes(
                        encode_utf8(c.input@),
                        text.spec_bytes(),
                    )
                    &&& r.0@.reused_ranges matches Some(rr) && ranges_model(rr)
                        == spec_reused_ranges(
                        spec_text_changes(encode_utf8(c.input@), text.spec_bytes()),
                        text.spec_bytes().len() as int,
                    )
                } else {
                    &&& ranges_model(r.0@.changed_ranges) == seq![
                        (0int, text.spec_bytes().len() as int),
                    ]
                    &&& r.0@.reused_ranges is None
                }
            },
        },
{
    let ranges = collect_highlight_ranges(&events);
    let ranges_for_delta = crate::types::clone_ranges(&ranges);
    let text_len = text.as_bytes().len();
    let mut version: u64 = STARTING_VERSION;
    let mut reused: Option<Vec<(usize, usize)>> = None;
    let mut changed: Vec<(usize, usize)> = Vec::new();
    changed.push((0, text_len));
    proof {
        assert(ranges_model(changed@) =~= seq![(0int, text.spec_bytes().len() as int)]);
    }
    if let Some(c) = prior {
        version = next_version(c.version);
        if crate::diff::texts_similar(c.input.as_str(), text) {
            let fresh_changes = crate::diff::get_text_changes(c.input.as_str(), text);
            let fresh_reused = crate::diff::get_reused_ranges(&fresh_changes, text_len);
            changed = fresh_changes;
            reused = Some(fresh_reused);
        }
    }
    let delta = HighlightDelta {
        ranges: ranges_for_delta,
        highlight_names,
        reused_ranges: reused,
        version,
        changed_ranges: changed,
    };
    (delta, ranges)
}

/// How many leading ranges end at or before `bound`.
pub open spec fn count_ending_by(cached: Seq<HighlightRange>, bound: int) -> int
    decreases cached.len(),
{
    if cached.len() == 0 {
        0
    } else if cached[0].end <= bound {
        1 + count_ending_by(cached.drop_first(), bound)
    } else {
        0
    }
}

/// How many leading ranges start before `bound`.
pub open spec fn count_starting_before(cached: Seq<HighlightRange>, bound: int) -> int
    decreases cached.len(),
{
    if cached.len() == 0 {
        0
    } else if cached[0].start < bound {
        1 + count_starting_before(cached.drop_first(), bound)
    } else {
        0
    }
}

/// The count never leaves the list's bounds.
proof fn lemma_count_ending_by_bounds(cached: Seq<HighlightRange>, bound: int)
    ensures
        0 <= count_ending_by(cached, bound) <= cached.len(),
    decreases cached.len(),
{
    if cached.len() > 0 {
        lemma_count_ending_by_bounds(cached.drop_first(), bound);
    }
}

/// When the first `n` ranges end by `bound` and the next one does not, the
/// count is exactly `n`.
proof fn lemma_count_ending_by_exact(cached: Seq<HighlightRange>, bound: int, n: int)
    requires
        0 <= n <= cached.len(),
        forall|j: int| 0 <= j < n ==> cached[j].end <= bound,
        n < cached.len() ==> !(cached[n].end <= bound),
    ensures
        count_ending_by(cached, bound) == n,
    decreases n,
{
    if n > 0 {
        lemma_count_ending_by_exact(cached.drop_first(), bound, n - 1);
    }
}

/// When the first `n` ranges start before `bound` and the next one does
/// not, the count is exactly `n`.
proof fn lemma_count_starting_before_exact(cached: Seq<HighlightRange>, bound: int, n: int)
    requires
        0 <= n <= cached.len(),
        forall|j: int| 0 <= j < n ==> cached[j].start < bound,
        n < cached.len() ==> !(cached[n].start < bound),
    ensures
        count_starting_before(cached, bound) == n,
    decreases n,
{
    if n > 0 {
        lemma_count_starting_before_exact(cached.drop_first(), bound, n - 1);
    }
}

/// The cached ranges that survive the changed spans untouched: before each
/// changed span, the leading ranges that end by the span's start are kept
/// and the following ranges that start inside the span are dropped; what is
/// left after the last span is kept whole.
pub open spec fn spec_splice(cached: Seq<HighlightRange>, changed: Seq<(int, int)>) -> Seq<
    HighlightRange,
>
    decreases changed.len(),
{
    if changed.len() == 0 {
        cached
    } else {
        let kept = count_ending_by(cached, changed[0].0);
        let rest = cached.skip(kept);
        let dropped = count_starting_before(rest, changed[0].1);
        cached.take(kept) + spec_splice(rest.skip(dropped), changed.drop_first())
    }
}

/// The cached ranges not touched by any changed span: those that end before
/// each span begins, and those after the last span.  Every range that
/// touches a span is dropped — it would have to be recomputed.  This is
/// groundwork for a spliced incremental outcome; the current decision
/// computes it and still falls back to a full recomputation (see
/// [`try_incremental_highlight`]).
pub fn splice_reusable_ranges(
    cached: &Vec<HighlightRange>,
    changed_ranges: &Vec<(usize, usize)>,
) -> (r: Vec<HighlightRange>)
    ensures
        r@ == spec_splice(cached@, ranges_model(changed_ranges@)),
{
    let ghost cm = ranges_model(changed_ranges@);
    let ghost total = spec_splice(cached@, cm);
    let mut out: Vec<HighlightRange> = Vec::new();
    let mut old_idx: usize = 0;
    let mut ci: usize = 0;
    proof {
        assert(cached@.skip(0) =~= cached@);
        assert(cm.skip(0) =~= cm);
        assert(out@ =~= Seq::<HighlightRange>::empty());
        assert(Seq::<HighlightRange>::empty() + total =~= total);
    }
    while ci < changed_ranges.len()
        invariant
            ci <= changed_ranges@.len(),
            old_idx <= cached@.len(),
            cm == ranges_model(changed_ranges@),
            out@ + spec_splice(cached@.skip(old_idx as int), cm.skip(ci as int)) == spec_splice(
                cached@,
                cm,
            ),
        decreases changed_ranges@.len() - ci,
    {
        let change = changed_ranges[ci];
        let ghost pre_out = out@;
        let ghost pre_oi = old_idx as int;
        let ghost rem = cached@.skip(pre_oi);
        let ghost cm_rem = cm.skip(ci as int);
        proof {
            assert(cm_rem[0] == (change.0 as int, change.1 as int));
            assert(cm_rem.drop_first() =~= cm.skip(ci as int + 1));
        }
        while old_idx < cached.len() && cached[old_idx].end <= change.0
            invariant
                0 <= pre_oi <= old_idx <= cached@.len(),
                forall|j: int| pre_oi <= j < old_idx ==> cached@[j].end <= change.0 as int,
                out@ == pre_out + cached@.subrange(pre_oi, old_idx as int),
            decreases cached@.len() - old_idx,
        {
            proof {
                assert(cached@.subrange(pre_oi, old_idx as int).push(cached@[old_idx as int]) =~= cached@.subrange(
                    pre_oi,
                    old_idx as int + 1,
                ));
            }
            out.push(cached[old_idx]);
            old_idx = old_idx + 1;
        }
        let ghost mid_oi = old_idx as int;
        proof {
            assert forall|j: int| 0 <= j < mid_oi - pre_oi implies rem[j].end <= change.0 as int by {
                assert(rem[j] == cached@[pre_oi + j]);
            }
            if mid_oi < cached@.len() {
                assert(rem[mid_oi - pre_oi] == cached@[mid_oi]);
            }
            lemma_count_ending_by_exact(rem, change.0 as int, mid_oi - pre_oi);
        }
        while old_idx < cached.len() && cached[old_idx].start < change.1
            invariant
                0 <= pre_oi <= mid_oi <= old_idx,
                old_idx <= cached@.len(),
                forall|j: int| mid_oi <= j < old_idx ==> cached@[j].start < change.1 as int,
                out@ == pre_out + cached@.subrange(pre_oi, mid_oi),
            decreases cached@.len() - old_idx,
        {
            old_idx = old_idx + 1;
        }
        proof {
            let kept = mid_oi - pre_oi;
            let rest = rem.skip(kept);
            assert(rest =~= cached@.skip(mid_oi));
            assert forall|j: int| 0 <= j < old_idx - mid_oi implies rest[j].start < change.1 as int by {
                assert(rest[j] == cached@[mid_oi + j]);
            }
            if old_idx < cached@.len() {
                assert(rest[old_idx - mid_oi] == cached@[old_idx as int]);
            }
            lemma_count_starting_before_exact(rest, change.1 as int, old_idx - mid_oi);
            assert(rem.take(kept) =~= cached@.subrange(pre_oi, mid_oi));
            assert(rest.skip(old_idx - mid_oi) =~= cached@.skip(old_idx as int));
            assert(spec_splice(rem, cm_rem) == rem.take(kept) + spec_splice(
                cached@.skip(old_idx as int),
                cm.skip(ci as int + 1),
            ));
            assert(pre_out + (rem.take(kept) + spec_splice(
                cached@.skip(old_idx as int),
                cm.skip(ci as int + 1),
            )) =~= (pre_out + rem.take(kept)) + spec_splice(
                cached@.skip(old_idx as int),
                cm.skip(ci as int + 1),
            ));
        }
        ci = ci + 1;
    }
    proof {
        assert(cm.skip(ci as int) =~= Seq::<(int, int)>::empty());
        assert(spec_splice(cached@.skip(old_idx as int), cm.skip(ci as int)) == cached@.skip(
            old_idx as int,
        ));
    }
    let mut tail_idx: usize = old_idx;
    while tail_idx < cached.len()
        invariant
            old_idx <= tail_idx <= cached@.len(),
            out@ + cached@.skip(tail_idx as int) == spec_splice(cached@, cm),
        decreases cached@.len() - tail_idx,
    {
        proof {
            assert(cached@.skip(tail_idx as int)[0] == cached@[tail_idx as int]);
            assert(cached@.skip(tail_idx as int) =~= seq![cached@[tail_idx as int]] + cached@.skip(
                tail_idx as int + 1,
            ));
            assert((out@ + seq![cached@[tail_idx as int]]) + cached@.skip(tail_idx as int + 1)
                =~= out@ + (seq![cached@[tail_idx as int]] + cached@.skip(tail_idx as int + 1)));
            assert(out@.push(cached@[tail_idx as int]) =~= out@ + seq![cached@[tail_idx as int]]);
        }
        out.push(cached[tail_idx]);
        tail_idx = tail_idx + 1;
    }
    proof {
        assert(cached@.skip(tail_idx as int) =~= Seq::<HighlightRange>::empty());
        assert(out@ + Seq::<HighlightRange>::empty() =~= out@);
    }
    out
}

/// The verbatim reuse of a cached outcome: its own ranges under its own
/// version, the whole text reported reusable, and no changed range.
fn verbatim_delta(
    cache: &HighlightCache,
    highlight_names: &Vec<String>,
    text_len: usize,
) -> (d: HighlightDelta)
    ensures
        d@.ranges == cache.ranges@,
        d@.highlight_names == highlight_names.deep_view(),
        d@.version == cache.version,
        d@.changed_ranges == Seq::<(usize, usize)>::empty(),
        d@.reused_ranges matches Some(rr) && ranges_model(rr) == seq![(0int, text_len as int)],
{
    let mut reused: Vec<(usize, usize)> = Vec::new();
    reused.push((0, text_len));
    let changed: Vec<(usize, usize)> = Vec::new();
    proof {
        assert(ranges_model(reused@) =~= seq![(0int, text_len as int)]);
        assert(changed@ =~= Seq::<(usize, usize)>::empty());
    }
    HighlightDelta {
        ranges: crate::types::clone_ranges(&cache.ranges),
        highlight_names: crate::types::clone_strings(highlight_names),
        reused_ranges: Some(reused),
        version: cache.version,
        changed_ranges: changed,
    }
}

/// The reuse decision against one cached outcome, without regard to
/// staleness (callers rule a stale entry out first, see
/// [`HighlightCache::matches_input`]).  An outcome comes back verbatim when
/// the texts are identical byte for byte, or — the same thing under a
/// positional diff — when the diff reports no changed range; its version is
/// then unchanged.  A text at or above the similarity threshold, and any
/// partial change, yields nothing: the caller must recompute fully.  For a
/// partial change the reusable cached ranges are computed — the groundwork
/// for a spliced outcome — and then deliberately discarded: falling back to
/// a full recomputation is the conservative, always-correct behavior.
pub fn try_incremental_highlight(
    cache: &HighlightCache,
    new_text: &str,
    highlight_names: &Vec<String>,
) -> (r: Option<HighlightDelta>)
    ensures
        r is Some <==> (cache.input@ == new_text@ || (is_similar(
            encode_utf8(cache.input@),
            new_text.spec_bytes(),
        ) && spec_text_changes(encode_utf8(cache.input@), new_text.spec_bytes()).len() == 0)),
        r matches Some(d) ==> ({
            &&& d@.ranges == cache.ranges@
            &&& d@.highlight_names == highlight_names.deep_view()
            &&& d@.version == cache.version
            &&& d@.changed_ranges == Seq::<(usize, usize)>::empty()
            &&& d@.reused_ranges matches Some(rr) && ranges_model(rr) == seq![
                (0int, new_text.spec_bytes().len() as int),
            ]
        }),
{
    let text_len = new_text.as_bytes().len();
    if str_eq(cache.input.as_str(), new_text) {
        return Some(verbatim_delta(cache, highlight_names, text_len));
    }
    if !crate::diff::texts_similar(cache.input.as_str(), new_text) {
        return None;
    }
    let changed = crate::diff::get_text_changes(cache.input.as_str(), new_text);
    if changed.is_empty() {
        return Some(verbatim_delta(cache, highlight_names, text_len));
    }
    let _reused = crate::diff::get_reused_ranges(&changed, text_len);
    let _spliced = splice_reusable_ranges(&cache.ranges, &changed);
    proof {
        assert(ranges_model(changed@).len() == changed@.len());
    }
    None
}

/// The state a highlight request lands in, given the cached entry for its
/// language, the new text and the time.
#[derive(Clone, Copy, Debug, PartialEq, Eq, Structural)]
pub enum HighlightDecision {
    /// No entry for the language: recompute fully.
    NoCache,
    /// The entry outlived the staleness window: recompute fully.
    Stale,
    /// The entry's text equals the new text byte for byte: reuse verbatim,
    /// version unchanged.
    Identical,
    /// The similarity ratio reaches the 3/10 threshold: recompute fully.
    TooDifferent,
    /// Below the threshold with no changed range: reuse verbatim.  Under a
    /// positional diff this cannot in fact arise — no changed range means
    /// equal texts — but the state is part of the decision table.
    NoRealChange,
    /// Below the threshold with changed ranges: the reusable ranges are
    /// computed, and the caller is still told to recompute fully — the
    /// conservative, always-correct contracted behavior.
    PartialChange,
}

/// Whether a decision obliges the caller to run the external highlighter
/// and write the outcome back.
pub open spec fn spec_needs_recompute(d: HighlightDecision) -> bool {
    match d {
        HighlightDecision::Identical => false,
        HighlightDecision::NoRealChange => false,
        _ => true,
    }
}

/// Whether the decision asks for a full recomputation.
pub fn needs_recompute(d: HighlightDecision) -> (r: bool)
    ensures
        r == spec_needs_recompute(d),
{
    match d {
        HighlightDecision::Identical => false,
        HighlightDecision::NoRealChange => false,
        _ => true,
    }
}

/// The decision table: no entry and a stale entry force a recomputation;
/// byte-identical text is reused verbatim; at or above the similarity
/// threshold the texts count as too different; below it, the positional
/// diff decides between no real change and a partial change.
pub open spec fn spec_decision(
    entry: Option<HighlightCache>,
    text: Seq<u8>,
    now: u64,
) -> HighlightDecision {
    match entry {
        None => HighlightDecision::NoCache,
        Some(e) => {
            if e.spec_is_stale(now) {
                HighlightDecision::Stale
            } else if encode_utf8(e.input@) == text {
                HighlightDecision::Identical
            } else if !is_similar(encode_utf8(e.input@), text) {
                HighlightDecision::TooDifferent
            } else if spec_text_changes(encode_utf8(e.input@), text).len() == 0 {
                HighlightDecision::NoRealChange
            } else {
                HighlightDecision::PartialChange
            }
        },
    }
}

/// The decision for one request.
pub fn decide_highlight(
    entry: Option<&HighlightCache>,
    new_text: &str,
    now: u64,
) -> (d: HighlightDecision)
    ensures
        d == spec_decision(
            match entry {
                Some(e) => Some(*e),
                None => None,
            },
            new_text.spec_bytes(),
            now,
        ),
{
    match entry {
        None => HighlightDecision::NoCache,
        Some(e) => {
            if e.is_stale(now) {
                HighlightDecision::Stale
            } else if str_eq(e.input.as_str(), new_text) {
                HighlightDecision::Identical
            } else if !crate::diff::texts_similar(e.input.as_str(), new_text) {
                proof {
                    vstd::utf8::encode_utf8_decode_utf8(e.input@);
                    vstd::utf8::encode_utf8_decode_utf8(new_text@);
                }
                HighlightDecision::TooDifferent
            } else {
                proof {
                    vstd::utf8::encode_utf8_decode_utf8(e.input@);
                    vstd::utf8::encode_utf8_decode_utf8(new_text@);
                }
                let changed = crate::diff::get_text_changes(e.input.as_str(), new_text);
                proof {
                    assert(ranges_model(changed@).len() == changed@.len());
                }
                if changed.is_empty() {
                    HighlightDecision::NoRealChange
                } else {
                    HighlightDecision::PartialChange
                }
            }
        },
    }
}

/// An identical request is answered from the cache: so long as the entry is
/// fresh, the decision for its own text is Identical, which asks for no
/// recomputation — the verbatim answer carries the entry's own version and
/// an empty changed set (see [`try_incremental_highlight`]) — and writes
/// nothing back.  The entry is therefore unchanged when the same request
/// arrives again, the decision falls the same way, and the same version is
/// returned a second time: identical requests are idempotent.
pub proof fn lemma_identical_request_idempotent(e: HighlightCache, text: Seq<u8>, now: u64)
    requires
        !e.spec_is_stale(now),
        encode_utf8(e.input@) == text,
    ensures
        spec_decision(Some(e), text, now) == HighlightDecision::Identical,
        !spec_needs_recompute(spec_decision(Some(e), text, now)),
{
}

/// The zero-cost half of the decision: answers a request from the store's
/// cached outcome where the entry for the language exists, is fresh, lies
/// below the similarity threshold, and the texts are in fact the same (or —
/// the same thing under a positional diff — the diff reports no change).
/// The verbatim answer carries the entry's own version.  Nothing is written;
/// a caller getting nothing back must run the external highlighter and
/// write the outcome back through [`full_highlight`].
pub fn try_reuse_highlight(
    store: &CacheStore,
    language_name: &str,
    new_text: &str,
    highlight_names: &Vec<String>,
    now: u64,
) -> (r: Option<HighlightDelta>)
    ensures
        ({
            let tb = new_text.spec_bytes();
            match store.highlight_entry(language_name@) {
                None => r is None,
                Some(e) => {
                    &&& (r is Some <==> (!e.spec_is_stale(now) && is_similar(
                        encode_utf8(e.input@),
                        tb,
                    ) && (encode_utf8(e.input@) == tb || spec_text_changes(
                        encode_utf8(e.input@),
                        tb,
                    ).len() == 0)))
                    &&& (r matches Some(d) ==> ({
                        &&& d@.ranges == e.ranges@
                        &&& d@.highlight_names == highlight_names.deep_view()
                        &&& d@.version == e.version
                        &&& d@.changed_ranges == Seq::<(usize, usize)>::empty()
                        &&& d@.reused_ranges matches Some(rr) && ranges_model(rr) == seq![
                            (0int, tb.len() as int),
                        ]
                    }))
                },
            }
        }),
{
    match store.get_highlight_cache(language_name) {
        None => None,
        Some(entry) => {
            let e = arc_as_ref(&entry);
            if e.matches_input(new_text, now) {
                let result = try_incremental_highlight(e, new_text, highlight_names);
                proof {
                    vstd::utf8::encode_utf8_decode_utf8(e.input@);
                    vstd::utf8::encode_utf8_decode_utf8(new_text@);
                }
                result
            } else {
                proof {
                    // identical texts are always below the threshold, so a
                    // failed match rules the reuse conditions out entirely
                    if encode_utf8(e.input@) == new_text.spec_bytes() {
                        crate::diff::lemma_self_similarity_zero(new_text.spec_bytes());
                    }
                }
                None
            }
        },
    }
}

/// One full highlighting pass over the store: loads the grammar, compiles
/// the highlight queries, parses the text — reusing the cached artifact
/// where the exact text was parsed before — runs the external highlighter,
/// memoizes the theme, builds the delta against the prior cached outcome,
/// and writes the tree and the new outcome back.  Every failure is fatal
/// for this call alone and leaves the store untouched.  An unregistered
/// language and queries that do not compile each owe their failure; what
/// remains open is only what the external parser and highlighter decide at
/// run time ([`HighlightError::ParseFailure`], or a broken-off run reported
/// as [`HighlightError::HighlightConfigurationError`]).
pub fn full_highlight(
    store: &mut CacheStore,
    language_name: &str,
    text: &str,
    highlights_query: &str,
    injections_query: &str,
    locals_query: &str,
    theme_json: &str,
    highlight_names: Vec<String>,
    now: u64,
) -> (r: Result<HighlightDelta, HighlightError>)
    ensures
        r == Err::<HighlightDelta, HighlightError>(HighlightError::UnsupportedLanguage)
            <==> !supported_language(language_name@),
        supported_language(language_name@) && !queries_compile_of(
            language_name@,
            highlights_query@,
            injections_query@,
            locals_query@,
        ) ==> r == Err::<HighlightDelta, HighlightError>(
            HighlightError::HighlightConfigurationError,
        ),
        r == Err::<HighlightDelta, HighlightError>(HighlightError::ParseFailure)
            ==> queries_compile_of(
            language_name@,
            highlights_query@,
            injections_query@,
            locals_query@,
        ),
        r matches Err(e) ==> *final(store) == *old(store) && (e
            == HighlightError::UnsupportedLanguage || e
            == HighlightError::HighlightConfigurationError || e == HighlightError::ParseFailure),
        r matches Ok(d) ==> ({
            let tb = text.spec_bytes();
            let input_key = DefaultHasher::spec_finish(seq![tb, language_name.spec_bytes()]);
            &&& supported_language(language_name@)
            &&& queries_compile_of(
                language_name@,
                highlights_query@,
                injections_query@,
                locals_query@,
            )
            &&& d@.highlight_names == highlight_names.deep_view()
            &&& match old(store).highlight_entry(language_name@) {
                None => d@.version == STARTING_VERSION && ranges_model(d@.changed_ranges) == seq![
                    (0int, tb.len() as int),
                ] && d@.reused_ranges is None,
                Some(c) => {
                    &&& d@.version == spec_next_version(c.version)
                    &&& if is_similar(encode_utf8(c.input@), tb) {
                        &&& ranges_model(d@.changed_ranges) == spec_text_changes(
                            encode_utf8(c.input@),
                            tb,
                        )
                        &&& d@.reused_ranges matches Some(rr) && ranges_model(rr)
                            == spec_reused_ranges(
                            spec_text_changes(encode_utf8(c.input@), tb),
                            tb.len() as int,
                        )
                    } else {
                        &&& ranges_model(d@.changed_ranges) == seq![(0int, tb.len() as int)]
                        &&& d@.reused_ranges is None
                    }
                },
            }
            &&& final(store).highlight_entry(language_name@) matches Some(e2) && e2.delta@ == d@
                && e2.input@ == text@ && e2.version == d@.version && e2.last_update == now
                && e2.ranges@ == d@.ranges
            &&& forall|l: Seq<char>|
                l != language_name@ ==> final(store).highlight_entry(l) == old(
                    store,
                ).highlight_entry(l)
            &&& final(store).parse_entry(input_key) matches Some(pe) && pe.1@ == text@
            &&& final(store).theme_entry(
                DefaultHasher::spec_finish(seq![theme_json.spec_bytes()]),
            ) is Some
        }),
{
    let language = match load_language(language_name) {
        Ok(l) => l,
        Err(e) => {
            return Err(e);
        },
    };
    let mut config = match configuration_for_language(
        language_name,
        highlights_query,
        injections_query,
        locals_query,
    ) {
        Some(c) => c,
        None => {
            return Err(HighlightError::HighlightConfigurationError);
        },
    };
    configure_highlight_names(&mut config, &highlight_names);
    let mut parser = new_parser();
    if !parser_set_language(&mut parser, &language) {
        return Err(HighlightError::ParseFailure);
    }
    let input_hash = combined_input_hash(text, language_name);
    let old_tree = store.lookup_parse_tree(input_hash, text);
    let parsed = match &old_tree {
        Some(t) => parser_parse(&mut parser, text, Some(t)),
        None => parser_parse(&mut parser, text, None),
    };
    let new_tree = match parsed {
        Some(t) => Arc::new(t),
        None => {
            return Err(HighlightError::ParseFailure);
        },
    };
    let mut highlighter = new_highlighter();
    let events = match run_highlighter(&mut highlighter, &config, text) {
        Some(ev) => ev,
        None => {
            return Err(HighlightError::HighlightConfigurationError);
        },
    };
    let _theme = store.get_cached_theme(theme_json);
    let prior = store.get_highlight_cache(language_name);
    let prior_ref = match &prior {
        Some(shared) => Some(arc_as_ref(shared)),
        None => None,
    };
    let (delta, ranges) = process_highlights(events, highlight_names, prior_ref, text);
    let delta_for_store = delta.clone();
    let tree_for_store = arc_clone(&new_tree);
    let input_copy = text.to_owned();
    let lang_copy = language_name.to_owned();
    store.update_highlight_cache(
        lang_copy,
        input_hash,
        tree_for_store,
        input_copy,
        ranges,
        delta_for_store,
        now,
    );
    Ok(delta)
}

} // verus!
