//! The data carried between the diff engine, the caches and their callers.

use vstd::prelude::*;

verus! {

/// One highlighted span: the half-open byte range `[start, end)` of the owning
/// text, tagged with the index of its highlight category.
#[derive(Clone, Copy, Debug, PartialEq, Eq, Structural)]
pub struct HighlightRange {
    pub start: usize,
    pub end: usize,
    pub highlight_type: usize,
}

/// One event of a highlighting run: a span of source text, or the start or
/// end of a highlight category.
#[derive(Clone, Copy, Debug, PartialEq, Eq, Structural)]
pub enum HighlightEventType {
    Start { index: usize },
    End,
    Source { start: usize, end: usize },
}

/// One highlighting outcome as handed to the caller: the computed ranges, the
/// category names they index into, the byte ranges that could be reused from
/// the previous outcome, the outcome's version, and the byte ranges that
/// changed since the previous version.
#[derive(Debug)]
pub struct HighlightDelta {
    pub ranges: Vec<HighlightRange>,
    pub highlight_names: Vec<String>,
    pub reused_ranges: Option<Vec<(usize, usize)>>,
    pub version: u64,
    pub changed_ranges: Vec<(usize, usize)>,
}

/// The mathematical model of a [`HighlightDelta`].
pub ghost struct DeltaModel {
    pub ranges: Seq<HighlightRange>,
    pub highlight_names: Seq<Seq<char>>,
    pub reused_ranges: Option<Seq<(usize, usize)>>,
    pub version: u64,
    pub changed_ranges: Seq<(usize, usize)>,
}

impl View for HighlightDelta {
    type V = DeltaModel;

    open spec fn view(&self) -> DeltaModel {
        DeltaModel {
            ranges: self.ranges@,
            highlight_names: self.highlight_names.deep_view(),
            reused_ranges: match self.reused_ranges {
                Some(v) => Some(v@),
                None => None,
            },
            version: self.version,
            changed_ranges: self.changed_ranges@,
        }
    }
}

/// The output captured from one remote code execution: what the program
/// printed, and what its compilation step printed, if there was one.
#[derive(Debug)]
pub struct ExecutionResult {
    pub output: String,
    pub compile_output: Option<String>,
}

/// An element-for-element copy of a range vector.
pub(crate) fn clone_ranges(v: &Vec<HighlightRange>) -> (r: Vec<HighlightRange>)
    ensures
        r@ == v@,
{
    let mut r: Vec<HighlightRange> = Vec::new();
    let mut i: usize = 0;
    while i < v.len()
        invariant
            i <= v@.len(),
            r@ == v@.take(i as int),
        decreases v@.len() - i,
    {
        r.push(v[i]);
        proof {
            assert(v@.take(i as int).push(v@[i as int]) =~= v@.take(i as int + 1));
        }
        i = i + 1;
    }
    proof {
        assert(v@.take(i as int) =~= v@);
    }
    r
}

/// An element-for-element copy of a byte-range vector.
pub(crate) fn clone_usize_pairs(v: &Vec<(usize, usize)>) -> (r: Vec<(usize, usize)>)
    ensures
        r@ == v@,
{
    let mut r: Vec<(usize, usize)> = Vec::new();
    let mut i: usize = 0;
    while i < v.len()
        invariant
            i <= v@.len(),
            r@ == v@.take(i as int),
        decreases v@.len() - i,
    {
        r.push(v[i]);
        proof {
            assert(v@.take(i as int).push(v@[i as int]) =~= v@.take(i as int + 1));
        }
        i = i + 1;
    }
    proof {
        assert(v@.take(i as int) =~= v@);
    }
    r
}

/// An element-for-element copy of a string vector.
pub(crate) fn clone_strings(v: &Vec<String>) -> (r: Vec<String>)
    ensures
        r@ == v@,
{
    let mut r: Vec<String> = Vec::new();
    let mut i: usize = 0;
    while i < v.len()
        invariant
            i <= v@.len(),
            r@ == v@.take(i as int),
        decreases v@.len() - i,
    {
        r.push(v[i].clone());
        proof {
            assert(v@.take(i as int).push(v@[i as int]) =~= v@.take(i as int + 1));
        }
        i = i + 1;
    }
    proof {
        assert(v@.take(i as int) =~= v@);
    }
    r
}

impl Clone for HighlightDelta {
    /// The clone carries exactly the same outcome.
    fn clone(&self) -> (r: Self)
        ensures
            r@ == self@,
    {
        let ranges = clone_ranges(&self.ranges);
        let highlight_names = clone_strings(&self.highlight_names);
        let reused_ranges = match &self.reused_ranges {
            Some(v) => Some(clone_usize_pairs(v)),
            None => None,
        };
        let changed_ranges = clone_usize_pairs(&self.changed_ranges);
        HighlightDelta {
            ranges,
            highlight_names,
            reused_ranges,
            version: self.version,
            changed_ranges,
        }
    }
}

/// The failures a highlighting call can surface.  Each is fatal for its call
/// only, never for the process, and none of them leaves a cache mutated.
#[derive(Clone, Copy, Debug, PartialEq, Eq, Structural)]
pub enum HighlightError {
    /// The requested grammar is not registered.
    UnsupportedLanguage,
    /// A theme definition could not be parsed.  The crate's own paths never
    /// raise this: a failed theme parse degrades to the empty mapping and is
    /// cached like a successful one.  The variant names the condition for
    /// boundary code that reports theme problems eagerly.
    ThemeParseFailure,
    /// The external highlighter's configuration failed to compile, or a
    /// highlighting run was broken off.
    HighlightConfigurationError,
    /// The external parser could not be prepared or returned no artifact.
    ParseFailure,
    /// A shared cache lock was found in an inconsistent state.  Only
    /// boundary code that wraps the caches in locks can meet this.
    LockInconsistency,
}

impl HighlightError {
    /// A short description of the failure, for hosts that report it as text.
    pub fn message(&self) -> (r: &'static str)
        ensures
            (*self is UnsupportedLanguage) ==> r@ == "unsupported language"@,
            (*self is ThemeParseFailure) ==> r@ == "theme definition could not be parsed"@,
            (*self is HighlightConfigurationError) ==> r@
                == "highlight configuration failed to compile"@,
            (*self is ParseFailure) ==> r@ == "parsing produced no syntax tree"@,
            (*self is LockInconsistency) ==> r@ == "cache lock was left inconsistent"@,
    {
        match self {
            HighlightError::UnsupportedLanguage => "unsupported language",
            HighlightError::ThemeParseFailure => "theme definition could not be parsed",
            HighlightError::HighlightConfigurationError => "highlight configuration failed to compile",
            HighlightError::ParseFailure => "parsing produced no syntax tree",
            HighlightError::LockInconsistency => "cache lock was left inconsistent",
        }
    }
}

} // verus!
