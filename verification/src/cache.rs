//! The cache store: one explicit value owning the theme cache, the parse
//! artifact cache and the highlight result cache.
//!
//! The store is a plain value handed to its callers, not hidden process-wide
//! state.  Boundary code that shares one store across threads wraps it in a
//! lock of its own and holds that lock only around the store's short
//! operations, never across a call into the external highlighter.
//!
//! Entries are held in small association lists looked up by first match;
//! every write either replaces the first matching entry in place or appends
//! a fresh one, so lookups behave exactly like map lookups.

use vstd::prelude::*;

verus! {

use core::hash::Hasher;
use std::collections::hash_map::DefaultHasher;
use std::sync::Arc;
use vstd::std_specs::hash::DefaultHasherAdditionalSpecFns;
use vstd::string::StringSliceAdditionalSpecFns;
use vstd::utf8::encode_utf8;

use crate::diff::is_similar;
use crate::diff::texts_similar;
use crate::theme::Theme;
use crate::theme::parse_theme;
use crate::theme::spec_parsed_theme;
use crate::types::HighlightDelta;
use crate::types::HighlightRange;

/// Seconds a highlight cache entry stays usable; older entries are stale.
pub const STALENESS_WINDOW_SECS: u64 = 300;

/// Relies on Arc::clone: the cloned handle refers to the same shared value.
#[verifier::external_body]
pub(crate) fn arc_clone<T>(a: &Arc<T>) -> (r: Arc<T>)
    ensures
        r == *a,
{
    Arc::clone(a)
}

/// Relies on Arc's Deref impl: borrowing through a handle yields the shared
/// value.
#[verifier::external_body]
pub(crate) fn arc_as_ref<T>(a: &Arc<T>) -> (r: &T)
    ensures
        *r == *a,
{
    &**a
}

/// The memoization key of a raw text: its bytes, fed as one block to std's
/// `DefaultHasher`.
pub fn text_hash_key(s: &str) -> (r: u64)
    ensures
        r == DefaultHasher::spec_finish(seq![s.spec_bytes()]),
{
    let mut hasher = DefaultHasher::new();
    hasher.write(s.as_bytes());
    proof {
        assert(Seq::<Seq<u8>>::empty().push(s.spec_bytes()) =~= seq![s.spec_bytes()]);
    }
    hasher.finish()
}

/// The combined key of a text and its language name, for the parse artifact
/// cache: both byte sequences fed, in that order, to one `DefaultHasher`.
pub fn combined_input_hash(text: &str, language_name: &str) -> (r: u64)
    ensures
        r == DefaultHasher::spec_finish(seq![text.spec_bytes(), language_name.spec_bytes()]),
{
    let mut hasher = DefaultHasher::new();
    hasher.write(text.as_bytes());
    hasher.write(language_name.as_bytes());
    proof {
        assert(Seq::<Seq<u8>>::empty().push(text.spec_bytes()).push(language_name.spec_bytes())
            =~= seq![text.spec_bytes(), language_name.spec_bytes()]);
    }
    hasher.finish()
}

/// One cached highlighting outcome for a language: the shared syntax tree,
/// the computed ranges, the delta as it was handed to the caller, an owned
/// copy of the input text, the outcome's version, and the time of the last
/// write.  Time is a whole-seconds clock supplied by the caller, so that
/// staleness stays checkable without a hidden clock.
#[derive(Debug)]
pub struct HighlightCache {
    pub tree: Arc<tree_sitter::Tree>,
    pub ranges: Vec<HighlightRange>,
    pub delta: HighlightDelta,
    pub input: String,
    pub version: u64,
    pub last_update: u64,
}

impl HighlightCache {
    /// A fresh entry: the version is carried over from the delta, and the
    /// write time is stamped from the caller's clock.
    pub fn new(
        tree: Arc<tree_sitter::Tree>,
        ranges: Vec<HighlightRange>,
        delta: HighlightDelta,
        input: String,
        now: u64,
    ) -> (r: Self)
        ensures
            r == (HighlightCache {
                tree,
                ranges,
                input,
                version: delta.version,
                delta,
                last_update: now,
            }),
    {
        let version = delta.version;
        HighlightCache { tree, ranges, delta, input, version, last_update: now }
    }

    /// Whether the entry has outlived the staleness window: written more
    /// than [`STALENESS_WINDOW_SECS`] before `now`.
    pub open spec fn spec_is_stale(self, now: u64) -> bool {
        now - self.last_update > STALENESS_WINDOW_SECS
    }

    /// Whether the entry is stale at time `now`.  Staleness is checked
    /// lazily, at read time; a stale entry stays in the store until the next
    /// write replaces it.
    pub fn is_stale(&self, now: u64) -> (r: bool)
        ensures
            r == self.spec_is_stale(now),
    {
        now > self.last_update && now - self.last_update > STALENESS_WINDOW_SECS
    }

    /// Whether the cached outcome may serve a request for `input`: the entry
    /// is not stale, and the cached text lies below the similarity
    /// threshold against `input`.
    pub open spec fn spec_matches_input(self, input: Seq<u8>, now: u64) -> bool {
        &&& !self.spec_is_stale(now)
        &&& is_similar(encode_utf8(self.input@), input)
    }

    /// Whether the entry may serve a request for `input` at time `now`.
    pub fn matches_input(&self, input: &str, now: u64) -> (r: bool)
        ensures
            r == self.spec_matches_input(input.spec_bytes(), now),
    {
        if self.is_stale(now) {
            return false;
        }
        texts_similar(self.input.as_str(), input)
    }

    /// An entry older than the staleness window never matches any input:
    /// age alone rules it out, however similar the texts.
    pub proof fn lemma_stale_never_matches(self, input: Seq<u8>, now: u64)
        requires
            now - self.last_update > STALENESS_WINDOW_SECS,
        ensures
            !self.spec_matches_input(input, now),
    {
    }
}

/// First-match lookup in an association list with integer keys.
pub open spec fn assoc_get_u64<V>(s: Seq<(u64, V)>, k: u64) -> Option<V>
    decreases s.len(),
{
    if s.len() == 0 {
        None
    } else if s[0].0 == k {
        Some(s[0].1)
    } else {
        assoc_get_u64(s.drop_first(), k)
    }
}

/// First-match lookup in an association list keyed by text.
pub open spec fn assoc_get_text<V>(s: Seq<(String, V)>, k: Seq<char>) -> Option<V>
    decreases s.len(),
{
    if s.len() == 0 {
        None
    } else if s[0].0@ == k {
        Some(s[0].1)
    } else {
        assoc_get_text(s.drop_first(), k)
    }
}

/// A first match at position `i` decides the lookup.
proof fn lemma_assoc_get_u64_found<V>(s: Seq<(u64, V)>, k: u64, i: int)
    requires
        0 <= i < s.len(),
        s[i].0 == k,
        forall|j: int| 0 <= j < i ==> s[j].0 != k,
    ensures
        assoc_get_u64(s, k) == Some(s[i].1),
    decreases i,
{
    if i > 0 {
        lemma_assoc_get_u64_found(s.drop_first(), k, i - 1);
    }
}

/// Without a matching key the lookup finds nothing.
proof fn lemma_assoc_get_u64_none<V>(s: Seq<(u64, V)>, k: u64)
    requires
        forall|j: int| 0 <= j < s.len() ==> s[j].0 != k,
    ensures
        assoc_get_u64(s, k) is None,
    decreases s.len(),
{
    if s.len() > 0 {
        lemma_assoc_get_u64_none(s.drop_first(), k);
    }
}

/// Appending a fresh key answers lookups for it and disturbs no other key.
proof fn lemma_assoc_get_u64_push<V>(s: Seq<(u64, V)>, x: (u64, V), k2: u64)
    requires
        assoc_get_u64(s, x.0) is None,
    ensures
        assoc_get_u64(s.push(x), k2) == (if k2 == x.0 {
            Some(x.1)
        } else {
            assoc_get_u64(s, k2)
        }),
    decreases s.len(),
{
    if s.len() == 0 {
        assert(s.push(x)[0] == x);
        assert(s.push(x).drop_first() =~= s);
    } else {
        assert(s.push(x)[0] == s[0]);
        assert(s.push(x).drop_first() =~= s.drop_first().push(x));
        lemma_assoc_get_u64_push(s.drop_first(), x, k2);
    }
}

/// Replacing the first match in place answers lookups for its key with the
/// new value and disturbs no other key.
proof fn lemma_assoc_get_u64_update<V>(s: Seq<(u64, V)>, i: int, x: (u64, V), k2: u64)
    requires
        0 <= i < s.len(),
        s[i].0 == x.0,
        forall|j: int| 0 <= j < i ==> s[j].0 != x.0,
    ensures
        assoc_get_u64(s.update(i, x), k2) == (if k2 == x.0 {
            Some(x.1)
        } else {
            assoc_get_u64(s, k2)
        }),
    decreases i,
{
    if i == 0 {
        assert(s.update(i, x)[0] == x);
        assert(s.update(i, x).drop_first() =~= s.drop_first());
    } else {
        assert(s.update(i, x)[0] == s[0]);
        assert(s.update(i, x).drop_first() =~= s.drop_first().update(i - 1, x));
        lemma_assoc_get_u64_update(s.drop_first(), i - 1, x, k2);
    }
}

/// A first match at position `i` decides the lookup.
proof fn lemma_assoc_get_text_found<V>(s: Seq<(String, V)>, k: Seq<char>, i: int)
    requires
        0 <= i < s.len(),
        s[i].0@ == k,
        forall|j: int| 0 <= j < i ==> s[j].0@ != k,
    ensures
        assoc_get_text(s, k) == Some(s[i].1),
    decreases i,
{
    if i > 0 {
        lemma_assoc_get_text_found(s.drop_first(), k, i - 1);
    }
}

/// Without a matching key the lookup finds nothing.
proof fn lemma_assoc_get_text_none<V>(s: Seq<(String, V)>, k: Seq<char>)
    requires
        forall|j: int| 0 <= j < s.len() ==> s[j].0@ != k,
    ensures
        assoc_get_text(s, k) is None,
    decreases s.len(),
{
    if s.len() > 0 {
        lemma_assoc_get_text_none(s.drop_first(), k);
    }
}

/// Appending a fresh key answers lookups for it and disturbs no other key.
proof fn lemma_assoc_get_text_push<V>(s: Seq<(String, V)>, x: (String, V), k2: Seq<char>)
    requires
        assoc_get_text(s, x.0@) is None,
    ensures
        assoc_get_text(s.push(x), k2) == (if k2 == x.0@ {
            Some(x.1)
        } else {
            assoc_get_text(s, k2)
        }),
    decreases s.len(),
{
    if s.len() == 0 {
        assert(s.push(x)[0] == x);
        assert(s.push(x).drop_first() =~= s);
    } else {
        assert(s.push(x)[0] == s[0]);
        assert(s.push(x).drop_first() =~= s.drop_first().push(x));
        lemma_assoc_get_text_push(s.drop_first(), x, k2);
    }
}

/// Replacing the first match in place answers lookups for its key with the
/// new value and disturbs no other key.
proof fn lemma_assoc_get_text_update<V>(s: Seq<(String, V)>, i: int, x: (String, V), k2: Seq<char>)
    requires
        0 <= i < s.len(),
        s[i].0@ == x.0@,
        forall|j: int| 0 <= j < i ==> s[j].0@ != x.0@,
    ensures
        assoc_get_text(s.update(i, x), k2) == (if k2 == x.0@ {
            Some(x.1)
        } else {
            assoc_get_text(s, k2)
        }),
    decreases i,
{
    if i == 0 {
        assert(s.update(i, x)[0] == x);
        assert(s.update(i, x).drop_first() =~= s.drop_first());
    } else {
        assert(s.update(i, x)[0] == s[0]);
        assert(s.update(i, x).drop_first() =~= s.drop_first().update(i - 1, x));
        lemma_assoc_get_text_update(s.drop_first(), i - 1, x, k2);
    }
}

/// The cache store: the theme cache, keyed by the raw definition's hash; the
/// parse artifact cache, keyed by the combined text/language hash and
/// guarded by the stored input text; and the highlight result cache, one
/// slot per language.
pub struct CacheStore {
    themes: Vec<(u64, (String, Arc<Theme>))>,
    parse_trees: Vec<(u64, (Arc<tree_sitter::Tree>, String))>,
    highlights: Vec<(String, Arc<HighlightCache>)>,
}

impl CacheStore {
    /// The raw definition and parsed theme cached under hash key `k`.  The
    /// raw text guards the hash against collisions, exactly as the stored
    /// input text guards the parse artifact cache.
    pub closed spec fn theme_entry(self, k: u64) -> Option<(String, Arc<Theme>)> {
        assoc_get_u64(self.themes@, k)
    }

    /// The parse artifact and its input text cached under combined key `k`.
    pub closed spec fn parse_entry(self, k: u64) -> Option<(Arc<tree_sitter::Tree>, String)> {
        assoc_get_u64(self.parse_trees@, k)
    }

    /// The highlight outcome cached for the given language.
    pub closed spec fn highlight_entry(self, language: Seq<char>) -> Option<Arc<HighlightCache>> {
        assoc_get_text(self.highlights@, language)
    }

    /// An empty store: no theme, no parse artifact, no highlight outcome.
    pub fn new() -> (r: Self)
        ensures
            forall|k: u64| r.theme_entry(k) is None,
            forall|k: u64| r.parse_entry(k) is None,
            forall|l: Seq<char>| r.highlight_entry(l) is None,
    {
        CacheStore { themes: Vec::new(), parse_trees: Vec::new(), highlights: Vec::new() }
    }

    /// The position of the first theme entry under key `k`, if any.
    fn find_theme_index(&self, k: u64) -> (r: Option<usize>)
        ensures
            match r {
                Some(i) => i < self.themes@.len() && self.themes@[i as int].0 == k && forall|
                    j: int,
                |
                    0 <= j < i ==> self.themes@[j].0 != k,
                None => forall|j: int| 0 <= j < self.themes@.len() ==> self.themes@[j].0 != k,
            },
    {
        let mut i: usize = 0;
        while i < self.themes.len()
            invariant
                i <= self.themes@.len(),
                forall|j: int| 0 <= j < i ==> self.themes@[j].0 != k,
            decreases self.themes@.len() - i,
        {
            if self.themes[i].0 == k {
                return Some(i);
            }
            i = i + 1;
        }
        None
    }

    /// The shared parsed theme for the given raw definition.  The raw string
    /// is hashed; a hit returns the mapping already cached under that hash,
    /// but only after the stored raw definition is compared with the query —
    /// a hash collision with a different text is caught and treated as a
    /// miss.  A miss parses the definition — an unparseable one degrading to
    /// the empty mapping, never to an error — caches it under the hash with
    /// its raw text, replacing a colliding entry in place, and returns it.
    /// Beyond collision replacement nothing evicts theme entries.
    pub fn get_cached_theme(&mut self, theme_str: &str) -> (r: Arc<Theme>)
        ensures
            ({
                let k = DefaultHasher::spec_finish(seq![theme_str.spec_bytes()]);
                let hit = match old(self).theme_entry(k) {
                    Some(entry) => entry.0@ == theme_str@,
                    None => false,
                };
                &&& (hit ==> (old(self).theme_entry(k) matches Some(entry) && r == entry.1)
                    && *final(self) == *old(self))
                &&& (!hit ==> {
                    &&& r@ == spec_parsed_theme(theme_str@)
                    &&& final(self).theme_entry(k) matches Some(entry) && entry.0@ == theme_str@
                        && entry.1 == r
                    &&& forall|k2: u64|
                        k2 != k ==> final(self).theme_entry(k2) == old(self).theme_entry(k2)
                    &&& forall|k2: u64|
                        final(self).parse_entry(k2) == old(self).parse_entry(k2)
                    &&& forall|l: Seq<char>|
                        final(self).highlight_entry(l) == old(self).highlight_entry(l)
                })
            }),
    {
        let input_hash = text_hash_key(theme_str);
        let idx = self.find_theme_index(input_hash);
        if let Some(i) = idx {
            proof {
                lemma_assoc_get_u64_found(self.themes@, input_hash, i as int);
            }
            let entry = &self.themes[i].1;
            if crate::diff::str_eq(entry.0.as_str(), theme_str) {
                return arc_clone(&entry.1);
            }
        }
        let parsed = parse_theme(theme_str);
        let shared = Arc::new(parsed);
        let r = arc_clone(&shared);
        let value = (input_hash, (theme_str.to_owned(), shared));
        match idx {
            Some(i) => {
                proof {
                    assert forall|k2: u64|
                        assoc_get_u64(self.themes@.update(i as int, value), k2) == (if k2
                            == input_hash {
                            Some(value.1)
                        } else {
                            assoc_get_u64(self.themes@, k2)
                        }) by {
                        lemma_assoc_get_u64_update(self.themes@, i as int, value, k2);
                    }
                }
                self.themes[i] = value;
            },
            None => {
                proof {
                    lemma_assoc_get_u64_none(self.themes@, input_hash);
                    assert forall|k2: u64|
                        assoc_get_u64(self.themes@.push(value), k2) == (if k2 == input_hash {
                            Some(value.1)
                        } else {
                            assoc_get_u64(self.themes@, k2)
                        }) by {
                        lemma_assoc_get_u64_push(self.themes@, value, k2);
                    }
                }
                self.themes.push(value);
            },
        }
        r
    }

    /// The position of the first parse entry under key `k`, if any.
    fn find_parse_index(&self, k: u64) -> (r: Option<usize>)
        ensures
            match r {
                Some(i) => i < self.parse_trees@.len() && self.parse_trees@[i as int].0 == k
                    && forall|j: int| 0 <= j < i ==> self.parse_trees@[j].0 != k,
                None => forall|j: int|
                    0 <= j < self.parse_trees@.len() ==> self.parse_trees@[j].0 != k,
            },
    {
        let mut i: usize = 0;
        while i < self.parse_trees.len()
            invariant
                i <= self.parse_trees@.len(),
                forall|j: int| 0 <= j < i ==> self.parse_trees@[j].0 != k,
            decreases self.parse_trees@.len() - i,
        {
            if self.parse_trees[i].0 == k {
                return Some(i);
            }
            i = i + 1;
        }
        None
    }

    /// The position of the first highlight entry for the given language.
    fn find_highlight_index(&self, language_name: &str) -> (r: Option<usize>)
        ensures
            match r {
                Some(i) => i < self.highlights@.len() && self.highlights@[i as int].0@
                    == language_name@ && forall|j: int|
                    0 <= j < i ==> self.highlights@[j].0@ != language_name@,
                None => forall|j: int|
                    0 <= j < self.highlights@.len() ==> self.highlights@[j].0@ != language_name@,
            },
    {
        let mut i: usize = 0;
        while i < self.highlights.len()
            invariant
                i <= self.highlights@.len(),
                forall|j: int| 0 <= j < i ==> self.highlights@[j].0@ != language_name@,
            decreases self.highlights@.len() - i,
        {
            if crate::diff::str_eq(self.highlights[i].0.as_str(), language_name) {
                return Some(i);
            }
            i = i + 1;
        }
        None
    }

    /// The cached highlight outcome for the given language: a shared handle
    /// to the entry, or nothing where no outcome has been stored yet — a
    /// normal state, not an error.
    pub fn get_highlight_cache(&self, language_name: &str) -> (r: Option<Arc<HighlightCache>>)
        ensures
            r == self.highlight_entry(language_name@),
    {
        match self.find_highlight_index(language_name) {
            Some(i) => {
                proof {
                    lemma_assoc_get_text_found(self.highlights@, language_name@, i as int);
                }
                Some(arc_clone(&self.highlights[i].1))
            },
            None => {
                proof {
                    lemma_assoc_get_text_none(self.highlights@, language_name@);
                }
                None
            },
        }
    }

    /// The cached parse artifact under the given combined key, handed out
    /// only when the stored input text equals the query text exactly: a
    /// hash collision with a different text is caught by that comparison
    /// and treated as a miss.
    pub fn lookup_parse_tree(&self, input_hash: u64, input: &str) -> (r: Option<
        Arc<tree_sitter::Tree>,
    >)
        ensures
            match self.parse_entry(input_hash) {
                Some(entry) => r == (if entry.1@ == input@ {
                    Some(entry.0)
                } else {
                    None::<Arc<tree_sitter::Tree>>
                }),
                None => r is None,
            },
    {
        match self.find_parse_index(input_hash) {
            Some(i) => {
                proof {
                    lemma_assoc_get_u64_found(self.parse_trees@, input_hash, i as int);
                }
                let entry = &self.parse_trees[i].1;
                if crate::diff::str_eq(entry.1.as_str(), input) {
                    Some(arc_clone(&entry.0))
                } else {
                    None
                }
            },
            None => {
                proof {
                    lemma_assoc_get_u64_none(self.parse_trees@, input_hash);
                }
                None
            },
        }
    }

    /// Replaces the parse artifact under `input_hash` and the highlight
    /// outcome for `language_name`, in that fixed order, as one logical
    /// update.  The parse cache receives the new tree together with its
    /// input text, unconditionally overwriting any prior entry under the
    /// key; the highlight cache receives a fresh entry built from the same
    /// arguments — version carried from the delta, write time `now` —
    /// replacing any prior outcome for the language wholesale.
    pub fn update_highlight_cache(
        &mut self,
        language_name: String,
        input_hash: u64,
        new_tree: Arc<tree_sitter::Tree>,
        input: String,
        ranges: Vec<HighlightRange>,
        highlight_delta: HighlightDelta,
        now: u64,
    )
        ensures
            forall|k2: u64| final(self).theme_entry(k2) == old(self).theme_entry(k2),
            forall|k2: u64|
                #![auto]
                final(self).parse_entry(k2) == (if k2 == input_hash {
                    Some((new_tree, input))
                } else {
                    old(self).parse_entry(k2)
                }),
            forall|l: Seq<char>|
                #![auto]
                l != language_name@ ==> final(self).highlight_entry(l) == old(
                    self,
                ).highlight_entry(l),
            final(self).highlight_entry(language_name@) matches Some(e) && e == (HighlightCache {
                tree: new_tree,
                ranges,
                input,
                version: highlight_delta.version,
                delta: highlight_delta,
                last_update: now,
            }),
    {
        let tree_for_entry = arc_clone(&new_tree);
        let input_for_entry = input.clone();
        let parse_value = (input_hash, (new_tree, input));
        match self.find_parse_index(input_hash) {
            Some(i) => {
                proof {
                    assert forall|k2: u64|
                        assoc_get_u64(self.parse_trees@.update(i as int, parse_value), k2) == (if k2
                            == input_hash {
                            Some(parse_value.1)
                        } else {
                            assoc_get_u64(self.parse_trees@, k2)
                        }) by {
                        lemma_assoc_get_u64_update(self.parse_trees@, i as int, parse_value, k2);
                    }
                }
                self.parse_trees[i] = parse_value;
            },
            None => {
                proof {
                    lemma_assoc_get_u64_none(self.parse_trees@, input_hash);
                    assert forall|k2: u64|
                        assoc_get_u64(self.parse_trees@.push(parse_value), k2) == (if k2
                            == input_hash {
                            Some(parse_value.1)
                        } else {
                            assoc_get_u64(self.parse_trees@, k2)
                        }) by {
                        lemma_assoc_get_u64_push(self.parse_trees@, parse_value, k2);
                    }
                }
                self.parse_trees.push(parse_value);
            },
        }
        let entry = HighlightCache::new(
            tree_for_entry,
            ranges,
            highlight_delta,
            input_for_entry,
            now,
        );
        let shared = Arc::new(entry);
        let idx = self.find_highlight_index(language_name.as_str());
        let highlight_value = (language_name, shared);
        match idx {
            Some(i) => {
                proof {
                    assert forall|l: Seq<char>|
                        assoc_get_text(self.highlights@.update(i as int, highlight_value), l) == (
                        if l == highlight_value.0@ {
                            Some(highlight_value.1)
                        } else {
                            assoc_get_text(self.highlights@, l)
                        }) by {
                        lemma_assoc_get_text_update(self.highlights@, i as int, highlight_value, l);
                    }
                }
                self.highlights[i] = highlight_value;
            },
            None => {
                proof {
                    lemma_assoc_get_text_none(self.highlights@, highlight_value.0@);
                    assert forall|l: Seq<char>|
                        assoc_get_text(self.highlights@.push(highlight_value), l) == (if l
                            == highlight_value.0@ {
                            Some(highlight_value.1)
                        } else {
                            assoc_get_text(self.highlights@, l)
                        }) by {
                        lemma_assoc_get_text_push(self.highlights@, highlight_value, l);
                    }
                }
                self.highlights.push(highlight_value);
            },
        }
    }
}

} // verus!
