//! Parsed theme definitions and their fingerprints.
//!
//! A theme arrives as a raw JSON string of the form
//! `{"theme": {name: color, ...}}`.  Parsing it is delegated to an outside
//! crate; the crate's own concern is only to memoize the parsed mapping by a
//! hash of the raw string (see the theme cache in [`crate::cache`]) and to
//! fingerprint a parsed mapping.  A parsed mapping is kept in ascending name
//! order, which makes it a canonical form: the fingerprint is a function of
//! the mapping alone (see [`lemma_fingerprint_canonical`]).

use vstd::prelude::*;

verus! {

use core::hash::Hasher;
use std::collections::hash_map::DefaultHasher;
use vstd::std_specs::hash::DefaultHasherAdditionalSpecFns;
use vstd::utf8::encode_utf8;

/// Lexicographic order on texts: the empty text comes first, otherwise the
/// first differing character decides.  This is a strict total order (see
/// [`lemma_lex_connected`] and [`lemma_lex_asymmetric`]), which is what
/// makes an ascending entry list the canonical form of its mapping.
pub open spec fn lex_lt(a: Seq<char>, b: Seq<char>) -> bool
    decreases a.len(),
{
    if b.len() == 0 {
        false
    } else if a.len() == 0 {
        true
    } else if a[0] != b[0] {
        a[0] < b[0]
    } else {
        lex_lt(a.drop_first(), b.drop_first())
    }
}

/// Any two texts are ordered one way, the other, or equal.
pub proof fn lemma_lex_connected(a: Seq<char>, b: Seq<char>)
    ensures
        a == b || lex_lt(a, b) || lex_lt(b, a),
    decreases a.len(),
{
    if a.len() == 0 && b.len() == 0 {
        assert(a =~= b);
    } else if a.len() > 0 && b.len() > 0 && a[0] == b[0] {
        lemma_lex_connected(a.drop_first(), b.drop_first());
        if a.drop_first() == b.drop_first() {
            assert(a.drop_first().len() == a.len() - 1);
            assert(b.drop_first().len() == b.len() - 1);
            assert(a.len() == b.len());
            assert forall|i: int| 0 <= i < a.len() implies a[i] == b[i] by {
                if i > 0 {
                    assert(a[i] == a.drop_first()[i - 1]);
                    assert(b[i] == b.drop_first()[i - 1]);
                }
            }
            assert(a =~= b);
        }
    }
}

/// The order is strict: no two texts order both ways.
pub proof fn lemma_lex_asymmetric(a: Seq<char>, b: Seq<char>)
    ensures
        !(lex_lt(a, b) && lex_lt(b, a)),
    decreases a.len(),
{
    if a.len() > 0 && b.len() > 0 && a[0] == b[0] {
        lemma_lex_asymmetric(a.drop_first(), b.drop_first());
    }
}

/// Whether the entries' names ascend strictly, so that no name repeats and
/// the list is the canonical form of its mapping.
pub open spec fn entry_views_sorted(entries: Seq<(Seq<char>, Seq<char>)>) -> bool {
    forall|i: int, j: int|
        0 <= i < j < entries.len() ==> lex_lt(
            (#[trigger] entries[i]).0,
            (#[trigger] entries[j]).0,
        )
}

/// The color an entry list assigns to a name: that of its first entry under
/// the name, if any.
pub open spec fn color_of(entries: Seq<(Seq<char>, Seq<char>)>, name: Seq<char>) -> Option<
    Seq<char>,
>
    decreases entries.len(),
{
    if entries.len() == 0 {
        None
    } else if entries[0].0 == name {
        Some(entries[0].1)
    } else {
        color_of(entries.drop_first(), name)
    }
}

/// A name held by no entry has no color.
proof fn lemma_color_of_absent(entries: Seq<(Seq<char>, Seq<char>)>, name: Seq<char>)
    requires
        forall|i: int| 0 <= i < entries.len() ==> (#[trigger] entries[i]).0 != name,
    ensures
        color_of(entries, name) is None,
    decreases entries.len(),
{
    if entries.len() > 0 {
        lemma_color_of_absent(entries.drop_first(), name);
    }
}

/// A name with a color is held by some entry.
proof fn lemma_color_of_present(entries: Seq<(Seq<char>, Seq<char>)>, name: Seq<char>)
    requires
        color_of(entries, name) is Some,
    ensures
        exists|i: int| 0 <= i < entries.len() && (#[trigger] entries[i]).0 == name,
    decreases entries.len(),
{
    if entries.len() > 0 && entries[0].0 != name {
        lemma_color_of_present(entries.drop_first(), name);
        let i = choose|i: int|
            0 <= i < entries.drop_first().len() && (#[trigger] entries.drop_first()[i]).0 == name;
        assert(entries[i + 1].0 == name);
    }
}

/// Ascending entry lists are canonical: two of them that assign the same
/// color to every name are the same list.
proof fn lemma_sorted_entries_canonical(
    a: Seq<(Seq<char>, Seq<char>)>,
    b: Seq<(Seq<char>, Seq<char>)>,
)
    requires
        entry_views_sorted(a),
        entry_views_sorted(b),
        forall|n: Seq<char>| #[trigger] color_of(a, n) == color_of(b, n),
    ensures
        a == b,
    decreases a.len(),
{
    if a.len() == 0 {
        if b.len() > 0 {
            assert(color_of(b, b[0].0) == Some(b[0].1));
            assert(color_of(a, b[0].0) is None);
        }
        assert(a =~= b);
    } else if b.len() == 0 {
        assert(color_of(a, a[0].0) == Some(a[0].1));
        assert(color_of(b, a[0].0) is None);
    } else {
        // each head carries the least name of its list, and the lists hold
        // the same names, so the heads carry the same name
        assert(color_of(a, a[0].0) == Some(a[0].1));
        assert(color_of(b, b[0].0) == Some(b[0].1));
        lemma_color_of_present(b, a[0].0);
        let j = choose|j: int| 0 <= j < b.len() && (#[trigger] b[j]).0 == a[0].0;
        if j > 0 {
            assert(lex_lt(b[0].0, b[j].0));
            lemma_color_of_present(a, b[0].0);
            let i = choose|i: int| 0 <= i < a.len() && (#[trigger] a[i]).0 == b[0].0;
            if i > 0 {
                assert(lex_lt(a[0].0, a[i].0));
                lemma_lex_asymmetric(a[0].0, b[0].0);
            } else {
                lemma_lex_asymmetric(b[0].0, a[0].0);
            }
        }
        assert(b[0].0 == a[0].0);
        assert(color_of(b, a[0].0) == Some(b[0].1));
        assert(a[0] == b[0]);
        // the tails stay sorted and agree on every name: the head's name
        // repeats nowhere, and any other name looks past the heads
        assert forall|i: int, j2: int| 0 <= i < j2 < a.drop_first().len() implies lex_lt(
            (#[trigger] a.drop_first()[i]).0,
            (#[trigger] a.drop_first()[j2]).0,
        ) by {
            assert(a.drop_first()[i] == a[i + 1] && a.drop_first()[j2] == a[j2 + 1]);
        }
        assert forall|i: int, j2: int| 0 <= i < j2 < b.drop_first().len() implies lex_lt(
            (#[trigger] b.drop_first()[i]).0,
            (#[trigger] b.drop_first()[j2]).0,
        ) by {
            assert(b.drop_first()[i] == b[i + 1] && b.drop_first()[j2] == b[j2 + 1]);
        }
        assert forall|n: Seq<char>|
            #[trigger] color_of(a.drop_first(), n) == color_of(b.drop_first(), n) by {
            if n == a[0].0 {
                assert forall|i: int|
                    0 <= i < a.drop_first().len() implies (#[trigger] a.drop_first()[i]).0
                    != n by {
                    assert(a.drop_first()[i] == a[i + 1]);
                    assert(lex_lt(a[0].0, a[i + 1].0));
                    if a[i + 1].0 == n {
                        lemma_lex_asymmetric(n, n);
                    }
                }
                assert forall|i: int|
                    0 <= i < b.drop_first().len() implies (#[trigger] b.drop_first()[i]).0
                    != n by {
                    assert(b.drop_first()[i] == b[i + 1]);
                    assert(lex_lt(b[0].0, b[i + 1].0));
                    if b[i + 1].0 == n {
                        lemma_lex_asymmetric(n, n);
                    }
                }
                lemma_color_of_absent(a.drop_first(), n);
                lemma_color_of_absent(b.drop_first(), n);
            } else {
                assert(color_of(a, n) == color_of(a.drop_first(), n));
                assert(color_of(b, n) == color_of(b.drop_first(), n));
            }
        }
        lemma_sorted_entries_canonical(a.drop_first(), b.drop_first());
        assert(a.len() == b.len());
        assert forall|i: int| 0 <= i < a.len() implies a[i] == b[i] by {
            if i > 0 {
                assert(a[i] == a.drop_first()[i - 1]);
                assert(b[i] == b.drop_first()[i - 1]);
            }
        }
        assert(a =~= b);
    }
}

/// A parsed theme: the color mapping as (name, color) pairs, ascending by
/// name with no duplicate names (see [`Theme::wf`]), as the parser hands
/// them over.
#[derive(Debug)]
pub struct Theme {
    pub theme: Vec<(String, String)>,
}

/// The entries of a theme list, seen as character sequences.
pub open spec fn entries_view(entries: Seq<(String, String)>) -> Seq<(Seq<char>, Seq<char>)> {
    entries.map_values(|p: (String, String)| (p.0@, p.1@))
}

impl View for Theme {
    type V = Seq<(Seq<char>, Seq<char>)>;

    open spec fn view(&self) -> Seq<(Seq<char>, Seq<char>)> {
        entries_view(self.theme@)
    }
}

impl Theme {
    /// Well-formedness: the entry names ascend strictly, making the list
    /// the canonical form of its mapping.
    pub open spec fn wf(self) -> bool {
        entry_views_sorted(self@)
    }
}

/// What parsing a theme definition yields: `None` when the text is not a
/// JSON object carrying a `"theme"` object with string values; otherwise the
/// (name, color) pairs of that object, ascending by name.
pub uninterp spec fn theme_entries_of(s: Seq<char>) -> Option<Seq<(Seq<char>, Seq<char>)>>;

/// The mapping a theme definition degrades to: its parsed entries, or the
/// empty mapping when the definition cannot be parsed.
pub open spec fn spec_parsed_theme(s: Seq<char>) -> Seq<(Seq<char>, Seq<char>)> {
    match theme_entries_of(s) {
        Some(entries) => entries,
        None => Seq::<(Seq<char>, Seq<char>)>::empty(),
    }
}

/// Relies on serde_json::from_str and serde_json::Value's accessors: parsing
/// a JSON document is a function of the input text alone, and the entries of
/// a parsed object come out ascending by name, without duplicates (the
/// object is backed by an ordered map).
#[verifier::external_body]
pub(crate) fn parse_theme_entries(s: &str) -> (r: Option<Vec<(String, String)>>)
    ensures
        match r {
            Some(v) => theme_entries_of(s@) == Some(entries_view(v@)) && entry_views_sorted(
                entries_view(v@),
            ),
            None => theme_entries_of(s@) is None,
        },
{
    let value: serde_json::Value = match serde_json::from_str(s) {
        Ok(v) => v,
        Err(_) => return None,
    };
    let object = value.get("theme")?.as_object()?;
    let mut entries = Vec::new();
    for (name, color) in object {
        entries.push((name.clone(), color.as_str()?.to_string()));
    }
    Some(entries)
}

/// The parsed mapping of a theme definition, an unparseable definition
/// degrading to the empty mapping rather than to an error.  The result is
/// well-formed either way.
pub fn parse_theme(s: &str) -> (r: Theme)
    ensures
        r@ == spec_parsed_theme(s@),
        r.wf(),
{
    match parse_theme_entries(s) {
        Some(entries) => Theme { theme: entries },
        None => {
            let empty: Vec<(String, String)> = Vec::new();
            proof {
                assert(entries_view(empty@) =~= Seq::<(Seq<char>, Seq<char>)>::empty());
            }
            Theme { theme: empty }
        },
    }
}

/// The blocks of bytes that fingerprinting a mapping feeds the hasher: for
/// each entry in order, its name's bytes, then its color's bytes.
pub open spec fn theme_hash_blocks(entries: Seq<(Seq<char>, Seq<char>)>) -> Seq<Seq<u8>>
    decreases entries.len(),
{
    if entries.len() == 0 {
        Seq::<Seq<u8>>::empty()
    } else {
        theme_hash_blocks(entries.drop_last()).push(encode_utf8(entries.last().0)).push(
            encode_utf8(entries.last().1),
        )
    }
}

/// The fingerprint is a function of the color mapping alone: two well-formed
/// themes assigning the same color to every name are the same entry list, so
/// they feed the hasher the same blocks and fingerprint identically, however
/// they were produced.
pub proof fn lemma_fingerprint_canonical(a: Theme, b: Theme)
    requires
        a.wf(),
        b.wf(),
        forall|n: Seq<char>| #[trigger] color_of(a@, n) == color_of(b@, n),
    ensures
        a@ == b@,
        theme_hash_blocks(a@) == theme_hash_blocks(b@),
{
    lemma_sorted_entries_canonical(a@, b@);
}

impl Theme {
    /// The fingerprint of the color mapping: every entry's name and color
    /// fed, in the stored order, to std's `DefaultHasher`.  For well-formed
    /// themes the stored order is canonical, so the fingerprint depends on
    /// the mapping alone (see [`lemma_fingerprint_canonical`]).
    pub fn calculate_hash(&self) -> (r: u64)
        ensures
            r == DefaultHasher::spec_finish(theme_hash_blocks(self@)),
    {
        let mut hasher = DefaultHasher::new();
        proof {
            assert(hasher@ =~= theme_hash_blocks(self@.take(0)));
        }
        let mut i: usize = 0;
        while i < self.theme.len()
            invariant
                i <= self.theme@.len(),
                hasher@ == theme_hash_blocks(self@.take(i as int)),
            decreases self.theme@.len() - i,
        {
            let entry = &self.theme[i];
            hasher.write(entry.0.as_str().as_bytes());
            hasher.write(entry.1.as_str().as_bytes());
            proof {
                assert(self@.take(i as int + 1).drop_last() =~= self@.take(i as int));
                assert(self@.take(i as int + 1).last() == self@[i as int]);
                assert(self@[i as int] == (self.theme@[i as int].0@, self.theme@[i as int].1@));
            }
            i = i + 1;
        }
        proof {
            assert(self@.take(i as int) =~= self@);
        }
        hasher.finish()
    }
}

} // verus!
