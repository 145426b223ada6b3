//! The diff engine: a positional similarity measure between two text
//! snapshots, and the byte ranges at which they differ.
//!
//! The measure is positional, not alignment-aware: bytes are compared at
//! identical offsets only, so an insertion or deletion shifts every later
//! byte, and even a one-character insertion near the start of a large text
//! can drive the measure close to its maximum.  This is a known, accepted
//! limitation of the engine, kept deliberately for its cheapness.

use vstd::prelude::*;

verus! {

use vstd::string::StringSliceAdditionalSpecFns;

/// Two changed ranges whose gap is at most this many bytes are merged.
pub const MERGE_GAP: usize = 30;

/// The length of the shorter of the two byte sequences.
pub open spec fn min_len(a: Seq<u8>, b: Seq<u8>) -> int {
    if a.len() <= b.len() {
        a.len() as int
    } else {
        b.len() as int
    }
}

/// The length of the longer of the two byte sequences.
pub open spec fn max_len(a: Seq<u8>, b: Seq<u8>) -> int {
    if a.len() >= b.len() {
        a.len() as int
    } else {
        b.len() as int
    }
}

/// How many positions below `n` hold different bytes in `a` and `b`.
pub open spec fn mismatches_up_to(a: Seq<u8>, b: Seq<u8>, n: int) -> int
    decreases n,
{
    if n <= 0 {
        0
    } else {
        mismatches_up_to(a, b, n - 1) + if a[n - 1] != b[n - 1] {
            1int
        } else {
            0int
        }
    }
}

/// The number of aligned byte positions at which the two texts differ.
pub open spec fn mismatch_count(a: Seq<u8>, b: Seq<u8>) -> int {
    mismatches_up_to(a, b, min_len(a, b))
}

/// Whether the similarity ratio `mismatch_count / max_len` lies strictly
/// below the reuse threshold of 3/10.  Two empty texts have ratio zero and
/// count as similar.
pub open spec fn is_similar(a: Seq<u8>, b: Seq<u8>) -> bool {
    max_len(a, b) == 0 || 10 * mismatch_count(a, b) < 3 * max_len(a, b)
}

/// The positional difference of the two texts, as the exact fraction
/// (number of mismatching positions, length of the longer text).  The
/// similarity ratio is that fraction; it is returned as a numerator and
/// denominator pair so that the threshold test stays in integers, and the
/// ratio is zero exactly when the numerator is zero.
pub fn text_difference_ratio(a: &str, b: &str) -> (r: (usize, usize))
    ensures
        r.0 == mismatch_count(a.spec_bytes(), b.spec_bytes()),
        r.1 == max_len(a.spec_bytes(), b.spec_bytes()),
        r.0 <= r.1,
{
    let ab = a.as_bytes();
    let bb = b.as_bytes();
    let shorter: usize = if ab.len() <= bb.len() {
        ab.len()
    } else {
        bb.len()
    };
    let longer: usize = if ab.len() >= bb.len() {
        ab.len()
    } else {
        bb.len()
    };
    let mut different: usize = 0;
    let mut i: usize = 0;
    while i < shorter
        invariant
            ab@ == a.spec_bytes(),
            bb@ == b.spec_bytes(),
            shorter == min_len(ab@, bb@),
            i <= shorter,
            different == mismatches_up_to(ab@, bb@, i as int),
            different <= i,
        decreases shorter - i,
    {
        if ab[i] != bb[i] {
            different = different + 1;
        }
        i = i + 1;
    }
    (different, longer)
}

/// Whether the two texts lie strictly below the 3/10 difference threshold,
/// so that a cached outcome for one of them may serve the other.
pub fn texts_similar(a: &str, b: &str) -> (r: bool)
    ensures
        r == is_similar(a.spec_bytes(), b.spec_bytes()),
{
    let ratio = text_difference_ratio(a, b);
    ratio.1 == 0 || 10 * (ratio.0 as u128) < 3 * (ratio.1 as u128)
}

/// For every text, the similarity ratio of the text with itself is zero:
/// the mismatch count — the ratio's numerator — is zero.
pub proof fn lemma_self_similarity_zero(t: Seq<u8>)
    ensures
        mismatch_count(t, t) == 0,
        is_similar(t, t),
{
    lemma_equal_prefix_no_mismatches(t, t, t.len() as int);
}

/// Below `n` the two sequences agree, so no mismatch is counted there.
proof fn lemma_equal_prefix_no_mismatches(a: Seq<u8>, b: Seq<u8>, n: int)
    requires
        n <= min_len(a, b),
        forall|i: int| 0 <= i < n ==> a[i] == b[i],
    ensures
        mismatches_up_to(a, b, n) == 0,
    decreases n,
{
    if n > 0 {
        lemma_equal_prefix_no_mismatches(a, b, n - 1);
    }
}

/// Whether two texts hold the same characters, compared byte by byte.
pub fn str_eq(a: &str, b: &str) -> (r: bool)
    ensures
        r == (a@ == b@),
{
    let ab = a.as_bytes();
    let bb = b.as_bytes();
    if ab.len() != bb.len() {
        proof {
            assert(a@ != b@);
        }
        return false;
    }
    let mut i: usize = 0;
    while i < ab.len()
        invariant
            ab@ == a.spec_bytes(),
            bb@ == b.spec_bytes(),
            ab@.len() == bb@.len(),
            i <= ab@.len(),
            forall|j: int| 0 <= j < i ==> ab@[j] == bb@[j],
        decreases ab@.len() - i,
    {
        if ab[i] != bb[i] {
            proof {
                assert(a@ != b@);
            }
            return false;
        }
        i = i + 1;
    }
    proof {
        assert(a.spec_bytes() =~= b.spec_bytes());
        vstd::utf8::encode_utf8_decode_utf8(a@);
        vstd::utf8::encode_utf8_decode_utf8(b@);
    }
    true
}

/// A vector of byte ranges, seen as unbounded-integer pairs.
pub open spec fn ranges_model(s: Seq<(usize, usize)>) -> Seq<(int, int)> {
    s.map_values(|p: (usize, usize)| (p.0 as int, p.1 as int))
}

/// The changed ranges that the position-aligned scan still emits from
/// position `k` on, in new-text coordinates.  `run_start` is the start of the
/// mismatch run in progress, if one is open.  When the common prefix is
/// exhausted, an open run is closed at the new text's end; then, if the old
/// text is longer, a zero-length marker records the truncation point, and if
/// the new text is longer, its appended tail is one changed range.
pub open spec fn scan_changes(a: Seq<u8>, b: Seq<u8>, k: int, run_start: Option<int>) -> Seq<
    (int, int),
>
    decreases min_len(a, b) - k,
{
    if k >= min_len(a, b) {
        (match run_start {
            Some(s) => seq![(s, b.len() as int)],
            None => Seq::<(int, int)>::empty(),
        }) + (if a.len() > b.len() {
            seq![(b.len() as int, b.len() as int)]
        } else if b.len() > a.len() {
            seq![(a.len() as int, b.len() as int)]
        } else {
            Seq::<(int, int)>::empty()
        })
    } else if a[k] != b[k] {
        scan_changes(
            a,
            b,
            k + 1,
            match run_start {
                Some(s) => Some(s),
                None => Some(k),
            },
        )
    } else {
        match run_start {
            Some(s) => seq![(s, k)] + scan_changes(a, b, k + 1, None),
            None => scan_changes(a, b, k + 1, None),
        }
    }
}

/// All changed ranges of the aligned scan, before merging.
pub open spec fn raw_text_changes(a: Seq<u8>, b: Seq<u8>) -> Seq<(int, int)> {
    scan_changes(a, b, 0, None)
}

/// `x` inserted into `s` after every entry whose start is not greater than
/// `x`'s: the insertion that, applied left to right, sorts stably by start.
pub open spec fn insert_by_start(s: Seq<(int, int)>, x: (int, int)) -> Seq<(int, int)>
    decreases s.len(),
{
    if s.len() == 0 {
        seq![x]
    } else if x.0 < s[0].0 {
        seq![x] + s
    } else {
        seq![s[0]] + insert_by_start(s.drop_first(), x)
    }
}

/// The entries of `s` sorted by range start, equal starts keeping their
/// original order.
pub open spec fn sort_by_start(s: Seq<(int, int)>) -> Seq<(int, int)>
    decreases s.len(),
{
    if s.len() == 0 {
        Seq::<(int, int)>::empty()
    } else {
        insert_by_start(sort_by_start(s.drop_last()), s.last())
    }
}

/// Successive ranges folded together whenever the next range starts at most
/// `gap` bytes after the end of the range gathered so far; the merged range
/// keeps the earlier start and the larger end.
pub open spec fn merge_with_gap(s: Seq<(int, int)>, gap: int) -> Seq<(int, int)>
    decreases s.len(),
{
    if s.len() <= 1 {
        s
    } else {
        let prev = merge_with_gap(s.drop_last(), gap);
        let tail = prev.last();
        let x = s.last();
        if x.0 <= tail.1 + gap {
            prev.drop_last().push(
                (
                    tail.0,
                    if x.1 > tail.1 {
                        x.1
                    } else {
                        tail.1
                    },
                ),
            )
        } else {
            prev.push(x)
        }
    }
}

/// Merging never empties a nonempty range list.
pub proof fn lemma_merge_with_gap_nonempty(s: Seq<(int, int)>, gap: int)
    requires
        s.len() >= 1,
    ensures
        merge_with_gap(s, gap).len() >= 1,
    decreases s.len(),
{
    if s.len() > 1 {
        lemma_merge_with_gap_nonempty(s.drop_last(), gap);
    }
}

/// The changed ranges between two texts: the aligned scan's ranges, merged
/// over gaps of at most [`MERGE_GAP`] bytes.
pub open spec fn spec_text_changes(a: Seq<u8>, b: Seq<u8>) -> Seq<(int, int)> {
    merge_with_gap(raw_text_changes(a, b), MERGE_GAP as int)
}

/// When every entry of `s` starts no later than `x`, `x` is inserted at the
/// very end.
proof fn lemma_insert_by_start_at_end(s: Seq<(int, int)>, x: (int, int))
    requires
        forall|i: int| 0 <= i < s.len() ==> s[i].0 <= x.0,
    ensures
        insert_by_start(s, x) == s.push(x),
    decreases s.len(),
{
    if s.len() == 0 {
        assert(insert_by_start(s, x) =~= s.push(x));
    } else {
        lemma_insert_by_start_at_end(s.drop_first(), x);
        assert(insert_by_start(s, x) =~= s.push(x));
    }
}

/// When the entries before position `p` start no later than `x` and the entry
/// at `p` starts later, `x` lands exactly at position `p`.
proof fn lemma_insert_by_start_at(s: Seq<(int, int)>, x: (int, int), p: int)
    requires
        0 <= p <= s.len(),
        forall|j: int| 0 <= j < p ==> s[j].0 <= x.0,
        p < s.len() ==> s[p].0 > x.0,
    ensures
        insert_by_start(s, x) == s.insert(p, x),
    decreases p,
{
    if s.len() == 0 {
        assert(insert_by_start(s, x) =~= s.insert(0, x));
    } else if p == 0 {
        assert(insert_by_start(s, x) == seq![x] + s);
        assert(s.insert(0, x) =~= seq![x] + s);
    } else {
        lemma_insert_by_start_at(s.drop_first(), x, p - 1);
        assert(insert_by_start(s, x) == seq![s[0]] + s.drop_first().insert(p - 1, x));
        assert(s.insert(p, x) =~= seq![s[0]] + s.drop_first().insert(p - 1, x));
    }
}

/// Whether the ranges are ordered by their starts.
pub open spec fn sorted_by_start(s: Seq<(int, int)>) -> bool {
    forall|i: int, j: int| 0 <= i <= j < s.len() ==> s[i].0 <= s[j].0
}

/// Sorting a list already ordered by start leaves it unchanged.
proof fn lemma_sort_identity(s: Seq<(int, int)>)
    requires
        sorted_by_start(s),
    ensures
        sort_by_start(s) == s,
    decreases s.len(),
{
    if s.len() > 0 {
        assert(sorted_by_start(s.drop_last()));
        lemma_sort_identity(s.drop_last());
        lemma_insert_by_start_at_end(s.drop_last(), s.last());
        assert(s.drop_last().push(s.last()) =~= s);
    }
}

/// The entries of `input`, sorted stably by range start.
fn sort_ranges(input: &Vec<(usize, usize)>) -> (r: Vec<(usize, usize)>)
    ensures
        ranges_model(r@) == sort_by_start(ranges_model(input@)),
{
    let mut out: Vec<(usize, usize)> = Vec::new();
    let mut i: usize = 0;
    while i < input.len()
        invariant
            i <= input@.len(),
            ranges_model(out@) == sort_by_start(ranges_model(input@.take(i as int))),
        decreases input@.len() - i,
    {
        let x = input[i];
        let mut p: usize = 0;
        while p < out.len() && out[p].0 <= x.0
            invariant
                p <= out@.len(),
                forall|j: int| 0 <= j < p ==> out@[j].0 <= x.0,
            decreases out@.len() - p,
        {
            p = p + 1;
        }
        proof {
            let m = ranges_model(out@);
            let xm = (x.0 as int, x.1 as int);
            lemma_insert_by_start_at(m, xm, p as int);
            assert(ranges_model(out@.insert(p as int, x)) =~= m.insert(p as int, xm));
            assert(ranges_model(input@.take(i as int + 1)).drop_last() =~= ranges_model(
                input@.take(i as int),
            ));
            assert(ranges_model(input@.take(i as int + 1)).last() == xm);
        }
        out.insert(p, x);
        i = i + 1;
    }
    proof {
        assert(input@.take(i as int) =~= input@);
    }
    out
}

/// The given ranges sorted by start, with any two successive ranges whose gap
/// is at most [`MERGE_GAP`] bytes folded into one.  Merging bounds the number
/// of disjoint spans a caller has to re-highlight.
pub fn merge_nearby_changes(changes: Vec<(usize, usize)>) -> (r: Vec<(usize, usize)>)
    ensures
        ranges_model(r@) == merge_with_gap(
            sort_by_start(ranges_model(changes@)),
            MERGE_GAP as int,
        ),
{
    merge_ranges_with_gap(changes, MERGE_GAP)
}

/// The given ranges sorted by start, with any two successive ranges whose
/// gap is at most `gap` bytes folded into one.
pub(crate) fn merge_ranges_with_gap(changes: Vec<(usize, usize)>, gap: usize) -> (r: Vec<
    (usize, usize),
>)
    ensures
        ranges_model(r@) == merge_with_gap(sort_by_start(ranges_model(changes@)), gap as int),
{
    if changes.len() == 0 {
        proof {
            assert(ranges_model(changes@) =~= Seq::<(int, int)>::empty());
        }
        return changes;
    }
    let sorted = sort_ranges(&changes);
    proof {
        assert(ranges_model(sorted@).len() == sorted@.len());
    }
    let mut merged: Vec<(usize, usize)> = Vec::new();
    merged.push(sorted[0]);
    proof {
        assert(ranges_model(sorted@).take(1) =~= seq![ranges_model(sorted@)[0]]);
        assert(ranges_model(merged@) =~= seq![ranges_model(sorted@)[0]]);
    }
    let mut i: usize = 1;
    while i < sorted.len()
        invariant
            1 <= i <= sorted@.len(),
            merged@.len() >= 1,
            ranges_model(merged@) == merge_with_gap(
                ranges_model(sorted@).take(i as int),
                gap as int,
            ),
        decreases sorted@.len() - i,
    {
        let x = sorted[i];
        let tail = merged[merged.len() - 1];
        let within = x.0 <= tail.1 || x.0 - tail.1 <= gap;
        proof {
            let sm = ranges_model(sorted@);
            assert(sm.take(i as int + 1).drop_last() =~= sm.take(i as int));
            assert(sm.take(i as int + 1).last() == (x.0 as int, x.1 as int));
            assert(ranges_model(merged@).last() == (tail.0 as int, tail.1 as int));
            lemma_merge_with_gap_nonempty(sm.take(i as int), gap as int);
        }
        if within {
            let new_end = if x.1 > tail.1 {
                x.1
            } else {
                tail.1
            };
            let popped = merged.pop();
            merged.push((tail.0, new_end));
            proof {
                assert(ranges_model(merged@) =~= merge_with_gap(
                    ranges_model(sorted@).take(i as int + 1),
                    gap as int,
                ));
            }
        } else {
            merged.push((x.0, x.1));
            proof {
                assert(ranges_model(merged@) =~= merge_with_gap(
                    ranges_model(sorted@).take(i as int + 1),
                    gap as int,
                ));
            }
        }
        i = i + 1;
    }
    proof {
        assert(ranges_model(sorted@).take(i as int) =~= ranges_model(sorted@));
    }
    merged
}

/// The start of an open mismatch run, as an unbounded integer.
pub open spec fn run_start_model(o: Option<usize>) -> Option<int> {
    match o {
        Some(s) => Some(s as int),
        None => None,
    }
}

/// The scan emits its ranges in start order, never starting before the open
/// run's start (or, without one, the current position), each well-formed and
/// ending within the new text.
proof fn lemma_scan_changes_ordered(a: Seq<u8>, b: Seq<u8>, k: int, run_start: Option<int>)
    requires
        0 <= k <= min_len(a, b),
        match run_start {
            Some(s) => 0 <= s <= k,
            None => true,
        },
    ensures
        sorted_by_start(scan_changes(a, b, k, run_start)),
        forall|i: int|
            0 <= i < scan_changes(a, b, k, run_start).len() ==> scan_changes(
                a,
                b,
                k,
                run_start,
            )[i].0 >= (match run_start {
                Some(s) => s,
                None => k,
            }),
        forall|i: int|
            0 <= i < scan_changes(a, b, k, run_start).len() ==> 0 <= (#[trigger] scan_changes(
                a,
                b,
                k,
                run_start,
            )[i]).0 && scan_changes(a, b, k, run_start)[i].0 <= scan_changes(a, b, k, run_start)[i].1
                && scan_changes(a, b, k, run_start)[i].1 <= b.len(),
    decreases min_len(a, b) - k,
{
    if k >= min_len(a, b) {
    } else if a[k] != b[k] {
        lemma_scan_changes_ordered(
            a,
            b,
            k + 1,
            match run_start {
                Some(s) => Some(s),
                None => Some(k),
            },
        );
    } else {
        lemma_scan_changes_ordered(a, b, k + 1, None);
    }
}

/// The changed ranges between two texts, in new-text coordinates: the
/// position-aligned scan's mismatch runs, closed off by the truncation marker
/// or appended-tail range where the lengths differ, merged over gaps of at
/// most [`MERGE_GAP`] bytes.
pub fn get_text_changes(old_text: &str, new_text: &str) -> (r: Vec<(usize, usize)>)
    ensures
        ranges_model(r@) == spec_text_changes(old_text.spec_bytes(), new_text.spec_bytes()),
{
    let ab = old_text.as_bytes();
    let bb = new_text.as_bytes();
    let m = if ab.len() <= bb.len() {
        ab.len()
    } else {
        bb.len()
    };
    let mut changes: Vec<(usize, usize)> = Vec::new();
    let mut current_diff_start: Option<usize> = None;
    let mut j: usize = 0;
    while j < m
        invariant
            ab@ == old_text.spec_bytes(),
            bb@ == new_text.spec_bytes(),
            m == min_len(ab@, bb@),
            j <= m,
            match current_diff_start {
                Some(s) => s < j,
                None => true,
            },
            ranges_model(changes@) + scan_changes(
                ab@,
                bb@,
                j as int,
                run_start_model(current_diff_start),
            ) == raw_text_changes(ab@, bb@),
        decreases m - j,
    {
        if ab[j] != bb[j] {
            if current_diff_start.is_none() {
                current_diff_start = Some(j);
            }
        } else {
            if let Some(start) = current_diff_start {
                proof {
                    assert(ranges_model(changes@.push((start, j))) =~= ranges_model(changes@)
                        + seq![(start as int, j as int)]);
                    assert(ranges_model(changes@) + (seq![(start as int, j as int)]
                        + scan_changes(ab@, bb@, j as int + 1, None)) =~= (ranges_model(changes@)
                        + seq![(start as int, j as int)]) + scan_changes(
                        ab@,
                        bb@,
                        j as int + 1,
                        None,
                    ));
                }
                changes.push((start, j));
                current_diff_start = None;
            }
        }
        j = j + 1;
    }
    if let Some(start) = current_diff_start {
        proof {
            assert(ranges_model(changes@.push((start, bb@.len() as usize))) =~= ranges_model(
                changes@,
            ) + seq![(start as int, bb@.len() as int)]);
        }
        changes.push((start, bb.len()));
        current_diff_start = None;
    }
    let ghost before_tail = ranges_model(changes@);
    if ab.len() > bb.len() {
        proof {
            assert(ranges_model(changes@.push((j, j))) =~= ranges_model(changes@) + seq![(
                j as int,
                j as int,
            )]);
        }
        changes.push((j, j));
    } else if bb.len() > ab.len() {
        proof {
            assert(ranges_model(changes@.push((j, bb@.len() as usize))) =~= ranges_model(changes@)
                + seq![(j as int, bb@.len() as int)]);
        }
        changes.push((j, bb.len()));
    }
    proof {
        assert(ranges_model(changes@) + Seq::<(int, int)>::empty() =~= ranges_model(changes@));
        assert(before_tail + Seq::<(int, int)>::empty() =~= before_tail);
        assert(ranges_model(changes@) == raw_text_changes(ab@, bb@));
        lemma_scan_changes_ordered(ab@, bb@, 0, None);
        lemma_sort_identity(raw_text_changes(ab@, bb@));
    }
    merge_nearby_changes(changes)
}

/// The ranges still reusable from position `last_end` on: the gaps between
/// the given changed ranges, closed off at `text_len`.
pub open spec fn reused_from(changed: Seq<(int, int)>, last_end: int, text_len: int) -> Seq<
    (int, int),
>
    decreases changed.len(),
{
    if changed.len() == 0 {
        if last_end < text_len {
            seq![(last_end, text_len)]
        } else {
            Seq::<(int, int)>::empty()
        }
    } else {
        (if changed[0].0 > last_end {
            seq![(last_end, changed[0].0)]
        } else {
            Seq::<(int, int)>::empty()
        }) + reused_from(changed.drop_first(), changed[0].1, text_len)
    }
}

/// The complement of the changed ranges within `[0, text_len)`.
pub open spec fn spec_reused_ranges(changed: Seq<(int, int)>, text_len: int) -> Seq<(int, int)> {
    reused_from(changed, 0, text_len)
}

/// The byte ranges of `[0, text_len)` not covered by the given changed
/// ranges: what a caller may keep from the previous outcome.  The changed
/// ranges are expected sorted and non-overlapping, as the diff produces them.
pub fn get_reused_ranges(changed_ranges: &Vec<(usize, usize)>, text_len: usize) -> (r: Vec<
    (usize, usize),
>)
    ensures
        ranges_model(r@) == spec_reused_ranges(ranges_model(changed_ranges@), text_len as int),
{
    let mut reused: Vec<(usize, usize)> = Vec::new();
    let mut last_end: usize = 0;
    let mut i: usize = 0;
    proof {
        let cm = ranges_model(changed_ranges@);
        assert(cm.skip(0) =~= cm);
        assert(ranges_model(reused@) =~= Seq::<(int, int)>::empty());
        assert(Seq::<(int, int)>::empty() + reused_from(cm, 0, text_len as int) =~= reused_from(
            cm,
            0,
            text_len as int,
        ));
    }
    while i < changed_ranges.len()
        invariant
            i <= changed_ranges@.len(),
            ranges_model(reused@) + reused_from(
                ranges_model(changed_ranges@).skip(i as int),
                last_end as int,
                text_len as int,
            ) == spec_reused_ranges(ranges_model(changed_ranges@), text_len as int),
        decreases changed_ranges@.len() - i,
    {
        let x = changed_ranges[i];
        proof {
            let cm = ranges_model(changed_ranges@);
            assert(cm.skip(i as int).drop_first() =~= cm.skip(i as int + 1));
            assert(cm.skip(i as int)[0] == (x.0 as int, x.1 as int));
            if x.0 > last_end {
                assert(ranges_model(reused@.push((last_end as usize, x.0))) =~= ranges_model(
                    reused@,
                ) + seq![(last_end as int, x.0 as int)]);
                assert((ranges_model(reused@) + seq![(last_end as int, x.0 as int)])
                    + reused_from(cm.skip(i as int + 1), x.1 as int, text_len as int)
                    =~= ranges_model(reused@) + (seq![(last_end as int, x.0 as int)]
                    + reused_from(cm.skip(i as int + 1), x.1 as int, text_len as int)));
            } else {
                assert(Seq::<(int, int)>::empty() + reused_from(
                    cm.skip(i as int + 1),
                    x.1 as int,
                    text_len as int,
                ) =~= reused_from(cm.skip(i as int + 1), x.1 as int, text_len as int));
            }
        }
        if x.0 > last_end {
            reused.push((last_end, x.0));
        }
        last_end = x.1;
        i = i + 1;
    }
    proof {
        assert(ranges_model(changed_ranges@).skip(i as int) =~= Seq::<(int, int)>::empty());
        if last_end < text_len {
            assert(ranges_model(reused@.push((last_end as usize, text_len))) =~= ranges_model(
                reused@,
            ) + seq![(last_end as int, text_len as int)]);
        } else {
            assert(ranges_model(reused@) + Seq::<(int, int)>::empty() =~= ranges_model(reused@));
        }
    }
    if last_end < text_len {
        reused.push((last_end, text_len));
    }
    reused
}

/// Whether some range of `s` covers byte offset `x`.
pub open spec fn covers(s: Seq<(int, int)>, x: int) -> bool {
    exists|i: int| 0 <= i < s.len() && (#[trigger] s[i]).0 <= x < s[i].1
}

/// Whether the ranges lie within `[lo, hi]`, each is well-formed, and no two
/// overlap: each range ends no later than any later range begins.
pub open spec fn disjoint_ordered(s: Seq<(int, int)>, lo: int, hi: int) -> bool {
    &&& forall|i: int| 0 <= i < s.len() ==> (#[trigger] s[i]).0 <= s[i].1
    &&& forall|i: int| 0 <= i < s.len() ==> lo <= (#[trigger] s[i]).0 && s[i].1 <= hi
    &&& forall|i: int, j: int| 0 <= i < j < s.len() ==> (#[trigger] s[i]).1 <= (#[trigger] s[j]).0
}

/// Between `last_end` and `text_len`, every byte offset lies in exactly one
/// of the changed ranges and their reused complement; and every reused range
/// begins no earlier than `last_end`.
proof fn lemma_reused_from_partition(changed: Seq<(int, int)>, last_end: int, text_len: int, x: int)
    requires
        disjoint_ordered(changed, last_end, text_len),
        last_end <= x < text_len,
    ensures
        covers(changed, x) <==> !covers(reused_from(changed, last_end, text_len), x),
        forall|k: int|
            0 <= k < reused_from(changed, last_end, text_len).len() ==> (#[trigger] reused_from(
                changed,
                last_end,
                text_len,
            )[k]).0 >= last_end,
    decreases changed.len(),
{
    let r = reused_from(changed, last_end, text_len);
    if changed.len() == 0 {
        assert(last_end < text_len);
        assert(r =~= seq![(last_end, text_len)]);
        assert(!covers(changed, x));
        assert(r[0].0 <= x < r[0].1);
        assert(covers(r, x));
    } else {
        let s0 = changed[0].0;
        let e0 = changed[0].1;
        let head = if s0 > last_end {
            seq![(last_end, s0)]
        } else {
            Seq::<(int, int)>::empty()
        };
        let rest = changed.drop_first();
        let rest_r = reused_from(rest, e0, text_len);
        assert(r == head + rest_r);
        assert forall|i: int| 0 <= i < rest.len() implies (#[trigger] rest[i]).0 >= e0 by {
            assert(rest[i] == changed[i + 1]);
            assert(changed[0].1 <= changed[i + 1].0);
        }
        assert(disjoint_ordered(rest, e0, text_len));
        if x < e0 {
            // the recursion is only needed for its locality fact here
            if e0 < text_len {
                lemma_reused_from_partition(rest, e0, text_len, e0);
            } else {
                assert forall|i: int| 0 <= i < rest.len() implies (#[trigger] rest[i]).0 >= e0
                    && rest[i].1 <= e0 by {
                    assert(rest[i] == changed[i + 1]);
                }
                lemma_reused_from_empty_window(rest, e0, text_len);
            }
            if x < s0 {
                // before the first changed range: reused, not changed
                assert forall|i: int| 0 <= i < changed.len() implies !((#[trigger] changed[i]).0
                    <= x < changed[i].1) by {
                    if i > 0 {
                        assert(changed[0].1 <= changed[i].0);
                    }
                }
                assert(!covers(changed, x));
                assert(s0 > last_end);
                assert(r[0] == (last_end, s0));
                assert(r[0].0 <= x < r[0].1);
                assert(covers(r, x));
            } else {
                // inside the first changed range: changed, not reused
                assert(changed[0].0 <= x < changed[0].1);
                assert(covers(changed, x));
                assert forall|k: int| 0 <= k < r.len() implies !((#[trigger] r[k]).0 <= x
                    < r[k].1) by {
                    if k < head.len() {
                        assert(r[k] == (last_end, s0));
                    } else {
                        assert(r[k] == rest_r[k - head.len()]);
                        assert(rest_r[k - head.len()].0 >= e0);
                    }
                }
                assert(!covers(r, x));
            }
        } else {
            // beyond the first changed range: the tail decides
            lemma_reused_from_partition(rest, e0, text_len, x);
            if covers(changed, x) {
                let i = choose|i: int| 0 <= i < changed.len() && (#[trigger] changed[i]).0 <= x < changed[i].1;
                assert(i > 0);
                assert(rest[i - 1].0 <= x < rest[i - 1].1);
                assert(covers(rest, x));
            }
            if covers(rest, x) {
                let i = choose|i: int| 0 <= i < rest.len() && (#[trigger] rest[i]).0 <= x < rest[i].1;
                assert(changed[i + 1].0 <= x < changed[i + 1].1);
                assert(covers(changed, x));
            }
            if covers(r, x) {
                let k = choose|k: int| 0 <= k < r.len() && (#[trigger] r[k]).0 <= x < r[k].1;
                assert(k >= head.len());
                assert(rest_r[k - head.len()].0 <= x < rest_r[k - head.len()].1);
                assert(covers(rest_r, x));
            }
            if covers(rest_r, x) {
                let k = choose|k: int| 0 <= k < rest_r.len() && (#[trigger] rest_r[k]).0 <= x < rest_r[k].1;
                assert(r[head.len() + k].0 <= x < r[head.len() + k].1);
                assert(covers(r, x));
            }
        }
        assert forall|k: int| 0 <= k < r.len() implies (#[trigger] r[k]).0 >= last_end by {
            if k < head.len() {
                assert(r[k] == (last_end, s0));
            } else {
                assert(r[k] == rest_r[k - head.len()]);
                lemma_reused_from_starts(rest, e0, text_len);
                assert(rest_r[k - head.len()].0 >= e0);
                assert(e0 >= s0 >= last_end);
            }
        }
    }
}

/// Every range of the reused complement begins no earlier than `last_end`.
proof fn lemma_reused_from_starts(changed: Seq<(int, int)>, last_end: int, text_len: int)
    requires
        forall|i: int| 0 <= i < changed.len() ==> (#[trigger] changed[i]).0 <= changed[i].1,
        forall|i: int| 0 <= i < changed.len() ==> last_end <= (#[trigger] changed[i]).0,
        forall|i: int, j: int|
            0 <= i < j < changed.len() ==> (#[trigger] changed[i]).1 <= (#[trigger] changed[j]).0,
    ensures
        forall|k: int|
            0 <= k < reused_from(changed, last_end, text_len).len() ==> (#[trigger] reused_from(
                changed,
                last_end,
                text_len,
            )[k]).0 >= last_end,
    decreases changed.len(),
{
    let r = reused_from(changed, last_end, text_len);
    if changed.len() == 0 {
    } else {
        let s0 = changed[0].0;
        let e0 = changed[0].1;
        let head = if s0 > last_end {
            seq![(last_end, s0)]
        } else {
            Seq::<(int, int)>::empty()
        };
        let rest = changed.drop_first();
        assert forall|i: int| 0 <= i < rest.len() implies e0 <= (#[trigger] rest[i]).0 by {
            assert(rest[i] == changed[i + 1]);
            assert(changed[0].1 <= changed[i + 1].0);
        }
        lemma_reused_from_starts(rest, e0, text_len);
        assert forall|k: int| 0 <= k < r.len() implies (#[trigger] r[k]).0 >= last_end by {
            if k < head.len() {
                assert(r[k] == (last_end, s0));
            } else {
                assert(r[k] == reused_from(rest, e0, text_len)[k - head.len()]);
                assert(reused_from(rest, e0, text_len)[k - head.len()].0 >= e0);
                assert(e0 >= s0 >= last_end);
            }
        }
    }
}

/// With no byte left between `last_end` and `text_len`, nothing is reused.
proof fn lemma_reused_from_empty_window(changed: Seq<(int, int)>, last_end: int, text_len: int)
    requires
        text_len <= last_end,
        forall|i: int| 0 <= i < changed.len() ==> (#[trigger] changed[i]).0 <= changed[i].1,
        forall|i: int|
            0 <= i < changed.len() ==> last_end <= (#[trigger] changed[i]).0 && changed[i].1
                <= text_len,
        forall|i: int, j: int|
            0 <= i < j < changed.len() ==> (#[trigger] changed[i]).1 <= (#[trigger] changed[j]).0,
    ensures
        reused_from(changed, last_end, text_len) == Seq::<(int, int)>::empty(),
    decreases changed.len(),
{
    if changed.len() > 0 {
        let rest = changed.drop_first();
        let e0 = changed[0].1;
        assert forall|i: int| 0 <= i < rest.len() implies e0 <= (#[trigger] rest[i]).0 by {
            assert(rest[i] == changed[i + 1]);
            assert(changed[0].1 <= changed[i + 1].0);
        }
        lemma_reused_from_empty_window(rest, e0, text_len);
        assert(reused_from(changed, last_end, text_len) =~= Seq::<(int, int)>::empty());
    }
}

/// Sorted, non-overlapping changed ranges and their reused complement
/// partition the text: every byte offset of `[0, text_len)` lies in exactly
/// one of the two range sets.
pub proof fn lemma_reused_ranges_partition(changed: Seq<(int, int)>, text_len: int, x: int)
    requires
        disjoint_ordered(changed, 0, text_len),
        0 <= x < text_len,
    ensures
        covers(changed, x) <==> !covers(spec_reused_ranges(changed, text_len), x),
{
    lemma_reused_from_partition(changed, 0, text_len, x);
}

/// Merging well-formed, bounded ranges leaves well-formed, bounded ranges
/// that no longer overlap: each merged range ends before any later one
/// begins.
proof fn lemma_merge_with_gap_disjoint(s: Seq<(int, int)>, gap: int, lo: int, hi: int)
    requires
        gap >= 0,
        forall|i: int| 0 <= i < s.len() ==> (#[trigger] s[i]).0 <= s[i].1,
        forall|i: int| 0 <= i < s.len() ==> lo <= (#[trigger] s[i]).0 && s[i].1 <= hi,
    ensures
        disjoint_ordered(merge_with_gap(s, gap), lo, hi),
    decreases s.len(),
{
    if s.len() > 1 {
        assert forall|i: int| 0 <= i < s.drop_last().len() implies (#[trigger] s.drop_last()[i]).0
            <= s.drop_last()[i].1 && lo <= s.drop_last()[i].0 && s.drop_last()[i].1 <= hi by {
            assert(s.drop_last()[i] == s[i]);
        }
        lemma_merge_with_gap_disjoint(s.drop_last(), gap, lo, hi);
        lemma_merge_with_gap_nonempty(s.drop_last(), gap);
        let prev = merge_with_gap(s.drop_last(), gap);
        let tail = prev.last();
        let x = s.last();
        let r = merge_with_gap(s, gap);
        if x.0 <= tail.1 + gap {
            let folded = (
                tail.0,
                if x.1 > tail.1 {
                    x.1
                } else {
                    tail.1
                },
            );
            assert(r == prev.drop_last().push(folded));
            assert forall|i: int, j: int| 0 <= i < j < r.len() implies (#[trigger] r[i]).1 <= (
            #[trigger] r[j]).0 by {
                if j < r.len() - 1 {
                    assert(r[i] == prev[i] && r[j] == prev[j]);
                } else {
                    assert(r[i] == prev[i]);
                    assert(prev[i].1 <= prev[prev.len() - 1].0);
                }
            }
            assert forall|i: int| 0 <= i < r.len() implies (#[trigger] r[i]).0 <= r[i].1 && lo
                <= r[i].0 && r[i].1 <= hi by {
                if i < r.len() - 1 {
                    assert(r[i] == prev[i]);
                }
            }
        } else {
            assert(r == prev.push(x));
            assert forall|i: int, j: int| 0 <= i < j < r.len() implies (#[trigger] r[i]).1 <= (
            #[trigger] r[j]).0 by {
                if j < r.len() - 1 {
                    assert(r[i] == prev[i] && r[j] == prev[j]);
                } else {
                    assert(r[i] == prev[i]);
                    if i < prev.len() - 1 {
                        assert(prev[i].1 <= prev[prev.len() - 1].0);
                        assert(prev[prev.len() - 1].0 <= prev[prev.len() - 1].1);
                    }
                }
            }
            assert forall|i: int| 0 <= i < r.len() implies (#[trigger] r[i]).0 <= r[i].1 && lo
                <= r[i].0 && r[i].1 <= hi by {
                if i < r.len() - 1 {
                    assert(r[i] == prev[i]);
                }
            }
        }
    }
}

/// The diff's own outputs partition the new text: every byte offset of
/// `[0, len(new))` lies either in a changed range or in a reused range,
/// never in both and never in neither.
pub proof fn lemma_diff_partition(a: Seq<u8>, b: Seq<u8>, x: int)
    requires
        0 <= x < b.len(),
    ensures
        covers(spec_text_changes(a, b), x) <==> !covers(
            spec_reused_ranges(spec_text_changes(a, b), b.len() as int),
            x,
        ),
{
    lemma_scan_changes_ordered(a, b, 0, None);
    lemma_merge_with_gap_disjoint(raw_text_changes(a, b), MERGE_GAP as int, 0, b.len() as int);
    lemma_reused_ranges_partition(spec_text_changes(a, b), b.len() as int, x);
}

/// The scan over a text and itself finds nothing to report.
proof fn lemma_scan_equal_empty(t: Seq<u8>, k: int)
    requires
        0 <= k <= t.len(),
    ensures
        scan_changes(t, t, k, None) == Seq::<(int, int)>::empty(),
    decreases t.len() - k,
{
    if k < t.len() {
        lemma_scan_equal_empty(t, k + 1);
    } else {
        assert(scan_changes(t, t, k, None) =~= Seq::<(int, int)>::empty());
    }
}

/// Diffing a text against itself yields no changed ranges.
pub proof fn lemma_self_diff_no_changes(t: Seq<u8>)
    ensures
        spec_text_changes(t, t) == Seq::<(int, int)>::empty(),
{
    lemma_scan_equal_empty(t, 0);
}

/// For a nonempty text, the reused complement of the (empty) self-diff is a
/// single range spanning the whole text.  The empty text is the one
/// exception: it has no byte to reuse, and its complement is empty too.
pub proof fn lemma_self_diff_full_reuse(t: Seq<u8>)
    requires
        t.len() > 0,
    ensures
        spec_reused_ranges(spec_text_changes(t, t), t.len() as int) == seq![
            (0int, t.len() as int),
        ],
{
    lemma_self_diff_no_changes(t);
}

/// Merging respects the 30-byte gap exactly: two start-ordered ranges whose
/// gap is at most [`MERGE_GAP`] bytes become one range keeping the earlier
/// start and the larger end, and two ranges with a wider gap stay separate.
pub proof fn lemma_merge_gap_threshold(x: (int, int), y: (int, int))
    requires
        x.0 <= y.0,
    ensures
        y.0 - x.1 <= MERGE_GAP ==> merge_with_gap(sort_by_start(seq![x, y]), MERGE_GAP as int)
            == seq![
            (
                x.0,
                if y.1 > x.1 {
                    y.1
                } else {
                    x.1
                },
            ),
        ],
        y.0 - x.1 > MERGE_GAP ==> merge_with_gap(sort_by_start(seq![x, y]), MERGE_GAP as int)
            == seq![x, y],
{
    let s = seq![x, y];
    assert(s.drop_last() =~= seq![x]);
    assert(seq![x].drop_last() =~= Seq::<(int, int)>::empty());
    assert(sort_by_start(Seq::<(int, int)>::empty()) == Seq::<(int, int)>::empty());
    assert(insert_by_start(Seq::<(int, int)>::empty(), x) == seq![x]);
    assert(sort_by_start(seq![x]) == seq![x]);
    lemma_insert_by_start_at_end(seq![x], y);
    assert(sort_by_start(s) =~= seq![x, y]);
    assert(seq![x, y].drop_last() =~= seq![x]);
    assert(merge_with_gap(seq![x], MERGE_GAP as int) == seq![x]);
    if y.0 - x.1 <= MERGE_GAP {
        assert(merge_with_gap(seq![x, y], MERGE_GAP as int) =~= seq![
            (
                x.0,
                if y.1 > x.1 {
                    y.1
                } else {
                    x.1
                },
            ),
        ]);
    } else {
        assert(merge_with_gap(seq![x, y], MERGE_GAP as int) =~= seq![x, y]);
    }
}

} // verus!
