//! Rolling state for incremental highlighting: the version counter, the last
//! syntax artifact, the last computed ranges, and how the next outcome's
//! ranges differ from the stored ones.

use vstd::prelude::*;

verus! {

use std::sync::Arc;

use crate::diff::merge_ranges_with_gap;
use crate::diff::merge_with_gap;
use crate::diff::ranges_model;
use crate::diff::sort_by_start;
use crate::types::HighlightRange;

/// A highlight range as an unbounded-integer pair of its bounds.
pub open spec fn range_span(r: HighlightRange) -> (int, int) {
    (r.start as int, r.end as int)
}

/// The spans at which two range lists disagree, before merging: walking both
/// lists in step, each unequal pair contributes the span covering both of
/// its ranges; a list that runs on alone contributes its remaining ranges
/// unchanged.  A pair's shorter-ended side is stepped past first, both sides
/// together when their ends coincide.
pub open spec fn range_pair_changes(
    old_ranges: Seq<HighlightRange>,
    new_ranges: Seq<HighlightRange>,
) -> Seq<(int, int)>
    decreases old_ranges.len() + new_ranges.len(),
{
    if old_ranges.len() == 0 {
        new_ranges.map_values(|r: HighlightRange| range_span(r))
    } else if new_ranges.len() == 0 {
        old_ranges.map_values(|r: HighlightRange| range_span(r))
    } else {
        let o = old_ranges[0];
        let n = new_ranges[0];
        let head = if o.start != n.start || o.end != n.end || o.highlight_type
            != n.highlight_type {
            seq![
                (
                    if o.start <= n.start {
                        o.start as int
                    } else {
                        n.start as int
                    },
                    if o.end >= n.end {
                        o.end as int
                    } else {
                        n.end as int
                    },
                ),
            ]
        } else {
            Seq::<(int, int)>::empty()
        };
        head + range_pair_changes(
            if o.end <= n.end {
                old_ranges.drop_first()
            } else {
                old_ranges
            },
            if n.end <= o.end {
                new_ranges.drop_first()
            } else {
                new_ranges
            },
        )
    }
}

/// Rolling state of incremental highlighting for one consumer.
#[derive(Debug)]
pub struct IncrementalState {
    pub version: u64,
    pub tree: Option<Arc<tree_sitter::Tree>>,
    pub ranges: Vec<HighlightRange>,
    pub input_length: usize,
}

impl IncrementalState {
    /// The starting state: version zero, no artifact, no ranges, no input.
    pub fn new() -> (r: Self)
        ensures
            r.version == 0,
            r.tree is None,
            r.ranges@ == Seq::<HighlightRange>::empty(),
            r.input_length == 0,
    {
        IncrementalState { version: 0, tree: None, ranges: Vec::new(), input_length: 0 }
    }

    /// Steps the state to a freshly computed outcome, bumping the version.
    pub fn update(
        &mut self,
        new_tree: Arc<tree_sitter::Tree>,
        new_ranges: Vec<HighlightRange>,
        input_length: usize,
    )
        requires
            old(self).version < u64::MAX,
        ensures
            final(self).version == old(self).version + 1,
            final(self).tree == Some(new_tree),
            final(self).ranges@ == new_ranges@,
            final(self).input_length == input_length,
    {
        self.version = self.version + 1;
        self.tree = Some(new_tree);
        self.ranges = new_ranges;
        self.input_length = input_length;
    }

    /// The byte spans on which the stored ranges and the new ranges
    /// disagree: the covering spans of every unequal pair and the spans of
    /// whichever list runs longer, sorted by start and with touching or
    /// overlapping spans folded together.
    pub fn calculate_changes(&self, new_ranges: &Vec<HighlightRange>) -> (r: Vec<(usize, usize)>)
        ensures
            ranges_model(r@) == merge_with_gap(
                sort_by_start(range_pair_changes(self.ranges@, new_ranges@)),
                0,
            ),
    {
        let ghost total = range_pair_changes(self.ranges@, new_ranges@);
        let mut changes: Vec<(usize, usize)> = Vec::new();
        let mut old_idx: usize = 0;
        let mut new_idx: usize = 0;
        proof {
            assert(self.ranges@.skip(0) =~= self.ranges@);
            assert(new_ranges@.skip(0) =~= new_ranges@);
            assert(ranges_model(changes@) =~= Seq::<(int, int)>::empty());
            assert(Seq::<(int, int)>::empty() + total =~= total);
        }
        while old_idx < self.ranges.len() && new_idx < new_ranges.len()
            invariant
                old_idx <= self.ranges@.len(),
                new_idx <= new_ranges@.len(),
                ranges_model(changes@) + range_pair_changes(
                    self.ranges@.skip(old_idx as int),
                    new_ranges@.skip(new_idx as int),
                ) == total,
            decreases self.ranges@.len() - old_idx + new_ranges@.len() - new_idx,
        {
            let o = self.ranges[old_idx];
            let n = new_ranges[new_idx];
            let ghost old_rem = self.ranges@.skip(old_idx as int);
            let ghost new_rem = new_ranges@.skip(new_idx as int);
            proof {
                assert(old_rem[0] == o);
                assert(new_rem[0] == n);
                assert(old_rem.drop_first() =~= self.ranges@.skip(old_idx as int + 1));
                assert(new_rem.drop_first() =~= new_ranges@.skip(new_idx as int + 1));
            }
            if o.start != n.start || o.end != n.end || o.highlight_type != n.highlight_type {
                let span_start = if o.start <= n.start {
                    o.start
                } else {
                    n.start
                };
                let span_end = if o.end >= n.end {
                    o.end
                } else {
                    n.end
                };
                proof {
                    assert(ranges_model(changes@.push((span_start, span_end))) =~= ranges_model(
                        changes@,
                    ) + seq![(span_start as int, span_end as int)]);
                    assert((ranges_model(changes@) + seq![(span_start as int, span_end as int)])
                        + range_pair_changes(
                        if o.end <= n.end {
                            old_rem.drop_first()
                        } else {
                            old_rem
                        },
                        if n.end <= o.end {
                            new_rem.drop_first()
                        } else {
                            new_rem
                        },
                    ) =~= ranges_model(changes@) + (seq![(span_start as int, span_end as int)]
                        + range_pair_changes(
                        if o.end <= n.end {
                            old_rem.drop_first()
                        } else {
                            old_rem
                        },
                        if n.end <= o.end {
                            new_rem.drop_first()
                        } else {
                            new_rem
                        },
                    )));
                }
                changes.push((span_start, span_end));
            } else {
                proof {
                    assert(Seq::<(int, int)>::empty() + range_pair_changes(
                        old_rem.drop_first(),
                        new_rem.drop_first(),
                    ) =~= range_pair_changes(old_rem.drop_first(), new_rem.drop_first()));
                }
            }
            if o.end <= n.end {
                old_idx = old_idx + 1;
            }
            if n.end <= o.end {
                new_idx = new_idx + 1;
            }
        }
        while old_idx < self.ranges.len()
            invariant
                old_idx <= self.ranges@.len(),
                new_idx <= new_ranges@.len(),
                old_idx < self.ranges@.len() ==> new_idx >= new_ranges@.len(),
                ranges_model(changes@) + range_pair_changes(
                    self.ranges@.skip(old_idx as int),
                    new_ranges@.skip(new_idx as int),
                ) == total,
            decreases self.ranges@.len() - old_idx,
        {
            let o = self.ranges[old_idx];
            let ghost old_rem = self.ranges@.skip(old_idx as int);
            let ghost new_rem = new_ranges@.skip(new_idx as int);
            proof {
                assert(new_rem =~= Seq::<HighlightRange>::empty());
                assert(old_rem[0] == o);
                assert(old_rem.drop_first() =~= self.ranges@.skip(old_idx as int + 1));
                assert(old_rem.map_values(|r: HighlightRange| range_span(r)) =~= seq![
                    (o.start as int, o.end as int),
                ] + old_rem.drop_first().map_values(|r: HighlightRange| range_span(r)));
                assert(range_pair_changes(old_rem.drop_first(), new_rem)
                    == old_rem.drop_first().map_values(|r: HighlightRange| range_span(r)));
                assert(ranges_model(changes@.push((o.start, o.end))) =~= ranges_model(changes@)
                    + seq![(o.start as int, o.end as int)]);
                assert((ranges_model(changes@) + seq![(o.start as int, o.end as int)])
                    + range_pair_changes(old_rem.drop_first(), new_rem) =~= ranges_model(changes@)
                    + (seq![(o.start as int, o.end as int)] + range_pair_changes(
                    old_rem.drop_first(),
                    new_rem,
                )));
            }
            changes.push((o.start, o.end));
            old_idx = old_idx + 1;
        }
        while new_idx < new_ranges.len()
            invariant
                new_idx <= new_ranges@.len(),
                old_idx <= self.ranges@.len(),
                new_idx < new_ranges@.len() ==> old_idx >= self.ranges@.len(),
                ranges_model(changes@) + range_pair_changes(
                    self.ranges@.skip(old_idx as int),
                    new_ranges@.skip(new_idx as int),
                ) == total,
            decreases new_ranges@.len() - new_idx,
        {
            let n = new_ranges[new_idx];
            let ghost old_rem = self.ranges@.skip(old_idx as int);
            let ghost new_rem = new_ranges@.skip(new_idx as int);
            proof {
                assert(old_rem =~= Seq::<HighlightRange>::empty());
                assert(new_rem[0] == n);
                assert(new_rem.drop_first() =~= new_ranges@.skip(new_idx as int + 1));
                assert(new_rem.map_values(|r: HighlightRange| range_span(r)) =~= seq![
                    (n.start as int, n.end as int),
                ] + new_rem.drop_first().map_values(|r: HighlightRange| range_span(r)));
                assert(range_pair_changes(old_rem, new_rem.drop_first())
                    == new_rem.drop_first().map_values(|r: HighlightRange| range_span(r)));
                assert(ranges_model(changes@.push((n.start, n.end))) =~= ranges_model(changes@)
                    + seq![(n.start as int, n.end as int)]);
                assert((ranges_model(changes@) + seq![(n.start as int, n.end as int)])
                    + range_pair_changes(old_rem, new_rem.drop_first()) =~= ranges_model(changes@)
                    + (seq![(n.start as int, n.end as int)] + range_pair_changes(
                    old_rem,
                    new_rem.drop_first(),
                )));
            }
            changes.push((n.start, n.end));
            new_idx = new_idx + 1;
        }
        proof {
            assert(self.ranges@.skip(old_idx as int) =~= Seq::<HighlightRange>::empty());
            assert(new_ranges@.skip(new_idx as int) =~= Seq::<HighlightRange>::empty());
            assert(range_pair_changes(
                self.ranges@.skip(old_idx as int),
                new_ranges@.skip(new_idx as int),
            ) =~= Seq::<(int, int)>::empty());
            assert(ranges_model(changes@) + Seq::<(int, int)>::empty() =~= ranges_model(changes@));
        }
        merge_ranges_with_gap(changes, 0)
    }
}

} // verus!
