use highlight_cache::diff::get_reused_ranges;
use highlight_cache::diff::get_text_changes;
use highlight_cache::diff::merge_nearby_changes;
use highlight_cache::diff::str_eq;
use highlight_cache::diff::text_difference_ratio;
use highlight_cache::diff::texts_similar;

fn ratio_as_float(a: &str, b: &str) -> f64 {
    let (num, den) = text_difference_ratio(a, b);
    if den == 0 {
        0.0
    } else {
        num as f64 / den as f64
    }
}

#[test]
fn ratio_of_text_with_itself_is_zero() {
    for t in ["", "a", "abcdef", "some longer text with spaces"] {
        let (num, den) = text_difference_ratio(t, t);
        assert_eq!(num, 0);
        assert_eq!(den, t.len());
        assert_eq!(ratio_as_float(t, t), 0.0);
    }
}

#[test]
fn ratio_counts_positional_mismatches() {
    assert_eq!(text_difference_ratio("aaaa", "aaab"), (1, 4));
    assert_eq!(ratio_as_float("aaaa", "aaab"), 0.25);
    assert!(texts_similar("aaaa", "aaab"));
    assert_eq!(text_difference_ratio("aaaa", "bbbb"), (4, 4));
    assert!(!texts_similar("aaaa", "bbbb"));
}

#[test]
fn ratio_is_positional_not_aligned() {
    // one byte inserted at the front shifts every later byte
    let (num, den) = text_difference_ratio("abcdefgh", "xabcdefg");
    assert_eq!(num, 8);
    assert_eq!(den, 8);
}

#[test]
fn ratio_against_empty_text_counts_no_mismatch() {
    // only positions below min(len, len) are compared, so nothing mismatches
    assert_eq!(text_difference_ratio("0123456789", ""), (0, 10));
    assert_eq!(ratio_as_float("0123456789", ""), 0.0);
}

#[test]
fn self_diff_has_no_changes_and_full_reuse() {
    let t = "fn main() { println!(\"hi\"); }";
    let changes = get_text_changes(t, t);
    assert_eq!(changes, Vec::<(usize, usize)>::new());
    let reused = get_reused_ranges(&changes, t.len());
    assert_eq!(reused, vec![(0, t.len())]);
}

#[test]
fn self_diff_of_empty_text_reuses_nothing() {
    let changes = get_text_changes("", "");
    assert_eq!(changes, Vec::<(usize, usize)>::new());
    let reused = get_reused_ranges(&changes, 0);
    assert_eq!(reused, Vec::<(usize, usize)>::new());
}

#[test]
fn single_trailing_change_is_reported() {
    let changes = get_text_changes("aaaa", "aaab");
    assert_eq!(changes, vec![(3, 4)]);
    let reused = get_reused_ranges(&changes, 4);
    assert_eq!(reused, vec![(0, 3)]);
}

#[test]
fn truncation_leaves_a_zero_length_marker() {
    // the old text runs longer: a zero-length range marks the cut
    let changes = get_text_changes("0123456789", "01234");
    assert_eq!(changes, vec![(5, 5)]);
}

#[test]
fn appended_text_is_one_changed_range() {
    let changes = get_text_changes("01234", "0123456789");
    assert_eq!(changes, vec![(5, 10)]);
}

#[test]
fn empty_new_text_changes_to_marker_only() {
    let changes = get_text_changes("0123456789", "");
    assert_eq!(changes, vec![(0, 0)]);
}

#[test]
fn interior_change_splits_reuse() {
    // one mismatching byte in the middle, same length
    let changes = get_text_changes("aaaaaaaaaa aaaaaaaaaa aaaaaaaaaaaaaaaaaaab aaaaaaaaa",
                                   "aaaaaaaaaa aaaaaaaaaa aaaaaaaaaaaaaaaaaaaa aaaaaaaaa");
    assert_eq!(changes, vec![(41, 42)]);
    let reused = get_reused_ranges(&changes, 52);
    assert_eq!(reused, vec![(0, 41), (42, 52)]);
}

#[test]
fn merge_joins_ranges_with_gap_of_thirty() {
    let merged = merge_nearby_changes(vec![(0, 10), (40, 50)]);
    assert_eq!(merged, vec![(0, 50)]);
}

#[test]
fn merge_keeps_ranges_with_gap_of_thirty_one() {
    let merged = merge_nearby_changes(vec![(0, 10), (41, 50)]);
    assert_eq!(merged, vec![(0, 10), (41, 50)]);
}

#[test]
fn merge_sorts_before_merging() {
    let merged = merge_nearby_changes(vec![(100, 110), (0, 5), (20, 30)]);
    assert_eq!(merged, vec![(0, 30), (100, 110)]);
}

#[test]
fn merge_keeps_the_larger_end() {
    let merged = merge_nearby_changes(vec![(0, 50), (10, 20)]);
    assert_eq!(merged, vec![(0, 50)]);
}

#[test]
fn merge_of_nothing_is_nothing() {
    assert_eq!(merge_nearby_changes(Vec::new()), Vec::<(usize, usize)>::new());
}

#[test]
fn str_eq_compares_bytes() {
    assert!(str_eq("", ""));
    assert!(str_eq("abc", "abc"));
    assert!(!str_eq("abc", "abd"));
    assert!(!str_eq("abc", "abcd"));
}
