use files_ui::completion_edit::{carets_after, completion_range, completion_ranges, snippet_ranges};
use std::ops::Range;

fn chars(s: &str) -> Vec<char> {
    s.chars().collect()
}

fn replaced(text: &str, range: Range<usize>, with: &str) -> String {
    let cs = chars(text);
    let mut out: String = cs[..range.start].iter().collect();
    out.push_str(with);
    out.extend(cs[range.end..].iter());
    out
}

#[test]
fn the_replace_range_is_used_when_what_follows_ends_the_label() {
    for (label, expected) in [("foobar", "x.foobar"), ("format", "x.formatbar")] {
        let text = chars("x.fobar");
        let range = completion_range(&text, 4, 2..7, Some(2..4), label);
        assert_eq!(replaced("x.fobar", range, label), expected);
    }
}

#[test]
fn a_trigger_character_answer_lands_the_caret_after_the_label() {
    let text = chars("x.");
    let range = completion_range(&text, 2, 2..2, None, "foo");
    assert_eq!(range, 2..2);
    assert_eq!(replaced("x.", range.clone(), "foo"), "x.foo");
    assert_eq!(carets_after(&vec![range], 3), vec![5]);
}

#[test]
fn case_is_ignored_when_matching_what_follows() {
    let text = chars("x.foBAR");
    assert_eq!(completion_range(&text, 4, 2..7, Some(2..4), "FooBar"), 2..7);
}

#[test]
fn a_range_short_of_the_caret_is_stretched_to_it() {
    let text = chars("abcdef");
    assert_eq!(completion_range(&text, 4, 1..2, None, "x"), 1..4);
    assert_eq!(completion_range(&text, 1, 3..5, None, "x"), 1..5);
}

#[test]
fn other_carets_take_the_same_edit_where_the_text_matches() {
    // Carets after "fo" on three lines; the edit replaces "fo" before and "b" after the newest caret.
    let text = chars("fob\nfob\nfox\n");
    let selections = vec![2..2, 6..6, 10..10];
    let ranges = completion_ranges(&text, 2, 0..3, &selections, 0);
    assert_eq!(ranges, vec![0..3, 4..7, 8..10]);
    let elsewhere = completion_ranges(&text, 2, 0..3, &vec![2..2, 5..5], 0);
    assert_eq!(elsewhere, vec![0..3, 5..5]);
}

#[test]
fn carets_follow_the_edits_before_them_in_text_order() {
    // "ab" at 0..2 and 4..6 replaced by three chars each, listed out of order.
    assert_eq!(carets_after(&vec![4..6, 0..2], 3), vec![3, 8]);
    // Removing: two chars each replaced by nothing.
    assert_eq!(carets_after(&vec![0..2, 4..6], 0), vec![0, 2]);
    assert!(carets_after(&vec![], 4).is_empty());
}

#[test]
fn a_snippet_replaces_its_prefix_at_each_caret_that_typed_it() {
    // Carets after "fn" on lines 0 and 2, after "fx" on line 1, and a selection on line 3.
    let text = chars("fn\nfx\nfn\nfn\n");
    let selections = vec![2..2, 5..5, 8..8, 9..11];
    assert_eq!(snippet_ranges(&text, 2, 2, &selections), vec![0..2, 6..8]);
    // Too few chars before a caret: it is left alone.
    assert_eq!(snippet_ranges(&text, 8, 3, &vec![1..1, 8..8]), vec![5..8]);
}
