use files_ui::hunk_nav::{hunk_target, hunks_in_selections};
use files_ui::split_diff::DiffHunk;
use std::ops::Range;

fn hunk(rows: Range<usize>, base_rows: Range<usize>) -> DiffHunk {
    DiffHunk { rows, base_rows }
}

/// Where each line of "a\nB\nc\nd\nE\nf\n" starts, the text's end past the last.
fn line_start(line: usize) -> usize {
    (line * 2).min(12)
}

#[test]
fn next_and_previous_hunk_wrap_around() {
    // "a\nb\nc\nd\ne\nf\n" became "a\nB\nc\nd\nE\nf\n": lines 1 and 4 changed.
    let hunks = vec![hunk(1..2, 1..2), hunk(4..5, 4..5)];
    let ends: Vec<usize> = hunks.iter().map(|h| line_start(h.rows.end)).collect();
    let mut line = 0;
    line = hunk_target(&hunks, line, line_start(line), &ends, true).unwrap();
    assert_eq!(line, 1);
    line = hunk_target(&hunks, line, line_start(line), &ends, true).unwrap();
    assert_eq!(line, 4);
    line = hunk_target(&hunks, line, line_start(line), &ends, true).unwrap();
    assert_eq!(line, 1);
    line = hunk_target(&hunks, line, line_start(line), &ends, false).unwrap();
    assert_eq!(line, 4);
}

#[test]
fn without_changes_the_caret_stays() {
    assert_eq!(hunk_target(&vec![], 3, 6, &vec![], true), None);
    assert_eq!(hunk_target(&vec![], 3, 6, &vec![], false), None);
}

#[test]
fn going_back_from_inside_a_change_goes_to_the_one_before() {
    let hunks = vec![hunk(1..2, 1..2), hunk(4..6, 4..5)];
    let ends = vec![4, 12];
    // The caret on line 5 (char 10) is inside the second change: back goes to the first.
    assert_eq!(hunk_target(&hunks, 5, 10, &ends, false), Some(1));
    // Past the second change's end: back goes to it.
    assert_eq!(hunk_target(&hunks, 6, 12, &vec![4, 11], false), Some(4));
}

#[test]
fn selections_pick_the_changes_on_their_lines_once_in_line_order() {
    let hunks = vec![hunk(1..2, 1..2), hunk(4..4, 4..5), hunk(7..9, 6..7)];
    // A caret on line 8, a selection over lines 0..=1, and a caret on line 4 right below a deletion.
    let queries = vec![8..9, 0..2, 4..5, 1..2];
    assert_eq!(hunks_in_selections(&hunks, &queries), vec![0, 1, 2]);
    // A caret on line 3 touches the deletion at line 4 from above; line 2 touches nothing.
    assert_eq!(hunks_in_selections(&hunks, &vec![3..4]), vec![1]);
    assert!(hunks_in_selections(&hunks, &vec![2..3]).is_empty());
}
