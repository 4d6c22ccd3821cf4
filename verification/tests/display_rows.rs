use files_ui::display_rows::{layout_rows, Boundary};
use files_ui::file_view::DisplayRow;

fn row(line: usize, start: usize, end: usize, indent: usize) -> DisplayRow {
    DisplayRow {
        line,
        start,
        end,
        indent,
        deleted: None,
        block: None,
        spacer: false,
    }
}

fn deleted(line: usize, base: usize) -> DisplayRow {
    DisplayRow {
        deleted: Some(base),
        ..row(line, 0, usize::MAX, 0)
    }
}

fn block(line: usize, index: usize) -> DisplayRow {
    DisplayRow {
        block: Some(index),
        ..row(line, 0, 0, 0)
    }
}

#[test]
fn rows_wrap_lines_and_place_removed_lines_and_blocks() {
    let lines = vec![0, 1, 3];
    let wraps = vec![vec![Boundary { index: 5, indent: 2 }], vec![], vec![]];
    let widths = vec![8, 3, 4, 6];
    let dels = vec![(1, 10..12), (2, 20..21), (4, 30..31)];
    let layout = layout_rows(&lines, &wraps, &widths, &widths, &dels, Some((3, 2)), 4);
    assert_eq!(
        layout.rows,
        vec![
            row(0, 0, 5, 0),
            row(0, 5, usize::MAX, 2),
            deleted(1, 10),
            deleted(1, 11),
            row(1, 0, usize::MAX, 0),
            row(3, 0, usize::MAX, 0),
            block(3, 0),
            block(3, 1),
            deleted(3, 30),
        ]
    );
    assert_eq!(layout.line_rows, vec![0, 4, 4, 5]);
    assert_eq!(layout.max_row_cols, 6);
    assert!(layout.has_block_rows);
}

#[test]
fn an_empty_file_has_no_rows() {
    let layout = layout_rows(&vec![], &vec![], &vec![], &vec![], &vec![(0, 0..1)], None, 0);
    assert_eq!(layout.rows, vec![deleted(0, 0)]);
    assert!(layout.line_rows.is_empty() && layout.max_row_cols == 0 && !layout.has_block_rows);
}

#[test]
fn a_pure_deletion_expands_above_the_following_line() {
    // "a\nb\nc\n" became "a\nc\n": committed line 1 was removed above line 1, and the change is expanded.
    let lines = vec![0, 1, 2];
    let wraps = vec![vec![], vec![], vec![]];
    let widths = vec![1, 1, 0];
    let layout = layout_rows(&lines, &wraps, &widths, &widths, &vec![(1, 1..2)], None, 3);
    assert_eq!(layout.rows.len(), 4);
    assert_eq!(layout.rows[1].deleted, Some(1));
    assert_eq!((layout.rows[2].line, layout.rows[2].deleted), (1, None));
}

#[test]
fn expanding_shows_removed_lines_the_caret_steps_over() {
    // "a\nb\nc\n" became "a\nB\nc\n" and the change at line 1 is expanded: its removed line shows above it.
    let lines = vec![0, 1, 2, 3];
    let wraps = vec![vec![], vec![], vec![], vec![]];
    let widths = vec![1, 1, 1, 0];
    let expanded = layout_rows(&lines, &wraps, &widths, &widths, &vec![(1, 1..2)], None, 4);
    assert_eq!(expanded.rows.len(), 5);
    assert_eq!(expanded.rows[1].deleted, Some(1));
    assert_eq!(expanded.line_rows[1], 2);
    let collapsed = layout_rows(&lines, &wraps, &widths, &widths, &vec![], None, 4);
    assert_eq!(collapsed.rows.len(), 4);
}
