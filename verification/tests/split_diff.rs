use files_ui::file_view::DisplayRow;
use files_ui::split_diff::{split_rows, DiffHunk, SplitLeft};

fn line_row(line: usize) -> DisplayRow {
    DisplayRow {
        line,
        start: 0,
        end: usize::MAX,
        indent: 0,
        deleted: None,
        block: None,
        spacer: false,
    }
}

fn spacer(line: usize) -> DisplayRow {
    DisplayRow {
        end: 0,
        spacer: true,
        ..line_row(line)
    }
}

fn side(base: usize, changed: bool) -> SplitLeft {
    SplitLeft {
        base: Some(base),
        changed,
    }
}

#[test]
fn a_split_diff_keeps_both_sides_level() {
    let rows: Vec<DisplayRow> = (0..5).map(line_row).collect();
    // Listed out of order: the split takes them by first line.
    let hunks = vec![
        DiffHunk { rows: 4..4, base_rows: 6..7 },
        DiffHunk { rows: 1..2, base_rows: 1..4 },
    ];
    let split = split_rows(rows, 5, &hunks);
    assert_eq!(
        split.rows,
        vec![
            line_row(0),
            line_row(1),
            spacer(1),
            spacer(1),
            line_row(2),
            line_row(3),
            spacer(3),
            line_row(4)
        ]
    );
    assert_eq!(
        split.left,
        vec![
            side(0, false),
            side(1, true),
            side(2, true),
            side(3, true),
            side(4, false),
            side(5, false),
            side(6, true),
            side(7, false)
        ]
    );
    assert_eq!(split.line_rows, vec![0, 1, 4, 5, 7]);
}

#[test]
fn added_lines_have_nothing_beside_them_and_wrapped_rows_follow_their_line() {
    let mut rows: Vec<DisplayRow> = (0..3).map(line_row).collect();
    rows.insert(
        1,
        DisplayRow {
            start: 4,
            ..line_row(0)
        },
    );
    let hunks = vec![DiffHunk { rows: 1..3, base_rows: 1..1 }];
    let split = split_rows(rows, 3, &hunks);
    assert_eq!(split.rows.len(), 4);
    assert_eq!(
        split.left,
        vec![
            side(0, false),
            SplitLeft { base: None, changed: false },
            SplitLeft { base: None, changed: true },
            SplitLeft { base: None, changed: true }
        ]
    );
    assert_eq!(split.line_rows, vec![0, 2, 3]);
}
