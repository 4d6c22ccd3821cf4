use files_ui::indent_guides::{enclosing_indent, guide_is_active, indent_cols, indent_guides};

/// A text's lines as a rope keeps them: each with its break, and the part after the last break.
fn lines(text: &str) -> Vec<Vec<char>> {
    let mut out: Vec<Vec<char>> = vec![Vec::new()];
    for c in text.chars() {
        out.last_mut().unwrap().push(c);
        if c == '\n' {
            out.push(Vec::new());
        }
    }
    out
}

#[test]
fn enclosing_indent_finds_the_block_around_the_cursor() {
    let b = lines("fn a() {\n    if x {\n        y;\n    }\n    z;\n}\n");
    assert_eq!(enclosing_indent(&b, 2), Some((1, 2, 4)));
    assert_eq!(enclosing_indent(&b, 4), Some((0, 4, 0)));
    assert_eq!(enclosing_indent(&b, 1), Some((1, 2, 4)));
}

#[test]
fn indent_counts_spaces_and_tab_stops_and_blank_lines_have_none() {
    assert_eq!(indent_cols(&"    x".chars().collect()), Some(4));
    assert_eq!(indent_cols(&"  \tx".chars().collect()), Some(4));
    assert_eq!(indent_cols(&"\t \tx".chars().collect()), Some(8));
    assert_eq!(indent_cols(&"x".chars().collect()), Some(0));
    assert_eq!(indent_cols(&"   \n".chars().collect()), None);
    assert_eq!(indent_cols(&"   ".chars().collect()), None);
    assert_eq!(indent_cols(&Vec::new()), None);
}

#[test]
fn guides_close_when_the_indent_drops() {
    let b = lines("fn a() {\n    if x {\n        y;\n    }\n    z;\n}\n");
    assert_eq!(indent_guides(&b, 0, 7), vec![(2, 2, 1), (1, 4, 0)]);
}

#[test]
fn a_guide_runs_through_blank_lines_inside_its_block() {
    let b = lines("a\n    b\n\n    c\nd\n");
    assert_eq!(indent_guides(&b, 0, 6), vec![(1, 3, 0)]);
}

#[test]
fn guides_still_open_at_the_last_visible_row_end_there() {
    let b = lines("a\n    b\n        c\n        d\n    e\n");
    assert_eq!(indent_guides(&b, 0, 3), vec![(1, 2, 0), (2, 2, 1)]);
    assert!(indent_guides(&b, 9, 12).is_empty());
}

#[test]
fn a_blank_row_takes_the_deeper_neighbour_and_the_last_row_has_no_block() {
    let b = lines("a\n    b\n\n        c\n    d\ne\n");
    // Row 2 is blank: the deeper of rows 1 and 3 is row 3, whose block runs from row 1 to row 3.
    assert_eq!(enclosing_indent(&b, 2), Some((1, 3, 4)));
    assert_eq!(enclosing_indent(&b, 6), None);
    // Row 0 opens a deeper block: that block counts.
    assert_eq!(enclosing_indent(&b, 0), Some((0, 4, 0)));
}

#[test]
fn the_active_guide_shares_the_caret_block_column_and_rows() {
    let block = Some((1, 2, 4));
    assert!(guide_is_active((2, 2, 1), block));
    assert!(!guide_is_active((1, 4, 0), block));
    assert!(!guide_is_active((3, 5, 1), block));
    assert!(!guide_is_active((2, 2, 1), None));
}
