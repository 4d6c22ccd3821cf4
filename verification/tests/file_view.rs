use files_ui::file_view::{
    active_line_rows, cursor_status_text, file_icon, is_image_ext, is_word_char, surrounding_word, DisplayRow, FileIcon, SelectionSpan,
};
use files_ui::diagnostic_nav::Diagnostic;
use files_ui::hover::diagnostic_markdown;

fn row(deleted: Option<usize>, block: Option<usize>, spacer: bool) -> DisplayRow {
    DisplayRow {
        line: 3,
        start: 0,
        end: usize::MAX,
        indent: 0,
        deleted,
        block,
        spacer,
    }
}

#[test]
fn only_file_text_rows_are_real() {
    assert!(!row(None, None, false).is_virtual());
    assert!(row(Some(2), None, false).is_virtual());
    assert!(row(None, Some(0), false).is_virtual());
    assert!(row(None, None, true).is_virtual());
}

#[test]
fn image_extensions_ignore_case() {
    assert!(is_image_ext("png"));
    assert!(is_image_ext("JPEG"));
    assert!(is_image_ext("WebP"));
    assert!(!is_image_ext("svg"));
    assert!(!is_image_ext(""));
}

#[test]
fn icons_go_by_name_then_extension() {
    assert_eq!(file_icon("Cargo.lock"), FileIcon::Lock);
    assert_eq!(file_icon("package.json"), FileIcon::NodeJs);
    assert_eq!(file_icon("other.json"), FileIcon::Json);
    assert_eq!(file_icon(".gitignore"), FileIcon::Git);
    assert_eq!(file_icon("main.RS"), FileIcon::Rust);
    assert_eq!(file_icon("archive.tar.gz"), FileIcon::Document);
    assert_eq!(file_icon("README"), FileIcon::Document);
    assert_eq!(file_icon("md"), FileIcon::Markdown);
    assert_eq!(file_icon("logo.svg"), FileIcon::Image);
    assert_eq!(file_icon("x.fish"), FileIcon::Console);
}

#[test]
fn the_word_around_a_caret_spans_letters_digits_and_underscores() {
    let text: Vec<char> = "let a_b2 = c;".chars().collect();
    assert_eq!(surrounding_word(&text, 5), Some(4..8));
    assert_eq!(surrounding_word(&text, 8), Some(4..8));
    assert_eq!(surrounding_word(&text, 9), None);
    assert_eq!(surrounding_word(&text, 0), Some(0..3));
    assert_eq!(surrounding_word(&text, 13), None);
    assert!(is_word_char('é') && is_word_char('_') && !is_word_char('-'));
}

#[test]
fn diagnostic_text_carries_source_and_code() {
    let entry = Diagnostic {
        range: 8..9,
        severity: 1,
        message: "cannot find value `b`".to_string(),
        source: Some("rustc".to_string()),
        code: Some("E0425".to_string()),
    };
    assert_eq!(diagnostic_markdown(&entry), "cannot find value \\`b\\` (rustc E0425)");
    let bare = Diagnostic {
        range: 8..9,
        severity: 1,
        message: "unused".to_string(),
        source: None,
        code: Some("W1".to_string()),
    };
    assert_eq!(diagnostic_markdown(&bare), "unused (W1)");
    let plain = Diagnostic {
        range: 8..9,
        severity: 1,
        message: "a.b".to_string(),
        source: None,
        code: None,
    };
    assert_eq!(diagnostic_markdown(&plain), "a\\.b");
}

fn span(start: usize, end: usize, start_row: usize, end_row: usize, end_col: usize) -> SelectionSpan {
    SelectionSpan {
        start,
        end,
        start_row,
        end_row,
        end_col,
    }
}

#[test]
fn describes_the_caret_and_selection() {
    // "abc\ndef\nghi": the caret at char 5 is on line 1, column 1.
    assert_eq!(cursor_status_text(1, 1, &vec![span(5, 5, 1, 1, 1)]), "2:2");
    // Chars 1..9 selected, the caret at 9 (line 2, column 1).
    assert_eq!(
        cursor_status_text(2, 1, &vec![span(1, 9, 0, 2, 1)]),
        "3:2 (3 lines, 8 characters)"
    );
    // Carets at 0 and 4, the newest at 4 (line 1, column 0).
    assert_eq!(
        cursor_status_text(1, 0, &vec![span(0, 0, 0, 0, 0), span(4, 4, 1, 1, 0)]),
        "2:1 (2 selections)"
    );
}

#[test]
fn a_selection_ending_at_a_line_start_does_not_count_that_line() {
    // "abc\ndef\n": chars 0..4 end at the start of line 1.
    assert_eq!(cursor_status_text(1, 0, &vec![span(0, 4, 0, 1, 0)]), "2:1 (4 characters)");
    assert_eq!(cursor_status_text(0, 2, &vec![span(1, 2, 0, 0, 2)]), "1:3 (1 character)");
}

#[test]
fn caret_rows_get_the_active_line_but_selected_rows_do_not() {
    // A caret on row 2, a selection over rows 4..=5 with a caret also on row 5, and one on row 9.
    let active = vec![(2, 2, false), (4, 5, true), (5, 5, false), (9, 9, false)];
    assert_eq!(active_line_rows(&active, 0, 8), vec![2]);
    assert_eq!(active_line_rows(&active, 3, 12), vec![9]);
    assert!(active_line_rows(&active, 6, 6).is_empty());
    assert!(active_line_rows(&active, 7, 3).is_empty());
}
