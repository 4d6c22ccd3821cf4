use files_ui::diagnostic_nav::{diagnostic_at_caret, go_to_diagnostic, still_reported, Diagnostic, OpenDiagnostic};
use std::ops::Range;

fn entry(range: Range<usize>, severity: i32, message: &str) -> Diagnostic {
    Diagnostic {
        range,
        severity,
        message: message.to_string(),
        source: None,
        code: None,
    }
}

fn opened(d: &Diagnostic) -> Option<OpenDiagnostic> {
    Some(OpenDiagnostic {
        start: d.range.start,
        end: d.range.end,
        message: d.message.clone(),
    })
}

#[test]
fn f8_steps_forward_and_back_through_diagnostics_wrapping_around() {
    let ds = vec![entry(8..9, 1, "b"), entry(30..31, 2, "f")];
    assert_eq!(go_to_diagnostic(&ds, &None, 0, 0, true), Some(0));
    assert_eq!(go_to_diagnostic(&ds, &opened(&ds[0]), 8, 8, true), Some(1));
    assert_eq!(go_to_diagnostic(&ds, &opened(&ds[1]), 30, 30, true), Some(0), "wraps to the first");
    assert_eq!(go_to_diagnostic(&ds, &opened(&ds[0]), 8, 8, false), Some(1));
    assert_eq!(go_to_diagnostic(&Vec::new(), &None, 0, 0, true), None);
}

#[test]
fn a_caret_on_a_closed_diagnostic_opens_that_one() {
    let ds = vec![entry(8..9, 1, "b")];
    assert_eq!(go_to_diagnostic(&ds, &None, 9, 9, true), Some(0));
    assert_eq!(go_to_diagnostic(&ds, &opened(&ds[0]), 8, 8, true), None);
    let empty_range = vec![entry(5..5, 1, "x")];
    assert_eq!(go_to_diagnostic(&empty_range, &None, 0, 0, true), None);
}

#[test]
fn the_status_bar_shows_the_most_severe_diagnostic_at_the_caret() {
    let ds = vec![entry(4..9, 2, "wide warning"), entry(8..9, 1, "error")];
    assert_eq!(diagnostic_at_caret(&ds, 8), Some(1));
    assert_eq!(diagnostic_at_caret(&ds, 5), Some(0));
    assert_eq!(diagnostic_at_caret(&ds, 10), None);
    let ties = vec![entry(0..5, 2, "long"), entry(2..4, 2, "short"), entry(1..3, 2, "same")];
    assert_eq!(diagnostic_at_caret(&ties, 3), Some(1));
}

#[test]
fn the_message_closes_once_the_server_drops_the_diagnostic() {
    let ds = vec![entry(8..9, 1, "b")];
    let open = opened(&ds[0]);
    assert!(still_reported(&ds, &open));
    assert!(!still_reported(&Vec::new(), &open));
    assert!(still_reported(&vec![entry(8..12, 1, "b")], &open));
    assert!(!still_reported(&vec![entry(8..9, 1, "c")], &open));
    assert!(still_reported(&Vec::new(), &None));
}
