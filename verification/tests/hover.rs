use files_ui::diagnostic_nav::Diagnostic;
use files_ui::hover::{diagnostic_at, HoverState, HIDING_DELAY_NANOS, HOVER_DELAY_NANOS};

fn diagnostics() -> Vec<Diagnostic> {
    vec![Diagnostic {
        range: 8..9,
        severity: 1,
        message: "cannot find value `b`".into(),
        source: Some("rustc".into()),
        code: Some("E0425".into()),
    }]
}

#[test]
fn a_still_pointer_shows_the_diagnostic_then_the_server_answer() {
    let diagnostics = diagnostics();
    let mut hover = HoverState::new();
    let started: u64 = 1_000_000_000;
    hover.hover_at(Some(8), false, started);
    assert!(hover.hover_request_due(started).is_none());
    let half = started + HOVER_DELAY_NANOS / 2;
    assert_eq!(hover.hover_request_due(half), Some(8));
    hover.hover_requested(Some(7));
    hover.tick_hover(half, &diagnostics);
    assert!(!hover.visible());
    hover.tick_hover(started + HOVER_DELAY_NANOS, &diagnostics);
    assert!(hover.diagnostic.is_some());
    assert!(hover.info.is_empty());
    hover.hover_answered(7, true, Some("```rust\nlet b: u32\n```".into()), Some(8..9));
    hover.tick_hover(started + HOVER_DELAY_NANOS, &diagnostics);
    assert_eq!(hover.info.len(), 1);
    assert_eq!(hover.hover_highlight_ranges(), vec![8..9]);
    assert!(hover.pending.is_none());
}

#[test]
fn leaving_the_text_hides_after_a_delay_unless_heading_to_the_popover() {
    let diagnostics = diagnostics();
    let mut hover = HoverState::new();
    let now: u64 = 5_000_000_000;
    hover.show_hover(8, true, now);
    hover.hover_requested(None);
    hover.tick_hover(now, &diagnostics);
    assert!(hover.diagnostic.is_some());
    // A keyboard hover stays put while the pointer wanders.
    assert!(!hover.tracks_approach(None));
    hover.hover_at(None, false, now);
    assert!(hover.hide_at.is_none());
    hover.hover_clicked();
    // The first step away is measured from where the pointer is, so it counts as heading there.
    assert!(hover.tracks_approach(None));
    hover.hover_at(None, true, now);
    assert!(hover.hide_at.is_some());
    hover.pointer_on_popover();
    assert!(hover.hide_at.is_none());
    hover.hover_at(None, false, now);
    hover.tick_hover(now + HIDING_DELAY_NANOS * 2, &diagnostics);
    assert!(!hover.visible());
}

#[test]
fn typing_or_scrolling_hides_and_the_keyboard_shows_at_once() {
    let diagnostics = diagnostics();
    let mut hover = HoverState::new();
    let now: u64 = 42;
    hover.show_hover(8, true, now);
    hover.hover_requested(None);
    hover.tick_hover(now, &diagnostics);
    assert!(hover.visible());
    assert!(hover.hide_hover());
    assert!(!hover.visible());
    assert!(hover.pending.is_none());
}

#[test]
fn the_tightest_diagnostic_around_the_offset_is_chosen_first_of_equals() {
    let entry = |start: usize, end: usize, message: &str| Diagnostic {
        range: start..end,
        severity: 2,
        message: message.into(),
        source: None,
        code: None,
    };
    let ds = vec![entry(0, 20, "wide"), entry(4, 8, "first"), entry(5, 9, "second"), entry(30, 31, "far")];
    assert_eq!(diagnostic_at(&ds, 6), Some(1));
    assert_eq!(diagnostic_at(&ds, 8), Some(1));
    assert_eq!(diagnostic_at(&ds, 9), Some(2));
    assert_eq!(diagnostic_at(&ds, 15), Some(0));
    assert_eq!(diagnostic_at(&ds, 25), None);
}

#[test]
fn a_pointer_hover_over_what_shows_starts_nothing_new() {
    let diagnostics = diagnostics();
    let mut hover = HoverState::new();
    hover.hover_at(Some(8), false, 0);
    hover.hover_requested(Some(1));
    hover.tick_hover(HOVER_DELAY_NANOS, &diagnostics);
    assert!(hover.diagnostic.is_some());
    hover.hover_at(Some(2), false, HOVER_DELAY_NANOS);
    assert!(hover.diagnostic.is_some());
    assert_eq!(hover.pending.as_ref().map(|p| p.offset), Some(8));
}

#[test]
fn an_empty_answer_shows_no_server_popover() {
    let mut hover = HoverState::new();
    hover.show_hover(3, true, 0);
    hover.hover_requested(Some(9));
    hover.hover_answered(9, true, Some(String::new()), None);
    assert!(hover.tick_hover(0, &Vec::new()));
    assert!(hover.info.is_empty());
    assert!(hover.diagnostic.is_none());
    assert!(hover.pending.is_none());
}

#[test]
fn an_answer_for_another_request_or_an_unloaded_file_is_ignored() {
    let mut hover = HoverState::new();
    hover.show_hover(3, true, 0);
    hover.hover_requested(Some(9));
    hover.hover_answered(8, true, Some("x".into()), None);
    hover.hover_answered(9, false, Some("x".into()), None);
    hover.tick_hover(0, &Vec::new());
    assert!(hover.pending.is_some());
    hover.hover_answered(9, true, Some("x".into()), None);
    hover.tick_hover(0, &Vec::new());
    assert_eq!(hover.info.len(), 1);
    assert_eq!(hover.info[0].range, 3..3);
    assert!(hover.hover_highlight_ranges().is_empty());
}

#[test]
fn scrolling_a_popover_stops_at_the_top() {
    let diagnostics = diagnostics();
    let mut hover = HoverState::new();
    hover.show_hover(8, true, 0);
    hover.hover_requested(Some(1));
    hover.hover_answered(1, true, Some("docs".into()), Some(8..9));
    hover.tick_hover(0, &diagnostics);
    assert!(hover.scroll_hover_popover(1, 3));
    assert_eq!(hover.info[0].scroll, 3);
    assert!(!hover.scroll_hover_popover(1, 0));
    assert!(hover.scroll_hover_popover(1, -10));
    assert_eq!(hover.info[0].scroll, 0);
    assert!(!hover.scroll_hover_popover(0, -1));
    assert!(hover.scroll_hover_popover(0, 2));
    assert_eq!(hover.diagnostic.as_ref().map(|d| d.scroll), Some(2));
    assert!(!hover.scroll_hover_popover(2, 1));
}
