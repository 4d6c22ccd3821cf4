use files_ui::list_scrollbar::{still_on_screen, ScrollbarReveal, FADE_NANOS, HIDE_DELAY_NANOS};

#[test]
fn a_bar_never_shown_is_still() {
    let bar = ScrollbarReveal::default();
    assert!(!bar.is_animating());
    assert_eq!(bar.shown_for_nanos(), None);
}

#[test]
fn a_revealed_bar_animates_until_the_fade_ends() {
    let mut bar = ScrollbarReveal::default();
    bar.reveal_now();
    assert!(bar.is_animating());
    assert!(bar.shown_for_nanos().is_some());
    assert!(still_on_screen(0));
    assert!(still_on_screen(HIDE_DELAY_NANOS + FADE_NANOS / 2));
    assert!(still_on_screen(1_399_999_999));
    assert!(!still_on_screen(1_400_000_000));
}
