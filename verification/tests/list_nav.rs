use files_ui::list_nav::{clamp_selection, scroll_to_selected, select_next, select_previous, select_row};

#[test]
fn up_and_down_wrap_around() {
    assert_eq!(select_next(0, 3), 1);
    assert_eq!(select_next(2, 3), 0);
    assert_eq!(select_previous(0, 3), 2);
    assert_eq!(select_previous(2, 3), 1);
    assert_eq!(select_next(0, 0), 0);
    assert_eq!(select_previous(0, 0), 0);
}

#[test]
fn clicks_and_list_changes_keep_the_selection_on_a_row() {
    assert_eq!(select_row(1, 2, 3), 2);
    assert_eq!(select_row(1, 3, 3), 1);
    assert_eq!(clamp_selection(5, 3), 2);
    assert_eq!(clamp_selection(1, 3), 1);
    assert_eq!(clamp_selection(4, 0), 0);
}

#[test]
fn scrolling_keeps_the_selection_visible() {
    assert_eq!(scroll_to_selected(12, 0, 10, 50), 3);
    assert_eq!(scroll_to_selected(2, 5, 10, 50), 2);
    assert_eq!(scroll_to_selected(7, 5, 10, 50), 5);
    assert_eq!(scroll_to_selected(2, 5, 10, 8), 0);
}
