use files_ui::go_to_line::GoToLine;

fn modal(query: &str) -> GoToLine {
    let mut m = GoToLine::new(10, 3, 50);
    m.query = query.to_string();
    m
}

#[test]
fn parses_absolute_and_relative_targets() {
    assert_eq!(modal("12").target(), Some((11, 0)));
    assert_eq!(modal("12:5").target(), Some((11, 4)));
    assert_eq!(modal("+5").target(), Some((14, 0)));
    assert_eq!(modal("b3").target(), Some((6, 0)));
    assert_eq!(modal("x").target(), None);
}

#[test]
fn help_text_describes_the_query() {
    assert_eq!(modal("").help_text(), "Current Line: 10 of 50 (column 3)");
    assert_eq!(modal("-2").help_text(), "Go to line 8 (-2 from current)");
    assert_eq!(modal("7:2").help_text(), "Go to line 7, character 2");
}

#[test]
fn tab_fills_the_placeholder() {
    let mut m = modal("");
    m.accept_placeholder();
    assert_eq!(m.query, "10:3");
    let mut typed = modal("4");
    typed.accept_placeholder();
    assert_eq!(typed.query, "4");
}

#[test]
fn relative_moves_stop_at_the_start_and_read_only_the_first_number() {
    assert_eq!(modal("-20").target(), Some((0, 0)));
    assert_eq!(modal("f 2:9").target(), Some((11, 0)));
    assert_eq!(modal("+0").help_text(), "Go to line 10 (+0 from current)");
    assert_eq!(modal("7").help_text(), "Go to line 7");
    assert_eq!(modal(" 7 : x ").line_and_column(), Some((7, None)));
    assert_eq!(modal("0").target(), Some((0, 0)));
    assert_eq!(modal("+").relative_offset(), None);
}
