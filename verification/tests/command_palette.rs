use files_ui::command_palette::{
    humanize_action_name, key_label, normalize_action_query, palette_down, palette_up, parse_keystroke,
    PaletteClick, PaletteMemory, PaletteMove, QueryHistory,
};

#[test]
fn humanizes_action_names() {
    assert_eq!(
        humanize_action_name("editor::ConvertToUpperCase"),
        "editor: convert to upper case"
    );
    assert_eq!(
        humanize_action_name("go_to_line::Toggle"),
        "go to line: toggle"
    );
    assert_eq!(
        humanize_action_name("editor::ConvertToRot13"),
        "editor: convert to rot13"
    );
    assert_eq!(humanize_action_name("zed::OpenURL"), "zed: open URL");
    assert_eq!(
        humanize_action_name("editor::GoToHTMLFile"),
        "editor: go to HTML file"
    );
}

#[test]
fn normalizes_queries() {
    assert_eq!(
        normalize_action_query("  editor::sort_lines "),
        "editor:sort lines"
    );
    assert_eq!(normalize_action_query("a   b"), "a b");
}

#[test]
fn parses_keystrokes() {
    assert_eq!(parse_keystroke("cmd-shift-k"), (vec!["cmd", "shift"], "k"));
    assert_eq!(parse_keystroke("ctrl--"), (vec!["ctrl"], "-"));
    assert_eq!(
        parse_keystroke("ctrl-shift--"),
        (vec!["ctrl", "shift"], "-")
    );
    assert_eq!(parse_keystroke("pageup"), (vec![], "pageup"));
}

#[test]
fn unknown_modifiers_stay_in_the_key() {
    assert_eq!(parse_keystroke("hyper-k"), (vec![], "hyper-k"));
    assert_eq!(parse_keystroke("cmd-"), (vec![], "cmd-"));
    assert_eq!(parse_keystroke(""), (vec![], ""));
}

#[test]
fn key_labels_capitalize_the_first_char() {
    assert_eq!(key_label("pageup"), "PageUp");
    assert_eq!(key_label("pagedown"), "PageDown");
    assert_eq!(key_label("k"), "K");
    assert_eq!(key_label("enter"), "Enter");
    assert_eq!(key_label("["), "[");
    assert_eq!(key_label(""), "");
}

#[test]
fn humanizing_keeps_separators_and_lowercase_words() {
    assert_eq!(humanize_action_name("pane::GoBack"), "pane: go back");
    assert_eq!(humanize_action_name("a:b"), "a:b");
    assert_eq!(humanize_action_name("lower"), "lower");
    assert_eq!(humanize_action_name("X"), " x");
}

#[test]
fn normalizing_keeps_single_colons_and_drops_runs() {
    assert_eq!(normalize_action_query("editor: sort lines"), "editor: sort lines");
    assert_eq!(normalize_action_query("::a__b"), ":a b");
    assert_eq!(normalize_action_query("   "), "");
}

#[test]
fn palette_clicks_round_trip_through_offsets() {
    assert_eq!(PaletteClick::Run.offset(), 0);
    assert_eq!(PaletteClick::Row(4).offset(), 5);
    assert_eq!(PaletteClick::from_offset(0), PaletteClick::Run);
    assert_eq!(PaletteClick::from_offset(5), PaletteClick::Row(4));
    for click in [PaletteClick::Run, PaletteClick::Row(0), PaletteClick::Row(17)] {
        assert_eq!(PaletteClick::from_offset(click.offset()), click);
    }
}

#[test]
fn history_walks_back_through_prefixed_queries_and_forward_again() {
    let mut history = QueryHistory::new();
    history.add("upper case".to_string());
    history.add("sort".to_string());
    history.add("upper".to_string());
    assert!(!history.is_navigating());
    assert_eq!(history.previous("up"), Some("upper".to_string()));
    assert!(history.is_navigating());
    assert_eq!(history.previous("upper"), Some("upper case".to_string()));
    assert_eq!(history.previous("upper case"), None);
    assert_eq!(history.next("upper case"), Some("upper".to_string()));
    assert_eq!(history.next("upper"), None);
    assert_eq!(history.finish_walk(), "up");
    assert!(!history.is_navigating());
}

#[test]
fn editing_the_query_ends_a_walk_and_adding_moves_a_query_to_the_end() {
    let mut history = QueryHistory::new();
    history.add("a".to_string());
    history.add("b".to_string());
    history.add("a".to_string());
    assert_eq!(history.previous(""), Some("a".to_string()));
    assert_eq!(history.previous("a"), Some("b".to_string()));
    assert_eq!(history.previous("b"), None);
    assert_eq!(history.previous("a"), Some("a".to_string()));
    assert_eq!(history.validate_cursor("edited"), None);
    assert_eq!(history.next("edited"), None);
}

#[test]
fn running_a_command_counts_it_and_remembers_the_query() {
    let mut memory = PaletteMemory::new();
    assert_eq!(memory.usage_count("editor: undo"), None);
    memory.record_run("undo", "editor: undo");
    memory.record_run("", "editor: undo");
    memory.record_run("redo", "editor: redo");
    assert_eq!(memory.usage_count("editor: undo"), Some(2));
    assert_eq!(memory.usage_count("editor: redo"), Some(1));
    assert_eq!(memory.history_mut().previous(""), Some("redo".to_string()));
}

#[test]
fn up_from_the_top_walks_the_history_and_down_walks_back() {
    let mut history = QueryHistory::new();
    assert_eq!(palette_up(&mut history, "", 0, 3), PaletteMove::Select(2));
    history.add("editor: sort".to_string());
    history.add("file: open".to_string());
    assert_eq!(palette_down(&mut history, "", 0, 3), PaletteMove::Select(1));
    assert_eq!(palette_up(&mut history, "", 1, 3), PaletteMove::Select(0));
    assert_eq!(palette_up(&mut history, "", 0, 3), PaletteMove::Query("file: open".to_string()));
    assert_eq!(
        palette_up(&mut history, "file: open", 0, 1),
        PaletteMove::Query("editor: sort".to_string())
    );
    assert_eq!(palette_up(&mut history, "editor: sort", 0, 1), PaletteMove::Select(0));
    assert_eq!(
        palette_down(&mut history, "editor: sort", 0, 1),
        PaletteMove::Query("file: open".to_string())
    );
    assert_eq!(palette_down(&mut history, "file: open", 0, 1), PaletteMove::Query(String::new()));
    assert!(!history.is_navigating());
    assert_eq!(palette_down(&mut history, "", 2, 3), PaletteMove::Select(0));
    assert_eq!(palette_up(&mut history, "", 0, 0), PaletteMove::Query("file: open".to_string()));
}

#[test]
fn normalizing_twice_changes_nothing_more() {
    for query in ["  editor::sort   lines ", "a  b::c", "go to: line", ""] {
        let once = normalize_action_query(query);
        assert_eq!(normalize_action_query(&once), once);
    }
}
