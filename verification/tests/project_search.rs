use files_ui::project_search::{
    insert_result, open_request, refresh_active, rows_and_matches, step_match, FileResult, LineResult,
    OpenRequest, Row, search_title, line_around, replace_in_text, fields_in_order, next_field, panel_key, FieldEdit,
    PanelField, PanelKey, PanelToggle,
};

fn line(number: usize, text: &str, hits: Vec<std::ops::Range<usize>>) -> LineResult {
    LineResult {
        number,
        text: text.to_string(),
        hits,
    }
}

fn file(path: &str, excerpts: Vec<Vec<LineResult>>) -> FileResult {
    FileResult {
        path: path.to_string(),
        excerpts,
    }
}

#[test]
fn arriving_files_are_kept_in_path_order() {
    let mut results = Vec::new();
    insert_result(&mut results, file("src/b.rs", vec![]));
    insert_result(&mut results, file("src/a.rs", vec![]));
    insert_result(&mut results, file("lib.rs", vec![]));
    insert_result(&mut results, file("src/c.rs", vec![]));
    insert_result(&mut results, file("src/a.rs", vec![vec![line(0, "x", vec![])]]));
    let paths: Vec<&str> = results.iter().map(|f| f.path.as_str()).collect();
    assert_eq!(paths, vec!["lib.rs", "src/a.rs", "src/a.rs", "src/b.rs", "src/c.rs"]);
    assert!(results[1].excerpts.len() == 1 && results[2].excerpts.is_empty());
}

#[test]
fn rows_list_headers_excerpts_and_every_hit() {
    let results = vec![
        file(
            "a.rs",
            vec![
                vec![line(0, "alpha alpha", vec![0..5, 6..11]), line(1, "beta", vec![])],
                vec![line(9, "alpha", vec![0..5])],
            ],
        ),
        file("b.rs", vec![vec![line(3, "alpha", vec![0..5])]]),
    ];
    let (rows, matches) = rows_and_matches(&results);
    assert_eq!(
        rows,
        vec![
            Row::Header(0),
            Row::Line { file: 0, excerpt: 0, line: 0 },
            Row::Line { file: 0, excerpt: 0, line: 1 },
            Row::Separator,
            Row::Line { file: 0, excerpt: 1, line: 0 },
            Row::Header(1),
            Row::Line { file: 1, excerpt: 0, line: 0 },
        ]
    );
    assert_eq!(matches, vec![(0, 0, 0, 0), (0, 0, 0, 1), (0, 1, 0, 0), (1, 0, 0, 0)]);
}

#[test]
fn stepping_wraps_through_the_matches() {
    assert_eq!(step_match(None, 3, true), Some(0));
    assert_eq!(step_match(Some(2), 3, true), Some(0));
    assert_eq!(step_match(Some(0), 3, false), Some(2));
    assert_eq!(step_match(Some(1), 3, false), Some(0));
    assert_eq!(step_match(None, 0, false), None);
    assert_eq!(refresh_active(None, 4), Some(0));
    assert_eq!(refresh_active(Some(5), 4), None);
    assert_eq!(refresh_active(Some(3), 4), Some(3));
    assert_eq!(refresh_active(None, 0), None);
}

#[test]
fn opening_a_row_goes_to_its_line_and_first_hit() {
    let results = vec![file(
        "src/a.rs",
        vec![vec![
            line(11, "first line", vec![]),
            line(12, "second line of the first file", vec![7..11]),
        ]],
    )];
    let header = open_request(&results, Row::Header(0));
    assert_eq!(
        header,
        Some(OpenRequest {
            path: "src/a.rs".to_string(),
            row: 13,
            column: 8,
        })
    );
    let first = open_request(&results, Row::Line { file: 0, excerpt: 0, line: 0 });
    assert_eq!(
        first,
        Some(OpenRequest {
            path: "src/a.rs".to_string(),
            row: 12,
            column: 1,
        })
    );
    assert_eq!(open_request(&results, Row::Separator), None);
}

#[test]
fn columns_count_chars_not_bytes() {
    let results = vec![file("é.rs", vec![vec![line(0, "héllo wörld", vec![7..12])]])];
    let req = open_request(&results, Row::Header(0)).unwrap();
    assert_eq!((req.row, req.column), (1, 7));
    let inside = vec![file("x", vec![vec![line(4, "éa", vec![1..2])]])];
    assert_eq!(open_request(&inside, Row::Header(0)).unwrap().column, 1);
}

fn alpha_results() -> Vec<FileResult> {
    let mut results = Vec::new();
    insert_result(&mut results, file("src/b.rs", vec![vec![line(0, "// alpha again", vec![3..8])]]));
    insert_result(
        &mut results,
        file(
            "src/a.rs",
            vec![vec![
                line(0, "fn alpha() {}", vec![3..8]),
                line(1, "fn beta() { alpha(); }", vec![12..17]),
            ]],
        ),
    );
    results
}

#[test]
fn results_come_grouped_by_file_in_path_order() {
    let results = alpha_results();
    let paths: Vec<&str> = results.iter().map(|f| f.path.as_str()).collect();
    assert_eq!(paths, ["src/a.rs", "src/b.rs"]);
    let (_, matches) = rows_and_matches(&results);
    assert_eq!(matches.len(), 3);
    let active = refresh_active(None, matches.len());
    assert_eq!(active, Some(0));
    assert_eq!(search_title("alpha"), "Search: alpha");
    assert_eq!(step_match(active, matches.len(), false), Some(2));
}

#[test]
fn a_click_on_a_line_asks_to_open_it_at_the_match() {
    let results = alpha_results();
    let (rows, _) = rows_and_matches(&results);
    let row = rows
        .iter()
        .position(|row| matches!(row, Row::Line { file: 0, line: 1, .. }))
        .expect("second line of the first file");
    assert_eq!(
        open_request(&results, rows[row]),
        Some(OpenRequest {
            path: "src/a.rs".into(),
            row: 2,
            column: 13
        })
    );
}

#[test]
fn an_empty_query_titles_the_panel() {
    assert_eq!(search_title(""), "Project Search");
}

#[test]
fn replacing_splices_each_hit_in_order() {
    let text: Vec<char> = "fn a() {}\nfn b() {}\n".chars().collect();
    let hits = vec![0..4, 10..14];
    assert_eq!(line_around(&text, 0..4), 0..9);
    assert_eq!(line_around(&text, 10..14), 10..19);
    let replacements = vec!["pub fn a".to_string(), "pub fn b".to_string()];
    assert_eq!(
        replace_in_text(&text, &hits, &replacements).as_deref(),
        Some("pub fn a() {}\npub fn b() {}\n")
    );
    assert_eq!(replace_in_text(&text, &vec![], &vec![]), None);
}

#[test]
fn the_line_around_a_hit_at_the_end_runs_to_the_end() {
    let text: Vec<char> = "one\ntwo".chars().collect();
    assert_eq!(line_around(&text, 5..6), 4..7);
    assert_eq!(line_around(&text, 4..4), 4..7);
    assert_eq!(line_around(&text, 3..3), 0..3);
}

#[test]
fn tab_walks_the_shown_fields_and_wraps() {
    let all = fields_in_order(true, true);
    assert_eq!(
        all,
        vec![PanelField::Query, PanelField::Replacement, PanelField::Include, PanelField::Exclude]
    );
    assert_eq!(fields_in_order(false, false), vec![PanelField::Query]);
    assert_eq!(next_field(&all, Some(PanelField::Query), false), Some(PanelField::Replacement));
    assert_eq!(next_field(&all, Some(PanelField::Exclude), false), Some(PanelField::Query));
    assert_eq!(next_field(&all, Some(PanelField::Query), true), Some(PanelField::Exclude));
    assert_eq!(next_field(&all, None, false), Some(PanelField::Replacement));
    let plain = fields_in_order(false, true);
    assert_eq!(next_field(&plain, Some(PanelField::Replacement), false), Some(PanelField::Include));
    assert_eq!(
        panel_key("tab", false, true, false, Some(PanelField::Query), false, false, false),
        PanelKey::Focus(Some(PanelField::Query))
    );
}

#[test]
fn enter_searches_when_stale_and_else_steps() {
    let key = |name: &str, cmd: bool, shift: bool, alt: bool, stale: bool| {
        panel_key(name, cmd, shift, alt, Some(PanelField::Query), true, false, stale)
    };
    assert_eq!(key("enter", false, false, false, true), PanelKey::Search);
    assert_eq!(key("enter", false, false, false, false), PanelKey::Step(true));
    assert_eq!(key("enter", false, true, false, false), PanelKey::Step(false));
    assert_eq!(key("enter", true, false, false, false), PanelKey::Step(true));
    assert_eq!(
        panel_key("enter", true, false, false, Some(PanelField::Replacement), true, false, false),
        PanelKey::ReplaceAll
    );
    assert_eq!(key("g", true, true, false, false), PanelKey::Step(false));
}

#[test]
fn shortcuts_press_options_and_edit_the_field() {
    let key = |name: &str, cmd: bool, shift: bool, alt: bool| panel_key(name, cmd, shift, alt, None, false, false, false);
    assert_eq!(key("c", true, false, true), PanelKey::Toggle(PanelToggle::Case));
    assert_eq!(key("w", true, false, true), PanelKey::Toggle(PanelToggle::Word));
    assert_eq!(key("x", true, false, true), PanelKey::Toggle(PanelToggle::Regex));
    assert_eq!(key("j", true, true, false), PanelKey::Toggle(PanelToggle::Filters));
    assert_eq!(key("h", true, true, false), PanelKey::Toggle(PanelToggle::Replace));
    assert_eq!(key("f", true, true, false), PanelKey::FocusQuery);
    assert_eq!(key("c", true, false, false), PanelKey::Copy);
    assert_eq!(key("v", true, false, false), PanelKey::Paste);
    assert_eq!(key("left", true, true, false), PanelKey::Edit(FieldEdit::Home, true));
    assert_eq!(key("left", false, false, true), PanelKey::Edit(FieldEdit::WordLeft, false));
    assert_eq!(key("backspace", false, false, true), PanelKey::Edit(FieldEdit::DeleteWordLeft, false));
    assert_eq!(key("z", true, true, false), PanelKey::Edit(FieldEdit::Redo, true));
    assert_eq!(key("z", true, false, false), PanelKey::Edit(FieldEdit::Undo, false));
    assert_eq!(key("q", false, false, false), PanelKey::Ignored);
    assert_eq!(key("a", false, false, false), PanelKey::Ignored);
}
