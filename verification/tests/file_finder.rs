use files_ui::file_finder::{confirm_target, 
    initial_selection, lands_in_name, merge_entries, ordered_recent, parse_query, recent_entries, Candidates,
    Entry, Target,
};

#[test]
fn queries_carry_a_line_and_column() {
    let target = |path: &str, row: Option<u32>, column: Option<u32>| Target {
        path: path.into(),
        row,
        column,
    };
    assert_eq!(
        parse_query("src/main.rs"),
        target("src/main.rs", None, None)
    );
    assert_eq!(parse_query("main.rs:12"), target("main.rs", Some(12), None));
    assert_eq!(
        parse_query("main.rs:12:5"),
        target("main.rs", Some(12), Some(5))
    );
    assert_eq!(
        parse_query("./main.rs:3:"),
        target("main.rs", Some(3), None)
    );
    assert_eq!(parse_query("main"), target("main", None, None));
}

#[test]
fn zero_or_non_numbers_stay_in_the_path() {
    let t = parse_query("a:0");
    assert_eq!((t.path.as_str(), t.row, t.column), ("a:0", None, None));
    let t = parse_query("a:x:5");
    assert_eq!((t.path.as_str(), t.row, t.column), ("a:x", Some(5), None));
    let t = parse_query("  b.rs:+7  ");
    assert_eq!((t.path.as_str(), t.row, t.column), ("b.rs", Some(7), None));
    let t = parse_query("c:99999999999");
    assert_eq!((t.path.as_str(), t.row, t.column), ("c:99999999999", None, None));
}

#[test]
fn candidates_keep_their_paths() {
    let c = Candidates::new(vec!["a.rs".to_string(), "b/c.rs".to_string()]);
    assert_eq!(c.paths(), &vec!["a.rs".to_string(), "b/c.rs".to_string()]);
    assert_eq!(c.bags().len(), 2);
}

#[test]
fn the_open_file_leads_the_recent_ones() {
    let recent = vec!["docs/main-guide.md".to_string(), "src/lib.rs".to_string()];
    let ordered = ordered_recent(&recent, &Some("src/lib.rs".to_string()));
    assert_eq!(ordered, vec!["src/lib.rs".to_string(), "docs/main-guide.md".to_string()]);
    let entries = recent_entries(&ordered);
    assert!(entries.iter().all(|e| e.recent && e.positions.is_empty()));
    assert_eq!(ordered_recent(&recent, &None), recent);
}

#[test]
fn recent_hits_count_only_in_the_name_and_project_hits_follow() {
    assert!(lands_in_name("docs/main.md", &vec![5]));
    assert!(!lands_in_name("docs/main.md", &vec![0, 4]));
    let merged = merge_entries(
        vec![("docs/main.md".to_string(), vec![5]), ("src/x.rs".to_string(), vec![0])],
        vec![("src/main.rs".to_string(), vec![4]), ("docs/main.md".to_string(), vec![5])],
    );
    let paths: Vec<&str> = merged.iter().map(|e| e.path.as_str()).collect();
    assert_eq!(paths, ["docs/main.md", "src/main.rs"]);
    assert_eq!(merged[0].recent, true);
    assert_eq!(merged[1].recent, false);
    let first = Entry { path: "src/lib.rs".into(), positions: vec![], recent: true };
    let second = Entry { path: "a.rs".into(), positions: vec![], recent: false };
    let open = Some("src/lib.rs".to_string());
    assert_eq!(initial_selection(false, &vec![first.clone(), second.clone()], &open), 1);
    assert_eq!(initial_selection(true, &vec![first.clone(), second.clone()], &open), 0);
    assert_eq!(initial_selection(false, &vec![first], &open), 0);
}

#[test]
fn confirming_opens_the_pick_at_the_query_line() {
    let picked = confirm_target(&"src/main.rs".to_string(), "main:40:2");
    assert_eq!(picked.path, "src/main.rs");
    assert_eq!((picked.row, picked.column), (Some(40), Some(2)));
    let plain = confirm_target(&"docs/a.md".to_string(), "a");
    assert_eq!((plain.row, plain.column), (None, None));
}

#[test]
fn an_empty_query_lists_recent_files_with_the_open_one_first() {
    let recent = vec!["docs/main-guide.md".to_string(), "src/lib.rs".to_string()];
    assert!(parse_query("").path.trim().is_empty());
    let entries = recent_entries(&ordered_recent(&recent, &Some("src/lib.rs".to_string())));
    let paths: Vec<&str> = entries.iter().map(|entry| entry.path.as_str()).collect();
    assert_eq!(paths, ["src/lib.rs", "docs/main-guide.md"]);
    assert!(entries.iter().all(|entry| entry.recent));
}

#[test]
fn written_targets_read_back_and_trimming_changes_nothing() {
    let full = parse_query("src/main.rs:12:3");
    assert_eq!((full.path.as_str(), full.row, full.column), ("src/main.rs", Some(12), Some(3)));
    let row = parse_query("src/main.rs:12");
    assert_eq!((row.path.as_str(), row.row, row.column), ("src/main.rs", Some(12), None));
    let plain = parse_query("src/main.rs");
    assert_eq!((plain.path.as_str(), plain.row, plain.column), ("src/main.rs", None, None));
    assert_eq!(parse_query("  src/main.rs:12:3 \t"), full);
}
