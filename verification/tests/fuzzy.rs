use files_ui::fuzzy::{
    ascending, case_mismatches, distance_between, fuzzy_candidates, path_candidates, squeeze_query, CharBag,
};

#[test]
fn char_bags_count_letters_up_to_two() {
    let bag = CharBag::from("src/main.rs");
    assert!(bag.is_superset(CharBag::from("mrs")));
    assert!(bag.is_superset(CharBag::from("ss")));
    assert!(!CharBag::from("src").is_superset(CharBag::from("ss")));
    assert!(!bag.is_superset(CharBag::from("x")));
}

#[test]
fn bags_ignore_case_and_note_digits_and_dashes() {
    assert!(CharBag::from("ABC").is_superset(CharBag::from("abc")));
    assert!(CharBag::from("a-1").is_superset(CharBag::from("-1")));
    assert!(!CharBag::from("a-1").is_superset(CharBag::from("2")));
    assert!(CharBag::from("sss").is_superset(CharBag::from("ssss")));
    assert!(CharBag::from("x").is_superset(CharBag::from("/.!")));
    assert!(CharBag::default().is_superset(CharBag::new()));
}

#[test]
fn distance_counts_segments_past_the_shared_ones() {
    assert_eq!(distance_between("a/b/c.rs", "a/b/c.rs"), 1);
    assert_eq!(distance_between("a/b/c.rs", "a/b/d.rs"), 1);
    assert_eq!(distance_between("a/x/c.rs", "a/b/d.rs"), 3);
    assert_eq!(distance_between("z.rs", "a/b/d.rs"), 3);
}

#[test]
fn mismatches_count_matched_chars_of_another_case() {
    assert_eq!(case_mismatches(None, &[0, 1], "ab"), 0);
    assert_eq!(case_mismatches(Some(&['A', 'b']), &[0, 1], "ab"), 1);
    assert_eq!(case_mismatches(Some(&['A']), &[0, 1], "ab"), 0);
    assert_eq!(case_mismatches(Some(&['A', 'B']), &[0, 9], "ab"), 1);
}

#[test]
fn positions_come_sorted_and_unique() {
    assert_eq!(ascending(&vec![3, 1, 3, 2]), vec![1, 2, 3]);
    assert_eq!(ascending(&vec![]), Vec::<usize>::new());
}

#[test]
fn queries_are_squeezed_to_single_spaces() {
    assert_eq!(squeeze_query("  a \t b  "), "a b");
    assert_eq!(squeeze_query(""), "");
}

#[test]
fn names_match_in_order_and_a_blank_query_keeps_all() {
    let names = ["editor: sort lines by length", "editor: select all", "editor: undo"];
    let found = fuzzy_candidates(&names, "undo");
    assert_eq!(found.len(), 1);
    assert_eq!(found[0].candidate, 2);
    assert_eq!(found[0].positions, vec![8, 9, 10, 11]);
    assert_eq!(fuzzy_candidates(&names, "  ").len(), 3);
    assert!(fuzzy_candidates(&names, "zzz").is_empty());
}

#[test]
fn paths_need_the_query_chars_and_know_their_distance() {
    let paths = ["crates/editor/src/editor.rs", "docs/editing-files.md", "crates/files/src/files.rs"];
    let bags: Vec<CharBag> = paths.iter().map(|p| CharBag::from(*p)).collect();
    let found = path_candidates(&paths, &bags, "files.rs", Some("crates/files/src/lib.rs"));
    assert!(found.iter().any(|c| c.candidate == 2));
    let files = found.iter().find(|c| c.candidate == 2).map(|c| (c.distance, c.name_score.map(|s| s.1)));
    assert_eq!(files, Some((1, Some(8))));
    assert!(path_candidates(&paths, &bags, "zzz", None).is_empty());
    assert!(path_candidates(&paths, &bags, " ", None).is_empty());
}
