use files_ui::search_bar::{toggle_replace, SearchClick, SearchField, SearchHistory};

#[test]
fn clicks_round_trip_through_offsets() {
    assert_eq!(SearchClick::Query.id(100), 100);
    assert_eq!(SearchClick::ReplaceAll.id(100), 111);
    assert_eq!(SearchClick::from_offset(8), Some(SearchClick::Next));
    assert_eq!(SearchClick::from_offset(12), None);
    for offset in 0..12u64 {
        let click = SearchClick::from_offset(offset).unwrap();
        assert_eq!(click.id(7), 7 + offset);
    }
}

#[test]
fn history_recalls_searches_newest_first() {
    let mut history = SearchHistory::new();
    assert_eq!(history.step(true), None);
    history.remember("alpha");
    history.remember("");
    history.remember("beta");
    history.remember("alpha");
    assert_eq!(history.step(false), None);
    assert_eq!(history.step(true), Some("alpha".to_string()));
    assert_eq!(history.step(true), Some("beta".to_string()));
    assert_eq!(history.step(true), Some("beta".to_string()));
    assert_eq!(history.step(false), Some("alpha".to_string()));
    assert_eq!(history.step(false), None);
}

#[test]
fn history_keeps_the_latest_fifty() {
    let mut history = SearchHistory::new();
    for i in 0..60 {
        history.remember(&format!("q{i}"));
    }
    let mut seen = Vec::new();
    while let Some(q) = history.step(true) {
        if seen.last() == Some(&q) {
            break;
        }
        seen.push(q);
    }
    assert_eq!(seen.len(), 50);
    assert_eq!(seen[0], "q59");
    assert_eq!(seen[49], "q10");
}

#[test]
fn hiding_the_replace_row_moves_focus_to_the_query() {
    assert_eq!(toggle_replace(false, Some(SearchField::Query)), (true, Some(SearchField::Query)));
    assert_eq!(toggle_replace(true, Some(SearchField::Replacement)), (false, Some(SearchField::Query)));
    assert_eq!(toggle_replace(true, None), (false, None));
    assert_eq!(toggle_replace(false, Some(SearchField::Replacement)), (true, Some(SearchField::Replacement)));
}
