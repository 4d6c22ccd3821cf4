use files_ui::outline_view::{
    innermost_at, is_single_word, outline_kept, own_positions, symbol_paths, with_ancestors, Symbol,
};
use std::ops::Range;

fn symbol(depth: usize, range: Range<usize>, text: &str) -> Symbol {
    Symbol {
        depth,
        range,
        text: text.to_string(),
    }
}

fn symbols() -> Vec<Symbol> {
    vec![
        symbol(0, 0..50, "struct Point"),
        symbol(1, 10..20, "x"),
        symbol(0, 60..120, "impl Point"),
        symbol(1, 70..90, "fn distance"),
        symbol(1, 95..110, "fn scale"),
        symbol(0, 130..150, "fn main"),
    ]
}

#[test]
fn empty_query_selects_the_innermost_symbol_around_the_caret() {
    let symbols = symbols();
    assert_eq!(symbols.len(), 6);
    assert_eq!(symbols[innermost_at(&symbols, 80)].text, "fn distance");
    assert_eq!(symbols[innermost_at(&symbols, 200)].text, "struct Point");
}

#[test]
fn the_caret_selects_the_innermost_symbol_or_the_first_row() {
    let symbols = symbols();
    assert_eq!(innermost_at(&symbols, 80), 3);
    assert_eq!(innermost_at(&symbols, 15), 1);
    assert_eq!(innermost_at(&symbols, 55), 0);
    assert_eq!(innermost_at(&symbols, 200), 0);
    let twins = vec![symbol(0, 0..10, "a"), symbol(0, 0..10, "b")];
    assert_eq!(innermost_at(&twins, 5), 0);
}

#[test]
fn paths_carry_the_ancestors_names() {
    let (paths, leaves) = symbol_paths(&symbols());
    assert_eq!(
        paths,
        vec![
            "struct Point",
            "struct Point x",
            "impl Point",
            "impl Point fn distance",
            "impl Point fn scale",
            "fn main"
        ]
    );
    assert_eq!(leaves, vec![0, 13, 0, 11, 11, 0]);
    let skipping = vec![symbol(0, 0..1, "a"), symbol(2, 0..1, "b"), symbol(1, 0..1, "c")];
    let (paths, leaves) = symbol_paths(&skipping);
    assert_eq!(paths, vec!["a", "a b", "a c"]);
    assert_eq!(leaves, vec![0, 2, 2]);
}

#[test]
fn one_word_must_match_in_the_symbol_itself() {
    assert_eq!(is_single_word("scale"), true);
    assert_eq!(is_single_word("impl dist"), false);
    assert_eq!(own_positions(&vec![14, 15, 16], 11, true), Some(vec![3, 4, 5]));
    assert_eq!(own_positions(&vec![0, 14], 11, true), None);
    assert_eq!(own_positions(&vec![0, 1, 2, 14], 11, false), Some(vec![3]));
    assert_eq!(own_positions(&vec![0], 11, false), Some(vec![]));
}

#[test]
fn matches_bring_their_unlisted_ancestors_as_context() {
    let symbols = symbols();
    assert_eq!(with_ancestors(&symbols, &vec![4]), vec![(2, None), (4, Some(0))]);
    assert_eq!(
        with_ancestors(&symbols, &vec![3, 4, 5]),
        vec![(2, None), (3, Some(0)), (4, Some(1)), (5, Some(2))]
    );
    assert_eq!(
        with_ancestors(&symbols, &vec![1, 3]),
        vec![(0, None), (1, Some(0)), (2, None), (3, Some(1))]
    );
    assert_eq!(with_ancestors(&symbols, &vec![]), vec![]);
}

#[test]
fn kept_matches_come_in_symbol_order_with_their_own_letters() {
    // Symbol 2's path is "impl Point fn scale" with its own text from 11; symbol 0 has none above it.
    let matches = vec![(2, vec![11, 12, 13]), (0, vec![0, 1]), (7, vec![0]), (1, vec![3, 12])];
    let leaf_offsets = vec![0, 11, 11];
    let kept = outline_kept(&matches, 3, &leaf_offsets, false);
    assert_eq!(kept, vec![(1, vec![0, 1]), (3, vec![1]), (0, vec![0, 1, 2])]);
    // One word must match within the symbol itself.
    let one_word = outline_kept(&matches, 3, &leaf_offsets, true);
    assert_eq!(one_word, vec![(1, vec![0, 1]), (0, vec![0, 1, 2])]);
}

#[test]
fn only_the_first_hundred_matches_are_kept() {
    let matches: Vec<(usize, Vec<usize>)> = (0..150).rev().map(|s| (s, vec![0])).collect();
    let kept = outline_kept(&matches, 200, &vec![], false);
    assert_eq!(kept.len(), 100);
    assert_eq!(kept[0], (99, vec![0]));
    assert_eq!(kept[99], (0, vec![0]));
}
