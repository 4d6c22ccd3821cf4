use files_ui::definition_link::{
    excluding_here, DefinitionClick, DefinitionKind, DefinitionState, DefinitionTarget, Position,
};

const TEXT: &str = "fn helper() {}\nfn main() { helper(); }\n";

fn text() -> Vec<char> {
    TEXT.chars().collect()
}

fn target(path: &str, line: u32, start: u32, end: u32) -> DefinitionTarget {
    DefinitionTarget {
        path: path.to_string(),
        start: Position { line, character: start },
        end: Position { line, character: end },
    }
}

#[test]
fn f12_asks_at_the_caret_and_skips_targets_it_is_already_on() {
    let mut state = DefinitionState::new();
    state.go_to_definition(Some(29), DefinitionKind::Definition);
    assert_eq!(
        state.definition_request_due(),
        Some((29, DefinitionKind::Definition))
    );
    state.definition_requested(Some(4));
    let here = target("/project/a.rs", 1, 12, 18);
    let there = target("/project/a.rs", 0, 3, 9);
    // Line 1 starts at char 15 of the file.
    let spans = vec![Some(27..33), Some(3..9)];
    let text = text();
    let answer = state.definitions_answered(4, vec![here, there.clone()], &spans, None, Some(&text));
    assert_eq!(answer, Some(vec![there]));
    assert!(state.definition_request_due().is_none());
}

#[test]
fn a_held_command_key_links_the_symbol_once_the_server_answers() {
    let mut state = DefinitionState::new();
    state.show_link_definition(30, false);
    assert_eq!(
        state.definition_request_due(),
        Some((30, DefinitionKind::Definition))
    );
    state.definition_requested(Some(1));
    assert!(state.link_range().is_none());
    let text = text();
    let answer = state.definitions_answered(
        1,
        vec![target("/project/a.rs", 0, 3, 9)],
        &vec![Some(3..9)],
        None,
        Some(&text),
    );
    assert!(answer.is_none());
    assert_eq!(state.link_range(), Some(27..33));
    // Moving within the symbol keeps the link without asking again.
    state.show_link_definition(28, false);
    assert!(state.definition_request_due().is_none());
    assert!(state.hide_hovered_link());
    assert!(state.link_range().is_none());
}

#[test]
fn a_command_click_without_a_link_asks_at_the_click() {
    let mut state = DefinitionState::new();
    assert_eq!(state.definition_click(Some(29), &vec![], false), DefinitionClick::Ask(29));
    assert_eq!(
        state.definition_request_due(),
        Some((29, DefinitionKind::Definition))
    );
}

#[test]
fn a_request_that_could_not_be_sent_is_dropped() {
    let mut state = DefinitionState::new();
    state.go_to_definition(Some(3), DefinitionKind::Implementation);
    state.show_link_definition(5, true);
    assert_eq!(
        state.definition_request_due(),
        Some((3, DefinitionKind::Implementation))
    );
    state.definition_requested(None);
    assert_eq!(
        state.definition_request_due(),
        Some((5, DefinitionKind::TypeDefinition))
    );
    state.definition_requested(None);
    assert!(state.definition_request_due().is_none());
}

#[test]
fn without_a_loaded_file_nothing_is_asked_from_the_caret() {
    let mut state = DefinitionState::new();
    state.go_to_definition(None, DefinitionKind::Declaration);
    assert!(state.definition_request_due().is_none());
}

#[test]
fn an_answer_to_another_request_changes_nothing() {
    let mut state = DefinitionState::new();
    state.show_link_definition(30, false);
    state.definition_requested(Some(7));
    let text = text();
    let answer = state.definitions_answered(
        8,
        vec![target("/project/a.rs", 0, 3, 9)],
        &vec![Some(3..9)],
        None,
        Some(&text),
    );
    assert!(answer.is_none());
    assert!(state.link_targets().is_empty());
    assert!(state.link_range().is_none());
}

#[test]
fn the_server_range_wins_over_the_word_and_an_empty_answer_underlines_nothing() {
    let mut state = DefinitionState::new();
    state.show_link_definition(30, false);
    state.definition_requested(Some(2));
    let text = text();
    let targets = vec![target("/project/b.rs", 4, 0, 6)];
    state.definitions_answered(2, targets.clone(), &vec![None], Some(28..31), Some(&text));
    assert_eq!(state.link_range(), Some(28..31));
    assert_eq!(state.link_targets(), &targets[..]);

    let mut empty = DefinitionState::new();
    empty.show_link_definition(30, false);
    empty.definition_requested(Some(3));
    empty.definitions_answered(3, vec![], &vec![], None, Some(&text));
    assert!(empty.link_range().is_none());
}

#[test]
fn a_command_click_on_a_link_goes_to_its_targets_but_for_the_one_it_is_on() {
    let mut state = DefinitionState::new();
    state.show_link_definition(30, false);
    state.definition_requested(Some(1));
    let text = text();
    let there = target("/project/b.rs", 1, 7, 13);
    let here = target("/project/a.rs", 1, 12, 18);
    state.definitions_answered(1, vec![there.clone(), here], &vec![None, None], None, Some(&text));
    let spans = vec![None, Some(27..33)];
    assert_eq!(
        state.definition_click(Some(30), &spans, false),
        DefinitionClick::Go(vec![there])
    );
    assert!(state.link_targets().is_empty());
    assert!(state.definition_request_due().is_none());
}

#[test]
fn a_click_on_a_link_that_only_leads_here_stays() {
    let mut state = DefinitionState::new();
    state.show_link_definition(30, false);
    state.definition_requested(Some(1));
    let text = text();
    let here = target("/project/a.rs", 1, 12, 18);
    state.definitions_answered(1, vec![here], &vec![None], None, Some(&text));
    assert_eq!(
        state.definition_click(Some(30), &vec![Some(27..33)], true),
        DefinitionClick::Stay
    );
    assert!(state.definition_request_due().is_none());
    assert_eq!(state.definition_click(None, &vec![], true), DefinitionClick::Stay);
}

#[test]
fn excluding_here_keeps_targets_in_other_files_and_out_of_reach() {
    let a = target("/p/a.rs", 0, 0, 1);
    let b = target("/p/b.rs", 0, 0, 1);
    let c = target("/p/a.rs", 3, 0, 1);
    let kept = excluding_here(
        vec![a.clone(), b.clone(), c.clone()],
        &vec![Some(0..4), None, Some(10..12)],
        4,
    );
    assert_eq!(kept, vec![b, c]);
}
