use files_ui::definition_link::DefinitionKind;
use files_ui::edit_keys::{
    edit_key_action, page_rows, Deletion, EditCommand, EditKey, EditKeyAction, EditKeyState, KeyEvent,
    LineCommand, Motion, SelectionCommand,
};

fn idle() -> EditKeyState {
    EditKeyState {
        menu_open: false,
        snippet_next: false,
        snippet_prev: false,
        in_snippet: false,
        diagnostic_open: false,
        any_expanded: false,
        branch_diff: false,
        only_carets: true,
        visible_rows: 10,
    }
}

fn press(key: EditKey, shift: bool, state: EditKeyState) -> EditKeyAction {
    edit_key_action(&KeyEvent { key, shift }, state)
}

fn run(command: EditCommand) -> EditKeyAction {
    EditKeyAction { close_menu: false, command }
}

#[test]
fn a_page_keeps_one_row_of_the_last() {
    assert_eq!(page_rows(10), 9);
    assert_eq!(page_rows(1), 0);
    assert_eq!(page_rows(0), 0);
    assert_eq!(press(EditKey::PageDown, false, idle()), run(EditCommand::Move(Motion::PageDown(9), false)));
    assert_eq!(press(EditKey::PageUp, true, idle()), run(EditCommand::Move(Motion::PageUp(9), true)));
}

#[test]
fn an_open_menu_takes_its_keys_and_closes_for_others() {
    let menu = EditKeyState { menu_open: true, ..idle() };
    assert_eq!(press(EditKey::Up, false, menu), run(EditCommand::MenuPrevious));
    assert_eq!(press(EditKey::Down, false, menu), run(EditCommand::MenuNext));
    assert_eq!(press(EditKey::Enter, false, menu), run(EditCommand::ConfirmCompletion));
    assert_eq!(press(EditKey::Tab, false, menu), run(EditCommand::ConfirmCompletion));
    assert_eq!(press(EditKey::Escape, false, menu), run(EditCommand::DismissMenu));
    assert_eq!(press(EditKey::Backspace, false, menu), run(EditCommand::Delete(Deletion::Backward, true)));
    assert_eq!(
        press(EditKey::Left, false, menu),
        EditKeyAction { close_menu: true, command: EditCommand::Move(Motion::Left, false) }
    );
    // Jumps and the hover leave the menu be.
    assert_eq!(press(EditKey::GoToDiagnostic, false, menu), run(EditCommand::GoToDiagnostic(true)));
    assert_eq!(press(EditKey::Hover, false, menu), run(EditCommand::ShowHover));
}

#[test]
fn tab_and_escape_serve_snippets_and_diagnostics_first() {
    let snippet = EditKeyState { snippet_next: true, snippet_prev: true, in_snippet: true, ..idle() };
    assert_eq!(press(EditKey::Tab, false, snippet), run(EditCommand::SnippetStop(true)));
    assert_eq!(press(EditKey::Backtab, false, snippet), run(EditCommand::SnippetStop(false)));
    assert_eq!(press(EditKey::Escape, false, snippet), run(EditCommand::ExitSnippet));
    let diagnostic = EditKeyState { diagnostic_open: true, any_expanded: true, ..idle() };
    assert_eq!(press(EditKey::Escape, false, diagnostic), run(EditCommand::DismissDiagnostic));
    let expanded = EditKeyState { any_expanded: true, ..idle() };
    assert_eq!(press(EditKey::Escape, false, expanded), run(EditCommand::CollapseExpanded));
    assert_eq!(press(EditKey::Escape, false, idle()), run(EditCommand::CollapseCursors));
    assert_eq!(press(EditKey::Tab, false, idle()), run(EditCommand::Tab));
    assert_eq!(press(EditKey::Backtab, false, idle()), run(EditCommand::Outdent));
}

#[test]
fn commands_follow_their_keys() {
    assert_eq!(
        press(EditKey::GoToTypeDefinition, false, idle()),
        run(EditCommand::GoToDefinition(DefinitionKind::TypeDefinition))
    );
    assert_eq!(press(EditKey::ToggleSplitDiff, false, idle()), run(EditCommand::Nothing));
    let branch = EditKeyState { branch_diff: true, only_carets: false, ..idle() };
    assert_eq!(press(EditKey::ToggleSplitDiff, false, branch), run(EditCommand::ToggleSplitDiff));
    assert_eq!(press(EditKey::UnstageAndNext, false, branch), run(EditCommand::StageAndNext(false, false)));
    assert_eq!(press(EditKey::StageAndNext, false, idle()), run(EditCommand::StageAndNext(true, true)));
    assert_eq!(press(EditKey::GoToPreviousHunk, false, idle()), run(EditCommand::GoToHunk(false)));
    assert_eq!(
        press(EditKey::AddCursorBelowRow, false, idle()),
        run(EditCommand::Selection(SelectionCommand::AddCursor { above: false, skip_soft_wrap: false }))
    );
    assert_eq!(
        press(EditKey::DuplicateLineUp, false, idle()),
        run(EditCommand::Line(LineCommand::Duplicate { up: true }))
    );
    assert_eq!(press(EditKey::DeleteToLineEnd, false, idle()), run(EditCommand::Delete(Deletion::ToEndOfLine, false)));
    assert_eq!(press(EditKey::Enter, false, idle()), run(EditCommand::Newline));
    assert_eq!(press(EditKey::ReplaceAll, false, idle()), run(EditCommand::Nothing));
    assert_eq!(press(EditKey::Other, false, idle()), run(EditCommand::Nothing));
}
