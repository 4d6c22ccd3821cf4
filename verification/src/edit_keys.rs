//! What a key does in a file's editor: the key handler's decisions, from the key and what the view can
//! tell of itself (an open completion menu, snippet stops, an open diagnostic, expanded changes) to the one
//! command the view then carries out. A key the view's footer takes never comes here.

use vstd::prelude::*;
use crate::definition_link::DefinitionKind;

verus! {

/// The editor keys a file view handles; `Other` stands for the rest, which it leaves alone.
#[derive(Clone, Copy, Debug, PartialEq, Eq, Structural)]
pub enum EditKey {
    Hover,
    GoToDefinition,
    GoToDeclaration,
    GoToTypeDefinition,
    GoToImplementation,
    GoToDiagnostic,
    GoToPreviousDiagnostic,
    Up,
    Down,
    Left,
    Right,
    Home,
    End,
    WordLeft,
    WordRight,
    SubwordLeft,
    SubwordRight,
    LineStart,
    LineEnd,
    DocumentStart,
    DocumentEnd,
    PageUp,
    PageDown,
    Enter,
    Tab,
    Backtab,
    Escape,
    Backspace,
    Delete,
    DeleteWordLeft,
    DeleteWordRight,
    DeleteSubwordLeft,
    DeleteSubwordRight,
    DeleteToLineStart,
    DeleteToLineEnd,
    ShowCompletions,
    ShowWordCompletions,
    ToggleSoftWrap,
    ToggleSelectedDiffHunks,
    ExpandAllDiffHunks,
    ToggleSplitDiff,
    GoToHunk,
    GoToPreviousHunk,
    GitRestore,
    ToggleStaged,
    StageAndNext,
    UnstageAndNext,
    MoveToEnclosingBracket,
    DeleteLine,
    DuplicateLineUp,
    DuplicateLineDown,
    MoveLineUp,
    MoveLineDown,
    AddCursorAbove,
    AddCursorBelow,
    AddCursorAboveRow,
    AddCursorBelowRow,
    SelectNext,
    SelectAllMatches,
    SelectLargerSyntaxNode,
    SelectSmallerSyntaxNode,
    Outdent,
    Undo,
    Redo,
    Indent,
    ToggleComments,
    JoinLines,
    Transpose,
    SelectAll,
    ReplaceAll,
    Other,
}

/// A key press: the key, and whether shift was held.
#[derive(Clone, Copy, Debug, PartialEq, Eq, Structural)]
pub struct KeyEvent {
    pub key: EditKey,
    pub shift: bool,
}

impl View for KeyEvent {
    type V = (EditKey, bool);

    open spec fn view(&self) -> (EditKey, bool) {
        (self.key, self.shift)
    }
}

/// What the view can tell of itself when a key comes: whether the completion menu is open, whether the
/// caret can move to a next or a previous snippet stop, whether a snippet is being filled in, whether a
/// diagnostic's message is open, whether any change is expanded, whether the view shows a branch diff,
/// whether every selection is a bare caret, and how many text rows fit in the view.
#[derive(Clone, Copy, Debug, PartialEq, Eq, Structural)]
pub struct EditKeyState {
    pub menu_open: bool,
    pub snippet_next: bool,
    pub snippet_prev: bool,
    pub in_snippet: bool,
    pub diagnostic_open: bool,
    pub any_expanded: bool,
    pub branch_diff: bool,
    pub only_carets: bool,
    pub visible_rows: usize,
}

/// A caret motion; paging moves by the given number of rows.
#[derive(Clone, Copy, Debug, PartialEq, Eq, Structural)]
pub enum Motion {
    Left,
    Right,
    Up,
    Down,
    Home,
    End,
    WordLeft,
    WordRight,
    SubwordLeft,
    SubwordRight,
    LineStart,
    LineEnd,
    DocumentStart,
    DocumentEnd,
    PageUp(usize),
    PageDown(usize),
}

/// What a deleting key takes away.
#[derive(Clone, Copy, Debug, PartialEq, Eq, Structural)]
pub enum Deletion {
    Backward,
    Forward,
    PreviousWordStart,
    NextWordEnd,
    PreviousSubwordStart,
    NextSubwordEnd,
    ToBeginningOfLine,
    ToEndOfLine,
}

/// A command on the lines the selections touch.
#[derive(Clone, Copy, Debug, PartialEq, Eq, Structural)]
pub enum LineCommand {
    Delete,
    Duplicate { up: bool },
    Move { up: bool },
}

/// A command that changes the selections themselves.
#[derive(Clone, Copy, Debug, PartialEq, Eq, Structural)]
pub enum SelectionCommand {
    /// A caret above (or below), skipping soft-wrapped rows or not.
    AddCursor { above: bool, skip_soft_wrap: bool },
    SelectNext,
    SelectAllMatches,
    SelectLargerSyntaxNode,
    SelectSmallerSyntaxNode,
}

/// The command a key runs.
#[derive(Clone, Copy, Debug, PartialEq, Eq, Structural)]
pub enum EditCommand {
    /// Show the hover at the caret at once.
    ShowHover,
    GoToDefinition(DefinitionKind),
    /// Go to the next diagnostic (`true`) or the previous one.
    GoToDiagnostic(bool),
    MenuPrevious,
    MenuNext,
    ConfirmCompletion,
    /// Close the menu and leave the snippet being filled in.
    DismissMenu,
    /// Delete; then, when the menu was open, filter it again for the shorter word.
    Delete(Deletion, bool),
    ShowCompletions,
    ShowWordCompletions,
    /// Move to the next (`true`) or previous snippet stop.
    SnippetStop(bool),
    ExitSnippet,
    DismissDiagnostic,
    /// Move the carets, extending the selections when shift is held.
    Move(Motion, bool),
    ToggleSoftWrap,
    CollapseExpanded,
    ToggleSelectedHunks,
    ExpandAllHunks,
    ToggleSplitDiff,
    /// Go to the next (`true`) or previous change.
    GoToHunk(bool),
    RestoreHunks,
    ToggleStaged,
    /// Stage (`true`) or unstage the changes under the selections, then go to the next change when asked.
    StageAndNext(bool, bool),
    MoveToEnclosingBracket,
    Selection(SelectionCommand),
    Line(LineCommand),
    Outdent,
    Newline,
    Undo,
    Redo,
    Tab,
    Indent,
    ToggleComments,
    JoinLines,
    Transpose,
    SelectAll,
    CollapseCursors,
    Nothing,
}

/// What a key leads to: whether the completion menu closes first, and the command then run. Every
/// command but `ShowHover` hides the hover first.
#[derive(Clone, Copy, Debug, PartialEq, Eq, Structural)]
pub struct EditKeyAction {
    pub close_menu: bool,
    pub command: EditCommand,
}

/// Rows a page moves: the rows in view but one, which stays on screen.
pub open spec fn spec_page_rows(visible_rows: usize) -> usize {
    if visible_rows >= 1 {
        (visible_rows - 1) as usize
    } else {
        0
    }
}

/// Rows a page moves: one row of the previous page stays on screen.
pub fn page_rows(visible_rows: usize) -> (r: usize)
    ensures
        r == visible_rows.saturating_sub(1),
        r == spec_page_rows(visible_rows),
{
    visible_rows.saturating_sub(1)
}

pub open spec fn definition_kind_of(key: EditKey) -> Option<DefinitionKind> {
    match key {
        EditKey::GoToDefinition => Some(DefinitionKind::Definition),
        EditKey::GoToDeclaration => Some(DefinitionKind::Declaration),
        EditKey::GoToTypeDefinition => Some(DefinitionKind::TypeDefinition),
        EditKey::GoToImplementation => Some(DefinitionKind::Implementation),
        _ => None,
    }
}

pub open spec fn motion_of(key: EditKey, page: usize) -> Option<Motion> {
    match key {
        EditKey::Left => Some(Motion::Left),
        EditKey::Right => Some(Motion::Right),
        EditKey::Up => Some(Motion::Up),
        EditKey::Down => Some(Motion::Down),
        EditKey::Home => Some(Motion::Home),
        EditKey::End => Some(Motion::End),
        EditKey::WordLeft => Some(Motion::WordLeft),
        EditKey::WordRight => Some(Motion::WordRight),
        EditKey::SubwordLeft => Some(Motion::SubwordLeft),
        EditKey::SubwordRight => Some(Motion::SubwordRight),
        EditKey::LineStart => Some(Motion::LineStart),
        EditKey::LineEnd => Some(Motion::LineEnd),
        EditKey::DocumentStart => Some(Motion::DocumentStart),
        EditKey::DocumentEnd => Some(Motion::DocumentEnd),
        EditKey::PageUp => Some(Motion::PageUp(page)),
        EditKey::PageDown => Some(Motion::PageDown(page)),
        _ => None,
    }
}

pub open spec fn deletion_of(key: EditKey) -> Option<Deletion> {
    match key {
        EditKey::Backspace => Some(Deletion::Backward),
        EditKey::Delete => Some(Deletion::Forward),
        EditKey::DeleteWordLeft => Some(Deletion::PreviousWordStart),
        EditKey::DeleteWordRight => Some(Deletion::NextWordEnd),
        EditKey::DeleteSubwordLeft => Some(Deletion::PreviousSubwordStart),
        EditKey::DeleteSubwordRight => Some(Deletion::NextSubwordEnd),
        EditKey::DeleteToLineStart => Some(Deletion::ToBeginningOfLine),
        EditKey::DeleteToLineEnd => Some(Deletion::ToEndOfLine),
        _ => None,
    }
}

pub open spec fn line_command_of(key: EditKey) -> Option<LineCommand> {
    match key {
        EditKey::DeleteLine => Some(LineCommand::Delete),
        EditKey::DuplicateLineUp => Some(LineCommand::Duplicate { up: true }),
        EditKey::DuplicateLineDown => Some(LineCommand::Duplicate { up: false }),
        EditKey::MoveLineUp => Some(LineCommand::Move { up: true }),
        EditKey::MoveLineDown => Some(LineCommand::Move { up: false }),
        _ => None,
    }
}

pub open spec fn selection_command_of(key: EditKey) -> Option<SelectionCommand> {
    match key {
        EditKey::AddCursorAbove => Some(SelectionCommand::AddCursor { above: true, skip_soft_wrap: true }),
        EditKey::AddCursorBelow => Some(SelectionCommand::AddCursor { above: false, skip_soft_wrap: true }),
        EditKey::AddCursorAboveRow => Some(SelectionCommand::AddCursor { above: true, skip_soft_wrap: false }),
        EditKey::AddCursorBelowRow => Some(SelectionCommand::AddCursor { above: false, skip_soft_wrap: false }),
        EditKey::SelectNext => Some(SelectionCommand::SelectNext),
        EditKey::SelectAllMatches => Some(SelectionCommand::SelectAllMatches),
        EditKey::SelectLargerSyntaxNode => Some(SelectionCommand::SelectLargerSyntaxNode),
        EditKey::SelectSmallerSyntaxNode => Some(SelectionCommand::SelectSmallerSyntaxNode),
        _ => None,
    }
}

/// What the open completion menu makes of a key, if it takes it.
pub open spec fn menu_command_of(key: EditKey) -> Option<EditCommand> {
    match key {
        EditKey::Up => Some(EditCommand::MenuPrevious),
        EditKey::Down => Some(EditCommand::MenuNext),
        EditKey::Enter | EditKey::Tab => Some(EditCommand::ConfirmCompletion),
        EditKey::Escape => Some(EditCommand::DismissMenu),
        EditKey::Backspace => Some(EditCommand::Delete(Deletion::Backward, true)),
        EditKey::Delete => Some(EditCommand::Delete(Deletion::Forward, true)),
        _ => None,
    }
}

/// What a key does once neither the hover, a definition or diagnostic jump, nor the menu took it: in turn,
/// completions, snippet stops, leaving a snippet, closing a diagnostic, motions, soft wrap, collapsing the
/// expanded changes, the change commands, the bracket jump, selection and line commands, outdent,
/// deletions, and the plain edits.
pub open spec fn editing_command_of(key: EditKey, shift: bool, s: EditKeyState) -> EditCommand {
    if key == EditKey::ShowCompletions {
        EditCommand::ShowCompletions
    } else if key == EditKey::ShowWordCompletions {
        EditCommand::ShowWordCompletions
    } else if key == EditKey::Tab && s.snippet_next {
        EditCommand::SnippetStop(true)
    } else if key == EditKey::Backtab && s.snippet_prev {
        EditCommand::SnippetStop(false)
    } else if key == EditKey::Escape && s.in_snippet {
        EditCommand::ExitSnippet
    } else if key == EditKey::Escape && s.diagnostic_open {
        EditCommand::DismissDiagnostic
    } else if motion_of(key, spec_page_rows(s.visible_rows)) is Some {
        EditCommand::Move(motion_of(key, spec_page_rows(s.visible_rows))->0, shift)
    } else if key == EditKey::ToggleSoftWrap {
        EditCommand::ToggleSoftWrap
    } else if key == EditKey::Escape && s.any_expanded {
        EditCommand::CollapseExpanded
    } else if key == EditKey::ToggleSelectedDiffHunks {
        EditCommand::ToggleSelectedHunks
    } else if key == EditKey::ExpandAllDiffHunks {
        EditCommand::ExpandAllHunks
    } else if key == EditKey::ToggleSplitDiff {
        if s.branch_diff {
            EditCommand::ToggleSplitDiff
        } else {
            EditCommand::Nothing
        }
    } else if key == EditKey::GoToHunk || key == EditKey::GoToPreviousHunk {
        EditCommand::GoToHunk(key == EditKey::GoToHunk)
    } else if key == EditKey::GitRestore {
        EditCommand::RestoreHunks
    } else if key == EditKey::ToggleStaged {
        EditCommand::ToggleStaged
    } else if key == EditKey::StageAndNext || key == EditKey::UnstageAndNext {
        EditCommand::StageAndNext(key == EditKey::StageAndNext, s.only_carets)
    } else if key == EditKey::MoveToEnclosingBracket {
        EditCommand::MoveToEnclosingBracket
    } else if selection_command_of(key) is Some {
        EditCommand::Selection(selection_command_of(key)->0)
    } else if line_command_of(key) is Some {
        EditCommand::Line(line_command_of(key)->0)
    } else if key == EditKey::Outdent || key == EditKey::Backtab {
        EditCommand::Outdent
    } else if deletion_of(key) is Some {
        EditCommand::Delete(deletion_of(key)->0, false)
    } else {
        match key {
            EditKey::Enter => EditCommand::Newline,
            EditKey::Undo => EditCommand::Undo,
            EditKey::Redo => EditCommand::Redo,
            EditKey::Tab => EditCommand::Tab,
            EditKey::Indent => EditCommand::Indent,
            EditKey::ToggleComments => EditCommand::ToggleComments,
            EditKey::JoinLines => EditCommand::JoinLines,
            EditKey::Transpose => EditCommand::Transpose,
            EditKey::SelectAll => EditCommand::SelectAll,
            EditKey::Escape => EditCommand::CollapseCursors,
            _ => EditCommand::Nothing,
        }
    }
}

/// What a key press `key` (the key and shift) does in a file's editor in state `s`: the hover key shows
/// the hover; the definition and diagnostic keys jump; an open menu takes its keys (and closes for any
/// other); the rest run `editing_command_of`.
pub open spec fn spec_edit_key_action(key: (EditKey, bool), s: EditKeyState) -> EditKeyAction {
    let (k, shift) = key;
    if k == EditKey::Hover {
        EditKeyAction { close_menu: false, command: EditCommand::ShowHover }
    } else if definition_kind_of(k) is Some {
        EditKeyAction { close_menu: false, command: EditCommand::GoToDefinition(definition_kind_of(k)->0) }
    } else if k == EditKey::GoToDiagnostic || k == EditKey::GoToPreviousDiagnostic {
        EditKeyAction { close_menu: false, command: EditCommand::GoToDiagnostic(k == EditKey::GoToDiagnostic) }
    } else if s.menu_open && menu_command_of(k) is Some {
        EditKeyAction { close_menu: false, command: menu_command_of(k)->0 }
    } else {
        EditKeyAction { close_menu: s.menu_open, command: editing_command_of(k, shift, s) }
    }
}

fn definition_kind(key: EditKey) -> (r: Option<DefinitionKind>)
    ensures
        r == definition_kind_of(key),
{
    match key {
        EditKey::GoToDefinition => Some(DefinitionKind::Definition),
        EditKey::GoToDeclaration => Some(DefinitionKind::Declaration),
        EditKey::GoToTypeDefinition => Some(DefinitionKind::TypeDefinition),
        EditKey::GoToImplementation => Some(DefinitionKind::Implementation),
        _ => None,
    }
}

fn motion(key: EditKey, page: usize) -> (r: Option<Motion>)
    ensures
        r == motion_of(key, page),
{
    match key {
        EditKey::Left => Some(Motion::Left),
        EditKey::Right => Some(Motion::Right),
        EditKey::Up => Some(Motion::Up),
        EditKey::Down => Some(Motion::Down),
        EditKey::Home => Some(Motion::Home),
        EditKey::End => Some(Motion::End),
        EditKey::WordLeft => Some(Motion::WordLeft),
        EditKey::WordRight => Some(Motion::WordRight),
        EditKey::SubwordLeft => Some(Motion::SubwordLeft),
        EditKey::SubwordRight => Some(Motion::SubwordRight),
        EditKey::LineStart => Some(Motion::LineStart),
        EditKey::LineEnd => Some(Motion::LineEnd),
        EditKey::DocumentStart => Some(Motion::DocumentStart),
        EditKey::DocumentEnd => Some(Motion::DocumentEnd),
        EditKey::PageUp => Some(Motion::PageUp(page)),
        EditKey::PageDown => Some(Motion::PageDown(page)),
        _ => None,
    }
}

fn deletion(key: EditKey) -> (r: Option<Deletion>)
    ensures
        r == deletion_of(key),
{
    match key {
        EditKey::Backspace => Some(Deletion::Backward),
        EditKey::Delete => Some(Deletion::Forward),
        EditKey::DeleteWordLeft => Some(Deletion::PreviousWordStart),
        EditKey::DeleteWordRight => Some(Deletion::NextWordEnd),
        EditKey::DeleteSubwordLeft => Some(Deletion::PreviousSubwordStart),
        EditKey::DeleteSubwordRight => Some(Deletion::NextSubwordEnd),
        EditKey::DeleteToLineStart => Some(Deletion::ToBeginningOfLine),
        EditKey::DeleteToLineEnd => Some(Deletion::ToEndOfLine),
        _ => None,
    }
}

fn line_command(key: EditKey) -> (r: Option<LineCommand>)
    ensures
        r == line_command_of(key),
{
    match key {
        EditKey::DeleteLine => Some(LineCommand::Delete),
        EditKey::DuplicateLineUp => Some(LineCommand::Duplicate { up: true }),
        EditKey::DuplicateLineDown => Some(LineCommand::Duplicate { up: false }),
        EditKey::MoveLineUp => Some(LineCommand::Move { up: true }),
        EditKey::MoveLineDown => Some(LineCommand::Move { up: false }),
        _ => None,
    }
}

fn selection_command(key: EditKey) -> (r: Option<SelectionCommand>)
    ensures
        r == selection_command_of(key),
{
    match key {
        EditKey::AddCursorAbove => Some(SelectionCommand::AddCursor { above: true, skip_soft_wrap: true }),
        EditKey::AddCursorBelow => Some(SelectionCommand::AddCursor { above: false, skip_soft_wrap: true }),
        EditKey::AddCursorAboveRow => Some(SelectionCommand::AddCursor { above: true, skip_soft_wrap: false }),
        EditKey::AddCursorBelowRow => Some(SelectionCommand::AddCursor { above: false, skip_soft_wrap: false }),
        EditKey::SelectNext => Some(SelectionCommand::SelectNext),
        EditKey::SelectAllMatches => Some(SelectionCommand::SelectAllMatches),
        EditKey::SelectLargerSyntaxNode => Some(SelectionCommand::SelectLargerSyntaxNode),
        EditKey::SelectSmallerSyntaxNode => Some(SelectionCommand::SelectSmallerSyntaxNode),
        _ => None,
    }
}

fn menu_command(key: EditKey) -> (r: Option<EditCommand>)
    ensures
        r == menu_command_of(key),
{
    match key {
        EditKey::Up => Some(EditCommand::MenuPrevious),
        EditKey::Down => Some(EditCommand::MenuNext),
        EditKey::Enter | EditKey::Tab => Some(EditCommand::ConfirmCompletion),
        EditKey::Escape => Some(EditCommand::DismissMenu),
        EditKey::Backspace => Some(EditCommand::Delete(Deletion::Backward, true)),
        EditKey::Delete => Some(EditCommand::Delete(Deletion::Forward, true)),
        _ => None,
    }
}

fn editing_command(key: EditKey, shift: bool, s: EditKeyState) -> (r: EditCommand)
    ensures
        r == editing_command_of(key, shift, s),
{
    if key == EditKey::ShowCompletions {
        return EditCommand::ShowCompletions;
    }
    if key == EditKey::ShowWordCompletions {
        return EditCommand::ShowWordCompletions;
    }
    if key == EditKey::Tab && s.snippet_next {
        return EditCommand::SnippetStop(true);
    }
    if key == EditKey::Backtab && s.snippet_prev {
        return EditCommand::SnippetStop(false);
    }
    if key == EditKey::Escape && s.in_snippet {
        return EditCommand::ExitSnippet;
    }
    if key == EditKey::Escape && s.diagnostic_open {
        return EditCommand::DismissDiagnostic;
    }
    if let Some(m) = motion(key, page_rows(s.visible_rows)) {
        return EditCommand::Move(m, shift);
    }
    if key == EditKey::ToggleSoftWrap {
        return EditCommand::ToggleSoftWrap;
    }
    if key == EditKey::Escape && s.any_expanded {
        return EditCommand::CollapseExpanded;
    }
    match key {
        EditKey::ToggleSelectedDiffHunks => return EditCommand::ToggleSelectedHunks,
        EditKey::ExpandAllDiffHunks => return EditCommand::ExpandAllHunks,
        EditKey::ToggleSplitDiff => {
            return if s.branch_diff {
                EditCommand::ToggleSplitDiff
            } else {
                EditCommand::Nothing
            };
        },
        EditKey::GoToHunk => return EditCommand::GoToHunk(true),
        EditKey::GoToPreviousHunk => return EditCommand::GoToHunk(false),
        EditKey::GitRestore => return EditCommand::RestoreHunks,
        EditKey::ToggleStaged => return EditCommand::ToggleStaged,
        EditKey::StageAndNext => return EditCommand::StageAndNext(true, s.only_carets),
        EditKey::UnstageAndNext => return EditCommand::StageAndNext(false, s.only_carets),
        EditKey::MoveToEnclosingBracket => return EditCommand::MoveToEnclosingBracket,
        _ => {},
    }
    if let Some(c) = selection_command(key) {
        return EditCommand::Selection(c);
    }
    if let Some(c) = line_command(key) {
        return EditCommand::Line(c);
    }
    if key == EditKey::Outdent || key == EditKey::Backtab {
        return EditCommand::Outdent;
    }
    if let Some(d) = deletion(key) {
        return EditCommand::Delete(d, false);
    }
    match key {
        EditKey::Enter => EditCommand::Newline,
        EditKey::Undo => EditCommand::Undo,
        EditKey::Redo => EditCommand::Redo,
        EditKey::Tab => EditCommand::Tab,
        EditKey::Indent => EditCommand::Indent,
        EditKey::ToggleComments => EditCommand::ToggleComments,
        EditKey::JoinLines => EditCommand::JoinLines,
        EditKey::Transpose => EditCommand::Transpose,
        EditKey::SelectAll => EditCommand::SelectAll,
        EditKey::Escape => EditCommand::CollapseCursors,
        _ => EditCommand::Nothing,
    }
}

/// What a key press does in a file's editor in state `state` (see `spec_edit_key_action`).
pub fn edit_key_action(key: &KeyEvent, state: EditKeyState) -> (r: EditKeyAction)
    ensures
        r == spec_edit_key_action(key@, state),
{
    let k = key.key;
    if k == EditKey::Hover {
        return EditKeyAction { close_menu: false, command: EditCommand::ShowHover };
    }
    if let Some(kind) = definition_kind(k) {
        return EditKeyAction { close_menu: false, command: EditCommand::GoToDefinition(kind) };
    }
    if k == EditKey::GoToDiagnostic || k == EditKey::GoToPreviousDiagnostic {
        return EditKeyAction { close_menu: false, command: EditCommand::GoToDiagnostic(k == EditKey::GoToDiagnostic) };
    }
    if state.menu_open {
        if let Some(c) = menu_command(k) {
            return EditKeyAction { close_menu: false, command: c };
        }
    }
    EditKeyAction { close_menu: state.menu_open, command: editing_command(k, key.shift, state) }
}

} // verus!
