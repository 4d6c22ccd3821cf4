use files_ui::completion_edit::{carets_after, completion_range};
use files_ui::completion_request::{CompletionRequests, CompletionTrigger, MenuState};

fn triggers() -> Vec<String> {
    vec![".".to_string()]
}

fn menu(initial_query: Option<&str>, is_incomplete: bool) -> MenuState {
    MenuState {
        initial_query: initial_query.map(String::from),
        is_incomplete,
        at_initial_position: true,
        filtered_empty: false,
    }
}

#[test]
fn a_trigger_character_asks_and_typing_filters_the_answer() {
    let triggers = triggers();
    let mut requests = CompletionRequests::new();
    // "x" then "." typed: the caret is at 2 with no word before it.
    let close = requests.update_server_completions(
        Some(2),
        1,
        None,
        CompletionTrigger::Character('.'),
        Some(&triggers),
        None,
    );
    assert!(!close);
    assert_eq!(requests.completion_request_due(), Some((2, Some(".".into()))));
    assert!(requests.completion_requested(Some(1)).is_none());
    let answered = requests.completions_answered(1).expect("the answer is for this request");
    assert_eq!(answered.offset, 2);
    assert!(answered.query.is_none());
    // "f" typed: a complete answer is filtered.
    let open = menu(None, false);
    let close = requests.update_server_completions(
        Some(3),
        2,
        Some("f".into()),
        CompletionTrigger::Typed,
        Some(&triggers),
        Some(&open),
    );
    assert!(!close);
    assert!(requests.completion_request_due().is_none(), "a complete answer is filtered");
    // Enter: "foo" over the item's range 2..2, carried over the typed "f" to 2..3.
    let text: Vec<char> = "x.f".chars().collect();
    let range = completion_range(&text, 3, 2..3, None, "foo");
    assert_eq!(range, 2..3);
    assert_eq!(carets_after(&vec![range], 3), vec![5]);
}

#[test]
fn an_incomplete_answer_asks_again_as_typing_goes_on() {
    let triggers = triggers();
    let mut requests = CompletionRequests::new();
    requests.update_server_completions(Some(3), 1, Some("f".into()), CompletionTrigger::Typed, Some(&triggers), None);
    requests.completion_requested(Some(1));
    assert!(requests.completions_answered(1).is_some());
    let open = menu(Some("f"), true);
    let close = requests.update_server_completions(
        Some(4),
        2,
        Some("fo".into()),
        CompletionTrigger::Typed,
        Some(&triggers),
        Some(&open),
    );
    assert!(!close);
    assert_eq!(requests.completion_request_due(), Some((4, None)));
}

#[test]
fn without_a_server_the_request_comes_back_for_a_local_menu() {
    let mut requests = CompletionRequests::new();
    requests.update_server_completions(Some(16), 1, Some("help".into()), CompletionTrigger::Typed, Some(&vec![]), None);
    let back = requests.completion_requested(None).expect("the request comes back");
    assert_eq!(back.offset, 16);
    assert_eq!(back.query.as_deref(), Some("help"));
    assert!(back.typed_word && !back.menu_was_open);
    assert!(requests.completion_request_due().is_none());
}

#[test]
fn a_char_that_is_no_trigger_asks_nothing_and_a_stale_answer_is_ignored() {
    let triggers = triggers();
    let mut requests = CompletionRequests::new();
    let close = requests.update_server_completions(
        Some(2),
        1,
        None,
        CompletionTrigger::Character('('),
        Some(&triggers),
        None,
    );
    assert!(!close);
    assert!(requests.completion_request_due().is_none());
    requests.update_server_completions(Some(2), 1, Some("a".into()), CompletionTrigger::Show, Some(&triggers), None);
    requests.completion_requested(Some(5));
    assert!(requests.completions_answered(4).is_none());
    assert!(requests.pending.is_some());
}

#[test]
fn typing_that_leaves_the_word_closes_or_empties_the_menu() {
    let triggers = triggers();
    let mut requests = CompletionRequests::new();
    // A non-trigger char after a word closes the open menu.
    let open = menu(Some("fo"), false);
    let close = requests.update_server_completions(
        Some(5),
        3,
        Some("fo".into()),
        CompletionTrigger::Character('-'),
        Some(&triggers),
        Some(&MenuState { at_initial_position: false, ..open }),
    );
    assert!(close);
    // A covered menu that the filter emptied closes.
    let emptied = MenuState { filtered_empty: true, ..menu(Some("fo"), false) };
    let close = requests.update_server_completions(
        Some(5),
        3,
        Some("fox".into()),
        CompletionTrigger::Typed,
        Some(&triggers),
        Some(&emptied),
    );
    assert!(close);
    // With no word before the caret the open menu closes and the server is asked afresh.
    let close = requests.update_server_completions(
        Some(7),
        4,
        None,
        CompletionTrigger::Show,
        Some(&triggers),
        Some(&menu(Some("fo"), false)),
    );
    assert!(close);
    assert_eq!(requests.completion_request_due(), Some((7, None)));
    // No file or a selection: close.
    assert!(requests.update_server_completions(None, 4, None, CompletionTrigger::Typed, Some(&triggers), None));
    assert!(requests.pending.is_none());
}
