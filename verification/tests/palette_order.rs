use files_ui::palette_order::{order_commands, order_matches};

fn names(list: &[&str]) -> Vec<String> {
    list.iter().map(|s| s.to_string()).collect()
}

#[test]
fn used_commands_lead_most_used_first_then_by_name() {
    let names = names(&["editor: undo", "editor: copy", "file: save", "editor: cut", "zed: quit"]);
    let usage = vec![None, Some(2), Some(5), None, Some(2)];
    let (order, used) = order_commands(&names, &usage);
    assert_eq!(order, vec![2, 1, 4, 3, 0]);
    assert_eq!(used, 3);
}

#[test]
fn without_history_commands_go_by_name() {
    let names = names(&["b", "ab", "a", "b"]);
    let (order, used) = order_commands(&names, &vec![None, None, None, None]);
    assert_eq!(order, vec![2, 1, 0, 3]);
    assert_eq!(used, 0);
    let (order, used) = order_commands(&Vec::new(), &Vec::new());
    assert!(order.is_empty() && used == 0);
}

#[test]
fn matches_of_used_commands_come_first_in_palette_order() {
    // Matches arrive best first; commands 0 and 1 are the used ones.
    let candidates = vec![5, 1, 7, 0, 3];
    assert_eq!(order_matches(&candidates, 2), vec![3, 1, 0, 2, 4]);
    assert_eq!(order_matches(&candidates, 0), vec![0, 1, 2, 3, 4]);
    assert_eq!(order_matches(&candidates, 10), vec![3, 1, 4, 0, 2]);
}
