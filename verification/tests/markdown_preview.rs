use files_ui::markdown_preview::{is_markdown, preview_id};

#[test]
fn only_markdown_files_get_a_preview() {
    assert!(is_markdown("docs/README.md"));
    assert!(is_markdown("notes.MARKDOWN"));
    assert!(!is_markdown("src/main.rs"));
}

#[test]
fn previews_are_named_after_their_file() {
    assert_eq!(preview_id("docs/a.md"), "markdown-preview:docs/a.md");
    assert!(is_markdown("page.MdX"));
    assert!(!is_markdown("md"));
}
