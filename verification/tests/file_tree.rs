use files_ui::file_tree::{flatten, FileNode, TreeRow};

fn node(name: &str, path: &str, children: Vec<FileNode>) -> FileNode {
    FileNode {
        name: name.to_string(),
        path: path.to_string(),
        is_dir: !children.is_empty() || name.starts_with("dir"),
        children,
    }
}

fn tree() -> Vec<FileNode> {
    vec![
        node(
            "src",
            "src",
            vec![node("main.rs", "src/main.rs", vec![]), node("ui", "src/ui", vec![node("a.rs", "src/ui/a.rs", vec![])])],
        ),
        node("README.md", "README.md", vec![]),
    ]
}

fn names(rows: &[TreeRow]) -> Vec<(&str, usize, bool)> {
    rows.iter().map(|r| (r.name.as_str(), r.depth, r.open)).collect()
}

#[test]
fn only_expanded_directories_show_their_children() {
    let mut rows = Vec::new();
    flatten(&tree(), 0, &vec![], &mut rows);
    assert_eq!(names(&rows), vec![("src", 0, false), ("README.md", 0, false)]);
    let mut rows = Vec::new();
    flatten(&tree(), 0, &vec!["src".to_string()], &mut rows);
    assert_eq!(
        names(&rows),
        vec![("src", 0, true), ("main.rs", 1, false), ("ui", 1, false), ("README.md", 0, false)]
    );
    let mut rows = Vec::new();
    flatten(&tree(), 0, &vec!["src/ui".to_string(), "src".to_string()], &mut rows);
    assert_eq!(
        names(&rows),
        vec![
            ("src", 0, true),
            ("main.rs", 1, false),
            ("ui", 1, true),
            ("a.rs", 2, false),
            ("README.md", 0, false)
        ]
    );
    assert!(rows.iter().all(|r| !r.edit));
}

#[test]
fn an_expanded_directory_inside_a_collapsed_one_stays_hidden() {
    let mut rows = Vec::new();
    flatten(&tree(), 3, &vec!["src/ui".to_string()], &mut rows);
    assert_eq!(names(&rows), vec![("src", 3, false), ("README.md", 3, false)]);
}
