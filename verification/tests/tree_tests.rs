use tree::rule::{PathRule, PriorityRule, Rule};
use tree::tree::{Entry, FsNode, Tree, UiEvent};

fn bytes(s: &str) -> Vec<u8> {
    s.as_bytes().to_vec()
}

fn file(name: &str) -> FsNode {
    FsNode::File { name: bytes(name) }
}

fn dir(name: &str, children: Vec<FsNode>) -> FsNode {
    FsNode::Dir { name: bytes(name), children }
}

fn keep_all() -> Rule {
    Rule::Priority(PriorityRule::new(Vec::new()))
}

fn entry(name: &str, depth: usize, is_last: bool) -> UiEvent {
    UiEvent::File(Entry { file_name: bytes(name), depth, is_last })
}

#[test]
fn walk_counts_all_entries() {
    let fs = dir(
        ".",
        vec![file("a"), dir("sub", vec![file("b"), file("c")]), file("d")],
    );
    let mut t = Tree::new(keep_all(), fs);
    let (n_dirs, n_files) = t.walk();
    assert_eq!(n_dirs, 1);
    assert_eq!(n_files, 4);
    assert_eq!(*t.ui.last().unwrap(), UiEvent::Summary(1, 4));
}

#[test]
fn walk_counts_only_filtered_entries() {
    let fs = dir(
        ".",
        vec![file("a"), dir("sub", vec![file("b"), file("c")]), file("d")],
    );
    let rule = Rule::Path(PathRule::new(bytes("./sub")));
    let mut t = Tree::new(rule, fs);
    let (n_dirs, n_files) = t.walk();
    assert_eq!(n_dirs, 0);
    assert_eq!(n_files, 2);
}

#[test]
fn walk_event_order_last_child_directory() {
    let fs = dir("r", vec![dir("d", vec![file("f")])]);
    let mut t = Tree::new(keep_all(), fs);
    let (n_dirs, n_files) = t.walk();
    assert_eq!((n_dirs, n_files), (1, 1));
    let expected = vec![
        entry("r", 0, false),
        UiEvent::AddIndent(0),
        UiEvent::RemoveIndent(0),
        entry("d", 1, true),
        UiEvent::AddIndent(1),
        entry("f", 2, true),
        UiEvent::RemoveIndent(2),
        UiEvent::RemoveIndent(1),
        UiEvent::Summary(1, 1),
    ];
    assert_eq!(t.ui, expected);
}

#[test]
fn walk_event_order_last_child_file() {
    let fs = dir("r", vec![dir("d", Vec::new()), file("z")]);
    let mut t = Tree::new(keep_all(), fs);
    let (n_dirs, n_files) = t.walk();
    assert_eq!((n_dirs, n_files), (1, 1));
    let expected = vec![
        entry("r", 0, false),
        UiEvent::AddIndent(0),
        entry("d", 1, false),
        UiEvent::AddIndent(1),
        UiEvent::RemoveIndent(2),
        entry("z", 1, true),
        UiEvent::RemoveIndent(1),
        UiEvent::Summary(1, 1),
    ];
    assert_eq!(t.ui, expected);
    let removes_of_zero = t
        .ui
        .iter()
        .filter(|e| **e == UiEvent::RemoveIndent(0))
        .count();
    assert_eq!(removes_of_zero, 0);
}

#[test]
fn walk_empty_directory() {
    let fs = dir("r", Vec::new());
    let mut t = Tree::new(keep_all(), fs);
    let (n_dirs, n_files) = t.walk();
    assert_eq!((n_dirs, n_files), (0, 0));
    let expected = vec![
        entry("r", 0, false),
        UiEvent::AddIndent(0),
        UiEvent::RemoveIndent(1),
        UiEvent::Summary(0, 0),
    ];
    assert_eq!(t.ui, expected);
}

#[test]
fn walk_on_plain_file_emits_only_root_and_summary() {
    let fs = file("lone");
    let mut t = Tree::new(keep_all(), fs);
    let (n_dirs, n_files) = t.walk();
    assert_eq!((n_dirs, n_files), (0, 0));
    let expected = vec![entry("lone", 0, false), UiEvent::Summary(0, 0)];
    assert_eq!(t.ui, expected);
}

#[test]
fn list_dir_matches_filters_and_is_idempotent() {
    let children = vec![file("a"), file("skip"), dir("sub", Vec::new())];
    let rule = Rule::Path(PathRule::new(bytes("base/skip")));
    let first = Tree::list_dir_matches(&rule, &bytes("base"), &children);
    assert_eq!(first, vec![0, 2]);
    let second = Tree::list_dir_matches(&rule, &bytes("base"), &children);
    assert_eq!(first, second);
    let kept: Vec<FsNode> = vec![file("a"), dir("sub", Vec::new())];
    let refiltered = Tree::list_dir_matches(&rule, &bytes("base"), &kept);
    assert_eq!(refiltered, vec![0, 1]);
}

#[test]
fn hidden_entries_filtered_during_walk() {
    let fs = dir("r", vec![file(".hidden"), file("shown")]);
    let rule = tree::args::rule(
        &tree::args::Args {
            dir: bytes("r"),
            show_hidden: false,
            directories_only: false,
            treeignore: false,
            gitignore: false,
        },
        &None,
        &Vec::new(),
    );
    let mut t = Tree::new(rule, fs);
    let (n_dirs, n_files) = t.walk();
    assert_eq!((n_dirs, n_files), (0, 1));
    assert!(t.ui.contains(&entry("shown", 1, true)));
    assert!(!t.ui.contains(&entry(".hidden", 1, false)));
}
