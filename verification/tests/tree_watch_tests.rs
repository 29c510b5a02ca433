use vaultdb::embeddings::{single_embedding, EmbeddingClient};
use vaultdb::paths::{is_markdown_file, is_tracked_note};
use vaultdb::tree::{child_order, is_hidden_name, sort_tree_children, FileTreeNode};
use vaultdb::watcher::{change_kind_label, ChangeKind, Debouncer, FileChangeEvent, WatchInput};

fn s(x: &str) -> String {
    x.to_string()
}

fn entry(name: &str, dir: bool) -> FileTreeNode {
    FileTreeNode { name: s(name), path: format!("/v/{}", name), is_dir: dir, children: vec![] }
}

#[test]
fn tree_folders_first_then_names_ignoring_case() {
    let children = vec![
        entry("b.md", false),
        entry("Zeta", true),
        entry("A.md", false),
        entry("alpha", true),
        entry("a.md", false),
    ];
    assert_eq!(child_order(&children), vec![3, 1, 2, 4, 0]);
    let sorted = sort_tree_children(children);
    let names: Vec<&str> = sorted.iter().map(|c| c.name.as_str()).collect();
    assert_eq!(names, vec!["alpha", "Zeta", "A.md", "a.md", "b.md"]);
    assert_eq!(sorted[0].path, "/v/alpha");
}

#[test]
fn hidden_and_tracked_paths() {
    assert!(is_hidden_name(".git"));
    assert!(!is_hidden_name("notes"));
    assert!(!is_hidden_name(""));
    assert!(is_markdown_file("/v/a.md"));
    assert!(!is_markdown_file("/v/a.txt"));
    assert!(!is_markdown_file("/v/.md"));
    assert!(is_tracked_note("/v/sub/a.md"));
    assert!(!is_tracked_note("/v/.trash/a.md"));
    assert!(!is_tracked_note("/v/a.markdown"));
}

#[test]
fn watcher_reports_after_quiet_interval() {
    let mut d = Debouncer::new(s("v"));
    let paths = vec![s("/v/a.md"), s("/v/x.txt"), s("/v/.trash/b.md")];
    assert!(d.step(WatchInput::Change(ChangeKind::Create, paths), 0).is_empty());
    assert_eq!(d.pending_len(), 1);
    assert!(d.step(WatchInput::Change(ChangeKind::Modify, vec![s("/v/a.md")]), 1000).is_empty());
    assert_eq!(d.pending_len(), 1);
    assert!(d.step(WatchInput::Timeout, 2500).is_empty());
    assert!(d.step(WatchInput::OtherChange, 5000).is_empty());
    assert_eq!(d.pending_len(), 1);
    let ev = d.step(WatchInput::Timeout, 3000);
    assert_eq!(ev, vec![FileChangeEvent { vault_name: s("v"), path: s("/v/a.md"), kind: s("modify") }]);
    assert_eq!(d.pending_len(), 0);
}

#[test]
fn watcher_reports_in_order_and_keeps_young_changes() {
    let mut d = Debouncer::new(s("v"));
    d.observe(ChangeKind::Create, &vec![s("/v/1.md")], 100);
    d.observe(ChangeKind::Delete, &vec![s("/v/2.md")], 200);
    d.observe(ChangeKind::Modify, &vec![s("/v/3.md")], 3000);
    let ev = d.flush(4000);
    assert_eq!(
        ev,
        vec![
            FileChangeEvent { vault_name: s("v"), path: s("/v/1.md"), kind: s("create") },
            FileChangeEvent { vault_name: s("v"), path: s("/v/2.md"), kind: s("delete") },
        ]
    );
    assert_eq!(d.pending_len(), 1);
    assert!(d.flush(10).is_empty());
}

#[test]
fn change_labels() {
    assert_eq!(change_kind_label(ChangeKind::Create), "create");
    assert_eq!(change_kind_label(ChangeKind::Modify), "modify");
    assert_eq!(change_kind_label(ChangeKind::Delete), "delete");
}

#[test]
fn embedding_service_defaults() {
    let c = EmbeddingClient::default();
    assert_eq!(c.base_url(), "http://localhost:11434");
    assert_eq!(c.model(), "nomic-embed-text");
    assert_eq!(c.embed_url(), "http://localhost:11434/api/embed");
    let c = EmbeddingClient::new("http://h:1", "m");
    assert_eq!(c.embed_url(), "http://h:1/api/embed");
}

#[test]
fn single_embedding_takes_the_last() {
    assert_eq!(single_embedding(vec![vec![1.0f32], vec![2.0f32]]), Ok(vec![2.0f32]));
    assert_eq!(single_embedding::<Vec<f32>>(vec![]), Err(s("No embedding returned")));
}

#[test]
fn watcher_ignores_untracked_paths() {
    let mut d = Debouncer::new(s("v"));
    let paths = vec![s("/v/a.txt"), s("/v/.trash/b.md"), s("/v/c.md")];
    assert!(d.step(WatchInput::Change(ChangeKind::Delete, paths), 0).is_empty());
    assert_eq!(d.pending_len(), 1);
    let ev = d.step(WatchInput::Timeout, 2000);
    assert_eq!(ev, vec![FileChangeEvent { vault_name: s("v"), path: s("/v/c.md"), kind: s("delete") }]);
}
