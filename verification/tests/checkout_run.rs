use vex::checkout::{checkout_start, checkout_step};
use vex::config::GitConfig;
use vex::error::GitError;
use vex::object::{object_write, ObjectType};
use vex::repo::GitRepo;
use vex::tree::{write_tree_data, TreeEntry};
use vex::worktree::CheckoutItem;
use std::collections::HashMap;

fn repo() -> GitRepo {
    GitRepo { worktree: "/w".to_string(), gitdir: "/w/.git".to_string(), config: GitConfig::empty() }
}

fn te(mode: &str, path: &str, oid: &str) -> TreeEntry {
    TreeEntry { mode: mode.to_string(), path: path.to_string(), oid: oid.to_string() }
}

fn put(store: &mut HashMap<String, (ObjectType, Vec<u8>)>, kind: ObjectType, data: Vec<u8>) -> String {
    let oid = object_write(kind, &data).0;
    store.insert(oid.clone(), (kind, data));
    oid
}

fn next_oid(item: &CheckoutItem) -> String {
    match item {
        CheckoutItem::Dir { oid, .. } | CheckoutItem::File { oid, .. } => oid.clone(),
    }
}

#[test]
fn checkout_collects_files_depth_first() {
    let mut store = HashMap::new();
    let a = put(&mut store, ObjectType::Blob, b"a".to_vec());
    let b = put(&mut store, ObjectType::Blob, b"b".to_vec());
    let c = put(&mut store, ObjectType::Blob, b"c".to_vec());
    let sub = put(&mut store, ObjectType::Tree, write_tree_data(&[te("100644", "b.txt", &b)]).unwrap());
    let root = put(
        &mut store,
        ObjectType::Tree,
        write_tree_data(&[te("100644", "a.txt", &a), te("40000", "d", &sub), te("100644", "z.txt", &c)]).unwrap(),
    );
    let old = vec![vex::index::IndexEntry { path: "kept".to_string(), oid: "0".to_string() }];
    let mut run = checkout_start("/w", &root, old);
    let mut steps = 0;
    while let Some(item) = run.pending.last() {
        let (kind, data) = store[&next_oid(item)].clone();
        checkout_step(&mut run, &repo(), kind, &data).unwrap();
        steps += 1;
    }
    assert_eq!(steps, 5);
    let got: Vec<(String, String)> = run.entries.iter().map(|e| (e.path.clone(), e.oid.clone())).collect();
    assert_eq!(
        got,
        vec![
            ("kept".to_string(), "0".to_string()),
            ("a.txt".to_string(), a),
            ("d/b.txt".to_string(), b),
            ("z.txt".to_string(), c)
        ]
    );
}

#[test]
fn checkout_errors_stop_the_run() {
    let mut run = checkout_start("/w", "x", Vec::new());
    assert!(matches!(checkout_step(&mut run, &repo(), ObjectType::Blob, b""), Err(GitError::ExpectedTree)));
    let blob_id = object_write(ObjectType::Blob, b"a").0;
    let data = write_tree_data(&[te("100644", "f", &blob_id)]).unwrap();
    let mut run = checkout_start("/w", "t", Vec::new());
    checkout_step(&mut run, &repo(), ObjectType::Tree, &data).unwrap();
    assert!(matches!(checkout_step(&mut run, &repo(), ObjectType::Tree, b""), Err(GitError::NotABlob)));
    let mut run = checkout_start("/elsewhere", "t", Vec::new());
    checkout_step(&mut run, &repo(), ObjectType::Tree, &data).unwrap();
    assert!(matches!(checkout_step(&mut run, &repo(), ObjectType::Blob, b"a"), Err(GitError::OutsideWorktree)));
}

#[test]
fn failed_step_keeps_the_entries() {
    let old = vec![vex::index::IndexEntry { path: "kept".to_string(), oid: "0".to_string() }];
    let mut run = checkout_start("/w", "x", old);
    assert!(matches!(checkout_step(&mut run, &repo(), ObjectType::Blob, b""), Err(GitError::ExpectedTree)));
    assert_eq!(run.entries.len(), 1);
    assert_eq!(run.entries[0].path, "kept");
    assert!(run.pending.is_empty());
}
