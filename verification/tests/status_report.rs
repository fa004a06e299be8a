use vex::index::IndexEntry;
use vex::object::{object_write, ObjectType};
use vex::report::{log_entry, status_lines};
use vex::error::GitError;
use vex::status::{status, StatusReport};

fn e(path: &str, data: &[u8]) -> IndexEntry {
    IndexEntry { path: path.to_string(), oid: object_write(ObjectType::Blob, data).0 }
}

fn s(x: &str) -> String {
    x.to_string()
}

#[test]
fn status_finds_modified_deleted_untracked() {
    let index = vec![e("a", b"one"), e("b", b"two"), e("c", b"three")];
    let contents = vec![Some(b"one".to_vec()), Some(b"changed".to_vec()), None];
    let files = vec![s("a"), s("b"), s("new.txt"), s("d/e")];
    let r = status(&index, &contents, &files);
    assert_eq!(r.modified, vec![s("b")]);
    assert_eq!(r.deleted, vec![s("c")]);
    assert_eq!(r.untracked, vec![s("new.txt"), s("d/e")]);
    assert_eq!(
        status_lines(&r),
        vec![s("modified:"), s("  b"), s("deleted:"), s("  c"), s("untracked:"), s("  new.txt"), s("  d/e")]
    );
}

#[test]
fn status_clean_after_add() {
    let index = vec![e("a", b"one"), e("dir/b", b"")];
    let contents = vec![Some(b"one".to_vec()), Some(Vec::new())];
    let files = vec![s("a"), s("dir/b")];
    let r = status(&index, &contents, &files);
    assert!(r.modified.is_empty() && r.deleted.is_empty() && r.untracked.is_empty());
    assert_eq!(status_lines(&r), vec![s("nothing to commit, working tree clean")]);
}

#[test]
fn status_sections_only_when_not_empty() {
    let r = StatusReport { modified: vec![], deleted: vec![s("x")], untracked: vec![] };
    assert_eq!(status_lines(&r), vec![s("deleted:"), s("  x")]);
}

#[test]
fn log_entry_of_a_commit() {
    let data = b"tree t\nparent p\nauthor Ann\ncommitter Bob\n\n  hello world \n";
    let (lines, next) = log_entry("abc", ObjectType::Commit, data).unwrap();
    assert_eq!(lines, vec![s("commit abc"), s("Author: Ann"), s("Date:   Bob"), s(""), s("    hello world"), s("")]);
    assert_eq!(next, Some(s("p")));
    let (_, next) = log_entry("abc", ObjectType::Commit, b"tree t\n\nm").unwrap();
    assert_eq!(next, None);
}

#[test]
fn log_entry_of_something_else() {
    match log_entry("abc", ObjectType::Blob, b"x") {
        Err(GitError::NotACommit(o)) => assert_eq!(o, "abc"),
        other => panic!("unexpected {:?}", other),
    }
    assert!(matches!(log_entry("abc", ObjectType::Commit, b"tree t"), Err(GitError::InvalidCommit)));
}
