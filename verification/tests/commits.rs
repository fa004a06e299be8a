use vex::commit::{commit_content, commit_create, commit_read, format_signature, signature};
use vex::error::GitError;
use vex::object::{object_write, ObjectType};

const ROOT: &str = "d8e81a305888d108b73b339959a4904f83137be5";

#[test]
fn commit_text_without_parent() {
    let t = commit_content(ROOT, None, "A <a@x> 1 +0000", "A <a@x> 1 +0000", "first");
    assert_eq!(t, format!("tree {ROOT}\nauthor A <a@x> 1 +0000\ncommitter A <a@x> 1 +0000\n\nfirst\n"));
}

#[test]
fn commit_text_with_parent_keeps_final_newline() {
    let t = commit_content("t", Some("p"), "a", "c", "msg\n");
    assert_eq!(t, "tree t\nparent p\nauthor a\ncommitter c\n\nmsg\n");
}

#[test]
fn commit_id_matches_git() {
    let (oid, store) = commit_create(ROOT, None, "A <a@x> 1 +0000", "A <a@x> 1 +0000", "first\n");
    assert_eq!(oid, "c099e30ceff379db460245d8d2e366175c20e5b9");
    let text = commit_content(ROOT, None, "A <a@x> 1 +0000", "A <a@x> 1 +0000", "first\n");
    assert_eq!((oid.clone(), store), object_write(ObjectType::Commit, text.as_bytes()));
}

#[test]
fn read_commit_after_create() {
    let text = commit_content("tt", Some("pp"), "Ann <ann@x> 5 +0100", "Bob <bob@x> 6 -0200", "line one\n\nline two");
    let c = commit_read(text.as_bytes()).unwrap();
    assert_eq!(c.tree, "tt");
    assert_eq!(c.parent, Some("pp".to_string()));
    assert_eq!(c.author, "Ann <ann@x> 5 +0100");
    assert_eq!(c.committer, "Bob <bob@x> 6 -0200");
    assert_eq!(c.message, "line one\n\nline two\n");
}

#[test]
fn commit_defaults_and_last_header_wins() {
    let c = commit_read(b"tree a\ntree b\nunknown header\n\nm").unwrap();
    assert_eq!(c.tree, "b");
    assert_eq!(c.parent, None);
    assert_eq!(c.author, "unknown");
    assert_eq!(c.committer, "unknown");
    assert_eq!(c.message, "m");
}

#[test]
fn commit_without_blank_line() {
    assert!(matches!(commit_read(b"tree a\nauthor b\n"), Err(GitError::InvalidCommit)));
}

#[test]
fn commit_without_tree() {
    assert!(matches!(commit_read(b"author b\n\nmsg"), Err(GitError::CommitMissingTree)));
}

#[test]
fn signature_format() {
    assert_eq!(format_signature("Ann", "ann@x", 1700000000, "+0100"), "Ann <ann@x> 1700000000 +0100");
    assert_eq!(format_signature("B", "b@y", -5, "-0030"), "B <b@y> -5 -0030");
}

#[test]
fn signature_defaults() {
    let s = signature(None, None, None);
    assert!(s.starts_with("unknown <unknown@example.com> "));
    let s = signature(None, Some("user"), Some("u@z"));
    assert!(s.starts_with("user <u@z> "));
    let s = signature(Some("Name"), Some("user"), None);
    assert!(s.starts_with("Name <unknown@example.com> "));
    let rest: Vec<&str> = s["Name <unknown@example.com> ".len()..].split(' ').collect();
    assert_eq!(rest.len(), 2);
    assert!(rest[0].parse::<i64>().is_ok());
    assert_eq!(rest[1].len(), 5);
}

#[test]
fn local_offset_is_sign_and_four_digits() {
    let (_, off) = vex::clock::local_now();
    assert_eq!(off.len(), 5);
    assert!(off.starts_with('+') || off.starts_with('-'));
    assert!(off[1..].chars().all(|c| c.is_ascii_digit()));
}
