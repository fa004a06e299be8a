use vex::config::GitConfig;
use vex::error::GitError;
use vex::object::ObjectType;
use vex::refs::{
    head_target, ref_line, ref_listing, ref_value, resolve_probe, resolve_ref_optional, resolve_ref_start, resolve_treeish,
    update_ref_path, HeadRef, RefStep,
};
use vex::repo::GitRepo;

const ID: &str = "ce013625030ba8dba906f756967f9e9ca394464a";

fn repo() -> GitRepo {
    GitRepo { worktree: "/w".to_string(), gitdir: "/w/.git".to_string(), config: GitConfig::empty() }
}

fn s(x: &str) -> String {
    x.to_string()
}

#[test]
fn head_is_read_from_its_file() {
    assert!(matches!(resolve_ref_start(&repo(), "HEAD"), RefStep::ReadHead));
}

#[test]
fn full_id_resolves_to_itself() {
    match resolve_ref_start(&repo(), ID) {
        RefStep::Resolved(x) => assert_eq!(x, ID),
        other => panic!("unexpected {:?}", other),
    }
    let upper = ID.to_uppercase();
    match resolve_ref_start(&repo(), &upper) {
        RefStep::Resolved(x) => assert_eq!(x, upper),
        other => panic!("unexpected {:?}", other),
    }
}

#[test]
fn other_names_probe_three_files() {
    match resolve_ref_start(&repo(), "main") {
        RefStep::Probe(v) => assert_eq!(v, vec![s("/w/.git/main"), s("/w/.git/refs/heads/main"), s("/w/.git/refs/tags/main")]),
        other => panic!("unexpected {:?}", other),
    }
    let almost = &ID[..39];
    assert!(matches!(resolve_ref_start(&repo(), almost), RefStep::Probe(_)));
    let not_hex = format!("{}g", &ID[..39]);
    assert!(matches!(resolve_ref_start(&repo(), &not_hex), RefStep::Probe(_)));
    match resolve_ref_start(&repo(), "refs/heads/dev") {
        RefStep::Probe(v) => assert_eq!(v[0], "/w/.git/refs/heads/dev"),
        other => panic!("unexpected {:?}", other),
    }
}

#[test]
fn head_file_contents() {
    match head_target("ref: refs/heads/main\n") {
        HeadRef::Symbolic(r) => assert_eq!(r, "refs/heads/main"),
        other => panic!("unexpected {:?}", other),
    }
    match head_target(&format!("  {ID}\n")) {
        HeadRef::Direct(r) => assert_eq!(r, ID),
        other => panic!("unexpected {:?}", other),
    }
    match head_target("ref:refs/heads/main") {
        HeadRef::Direct(r) => assert_eq!(r, "ref:refs/heads/main"),
        other => panic!("unexpected {:?}", other),
    }
}

#[test]
fn reference_file_value_is_trimmed() {
    assert_eq!(ref_value(&format!("{ID}\n")), ID);
    assert_eq!(ref_value(" \t x \r\n"), "x");
    assert_eq!(ref_line(ID), format!("{ID}\n"));
}

#[test]
fn unknown_revision_is_no_id() {
    assert_eq!(resolve_ref_optional(Ok(s(ID))).unwrap(), Some(s(ID)));
    assert_eq!(resolve_ref_optional(Err(GitError::UnknownRevision(s("x")))).unwrap(), None);
    assert!(matches!(resolve_ref_optional(Err(GitError::CorruptObject)), Err(GitError::CorruptObject)));
}

#[test]
fn treeish_resolution() {
    assert_eq!(resolve_treeish(s(ID), ObjectType::Tree, b"").unwrap(), ID);
    assert_eq!(resolve_treeish(s(ID), ObjectType::Commit, b"tree abc\n\nm").unwrap(), "abc");
    assert!(matches!(resolve_treeish(s(ID), ObjectType::Blob, b""), Err(GitError::NotTreeish)));
    assert!(matches!(resolve_treeish(s(ID), ObjectType::Tag, b""), Err(GitError::NotTreeish)));
    assert!(matches!(resolve_treeish(s(ID), ObjectType::Commit, b"parent x\n\nm"), Err(GitError::CommitMissingTree)));
}

#[test]
fn update_of_head_follows_symbolic_reference() {
    assert_eq!(update_ref_path(&repo(), "HEAD", Some("ref: refs/heads/main\n")), "/w/.git/refs/heads/main");
    assert_eq!(update_ref_path(&repo(), "HEAD", Some(ID)), "/w/.git/HEAD");
    assert_eq!(update_ref_path(&repo(), "HEAD", None), "/w/.git/HEAD");
    assert_eq!(update_ref_path(&repo(), "refs/tags/v1", Some("ref: refs/heads/main")), "/w/.git/refs/tags/v1");
}

#[test]
fn listing_is_sorted_by_name() {
    let files = vec![
        (s("/w/.git/refs/tags/v1"), s("3\n")),
        (s("/w/.git/refs/heads/main"), s("1\n")),
        (s("/w/.git/refs/heads/dev"), s(" 2 ")),
    ];
    let v = ref_listing(&repo(), &files).unwrap();
    assert_eq!(v, vec![(s("refs/heads/dev"), s("2")), (s("refs/heads/main"), s("1")), (s("refs/tags/v1"), s("3"))]);
    assert!(ref_listing(&repo(), &[]).unwrap().is_empty());
}

#[test]
fn listing_rejects_files_outside_git_dir() {
    let files = vec![(s("/w/.git/refs/heads/main"), s("1")), (s("/elsewhere/x"), s("2"))];
    assert!(matches!(ref_listing(&repo(), &files), Err(GitError::OutsideGitDir)));
}

#[test]
fn reference_written_reads_back() {
    assert_eq!(ref_value(&ref_line(ID)), ID);
    assert_eq!(ref_value(&ref_line("")), "");
}

#[test]
fn head_update_writes_the_first_probed_file() {
    let written = update_ref_path(&repo(), "HEAD", Some("ref: refs/heads/main\n"));
    match resolve_ref_start(&repo(), "refs/heads/main") {
        RefStep::Probe(v) => assert_eq!(v[0], written),
        other => panic!("unexpected {:?}", other),
    }
}

#[test]
fn status_clean_law_on_values() {
    let r = vex::status::status(
        &[vex::index::IndexEntry { path: s("f"), oid: vex::object::object_write(ObjectType::Blob, b"x").0 }],
        &[Some(b"x".to_vec())],
        &[s("f")],
    );
    assert!(r.modified.is_empty() && r.deleted.is_empty() && r.untracked.is_empty());
}

#[test]
fn probe_takes_the_first_file_found() {
    let found = vec![None, Some(format!(" {ID}\n")), Some(s("other"))];
    assert_eq!(resolve_probe("main", &found).unwrap(), ID);
    match resolve_probe("main", &[None, None, None]) {
        Err(GitError::UnknownRevision(n)) => assert_eq!(n, "main"),
        other => panic!("unexpected {:?}", other),
    }
    assert!(matches!(resolve_probe("x", &[]), Err(GitError::UnknownRevision(_))));
}
