use vex::error::GitError;
use vex::index::IndexEntry;
use vex::object::{object_write, ObjectType};
use vex::tree::read_tree;
use vex::writetree::{commit_trees, write_tree};

const ONE: &str = "5626abf0f72e58d7a153368ba57db4c673c0e171";
const TWO: &str = "f719efd430d52bcfc8566a43b2eb655688d38871";
const DIR: &str = "3db3aa529af33f55f038ad50d70c686d6757af32";
const ROOT: &str = "d8e81a305888d108b73b339959a4904f83137be5";

fn e(path: &str, oid: &str) -> IndexEntry {
    IndexEntry { path: path.to_string(), oid: oid.to_string() }
}

#[test]
fn index_written_as_trees() {
    let w = write_tree(&[e("a.txt", ONE), e("dir/b.txt", TWO)], &mut Vec::new()).unwrap();
    assert_eq!(w.root, ROOT);
    assert_eq!(w.trees.len(), 2);
    assert_eq!(object_write(ObjectType::Tree, &w.trees[0]).0, DIR);
    assert_eq!(object_write(ObjectType::Tree, &w.trees[1]).0, ROOT);
}

#[test]
fn files_come_before_directories() {
    let w = write_tree(&[e("z/b.txt", TWO), e("m.txt", ONE)], &mut Vec::new()).unwrap();
    let root = read_tree(w.trees.last().unwrap()).unwrap();
    assert_eq!(root.len(), 2);
    assert_eq!((root[0].mode.as_str(), root[0].path.as_str()), ("100644", "m.txt"));
    assert_eq!((root[1].mode.as_str(), root[1].path.as_str()), ("40000", "z"));
}

#[test]
fn directories_sorted_by_name() {
    let w = write_tree(&[e("b/x", ONE), e("a/y", TWO), e("b/z", TWO)], &mut Vec::new()).unwrap();
    assert_eq!(w.trees.len(), 3);
    let root = read_tree(w.trees.last().unwrap()).unwrap();
    let names: Vec<&str> = root.iter().map(|t| t.path.as_str()).collect();
    assert_eq!(names, vec!["a", "b"]);
    let b = read_tree(&w.trees[1]).unwrap();
    let bn: Vec<&str> = b.iter().map(|t| t.path.as_str()).collect();
    assert_eq!(bn, vec!["x", "z"]);
    assert_eq!(root[1].oid, object_write(ObjectType::Tree, &w.trees[1]).0);
}

#[test]
fn nested_directories() {
    let w = write_tree(&[e("a/b/c.txt", ONE)], &mut Vec::new()).unwrap();
    assert_eq!(w.trees.len(), 3);
    let inner = read_tree(&w.trees[0]).unwrap();
    assert_eq!(inner[0].path, "c.txt");
    let mid = read_tree(&w.trees[1]).unwrap();
    assert_eq!((mid[0].mode.as_str(), mid[0].path.as_str()), ("40000", "b"));
}

#[test]
fn empty_index_writes_the_empty_tree() {
    let w = write_tree(&[], &mut Vec::new()).unwrap();
    assert_eq!(w.root, "4b825dc642cb6eb9a060e54bf8d69288fbee4904");
    assert_eq!(w.trees, vec![Vec::<u8>::new()]);
}

#[test]
fn nothing_to_commit_on_empty_index() {
    assert!(matches!(commit_trees(&[], &mut Vec::new()), Err(GitError::EmptyIndex)));
    assert_eq!(commit_trees(&[e("a.txt", ONE), e("dir/b.txt", TWO)], &mut Vec::new()).unwrap().root, ROOT);
}

#[test]
fn bad_staged_id() {
    match write_tree(&[e("a.txt", "nothex")], &mut Vec::new()) {
        Err(GitError::InvalidHex(s)) => assert_eq!(s, "nothex"),
        other => panic!("unexpected {:?}", other.map(|w| w.root)),
    }
}

#[test]
fn trees_made_before_a_failure_are_kept() {
    let mut written = Vec::new();
    let r = write_tree(&[e("d/b.txt", TWO), e("a.txt", "nothex")], &mut written);
    assert!(matches!(r, Err(GitError::InvalidHex(_))));
    assert_eq!(written.len(), 1);
    assert_eq!(object_write(ObjectType::Tree, &written[0]).0, DIR);
    let mut all = Vec::new();
    let w = write_tree(&[e("a.txt", ONE), e("dir/b.txt", TWO)], &mut all).unwrap();
    assert_eq!(all, w.trees);
    let mut none = vec![b"x".to_vec()];
    assert!(matches!(commit_trees(&[], &mut none), Err(GitError::EmptyIndex)));
    assert_eq!(none, vec![b"x".to_vec()]);
}
