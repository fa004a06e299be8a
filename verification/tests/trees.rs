use vex::error::GitError;
use vex::object::{object_write, ObjectType};
use vex::report::{cat_file_output, ls_tree_source, tree_line, tree_listing, CatOutput};
use vex::tree::{read_tree, scan_tree_data, tree_is_truncated, write_tree_data, TreeEntry, TreeScanResult};

const ONE: &str = "5626abf0f72e58d7a153368ba57db4c673c0e171";
const DIR: &str = "3db3aa529af33f55f038ad50d70c686d6757af32";

fn entry(mode: &str, path: &str, oid: &str) -> TreeEntry {
    TreeEntry { mode: mode.to_string(), path: path.to_string(), oid: oid.to_string() }
}

fn raw(hex: &str) -> Vec<u8> {
    (0..20).map(|i| u8::from_str_radix(&hex[2 * i..2 * i + 2], 16).unwrap()).collect()
}

#[test]
fn tree_data_layout() {
    let data = write_tree_data(&[entry("100644", "a.txt", ONE), entry("40000", "dir", DIR)]).unwrap();
    let mut want = b"100644 a.txt\0".to_vec();
    want.extend(raw(ONE));
    want.extend_from_slice(b"40000 dir\0");
    want.extend(raw(DIR));
    assert_eq!(data, want);
}

#[test]
fn read_tree_after_write() {
    let es = vec![entry("100644", "a.txt", ONE), entry("40000", "dir", DIR), entry("100644", "ü.txt", DIR)];
    let data = write_tree_data(&es).unwrap();
    let back = read_tree(&data).unwrap();
    assert_eq!(back.len(), 3);
    for (a, b) in es.iter().zip(back.iter()) {
        assert_eq!(a.mode, b.mode);
        assert_eq!(a.path, b.path);
        assert_eq!(a.oid, b.oid);
    }
}

#[test]
fn upper_case_ids_come_back_lower_case() {
    let upper = ONE.to_uppercase();
    let data = write_tree_data(&[entry("100644", "f", &upper)]).unwrap();
    assert_eq!(read_tree(&data).unwrap()[0].oid, ONE);
}

#[test]
fn tree_entry_with_bad_id() {
    match write_tree_data(&[entry("100644", "a", ONE), entry("100644", "b", "xyz")]) {
        Err(GitError::InvalidHex(s)) => assert_eq!(s, "xyz"),
        other => panic!("unexpected {:?}", other),
    }
}

#[test]
fn empty_tree_data() {
    assert_eq!(write_tree_data(&[]).unwrap(), Vec::<u8>::new());
    assert!(read_tree(b"").unwrap().is_empty());
}

#[test]
fn tree_without_space_or_nul_is_invalid() {
    assert!(matches!(read_tree(b"100644"), Err(GitError::InvalidTree)));
    assert!(matches!(read_tree(b"100644 name-without-nul"), Err(GitError::InvalidTree)));
}

#[test]
fn tree_name_not_utf8() {
    let mut data = b"100644 \xff\0".to_vec();
    data.extend(raw(ONE));
    match read_tree(&data) {
        Err(GitError::TreeNotUtf8(m)) => assert_eq!(m, "invalid utf-8 sequence of 1 bytes from index 0"),
        other => panic!("unexpected {:?}", other),
    }
}

#[test]
fn truncated_tree_is_detected() {
    let mut data = b"100644 a\0".to_vec();
    data.extend_from_slice(&raw(ONE)[..10]);
    assert!(tree_is_truncated(&data));
    assert!(matches!(scan_tree_data(&data), TreeScanResult::Truncated));
    let full = write_tree_data(&[entry("100644", "a", ONE)]).unwrap();
    assert!(!tree_is_truncated(&full));
}

#[test]
fn listing_lines() {
    assert_eq!(tree_line(&entry("100644", "a.txt", ONE)), format!("100644 blob {ONE}\ta.txt"));
    assert_eq!(tree_line(&entry("40000", "dir", DIR)), format!("40000 tree {DIR}\tdir"));
    let ls = tree_listing(&[entry("100644", "a.txt", ONE), entry("40000", "dir", DIR)]);
    assert_eq!(ls, vec![format!("100644 blob {ONE}\ta.txt"), format!("40000 tree {DIR}\tdir")]);
}

#[test]
fn cat_file_shows_tree_listing_or_text() {
    let data = write_tree_data(&[entry("40000", "dir", DIR)]).unwrap();
    match cat_file_output(ObjectType::Tree, &data).unwrap() {
        CatOutput::Listing(ls) => assert_eq!(ls, vec![format!("40000 tree {DIR}\tdir")]),
        CatOutput::Text(_) => panic!("expected a listing"),
    }
    match cat_file_output(ObjectType::Blob, b"hi \xff").unwrap() {
        CatOutput::Text(t) => assert_eq!(t, "hi \u{fffd}"),
        CatOutput::Listing(_) => panic!("expected text"),
    }
    match cat_file_output(ObjectType::Commit, b"tree x\n\nm\n").unwrap() {
        CatOutput::Text(t) => assert_eq!(t, "tree x\n\nm\n"),
        CatOutput::Listing(_) => panic!("expected text"),
    }
}

#[test]
fn ls_tree_source_of_each_kind() {
    assert!(matches!(ls_tree_source(ObjectType::Tree, b""), Ok(None)));
    let commit = format!("tree {DIR}\nauthor a\n\nmsg\n");
    assert_eq!(ls_tree_source(ObjectType::Commit, commit.as_bytes()).unwrap(), Some(DIR.to_string()));
    assert!(matches!(ls_tree_source(ObjectType::Blob, b"x"), Err(GitError::NotTreeish)));
    assert!(matches!(ls_tree_source(ObjectType::Tag, b"x"), Err(GitError::NotTreeish)));
    assert!(matches!(ls_tree_source(ObjectType::Commit, b"no blank line"), Err(GitError::InvalidCommit)));
}

#[test]
fn tree_object_id() {
    let a = object_write(ObjectType::Blob, b"one\n").0;
    assert_eq!(a, ONE);
    let data = write_tree_data(&[entry("100644", "b.txt", "f719efd430d52bcfc8566a43b2eb655688d38871")]).unwrap();
    assert_eq!(object_write(ObjectType::Tree, &data).0, DIR);
}
