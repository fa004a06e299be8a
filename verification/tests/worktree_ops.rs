use vex::config::GitConfig;
use vex::error::GitError;
use vex::ignore_rules::{gitignore_check, matcher_path_of, matcher_rejects_path, rule_lines_of};
use vex::object::ObjectType;
use vex::repo::GitRepo;
use vex::tree::{write_tree_data, TreeEntry};
use vex::worktree::{add_target, check_ignore, checkout_items, expect_blob, ignore_rejects, worktree_relative, CheckoutItem};

const ONE: &str = "5626abf0f72e58d7a153368ba57db4c673c0e171";
const DIR: &str = "3db3aa529af33f55f038ad50d70c686d6757af32";

fn repo() -> GitRepo {
    GitRepo { worktree: "/w".to_string(), gitdir: "/w/.git".to_string(), config: GitConfig::empty() }
}

fn s(x: &str) -> String {
    x.to_string()
}

#[test]
fn add_target_names() {
    assert_eq!(add_target(&repo(), "/w/dir/a.txt").unwrap(), Some(s("dir/a.txt")));
    assert_eq!(add_target(&repo(), "/w/.git/HEAD").unwrap(), None);
    assert_eq!(add_target(&repo(), "/w/./a//b.txt").unwrap(), Some(s("a//b.txt")));
    assert!(matches!(add_target(&repo(), "/elsewhere/a"), Err(GitError::OutsideWorktree)));
}

#[test]
fn relative_to_worktree() {
    assert_eq!(worktree_relative(&repo(), "/w/a/b").unwrap(), "a/b");
    assert!(matches!(worktree_relative(&repo(), "/v/a"), Err(GitError::OutsideWorktree)));
}

#[test]
fn checkout_items_of_a_tree() {
    let data = write_tree_data(&[
        TreeEntry { mode: s("100644"), path: s("a.txt"), oid: s(ONE) },
        TreeEntry { mode: s("40000"), path: s("dir"), oid: s(DIR) },
    ])
    .unwrap();
    let items = checkout_items("/w", ObjectType::Tree, &data).unwrap();
    assert_eq!(items.len(), 2);
    match &items[0] {
        CheckoutItem::File { path, oid } => {
            assert_eq!(path, "/w/a.txt");
            assert_eq!(oid, ONE);
        }
        other => panic!("unexpected {:?}", other),
    }
    match &items[1] {
        CheckoutItem::Dir { path, oid } => {
            assert_eq!(path, "/w/dir");
            assert_eq!(oid, DIR);
        }
        other => panic!("unexpected {:?}", other),
    }
}

#[test]
fn checkout_of_something_else_than_a_tree() {
    assert!(matches!(checkout_items("/w", ObjectType::Blob, b""), Err(GitError::ExpectedTree)));
    assert!(matches!(checkout_items("/w", ObjectType::Tree, b"100644"), Err(GitError::InvalidTree)));
}

#[test]
fn checked_out_files_are_blobs() {
    assert!(expect_blob(ObjectType::Blob).is_ok());
    assert!(matches!(expect_blob(ObjectType::Tree), Err(GitError::NotABlob)));
    assert!(matches!(expect_blob(ObjectType::Commit), Err(GitError::NotABlob)));
}

#[test]
fn ignore_rules_match() {
    let rules = rule_lines_of("*.log\nbuild/\n");
    assert_eq!(gitignore_check("/w", &rules, "x.log", false), Some(true));
    assert_eq!(gitignore_check("/w", &rules, "x.txt", false), Some(false));
    assert_eq!(gitignore_check("/w", &rules, "build", true), Some(true));
    assert_eq!(gitignore_check("/w", &rules, "build/out.o", false), Some(true));
    let negated = rule_lines_of("*.log\n!keep.log\n");
    assert_eq!(gitignore_check("/w", &negated, "keep.log", false), Some(false));
    assert_eq!(gitignore_check("/w", &[], "x.log", false), Some(false));
}

#[test]
fn rule_lines_drop_byte_order_mark_and_line_ends() {
    assert_eq!(rule_lines_of("\u{feff}*.log\r\nb\n\n# c"), vec![s("*.log"), s("b"), s(""), s("# c")]);
    assert_eq!(rule_lines_of("x\n\u{feff}y"), vec![s("x"), s("\u{feff}y")]);
    assert!(rule_lines_of("").is_empty());
    let bom_rules = rule_lines_of("\u{feff}*.tmp\n");
    assert_eq!(gitignore_check("/w", &bom_rules, "a.tmp", false), Some(true));
}

#[test]
fn check_ignore_lists_ignored_paths() {
    let paths = vec![s("x.log"), s("src/main.rs"), s("/w/build"), s("sub/y.log")];
    let dirs = vec![false, false, true, false];
    let v = check_ignore(&repo(), "*.log\nbuild/\n", &paths, &dirs).unwrap();
    assert_eq!(v, vec![s("x.log"), s("build"), s("sub/y.log")]);
    assert!(check_ignore(&repo(), "", &paths, &dirs).unwrap().is_empty());
}

fn chars(x: &str) -> Vec<char> {
    x.chars().collect()
}

#[test]
fn matcher_strips_dot_slash_and_root() {
    assert_eq!(matcher_path_of("/w", ".//x"), chars("/x"));
    assert_eq!(matcher_path_of("/w", "./a/b"), chars("a/b"));
    assert_eq!(matcher_path_of("/w", "/w/a/b"), chars("a/b"));
    assert_eq!(matcher_path_of("/w", "/wx"), chars("x"));
    assert_eq!(matcher_path_of("./w", "w/a"), chars("a"));
    assert_eq!(matcher_path_of(".", "./a/b"), chars("a/b"));
    assert_eq!(matcher_path_of("/w", "x.log"), chars("x.log"));
}

#[test]
fn matcher_rejects_rooted_paths_only_with_rules() {
    let rules = rule_lines_of("x\n");
    assert!(matcher_rejects_path("/w", &rules, ".//x"));
    assert!(!matcher_rejects_path("/w", &rules, "a/x"));
    let inert = rule_lines_of("# only a comment\n   \n");
    assert!(!matcher_rejects_path("/w", &inert, ".//x"));
    assert_eq!(gitignore_check("/w", &inert, "/outside", false), Some(false));
    assert!(ignore_rejects(&repo(), "*.log\n", "/elsewhere/a.log"));
    assert!(!ignore_rejects(&repo(), "", "/elsewhere/a.log"));
    assert!(!ignore_rejects(&repo(), "*.log\n", "a.log"));
    let v = check_ignore(&repo(), "# none\n", &[s("/elsewhere/a.log")], &[false]).unwrap();
    assert!(v.is_empty());
}
