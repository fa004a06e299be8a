use vex::config::{parse_config, GitConfig};
use vex::path::{parent, push, starts_with, strip_prefix};
use vex::repo::{git_dir_of, is_in_gitdir, object_path, repo_find, repo_path, GitRepo, RepoSearch};
use vex::worktree::{initial_config, initial_head};

fn repo() -> GitRepo {
    GitRepo { worktree: "/w".to_string(), gitdir: "/w/.git".to_string(), config: GitConfig::empty() }
}

#[test]
fn paths_inside_git_dir() {
    assert_eq!(repo_path(&repo(), &["objects", "ce", "0136"]), "/w/.git/objects/ce/0136");
    assert_eq!(repo_path(&repo(), &[]), "/w/.git");
    assert_eq!(repo_path(&repo(), &["index"]), "/w/.git/index");
    assert_eq!(git_dir_of("/a/b"), "/a/b/.git");
    assert_eq!(git_dir_of("/"), "/.git");
}

#[test]
fn object_file_path() {
    assert_eq!(
        object_path(&repo(), "ce013625030ba8dba906f756967f9e9ca394464a"),
        "/w/.git/objects/ce/013625030ba8dba906f756967f9e9ca394464a"
    );
}

#[test]
fn search_moves_up_until_found() {
    match repo_find("/a/b", true) {
        RepoSearch::Found { worktree, gitdir } => {
            assert_eq!(worktree, "/a/b");
            assert_eq!(gitdir, "/a/b/.git");
        }
        other => panic!("unexpected {:?}", other),
    }
    match repo_find("/a/b", false) {
        RepoSearch::Parent(p) => assert_eq!(p, "/a"),
        other => panic!("unexpected {:?}", other),
    }
    match repo_find("/a", false) {
        RepoSearch::Parent(p) => assert_eq!(p, "/"),
        other => panic!("unexpected {:?}", other),
    }
    assert!(matches!(repo_find("/", false), RepoSearch::NotFound));
}

#[test]
fn git_dir_membership_is_by_components() {
    assert!(is_in_gitdir(&repo(), "/w/.git/objects/ab"));
    assert!(is_in_gitdir(&repo(), "/w/.git"));
    assert!(!is_in_gitdir(&repo(), "/w/.gitignore"));
    assert!(!is_in_gitdir(&repo(), "/w/a.txt"));
}

#[test]
fn std_path_operations() {
    assert_eq!(push("/w", "a/b"), "/w/a/b");
    assert_eq!(push("/w/", "a"), "/w/a");
    assert_eq!(push("/w", "/abs"), "/abs");
    assert_eq!(push("", "a"), "a");
    assert!(starts_with("/w/a/b", "/w/a"));
    assert!(!starts_with("/w/ab", "/w/a"));
    assert_eq!(strip_prefix("/w/a/b.txt", "/w"), Some("a/b.txt".to_string()));
    assert_eq!(strip_prefix("/w", "/w"), Some(String::new()));
    assert_eq!(strip_prefix("/x/a", "/w"), None);
    assert_eq!(parent("/w/a"), Some("/w".to_string()));
    assert_eq!(parent("/w"), Some("/".to_string()));
    assert_eq!(parent("/"), None);
    assert_eq!(parent("a"), Some(String::new()));
}

#[test]
fn new_repository_files() {
    assert_eq!(initial_head(), "ref: refs/heads/main\n");
    assert_eq!(initial_config(), "[core]\n\trepositoryformatversion = 0\n\tfilemode = false\n\tbare = false\n");
}

#[test]
fn initial_config_reads_back() {
    let cfg = parse_config(&initial_config());
    assert_eq!(cfg.get_core("repositoryformatversion"), Some("0"));
    assert_eq!(cfg.get_core("filemode"), Some("false"));
    assert_eq!(cfg.get_core("bare"), Some("false"));
    assert_eq!(cfg.get_core("missing"), None);
}

#[test]
fn config_sections_comments_and_last_assignment() {
    let text = "# comment\n[user]\nname = me\n[ core ]\n; other comment\n  key = one \nkey=two\nnovalue\nother = a = b\n";
    let cfg = parse_config(text);
    assert_eq!(cfg.get_core("key"), Some("two"));
    assert_eq!(cfg.get_core("other"), Some("a = b"));
    assert_eq!(cfg.get_core("name"), None);
    assert_eq!(cfg.get_core("novalue"), None);
    assert_eq!(GitConfig::empty().get_core("key"), None);
    assert_eq!(GitConfig::default().get_core("key"), None);
}

#[test]
fn strip_prefix_keeps_the_text_that_follows() {
    assert_eq!(strip_prefix("/w/a//b/", "/w"), Some("a//b".to_string()));
    assert_eq!(strip_prefix("/w/./x.txt", "/w"), Some("x.txt".to_string()));
    assert_eq!(strip_prefix("/w//a/./b/.", "/w/"), Some("a/./b".to_string()));
    assert_eq!(strip_prefix("a/b/", ""), Some("a/b".to_string()));
    assert_eq!(strip_prefix("/a/b", ""), Some("/a/b".to_string()));
    assert_eq!(strip_prefix("./a", "."), Some("a".to_string()));
    assert_eq!(strip_prefix("/w/a", "/"), Some("w/a".to_string()));
    assert_eq!(strip_prefix("a/../b", "a/.."), Some("b".to_string()));
    assert_eq!(strip_prefix("/wx/a", "/w"), None);
}

#[test]
fn parent_keeps_the_text_before_the_last_component() {
    assert_eq!(parent("/a//b/c"), Some("/a//b".to_string()));
    assert_eq!(parent("/a//b"), Some("/a".to_string()));
    assert_eq!(parent("/a/b/"), Some("/a".to_string()));
    assert_eq!(parent("/a/b/."), Some("/a".to_string()));
    assert_eq!(parent("./a"), Some(".".to_string()));
    assert_eq!(parent("."), Some(String::new()));
    assert_eq!(parent("./"), Some(String::new()));
    assert_eq!(parent("a/.."), Some("a".to_string()));
    assert_eq!(parent(""), None);
    assert_eq!(parent("//"), None);
}
