//! Decisions about work-tree files: which files `add` stages and under which names,
//! what `checkout` writes, which paths `check-ignore` reports, and what `init` creates.
use vstd::prelude::*;
use crate::error::{ErrorView, GitError};
use crate::ignore_rules::{gitignore_check, gitignore_ignores, matcher_rejects, matcher_rejects_path, rule_lines, rule_lines_of};
use crate::object::ObjectType;
use crate::path::{path_starts_with, path_strip_prefix, push, push_path, strip_prefix};
use crate::refs::string_views;
use crate::repo::{is_in_gitdir, GitRepo};
use crate::text::{chars_eq, chars_of};
use crate::tree::{read_tree, scan_tree, tree_models, TreeEntryModel, TreeScan};

verus! {

/// The name under which `add` stages a file: none for a file inside `.git`, otherwise its
/// path relative to the work tree; a file outside the work tree is an error.
pub fn add_target(repo: &GitRepo, file: &str) -> (res: Result<Option<String>, GitError>)
    ensures
        path_starts_with(file@, repo.gitdir@) ==> (res matches Ok(None)),
        !path_starts_with(file@, repo.gitdir@) ==> match path_strip_prefix(file@, repo.worktree@) {
            Some(r) => res matches Ok(Some(s)) && s@ == r,
            None => res matches Err(e) && e@ == ErrorView::OutsideWorktree,
        },
{
    if is_in_gitdir(repo, file) {
        return Ok(None);
    }
    match strip_prefix(file, repo.worktree.as_str()) {
        Some(r) => Ok(Some(r)),
        None => Err(GitError::OutsideWorktree),
    }
}

/// A path relative to the work tree; one outside it is an error.
pub fn worktree_relative(repo: &GitRepo, path: &str) -> (res: Result<String, GitError>)
    ensures
        match path_strip_prefix(path@, repo.worktree@) {
            Some(r) => res matches Ok(s) && s@ == r,
            None => res matches Err(e) && e@ == ErrorView::OutsideWorktree,
        },
{
    match strip_prefix(path, repo.worktree.as_str()) {
        Some(r) => Ok(r),
        None => Err(GitError::OutsideWorktree),
    }
}

/// What `checkout` does for one tree entry.
#[derive(Debug)]
pub enum CheckoutItem {
    /// Create the directory and check out the tree `oid` into it.
    Dir { path: String, oid: String },
    /// Write the blob `oid` to the file.
    File { path: String, oid: String },
}

/// What an entry of a tree checked out under `base` becomes.
pub open spec fn checkout_item_of(base: Seq<char>, e: TreeEntryModel) -> (bool, Seq<char>, Seq<char>) {
    (e.mode == "40000"@, push_path(base, e.name), e.oid)
}

/// The view of a checkout item: whether it is a directory, its path, its id.
pub open spec fn item_view(i: CheckoutItem) -> (bool, Seq<char>, Seq<char>) {
    match i {
        CheckoutItem::Dir { path, oid } => (true, path@, oid@),
        CheckoutItem::File { path, oid } => (false, path@, oid@),
    }
}

/// What checking out the object `(kind, data)` under `base` does: an object that is no
/// tree is an error; otherwise each entry in order, mode `40000` as a directory, any
/// other as a file. Tree data cut short inside an id is left out.
pub fn checkout_items(base: &str, kind: ObjectType, data: &[u8]) -> (res: Result<Vec<CheckoutItem>, GitError>)
    requires
        kind == ObjectType::Tree ==> !(scan_tree(data@) is Truncated),
    ensures
        kind != ObjectType::Tree ==> (res matches Err(e) && e@ == ErrorView::ExpectedTree),
        kind == ObjectType::Tree ==> match scan_tree(data@) {
            TreeScan::Parsed(es) => res matches Ok(v) && v@.map_values(|i: CheckoutItem| item_view(i))
                == es.map_values(|e: TreeEntryModel| checkout_item_of(base@, e)),
            TreeScan::Failed(e) => res matches Err(x) && x@ == e,
            TreeScan::Truncated => false,
        },
{
    if kind != ObjectType::Tree {
        return Err(GitError::ExpectedTree);
    }
    let entries = match read_tree(data) {
        Ok(es) => es,
        Err(e) => {
            return Err(e);
        },
    };
    let ghost want = tree_models(entries@).map_values(|e: TreeEntryModel| checkout_item_of(base@, e));
    let dir = chars_of("40000");
    let mut out: Vec<CheckoutItem> = Vec::new();
    let mut i: usize = 0;
    while i < entries.len()
        invariant
            i <= entries@.len(),
            dir@ == "40000"@,
            want == tree_models(entries@).map_values(|e: TreeEntryModel| checkout_item_of(base@, e)),
            out@.map_values(|i: CheckoutItem| item_view(i)) == want.take(i as int),
        decreases entries@.len() - i,
    {
        let e = &entries[i];
        let path = push(base, e.path.as_str());
        let mode = chars_of(e.mode.as_str());
        let item = if chars_eq(mode.as_slice(), dir.as_slice()) {
            CheckoutItem::Dir { path, oid: e.oid.clone() }
        } else {
            CheckoutItem::File { path, oid: e.oid.clone() }
        };
        assert(item_view(item) == want[i as int]);
        let ghost before = out@.map_values(|i: CheckoutItem| item_view(i));
        out.push(item);
        assert(out@.map_values(|i: CheckoutItem| item_view(i)) == before.push(want[i as int]));
        assert(want.take(i + 1) == want.take(i as int).push(want[i as int]));
        i = i + 1;
    }
    assert(want.take(entries@.len() as int) == want);
    Ok(out)
}

/// A checked-out file must name a blob.
pub fn expect_blob(kind: ObjectType) -> (res: Result<(), GitError>)
    ensures
        kind == ObjectType::Blob ==> res is Ok,
        kind != ObjectType::Blob ==> (res matches Err(e) && e@ == ErrorView::NotABlob),
{
    if kind == ObjectType::Blob {
        Ok(())
    } else {
        Err(GitError::NotABlob)
    }
}

/// The path that `check-ignore` matches and prints for a given path: joined to the work
/// tree, then relative to it again when it lies inside it.
pub open spec fn ignore_path(worktree: Seq<char>, p: Seq<char>) -> Seq<char> {
    match path_strip_prefix(push_path(worktree, p), worktree) {
        Some(r) => r,
        None => push_path(worktree, p),
    }
}

/// The path that `check-ignore` matches for `p`.
fn ignore_path_of(repo: &GitRepo, p: &str) -> (res: String)
    ensures
        res@ == ignore_path(repo.worktree@, p@),
{
    let abs = push(repo.worktree.as_str(), p);
    match strip_prefix(abs.as_str(), repo.worktree.as_str()) {
        Some(r) => r,
        None => abs,
    }
}

/// Whether asking the ignore rules about `p` would fail the `ignore` crate's assertion
/// that the path lies under the work tree; `check-ignore` stops there.
pub fn ignore_rejects(repo: &GitRepo, rules: &str, p: &str) -> (res: bool)
    ensures
        res == matcher_rejects(repo.worktree@, rule_lines(rules@), ignore_path(repo.worktree@, p@)),
{
    let ls = rule_lines_of(rules);
    let rel = ignore_path_of(repo, p);
    matcher_rejects_path(repo.worktree.as_str(), ls.as_slice(), rel.as_str())
}

/// The paths among `paths` that the ignore rules (the text of `.gitignore`, empty when
/// there is none) ignore, in order; `is_dirs[i]` tells whether `paths[i]` is a directory.
/// A path on which the `ignore` crate's assertion would fail is left out (see
/// `ignore_rejects`).
pub fn check_ignore(repo: &GitRepo, rules: &str, paths: &[String], is_dirs: &[bool]) -> (res: Result<Vec<String>, GitError>)
    requires
        is_dirs@.len() == paths@.len(),
        forall|i: int| 0 <= i < paths@.len() ==> !matcher_rejects(repo.worktree@, rule_lines(rules@),
            ignore_path(repo.worktree@, #[trigger] paths@[i]@)),
    ensures
        (forall|i: int| 0 <= i < paths@.len() ==> gitignore_ignores(repo.worktree@, rule_lines(rules@),
            ignore_path(repo.worktree@, #[trigger] paths@[i]@), is_dirs@[i]) is Some) ==> (res matches Ok(v)
            && string_views(v@) == ignored_of(repo.worktree@, rules@, string_views(paths@), is_dirs@)),
        (exists|i: int| 0 <= i < paths@.len() && gitignore_ignores(repo.worktree@, rule_lines(rules@),
            ignore_path(repo.worktree@, #[trigger] paths@[i]@), is_dirs@[i]) is None) ==> (res matches Err(e)
            && e@ == ErrorView::InvalidIgnoreRules),
{
    let ls = rule_lines_of(rules);
    let mut out: Vec<String> = Vec::new();
    let mut i: usize = 0;
    while i < paths.len()
        invariant
            i <= paths@.len(),
            is_dirs@.len() == paths@.len(),
            string_views(ls@) == rule_lines(rules@),
            forall|k: int| 0 <= k < paths@.len() ==> !matcher_rejects(repo.worktree@, rule_lines(rules@),
                ignore_path(repo.worktree@, #[trigger] paths@[k]@)),
            forall|k: int| 0 <= k < i ==> gitignore_ignores(repo.worktree@, rule_lines(rules@),
                ignore_path(repo.worktree@, #[trigger] paths@[k]@), is_dirs@[k]) is Some,
            string_views(out@) == ignored_of(repo.worktree@, rules@, string_views(paths@).take(i as int), is_dirs@.take(i as int)),
        decreases paths@.len() - i,
    {
        let rel = ignore_path_of(repo, paths[i].as_str());
        let ghost sv = string_views(paths@);
        assert(sv.take(i + 1).drop_last() == sv.take(i as int));
        assert(is_dirs@.take(i + 1).drop_last() == is_dirs@.take(i as int));
        assert(sv.take(i + 1).last() == paths@[i as int]@);
        assert(is_dirs@.take(i + 1).last() == is_dirs@[i as int]);
        match gitignore_check(repo.worktree.as_str(), ls.as_slice(), rel.as_str(), is_dirs[i]) {
            None => {
                return Err(GitError::InvalidIgnoreRules);
            },
            Some(ignored) => {
                if ignored {
                    let ghost before = string_views(out@);
                    out.push(rel);
                    assert(string_views(out@) == before.push(rel@));
                }
            },
        }
        i = i + 1;
    }
    assert(string_views(paths@).take(paths@.len() as int) == string_views(paths@));
    assert(is_dirs@.take(paths@.len() as int) == is_dirs@);
    Ok(out)
}

/// The paths that the rules ignore, in order, as `check-ignore` prints them.
pub open spec fn ignored_of(worktree: Seq<char>, rules: Seq<char>, ps: Seq<Seq<char>>, dirs: Seq<bool>) -> Seq<Seq<char>>
    decreases ps.len(),
{
    if ps.len() == 0 || dirs.len() == 0 {
        seq![]
    } else {
        let r = ignored_of(worktree, rules, ps.drop_last(), dirs.drop_last());
        let q = ignore_path(worktree, ps.last());
        if gitignore_ignores(worktree, rule_lines(rules), q, dirs.last()) == Some(true) {
            r.push(q)
        } else {
            r
        }
    }
}

/// What a new repository's `HEAD` file holds.
pub fn initial_head() -> (res: String)
    ensures
        res@ == "ref: refs/heads/main\n"@,
{
    "ref: refs/heads/main\n".to_owned()
}

/// What a new repository's `config` file holds.
pub fn initial_config() -> (res: String)
    ensures
        res@ == "[core]\n\trepositoryformatversion = 0\n\tfilemode = false\n\tbare = false\n"@,
{
    "[core]\n\trepositoryformatversion = 0\n\tfilemode = false\n\tbare = false\n".to_owned()
}

} // verus!
