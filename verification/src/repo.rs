//! The repository: where its work tree and `.git` directory are, and the paths of the
//! files inside `.git`.
use vstd::prelude::*;
use vstd::utf8::*;
use crate::config::GitConfig;
use crate::path::{parent, path_parent, path_starts_with, push, push_path, starts_with};

verus! {

/// A repository: its work tree, its `.git` directory, and its configuration.
#[derive(Debug, Clone)]
pub struct GitRepo {
    pub worktree: String,
    pub gitdir: String,
    pub config: GitConfig,
}

/// `part`s pushed onto `base` one after another.
pub open spec fn push_all(base: Seq<char>, parts: Seq<Seq<char>>) -> Seq<char>
    decreases parts.len(),
{
    if parts.len() == 0 {
        base
    } else {
        push_path(push_all(base, parts.drop_last()), parts.last())
    }
}

/// The views of a slice of string slices.
pub open spec fn str_views(parts: Seq<&str>) -> Seq<Seq<char>> {
    parts.map_values(|p: &str| p@)
}

/// The path of a file inside the `.git` directory: the parts pushed onto it in order.
pub fn repo_path(repo: &GitRepo, parts: &[&str]) -> (res: String)
    ensures
        res@ == push_all(repo.gitdir@, str_views(parts@)),
{
    let mut path = repo.gitdir.clone();
    let mut i: usize = 0;
    while i < parts.len()
        invariant
            i <= parts@.len(),
            path@ == push_all(repo.gitdir@, str_views(parts@).take(i as int)),
        decreases parts@.len() - i,
    {
        assert(str_views(parts@).take(i + 1).drop_last() == str_views(parts@).take(i as int));
        path = push(path.as_str(), parts[i]);
        i = i + 1;
    }
    assert(str_views(parts@).take(parts@.len() as int) == str_views(parts@));
    path
}

/// The path of the directory `.git` inside a directory.
pub open spec fn git_dir_in(dir: Seq<char>) -> Seq<char> {
    push_path(dir, seq!['.', 'g', 'i', 't'])
}

/// The `.git` directory that a directory would hold.
pub fn git_dir_of(dir: &str) -> (res: String)
    ensures
        res@ == git_dir_in(dir@),
{
    let name = ".git";
    proof {
        reveal_strlit(".git");
    }
    push(dir, name)
}

/// One step of the search for the repository around a directory.
#[derive(Debug)]
pub enum RepoSearch {
    /// The directory holds a `.git` directory: it is the work tree.
    Found { worktree: String, gitdir: String },
    /// Look next in the parent directory.
    Parent(String),
    /// The root was reached without finding a repository.
    NotFound,
}

/// Decides the search at directory `cur`, given whether `cur/.git` is a directory: there
/// the repository is found; otherwise the search moves to the parent, and fails at the top.
pub fn repo_find(cur: &str, git_dir_present: bool) -> (res: RepoSearch)
    ensures
        git_dir_present ==> (res matches RepoSearch::Found { worktree, gitdir } && worktree@ == cur@
            && gitdir@ == git_dir_in(cur@)),
        !git_dir_present ==> match path_parent(cur@) {
            Some(p) => res matches RepoSearch::Parent(q) && q@ == p,
            None => res is NotFound,
        },
{
    if git_dir_present {
        let worktree = cur.to_owned();
        let gitdir = git_dir_of(cur);
        RepoSearch::Found { worktree, gitdir }
    } else {
        match parent(cur) {
            Some(p) => RepoSearch::Parent(p),
            None => RepoSearch::NotFound,
        }
    }
}

/// Whether a path lies inside the repository's `.git` directory (by components).
pub fn is_in_gitdir(repo: &GitRepo, path: &str) -> (res: bool)
    ensures
        res == path_starts_with(path@, repo.gitdir@),
{
    starts_with(path, repo.gitdir.as_str())
}

/// The path where an object is stored: `objects/`, then the first two bytes of its id as a
/// directory and the rest as the file name. An id whose byte 2 is no character boundary
/// is left out: splitting it there would fail.
pub fn object_path(repo: &GitRepo, oid: &str) -> (res: String)
    requires
        is_char_boundary(encode_utf8(oid@), 2),
    ensures
        res@ == push_all(
            repo.gitdir@,
            seq![
                seq!['o', 'b', 'j', 'e', 'c', 't', 's'],
                decode_utf8(encode_utf8(oid@).take(2)),
                decode_utf8(encode_utf8(oid@).skip(2)),
            ],
        ),
{
    let (dir, file) = oid.split_at(2);
    proof {
        encode_utf8_decode_utf8(dir@);
        encode_utf8_decode_utf8(file@);
        assert(encode_utf8(oid@).subrange(2, encode_utf8(oid@).len() as int) == encode_utf8(oid@).skip(2));
        assert(encode_utf8(oid@).subrange(0, 2) == encode_utf8(oid@).take(2));
        assert(dir@ == decode_utf8(encode_utf8(oid@).take(2)));
        assert(file@ == decode_utf8(encode_utf8(oid@).skip(2)));
    }
    let objects = "objects";
    proof {
        reveal_strlit("objects");
    }
    assert(objects@ == seq!['o', 'b', 'j', 'e', 'c', 't', 's']);
    let parts: [&str; 3] = [objects, dir, file];
    let path = repo_path(repo, parts.as_slice());
    assert(str_views(parts@) == seq![objects@, dir@, file@]);
    path
}

} // verus!
