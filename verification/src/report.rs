//! The text that the commands print: the status report, a history entry, and the
//! listings of objects and trees.
use vstd::prelude::*;
use crate::commit::{commit_read, parse_commit};
use crate::convert::{string_of, utf8_decode_lossy, utf8_lossy};
use crate::error::{ErrorView, GitError};
use crate::object::ObjectType;
use crate::path::extend_chars;
use crate::refs::string_views;
use crate::status::StatusReport;
use crate::text::{chars_eq, chars_of, is_ws, lemma_trim_run, trim, trim_chars};
use crate::tree::{read_tree, scan_tree, tree_models, TreeEntry, TreeEntryModel, TreeScan};

verus! {

/// Paths indented by two spaces.
pub open spec fn indented(ps: Seq<Seq<char>>) -> Seq<Seq<char>> {
    ps.map_values(|p: Seq<char>| seq![' ', ' '] + p)
}

/// A titled section of the status report; an empty list has none.
pub open spec fn section(title: Seq<char>, ps: Seq<Seq<char>>) -> Seq<Seq<char>> {
    if ps.len() == 0 {
        seq![]
    } else {
        seq![title] + indented(ps)
    }
}

/// The lines of the status report.
pub open spec fn status_text(m: Seq<Seq<char>>, d: Seq<Seq<char>>, u: Seq<Seq<char>>) -> Seq<Seq<char>> {
    if m.len() == 0 && d.len() == 0 && u.len() == 0 {
        seq!["nothing to commit, working tree clean"@]
    } else {
        section("modified:"@, m) + section("deleted:"@, d) + section("untracked:"@, u)
    }
}

/// Appends a section to the report's lines.
fn push_section(out: &mut Vec<String>, title: &str, ps: &Vec<String>)
    ensures
        string_views(final(out)@) == string_views(old(out)@) + section(title@, string_views(ps@)),
{
    if ps.len() == 0 {
        assert(string_views(out@) + Seq::<Seq<char>>::empty() == string_views(out@));
        return;
    }
    let ghost start = string_views(out@);
    let ghost pv = string_views(ps@);
    out.push(title.to_owned());
    assert(indented(pv.take(0)) == Seq::<Seq<char>>::empty());
    assert(string_views(out@) == start + (seq![title@] + indented(pv.take(0))));
    let mut i: usize = 0;
    while i < ps.len()
        invariant
            i <= ps@.len(),
            pv == string_views(ps@),
            ps@.len() > 0,
            string_views(out@) == start + (seq![title@] + indented(pv.take(i as int))),
        decreases ps@.len() - i,
    {
        let mut line: Vec<char> = Vec::new();
        line.push(' ');
        line.push(' ');
        let p = chars_of(ps[i].as_str());
        extend_chars(&mut line, p.as_slice());
        let ghost before = string_views(out@);
        assert(line@ == seq![' ', ' '] + pv[i as int]);
        out.push(string_of(line.as_slice()));
        assert(string_views(out@) == before.push(line@));
        let ghost ind = indented(pv.take(i as int));
        assert(indented(pv.take(i + 1)) == ind.push(seq![' ', ' '] + pv[i as int]));
        assert((start + (seq![title@] + ind)).push(line@) == start + (seq![title@] + ind.push(line@)));
        i = i + 1;
    }
    assert(pv.take(ps@.len() as int) == pv);
}

/// The lines that the status command prints.
pub fn status_lines(r: &StatusReport) -> (res: Vec<String>)
    ensures
        string_views(res@) == status_text(
            string_views(r.modified@),
            string_views(r.deleted@),
            string_views(r.untracked@),
        ),
{
    let mut out: Vec<String> = Vec::new();
    if r.modified.len() == 0 && r.deleted.len() == 0 && r.untracked.len() == 0 {
        out.push("nothing to commit, working tree clean".to_owned());
        assert(string_views(out@) == seq!["nothing to commit, working tree clean"@]);
        return out;
    }
    assert(string_views(out@) == Seq::<Seq<char>>::empty());
    push_section(&mut out, "modified:", &r.modified);
    push_section(&mut out, "deleted:", &r.deleted);
    push_section(&mut out, "untracked:", &r.untracked);
    out
}

/// A string made of two pieces.
fn concat(a: &str, b: &str) -> (res: String)
    ensures
        res@ == a@ + b@,
{
    let mut v = chars_of(a);
    let w = chars_of(b);
    extend_chars(&mut v, w.as_slice());
    string_of(v.as_slice())
}

/// The lines printed for one commit of the history.
pub open spec fn log_text(oid: Seq<char>, author: Seq<char>, committer: Seq<char>, message: Seq<char>) -> Seq<Seq<char>> {
    seq![
        "commit "@ + oid,
        "Author: "@ + author,
        "Date:   "@ + committer,
        seq![],
        "    "@ + trim(message),
        seq![],
    ]
}

/// One step of the history: the lines printed for the object `oid`, and the parent to go
/// on with. An object that is no commit ends the history with an error.
pub fn log_entry(oid: &str, kind: ObjectType, data: &[u8]) -> (res: Result<(Vec<String>, Option<String>), GitError>)
    ensures
        kind != ObjectType::Commit ==> (res matches Err(e) && e@ == ErrorView::NotACommit(oid@)),
        kind == ObjectType::Commit ==> match parse_commit(utf8_lossy(data@)) {
            Err(e) => res matches Err(x) && x@ == e,
            Ok(c) => res matches Ok((ls, next)) && string_views(ls@) == log_text(oid@, c.author, c.committer, c.message)
                && crate::commit::opt_view(next) == c.parent,
        },
{
    if kind != ObjectType::Commit {
        return Err(GitError::NotACommit(oid.to_owned()));
    }
    let c = match commit_read(data) {
        Ok(c) => c,
        Err(e) => {
            return Err(e);
        },
    };
    let mut ls: Vec<String> = Vec::new();
    ls.push(concat("commit ", oid));
    ls.push(concat("Author: ", c.author.as_str()));
    ls.push(concat("Date:   ", c.committer.as_str()));
    ls.push(String::new());
    let m = chars_of(c.message.as_str());
    let tm = string_of(trim_chars(m.as_slice()).as_slice());
    ls.push(concat("    ", tm.as_str()));
    ls.push(String::new());
    assert(string_views(ls@) =~= log_text(oid@, c@.author, c@.committer, c@.message));
    Ok((ls, c.parent))
}

/// The kind printed for a tree entry: `tree` for mode `40000`, otherwise `blob`.
pub open spec fn entry_kind(mode: Seq<char>) -> Seq<char> {
    if mode == "40000"@ {
        "tree"@
    } else {
        "blob"@
    }
}

/// The listing line of a tree entry: `"<mode> <kind> <oid>\t<name>"`.
pub open spec fn tree_line_text(e: TreeEntryModel) -> Seq<char> {
    e.mode + seq![' '] + entry_kind(e.mode) + seq![' '] + e.oid + seq!['\t'] + e.name
}

/// The listing line of a tree entry.
pub fn tree_line(e: &TreeEntry) -> (res: String)
    ensures
        res@ == tree_line_text(e@),
{
    let mode = chars_of(e.mode.as_str());
    let dir = chars_of("40000");
    let kind = if chars_eq(mode.as_slice(), dir.as_slice()) {
        chars_of("tree")
    } else {
        chars_of("blob")
    };
    let mut out = mode;
    out.push(' ');
    extend_chars(&mut out, kind.as_slice());
    out.push(' ');
    extend_chars(&mut out, chars_of(e.oid.as_str()).as_slice());
    out.push('\t');
    extend_chars(&mut out, chars_of(e.path.as_str()).as_slice());
    string_of(out.as_slice())
}

/// The listing of tree entries, one line each.
pub fn tree_listing(entries: &[TreeEntry]) -> (res: Vec<String>)
    ensures
        string_views(res@) == tree_models(entries@).map_values(|e: TreeEntryModel| tree_line_text(e)),
{
    let ghost want = tree_models(entries@).map_values(|e: TreeEntryModel| tree_line_text(e));
    let mut out: Vec<String> = Vec::new();
    let mut i: usize = 0;
    while i < entries.len()
        invariant
            i <= entries@.len(),
            want == tree_models(entries@).map_values(|e: TreeEntryModel| tree_line_text(e)),
            string_views(out@) == want.take(i as int),
        decreases entries@.len() - i,
    {
        let ghost before = string_views(out@);
        out.push(tree_line(&entries[i]));
        assert(string_views(out@) == before.push(want[i as int]));
        assert(want.take(i + 1) == want.take(i as int).push(want[i as int]));
        i = i + 1;
    }
    assert(want.take(entries@.len() as int) == want);
    out
}

/// What `cat-file` shows of an object.
pub enum CatOutput {
    /// The data as text (invalid UTF-8 replaced), printed as it is.
    Text(String),
    /// The listing lines of a tree.
    Listing(Vec<String>),
}

/// What `cat-file` shows: a tree as its listing, any other object as its data decoded
/// as UTF-8 with replacement characters. Tree data cut short inside an id is left out.
pub fn cat_file_output(kind: ObjectType, data: &[u8]) -> (res: Result<CatOutput, GitError>)
    requires
        kind == ObjectType::Tree ==> !(scan_tree(data@) is Truncated),
    ensures
        kind != ObjectType::Tree ==> (res matches Ok(CatOutput::Text(s)) && s@ == utf8_lossy(data@)),
        kind == ObjectType::Tree ==> match scan_tree(data@) {
            TreeScan::Parsed(es) => res matches Ok(CatOutput::Listing(ls)) && string_views(ls@)
                == es.map_values(|e: TreeEntryModel| tree_line_text(e)),
            TreeScan::Failed(e) => res matches Err(x) && x@ == e,
            TreeScan::Truncated => false,
        },
{
    match kind {
        ObjectType::Tree => match read_tree(data) {
            Ok(entries) => Ok(CatOutput::Listing(tree_listing(entries.as_slice()))),
            Err(e) => Err(e),
        },
        _ => Ok(CatOutput::Text(utf8_decode_lossy(data))),
    }
}

/// Where `ls-tree` finds the tree to list: the object itself when it is a tree
/// (`None`), or the tree a commit names (`Some(id)`); other objects are no tree.
pub fn ls_tree_source(kind: ObjectType, data: &[u8]) -> (res: Result<Option<String>, GitError>)
    ensures
        kind == ObjectType::Tree ==> (res matches Ok(None)),
        kind == ObjectType::Commit ==> match parse_commit(utf8_lossy(data@)) {
            Ok(c) => res matches Ok(Some(s)) && s@ == c.tree,
            Err(e) => res matches Err(x) && x@ == e,
        },
        (kind == ObjectType::Blob || kind == ObjectType::Tag) ==> (res matches Err(x) && x@ == ErrorView::NotTreeish),
{
    match kind {
        ObjectType::Tree => Ok(None),
        ObjectType::Commit => match commit_read(data) {
            Ok(c) => Ok(Some(c.tree)),
            Err(e) => Err(e),
        },
        _ => Err(GitError::NotTreeish),
    }
}

/// The lines a section of `ps` takes in the status report: none for no paths, else a title
/// and one line per path.
pub open spec fn section_len(ps: Seq<Seq<char>>) -> int {
    if ps.len() == 0 {
        0
    } else {
        ps.len() + 1int
    }
}

/// A section of the report at `at`: the title, then each path indented by two spaces.
pub open spec fn has_section(t: Seq<Seq<char>>, at: int, title: Seq<char>, ps: Seq<Seq<char>>) -> bool {
    ps.len() > 0 ==> {
        &&& t[at] == title
        &&& forall|j: int| 0 <= j < ps.len() ==> #[trigger] t[at + 1 + j] == seq![' ', ' '] + ps[j]
    }
}

/// The status report is the single clean line exactly when nothing is modified, deleted
/// or untracked. Otherwise it holds, in this order and nothing else, a `modified:` line
/// followed by each modified path indented by two spaces, then the same for `deleted:`
/// and `untracked:`, each section present exactly when it has paths.
pub proof fn law_status_report(m: Seq<Seq<char>>, d: Seq<Seq<char>>, u: Seq<Seq<char>>)
    ensures
        (m.len() == 0 && d.len() == 0 && u.len() == 0) <==> status_text(m, d, u) == seq![
            "nothing to commit, working tree clean"@,
        ],
        !(m.len() == 0 && d.len() == 0 && u.len() == 0) ==> {
            let t = status_text(m, d, u);
            &&& t.len() == section_len(m) + section_len(d) + section_len(u)
            &&& has_section(t, 0, "modified:"@, m)
            &&& has_section(t, section_len(m), "deleted:"@, d)
            &&& has_section(t, section_len(m) + section_len(d), "untracked:"@, u)
        },
{
    let t = status_text(m, d, u);
    if !(m.len() == 0 && d.len() == 0 && u.len() == 0) {
        let sm = section("modified:"@, m);
        let sd = section("deleted:"@, d);
        let su = section("untracked:"@, u);
        assert(t == sm + sd + su);
        assert(sm.len() == section_len(m));
        assert(sd.len() == section_len(d));
        assert(su.len() == section_len(u));
        assert(t.len() >= 2);
        if m.len() > 0 {
            assert(t[0] == sm[0]);
            assert forall|j: int| 0 <= j < m.len() implies #[trigger] t[0 + 1 + j] == seq![' ', ' '] + m[j] by {
                assert(t[1 + j] == sm[1 + j]);
                assert(sm[1 + j] == indented(m)[j]);
            }
        }
        if d.len() > 0 {
            let a = section_len(m);
            assert(t[a] == sd[0]);
            assert forall|j: int| 0 <= j < d.len() implies #[trigger] t[a + 1 + j] == seq![' ', ' '] + d[j] by {
                assert(t[a + 1 + j] == sd[1 + j]);
                assert(sd[1 + j] == indented(d)[j]);
            }
        }
        if u.len() > 0 {
            let a = section_len(m) + section_len(d);
            assert(t[a] == su[0]);
            assert forall|j: int| 0 <= j < u.len() implies #[trigger] t[a + 1 + j] == seq![' ', ' '] + u[j] by {
                assert(t[a + 1 + j] == su[1 + j]);
                assert(su[1 + j] == indented(u)[j]);
            }
        }
    }
}

/// The lines printed for a commit: its id, author and committer lines, a blank line, the
/// whole message from its first to its last non-whitespace character indented by four
/// spaces, and a blank line.
pub proof fn law_log_lines(oid: Seq<char>, author: Seq<char>, committer: Seq<char>, message: Seq<char>)
    ensures
        log_text(oid, author, committer, message).len() == 6,
        log_text(oid, author, committer, message)[0] == seq!['c', 'o', 'm', 'm', 'i', 't', ' '] + oid,
        log_text(oid, author, committer, message)[1] == seq!['A', 'u', 't', 'h', 'o', 'r', ':', ' '] + author,
        log_text(oid, author, committer, message)[2] == seq!['D', 'a', 't', 'e', ':', ' ', ' ', ' '] + committer,
        log_text(oid, author, committer, message)[3].len() == 0,
        log_text(oid, author, committer, message)[5].len() == 0,
        exists|i: int, j: int|
            0 <= i <= j <= message.len() && log_text(oid, author, committer, message)[4] == seq![' ', ' ', ' ', ' ']
                + message.subrange(i, j) && (forall|k: int| 0 <= k < i ==> is_ws(#[trigger] message[k])) && (forall|k: int|
                j <= k < message.len() ==> is_ws(#[trigger] message[k])) && (i < j ==> !is_ws(message[i]) && !is_ws(
                message[j - 1],
            )),
{
    reveal_strlit("commit ");
    reveal_strlit("Author: ");
    reveal_strlit("Date:   ");
    reveal_strlit("    ");
    lemma_trim_run(message);
}

} // verus!
