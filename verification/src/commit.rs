//! Commit objects: headers `tree`, `parent`, `author` and `committer`, a blank line, then
//! the message.
use vstd::prelude::*;
use vstd::utf8::*;
use crate::convert::{string_of, utf8_decode_lossy, utf8_lossy};
use crate::error::{ErrorView, GitError};
use crate::number::{i64_decimal, signed_decimal};
use crate::clock::{local_now, utc_offset_text};
use crate::object::{object_id, object_store, object_write, ObjectType};
use crate::path::extend_chars;
use crate::text::{chars_of, is_first_index, lemma_first_index, lines, lines_of, strip_cr, strip_prefix, strip_prefix_chars, sub_chars};

verus! {

/// A commit: the tree it records, its parent if any, who wrote and committed it, and
/// its message.
#[derive(Debug, Clone)]
pub struct Commit {
    pub tree: String,
    pub parent: Option<String>,
    pub author: String,
    pub committer: String,
    pub message: String,
}

/// A commit as characters.
pub struct CommitModel {
    pub tree: Seq<char>,
    pub parent: Option<Seq<char>>,
    pub author: Seq<char>,
    pub committer: Seq<char>,
    pub message: Seq<char>,
}

/// The view of an optional string.
pub open spec fn opt_view(o: Option<String>) -> Option<Seq<char>> {
    match o {
        Some(s) => Some(s@),
        None => None,
    }
}

impl View for Commit {
    type V = CommitModel;

    open spec fn view(&self) -> CommitModel {
        CommitModel {
            tree: self.tree@,
            parent: opt_view(self.parent),
            author: self.author@,
            committer: self.committer@,
            message: self.message@,
        }
    }
}

/// `"tree "`.
pub open spec fn tree_tag() -> Seq<char> {
    seq!['t', 'r', 'e', 'e', ' ']
}

/// `"parent "`.
pub open spec fn parent_tag() -> Seq<char> {
    seq!['p', 'a', 'r', 'e', 'n', 't', ' ']
}

/// `"author "`.
pub open spec fn author_tag() -> Seq<char> {
    seq!['a', 'u', 't', 'h', 'o', 'r', ' ']
}

/// `"committer "`.
pub open spec fn committer_tag() -> Seq<char> {
    seq!['c', 'o', 'm', 'm', 'i', 't', 't', 'e', 'r', ' ']
}

/// `"unknown"`, what a commit without an author or committer line reads as.
pub open spec fn unknown() -> Seq<char> {
    seq!['u', 'n', 'k', 'n', 'o', 'w', 'n']
}

/// The message as stored: with a final line feed added when it has none.
pub open spec fn stored_message(m: Seq<char>) -> Seq<char> {
    if m.len() > 0 && m.last() == '\n' {
        m
    } else {
        m + seq!['\n']
    }
}

/// The text of a commit object.
pub open spec fn commit_text(
    tree: Seq<char>,
    parent: Option<Seq<char>>,
    author: Seq<char>,
    committer: Seq<char>,
    message: Seq<char>,
) -> Seq<char> {
    tree_tag() + tree + seq!['\n'] + match parent {
        Some(p) => parent_tag() + p + seq!['\n'],
        None => seq![],
    } + author_tag() + author + seq!['\n'] + committer_tag() + committer + seq!['\n', '\n']
        + stored_message(message)
}

/// Appends characters to a vector, from a string.
fn append_str(v: &mut Vec<char>, s: &str)
    ensures
        final(v)@ == old(v)@ + s@,
{
    let c = chars_of(s);
    extend_chars(v, c.as_slice());
}

/// The characters of a string literal's tag.
fn tag_chars(which: u8) -> (res: Vec<char>)
    ensures
        which == 0 ==> res@ == tree_tag(),
        which == 1 ==> res@ == parent_tag(),
        which == 2 ==> res@ == author_tag(),
        which != 0 && which != 1 && which != 2 ==> res@ == committer_tag(),
{
    if which == 0 {
        vec!['t', 'r', 'e', 'e', ' ']
    } else if which == 1 {
        vec!['p', 'a', 'r', 'e', 'n', 't', ' ']
    } else if which == 2 {
        vec!['a', 'u', 't', 'h', 'o', 'r', ' ']
    } else {
        vec!['c', 'o', 'm', 'm', 'i', 't', 't', 'e', 'r', ' ']
    }
}

/// The text of a commit.
pub fn commit_content(
    tree: &str,
    parent: Option<&str>,
    author: &str,
    committer: &str,
    message: &str,
) -> (res: String)
    ensures
        res@ == commit_text(
            tree@,
            match parent {
                Some(p) => Some(p@),
                None => None,
            },
            author@,
            committer@,
            message@,
        ),
{
    let mut out: Vec<char> = Vec::new();
    extend_chars(&mut out, tag_chars(0).as_slice());
    append_str(&mut out, tree);
    out.push('\n');
    let ghost after_tree = out@;
    match parent {
        Some(p) => {
            extend_chars(&mut out, tag_chars(1).as_slice());
            append_str(&mut out, p);
            out.push('\n');
        },
        None => {},
    }
    let ghost after_parent = out@;
    extend_chars(&mut out, tag_chars(2).as_slice());
    append_str(&mut out, author);
    out.push('\n');
    extend_chars(&mut out, tag_chars(3).as_slice());
    append_str(&mut out, committer);
    out.push('\n');
    out.push('\n');
    let m = chars_of(message);
    extend_chars(&mut out, m.as_slice());
    if !(m.len() > 0 && m[m.len() - 1] == '\n') {
        out.push('\n');
    }
    let ghost pv = match parent {
        Some(p) => Some(p@),
        None => None::<Seq<char>>,
    };
    let ghost mid = match pv {
        Some(p) => parent_tag() + p + seq!['\n'],
        None => Seq::<char>::empty(),
    };
    assert(after_parent == after_tree + mid);
    assert(out@ == commit_text(tree@, pv, author@, committer@, message@));
    string_of(out.as_slice())
}

/// Writes a commit object: frames the commit text as a commit and computes its id.
pub fn commit_create(
    tree: &str,
    parent: Option<&str>,
    author: &str,
    committer: &str,
    message: &str,
) -> (res: (String, Vec<u8>))
    ensures
        res.0@ == object_id(
            ObjectType::Commit,
            encode_utf8(
                commit_text(
                    tree@,
                    match parent {
                        Some(p) => Some(p@),
                        None => None,
                    },
                    author@,
                    committer@,
                    message@,
                ),
            ),
        ),
        res.1@ == object_store(
            ObjectType::Commit,
            encode_utf8(
                commit_text(
                    tree@,
                    match parent {
                        Some(p) => Some(p@),
                        None => None,
                    },
                    author@,
                    committer@,
                    message@,
                ),
            ),
        ),
{
    let text = commit_content(tree, parent, author, committer, message);
    object_write(ObjectType::Commit, text.as_str().as_bytes())
}


/// The index of the first blank-line separator `"\n\n"`.
pub open spec fn first_blank(t: Seq<char>) -> Option<int>
    decreases t.len(),
{
    if t.len() < 2 {
        None
    } else if t[0] == '\n' && t[1] == '\n' {
        Some(0)
    } else {
        match first_blank(t.drop_first()) {
            Some(i) => Some(i + 1),
            None => None,
        }
    }
}

/// A separator found by a scan is the first one.
proof fn lemma_first_blank(t: Seq<char>, i: int)
    requires
        0 <= i,
        i + 1 < t.len(),
        t[i] == '\n' && t[i + 1] == '\n',
        forall|j: int| #![trigger t[j]] 0 <= j < i ==> !(t[j] == '\n' && t[j + 1] == '\n'),
    ensures
        first_blank(t) == Some(i),
    decreases i,
{
    if i > 0 {
        let u = t.drop_first();
        assert forall|j: int| #![trigger u[j]] 0 <= j < i - 1 implies !(u[j] == '\n' && u[j + 1] == '\n') by {
            assert(u[j] == t[j + 1] && u[j + 1] == t[j + 2]);
        }
        lemma_first_blank(u, i - 1);
    }
}

/// A scan that finds no separator means there is none.
proof fn lemma_no_blank(t: Seq<char>)
    requires
        forall|j: int| #![trigger t[j]] 0 <= j && j + 1 < t.len() ==> !(t[j] == '\n' && t[j + 1] == '\n'),
    ensures
        first_blank(t) is None,
    decreases t.len(),
{
    if t.len() >= 2 {
        let u = t.drop_first();
        assert forall|j: int| #![trigger u[j]] 0 <= j && j + 1 < u.len() implies !(u[j] == '\n' && u[j + 1] == '\n') by {
            assert(u[j] == t[j + 1] && u[j + 1] == t[j + 2]);
        }
        lemma_no_blank(u);
    }
}

/// The header values read so far; a later line replaces an earlier one.
pub struct HeaderFields {
    pub tree: Option<Seq<char>>,
    pub parent: Option<Seq<char>>,
    pub author: Option<Seq<char>>,
    pub committer: Option<Seq<char>>,
}

/// Reads one header line: the first of the tags `tree `, `parent `, `author `,
/// `committer ` that starts it sets that field; other lines change nothing.
pub open spec fn header_step(f: HeaderFields, line: Seq<char>) -> HeaderFields {
    match strip_prefix(line, tree_tag()) {
        Some(v) => HeaderFields { tree: Some(v), ..f },
        None => match strip_prefix(line, parent_tag()) {
            Some(v) => HeaderFields { parent: Some(v), ..f },
            None => match strip_prefix(line, author_tag()) {
                Some(v) => HeaderFields { author: Some(v), ..f },
                None => match strip_prefix(line, committer_tag()) {
                    Some(v) => HeaderFields { committer: Some(v), ..f },
                    None => f,
                },
            },
        },
    }
}

/// The header values of header lines, read in order.
pub open spec fn header_fields(ls: Seq<Seq<char>>) -> HeaderFields
    decreases ls.len(),
{
    if ls.len() == 0 {
        HeaderFields { tree: None, parent: None, author: None, committer: None }
    } else {
        header_step(header_fields(ls.drop_last()), ls.last())
    }
}

/// What commit text reads as: the headers are the lines before the first blank line,
/// the message everything after it; a commit must name a tree; a missing author or
/// committer reads as `unknown`.
pub open spec fn parse_commit(t: Seq<char>) -> Result<CommitModel, ErrorView> {
    match first_blank(t) {
        None => Err(ErrorView::InvalidCommit),
        Some(i) => {
            let f = header_fields(lines(t.take(i)));
            match f.tree {
                None => Err(ErrorView::CommitMissingTree),
                Some(tr) => Ok(
                    CommitModel {
                        tree: tr,
                        parent: f.parent,
                        author: match f.author {
                            Some(a) => a,
                            None => unknown(),
                        },
                        committer: match f.committer {
                            Some(c) => c,
                            None => unknown(),
                        },
                        message: t.skip(i + 2),
                    },
                ),
            }
        },
    }
}

/// An optional field in exec form against its model.
pub open spec fn opt_chars(o: Option<Vec<char>>) -> Option<Seq<char>> {
    match o {
        Some(v) => Some(v@),
        None => None,
    }
}

/// Reads a commit object's data, decoding it as UTF-8 with replacement characters.
pub fn commit_read(data: &[u8]) -> (res: Result<Commit, GitError>)
    ensures
        match parse_commit(utf8_lossy(data@)) {
            Ok(c) => res matches Ok(x) && x@ == c,
            Err(e) => res matches Err(x) && x@ == e,
        },
{
    let text = utf8_decode_lossy(data);
    let t = chars_of(text.as_str());
    let n = t.len();
    let mut i: usize = 0;
    while i < n && i + 1 < n && !(t[i] == '\n' && t[i + 1] == '\n')
        invariant
            i <= n,
            n == t@.len(),
            forall|j: int| #![trigger t@[j]] 0 <= j < i ==> !(t@[j] == '\n' && t@[j + 1] == '\n'),
        decreases n - i,
    {
        i = i + 1;
    }
    if n - i < 2 {
        proof {
            lemma_no_blank(t@);
        }
        return Err(GitError::InvalidCommit);
    }
    proof {
        lemma_first_blank(t@, i as int);
    }
    let headers = sub_chars(t.as_slice(), 0, i);
    assert(headers@ == t@.take(i as int));
    let ls = lines_of(headers.as_slice());
    let ghost lv = ls@.map_values(|l: Vec<char>| l@);
    let mut tree: Option<Vec<char>> = None;
    let mut parent: Option<Vec<char>> = None;
    let mut author: Option<Vec<char>> = None;
    let mut committer: Option<Vec<char>> = None;
    let tree_t = tag_chars(0);
    let parent_t = tag_chars(1);
    let author_t = tag_chars(2);
    let committer_t = tag_chars(3);
    let mut k: usize = 0;
    while k < ls.len()
        invariant
            k <= ls@.len(),
            lv == ls@.map_values(|l: Vec<char>| l@),
            tree_t@ == tree_tag(),
            parent_t@ == parent_tag(),
            author_t@ == author_tag(),
            committer_t@ == committer_tag(),
            header_fields(lv.take(k as int)) == (HeaderFields {
                tree: opt_chars(tree),
                parent: opt_chars(parent),
                author: opt_chars(author),
                committer: opt_chars(committer),
            }),
        decreases ls@.len() - k,
    {
        let line = ls[k].as_slice();
        assert(lv.take(k + 1).drop_last() == lv.take(k as int));
        assert(lv.take(k + 1).last() == line@);
        match strip_prefix_chars(line, tree_t.as_slice()) {
            Some(v) => {
                tree = Some(v);
            },
            None => match strip_prefix_chars(line, parent_t.as_slice()) {
                Some(v) => {
                    parent = Some(v);
                },
                None => match strip_prefix_chars(line, author_t.as_slice()) {
                    Some(v) => {
                        author = Some(v);
                    },
                    None => match strip_prefix_chars(line, committer_t.as_slice()) {
                        Some(v) => {
                            committer = Some(v);
                        },
                        None => {},
                    },
                },
            },
        }
        k = k + 1;
    }
    assert(lv.take(ls@.len() as int) == lv);
    let message = sub_chars(t.as_slice(), i + 2, n);
    assert(message@ == t@.skip(i + 2));
    let tree = match tree {
        Some(v) => string_of(v.as_slice()),
        None => {
            return Err(GitError::CommitMissingTree);
        },
    };
    let unknown_v: Vec<char> = vec!['u', 'n', 'k', 'n', 'o', 'w', 'n'];
    assert(unknown_v@ == unknown());
    let parent = match parent {
        Some(v) => Some(string_of(v.as_slice())),
        None => None,
    };
    let author = match author {
        Some(v) => string_of(v.as_slice()),
        None => string_of(unknown_v.as_slice()),
    };
    let committer = match committer {
        Some(v) => string_of(v.as_slice()),
        None => string_of(unknown_v.as_slice()),
    };
    let message = string_of(message.as_slice());
    Ok(Commit { tree, parent, author, committer, message })
}


/// Lines joined by line feeds.
pub open spec fn join_lines(ls: Seq<Seq<char>>) -> Seq<char>
    decreases ls.len(),
{
    if ls.len() == 0 {
        seq![]
    } else if ls.len() == 1 {
        ls[0]
    } else {
        ls[0] + seq!['\n'] + join_lines(ls.drop_first())
    }
}

/// A header line: not empty, without line feed, not ending with a carriage return.
pub open spec fn plain_line(l: Seq<char>) -> bool {
    &&& l.len() > 0
    &&& forall|i: int| 0 <= i < l.len() ==> l[i] != '\n'
    &&& l.last() != '\r'
}

/// A plain line followed by a line feed and more text is the first line.
proof fn lemma_lines_cons(l: Seq<char>, r: Seq<char>)
    requires
        plain_line(l),
    ensures
        lines(l + (seq!['\n'] + r)) == seq![l] + lines(r),
{
    let t = l + (seq!['\n'] + r);
    assert(is_first_index(t, '\n', l.len() as int)) by {
        assert forall|j: int| 0 <= j < l.len() implies t[j] != '\n' by {
            assert(t[j] == l[j]);
        }
    }
    lemma_first_index(t, '\n', l.len() as int);
    assert(t.take(l.len() as int) == l);
    assert(t.skip(l.len() as int + 1) == r);
    assert(strip_cr(l) == l);
}

/// A plain line is one line.
proof fn lemma_lines_single(l: Seq<char>)
    requires
        plain_line(l),
    ensures
        lines(l) == seq![l],
{
    crate::text::lemma_no_index(l, '\n');
}

/// Joined plain lines split back into the same lines.
proof fn lemma_join_lines(ls: Seq<Seq<char>>)
    requires
        ls.len() > 0,
        forall|k: int| 0 <= k < ls.len() ==> plain_line(#[trigger] ls[k]),
    ensures
        lines(join_lines(ls)) == ls,
    decreases ls.len(),
{
    assert(plain_line(ls[0]));
    if ls.len() == 1 {
        lemma_lines_single(ls[0]);
        assert(ls == seq![ls[0]]);
    } else {
        let rest = ls.drop_first();
        assert forall|k: int| 0 <= k < rest.len() implies plain_line(#[trigger] rest[k]) by {
            assert(rest[k] == ls[k + 1]);
        }
        lemma_join_lines(rest);
        assert(join_lines(ls) == ls[0] + (seq!['\n'] + join_lines(rest)));
        lemma_lines_cons(ls[0], join_lines(rest));
        assert(seq![ls[0]] + rest == ls);
    }
}

/// Joined plain lines hold no blank line and do not end with a line feed.
proof fn lemma_join_shape(ls: Seq<Seq<char>>)
    requires
        ls.len() > 0,
        forall|k: int| 0 <= k < ls.len() ==> plain_line(#[trigger] ls[k]),
    ensures
        forall|j: int| #![trigger join_lines(ls)[j]]
            0 <= j && j + 1 < join_lines(ls).len() ==> !(join_lines(ls)[j] == '\n' && join_lines(
                ls,
            )[j + 1] == '\n'),
        join_lines(ls).last() != '\n',
        join_lines(ls).len() > 0,
    decreases ls.len(),
{
    let t = join_lines(ls);
    let l0 = ls[0];
    assert(plain_line(l0));
    if ls.len() > 1 {
        let rest = ls.drop_first();
        assert forall|k: int| 0 <= k < rest.len() implies plain_line(#[trigger] rest[k]) by {
            assert(rest[k] == ls[k + 1]);
        }
        lemma_join_shape(rest);
        let r = join_lines(rest);
        assert(t == l0 + (seq!['\n'] + r));
        assert(plain_line(rest[0]));
        assert forall|j: int| #![trigger t[j]] 0 <= j && j + 1 < t.len() implies !(t[j] == '\n'
            && t[j + 1] == '\n') by {
            if j < l0.len() {
                assert(t[j] == l0[j]);
            } else if j == l0.len() {
                assert(t[j + 1] == r[0]);
                assert(r[0] == rest[0][0]);
            } else {
                assert(t[j] == r[j - l0.len() - 1]);
            }
        }
        assert(t.last() == r.last());
    }
}

/// The header lines of a commit.
pub open spec fn commit_header_lines(
    tree: Seq<char>,
    parent: Option<Seq<char>>,
    author: Seq<char>,
    committer: Seq<char>,
) -> Seq<Seq<char>> {
    match parent {
        Some(p) => seq![tree_tag() + tree, parent_tag() + p, author_tag() + author, committer_tag() + committer],
        None => seq![tree_tag() + tree, author_tag() + author, committer_tag() + committer],
    }
}

/// A header value that a commit holds and reads back unchanged: no line feed, and no
/// carriage return at its end.
pub open spec fn plain_value(v: Seq<char>) -> bool {
    &&& forall|i: int| 0 <= i < v.len() ==> v[i] != '\n'
    &&& !(v.len() > 0 && v.last() == '\r')
}

/// A tag followed by a plain value is a plain line.
proof fn lemma_tagged_plain(tag: Seq<char>, v: Seq<char>)
    requires
        tag.len() > 0,
        forall|i: int| 0 <= i < tag.len() ==> tag[i] != '\n',
        tag.last() == ' ',
        plain_value(v),
    ensures
        plain_line(tag + v),
{
    let l = tag + v;
    assert forall|i: int| 0 <= i < l.len() implies l[i] != '\n' by {
        if i < tag.len() {
            assert(l[i] == tag[i]);
        } else {
            assert(l[i] == v[i - tag.len()]);
        }
    }
    if v.len() > 0 {
        assert(l.last() == v.last());
    } else {
        assert(l.last() == tag.last());
    }
}

/// A line that starts with one tag does not start with a tag of another first letter.
proof fn lemma_strip_tag(tag: Seq<char>, v: Seq<char>, other: Seq<char>)
    requires
        tag.len() > 0,
        other.len() > 0,
        tag[0] != other[0],
    ensures
        strip_prefix(tag + v, other) is None,
        strip_prefix(tag + v, tag) == Some(v),
{
    let l = tag + v;
    if other.len() <= l.len() && l.take(other.len() as int) == other {
        assert(l.take(other.len() as int)[0] == l[0]);
    }
    assert(l.take(tag.len() as int) == tag);
    assert(l.skip(tag.len() as int) == v);
}

/// The tags are plain and start with distinct letters.
proof fn lemma_tags()
    ensures
        tree_tag().len() > 0 && parent_tag().len() > 0 && author_tag().len() > 0 && committer_tag().len() > 0,
        tree_tag()[0] == 't' && parent_tag()[0] == 'p' && author_tag()[0] == 'a' && committer_tag()[0] == 'c',
        tree_tag().last() == ' ' && parent_tag().last() == ' ' && author_tag().last() == ' '
            && committer_tag().last() == ' ',
        forall|i: int| 0 <= i < tree_tag().len() ==> tree_tag()[i] != '\n',
        forall|i: int| 0 <= i < parent_tag().len() ==> parent_tag()[i] != '\n',
        forall|i: int| 0 <= i < author_tag().len() ==> author_tag()[i] != '\n',
        forall|i: int| 0 <= i < committer_tag().len() ==> committer_tag()[i] != '\n',
{
}

/// The header lines of a commit are plain, make up its text before the blank line, and
/// read back as its values.
#[verifier::rlimit(60)]
#[verifier::spinoff_prover]
proof fn lemma_commit_headers(
    tree: Seq<char>,
    parent: Option<Seq<char>>,
    author: Seq<char>,
    committer: Seq<char>,
    message: Seq<char>,
)
    requires
        plain_value(tree),
        plain_value(author),
        plain_value(committer),
        parent matches Some(p) ==> plain_value(p),
    ensures
        forall|k: int| 0 <= k < commit_header_lines(tree, parent, author, committer).len()
            ==> plain_line(#[trigger] commit_header_lines(tree, parent, author, committer)[k]),
        commit_header_lines(tree, parent, author, committer).len() > 0,
        commit_text(tree, parent, author, committer, message) == join_lines(
            commit_header_lines(tree, parent, author, committer),
        ) + seq!['\n', '\n'] + stored_message(message),
        header_fields(commit_header_lines(tree, parent, author, committer)) == (HeaderFields {
            tree: Some(tree),
            parent,
            author: Some(author),
            committer: Some(committer),
        }),
{
    lemma_tags();
    let tt = tree_tag();
    let pt = parent_tag();
    let at = author_tag();
    let ct = committer_tag();
    lemma_tagged_plain(tt, tree);
    lemma_tagged_plain(at, author);
    lemma_tagged_plain(ct, committer);
    let ls = commit_header_lines(tree, parent, author, committer);
    let lt = tt + tree;
    let la = at + author;
    let lc = ct + committer;
    lemma_strip_tag(tt, tree, pt);
    lemma_strip_tag(at, author, tt);
    lemma_strip_tag(at, author, pt);
    lemma_strip_tag(ct, committer, tt);
    lemma_strip_tag(ct, committer, pt);
    lemma_strip_tag(ct, committer, at);
    let sm = stored_message(message);
    match parent {
        Some(p) => {
            lemma_tagged_plain(pt, p);
            let lp = pt + p;
            lemma_strip_tag(pt, p, tt);
            assert forall|k: int| 0 <= k < ls.len() implies plain_line(#[trigger] ls[k]) by {
                if k == 0 {
                } else if k == 1 {
                } else if k == 2 {
                } else {
                }
            }
            assert(ls.drop_first().drop_first().drop_first() == seq![lc]);
            assert(ls.drop_first().drop_first() == seq![la, lc]);
            assert(ls.drop_first() == seq![lp, la, lc]);
            assert(join_lines(seq![lc]) == lc);
            assert(seq![la, lc].drop_first() == seq![lc]);
            assert(join_lines(seq![la, lc]) == la + seq!['\n'] + lc);
            assert(join_lines(ls.drop_first().drop_first()) == la + seq!['\n'] + lc);
            assert(join_lines(ls.drop_first()) == lp + seq!['\n'] + (la + seq!['\n'] + lc));
            assert(join_lines(ls) == lt + seq!['\n'] + (lp + seq!['\n'] + (la + seq!['\n'] + lc)));
            assert(ls.drop_last() == seq![lt, lp, la]);
            assert(ls.drop_last().drop_last() == seq![lt, lp]);
            assert(ls.drop_last().drop_last().drop_last() == seq![lt]);
            assert(seq![lt].drop_last() == Seq::<Seq<char>>::empty());
            let f0 = HeaderFields { tree: None, parent: None, author: None, committer: None };
            assert(header_fields(Seq::<Seq<char>>::empty()) == f0);
            let f1 = HeaderFields { tree: Some(tree), ..f0 };
            assert(header_fields(seq![lt]) == f1);
            let f2 = HeaderFields { parent: Some(p), ..f1 };
            assert(header_fields(seq![lt, lp]) == f2);
            let f3 = HeaderFields { author: Some(author), ..f2 };
            assert(header_fields(seq![lt, lp, la]) == f3);
            assert(header_fields(ls) == HeaderFields { committer: Some(committer), ..f3 });
        },
        None => {
            assert forall|k: int| 0 <= k < ls.len() implies plain_line(#[trigger] ls[k]) by {
                if k == 0 {
                } else if k == 1 {
                } else {
                }
            }
            assert(ls.drop_first().drop_first() == seq![lc]);
            assert(ls.drop_first() == seq![la, lc]);
            assert(join_lines(seq![lc]) == lc);
            assert(seq![la, lc].drop_first() == seq![lc]);
            assert(join_lines(seq![la, lc]) == la + seq!['\n'] + lc);
            assert(join_lines(ls.drop_first()) == la + seq!['\n'] + lc);
            assert(join_lines(ls) == lt + seq!['\n'] + (la + seq!['\n'] + lc));
            assert(ls.drop_last() == seq![lt, la]);
            assert(ls.drop_last().drop_last() == seq![lt]);
            assert(seq![lt].drop_last() == Seq::<Seq<char>>::empty());
            let f0 = HeaderFields { tree: None, parent: None, author: None, committer: None };
            assert(header_fields(Seq::<Seq<char>>::empty()) == f0);
            let f1 = HeaderFields { tree: Some(tree), ..f0 };
            assert(header_fields(seq![lt]) == f1);
            let f3 = HeaderFields { author: Some(author), ..f1 };
            assert(header_fields(seq![lt, la]) == f3);
            assert(header_fields(ls) == HeaderFields { committer: Some(committer), ..f3 });
        },
    }
}

/// Reading a commit's text gives back what made it, with the message as stored (a final
/// line feed added when it had none), for header values without line feeds and without
/// a carriage return at their end.
pub proof fn law_read_commit_after_create(
    tree: Seq<char>,
    parent: Option<Seq<char>>,
    author: Seq<char>,
    committer: Seq<char>,
    message: Seq<char>,
)
    requires
        plain_value(tree),
        plain_value(author),
        plain_value(committer),
        parent matches Some(p) ==> plain_value(p),
    ensures
        parse_commit(commit_text(tree, parent, author, committer, message)) == Ok::<CommitModel, ErrorView>(
            CommitModel {
                tree,
                parent,
                author,
                committer,
                message: stored_message(message),
            },
        ),
{
    lemma_commit_headers(tree, parent, author, committer, message);
    let ls = commit_header_lines(tree, parent, author, committer);
    lemma_join_lines(ls);
    lemma_join_shape(ls);
    let h = join_lines(ls);
    let sm = stored_message(message);
    let t = h + seq!['\n', '\n'] + sm;
    assert forall|j: int| #![trigger t[j]] 0 <= j < h.len() implies !(t[j] == '\n' && t[j + 1] == '\n') by {
        if j + 1 < h.len() {
            assert(t[j] == h[j] && t[j + 1] == h[j + 1]);
        } else {
            assert(t[j] == h.last());
        }
    }
    lemma_first_blank(t, h.len() as int);
    assert(t.take(h.len() as int) == h);
    assert(t.skip(h.len() as int + 2) == sm);
}


/// A signature: `"<name> <<email>> <timestamp> <offset>"`.
pub open spec fn signature_text(name: Seq<char>, email: Seq<char>, timestamp: int, offset: Seq<char>) -> Seq<char> {
    name + seq![' ', '<'] + email + seq!['>', ' '] + signed_decimal(timestamp) + seq![' '] + offset
}

/// The name a signature uses: the given name, else the user's name, else `unknown`.
pub open spec fn signature_name(name: Option<Seq<char>>, user: Option<Seq<char>>) -> Seq<char> {
    match name {
        Some(n) => n,
        None => match user {
            Some(u) => u,
            None => unknown(),
        },
    }
}

/// The email a signature uses: the given one, else `unknown@example.com`.
pub open spec fn signature_email(email: Option<Seq<char>>) -> Seq<char> {
    match email {
        Some(e) => e,
        None => seq!['u', 'n', 'k', 'n', 'o', 'w', 'n', '@', 'e', 'x', 'a', 'm', 'p', 'l', 'e', '.', 'c', 'o', 'm'],
    }
}

/// Formats a signature.
pub fn format_signature(name: &str, email: &str, timestamp: i64, offset: &str) -> (res: String)
    ensures
        res@ == signature_text(name@, email@, timestamp as int, offset@),
{
    let mut out: Vec<char> = Vec::new();
    append_str(&mut out, name);
    out.push(' ');
    out.push('<');
    append_str(&mut out, email);
    out.push('>');
    out.push(' ');
    let ts = i64_decimal(timestamp);
    extend_chars(&mut out, ts.as_slice());
    out.push(' ');
    append_str(&mut out, offset);
    assert(out@ =~= signature_text(name@, email@, timestamp as int, offset@));
    string_of(out.as_slice())
}

/// The view of an optional string slice.
pub open spec fn opt_str(o: Option<&str>) -> Option<Seq<char>> {
    match o {
        Some(s) => Some(s@),
        None => None,
    }
}

/// Signs with the current local time. `name`, `user` and `email` are the values of the
/// environment variables for the name, the user and the email, where they are set.
pub fn signature(name: Option<&str>, user: Option<&str>, email: Option<&str>) -> (res: String)
    ensures
        exists|timestamp: i64, offset: Seq<char>|
            utc_offset_text(offset) && res@ == signature_text(
                signature_name(opt_str(name), opt_str(user)),
                signature_email(opt_str(email)),
                timestamp as int,
                offset,
            ),
{
    let unknown_v: Vec<char> = vec!['u', 'n', 'k', 'n', 'o', 'w', 'n'];
    assert(unknown_v@ == unknown());
    let n = match name {
        Some(n) => n.to_owned(),
        None => match user {
            Some(u) => u.to_owned(),
            None => string_of(unknown_v.as_slice()),
        },
    };
    let default_email: Vec<char> = vec!['u', 'n', 'k', 'n', 'o', 'w', 'n', '@', 'e', 'x', 'a', 'm', 'p', 'l', 'e', '.', 'c', 'o', 'm'];
    assert(default_email@ == signature_email(None));
    let e = match email {
        Some(e) => e.to_owned(),
        None => string_of(default_email.as_slice()),
    };
    let (timestamp, offset) = local_now();
    let res = format_signature(n.as_str(), e.as_str(), timestamp, offset.as_str());
    assert(res@ == signature_text(
        signature_name(opt_str(name), opt_str(user)),
        signature_email(opt_str(email)),
        timestamp as int,
        offset@,
    ));
    res
}

} // verus!
