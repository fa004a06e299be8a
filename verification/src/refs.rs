//! References: how a name is resolved to an object id, what `HEAD` holds, where a
//! reference is updated, and the listing of references.
use vstd::prelude::*;
use crate::commit::commit_read;
use crate::convert::{string_of, utf8_lossy};
use crate::error::{ErrorView, GitError};
use crate::object::ObjectType;
use crate::path::{path_strip_prefix, strip_prefix};
use crate::repo::{push_all, repo_path, str_views, GitRepo};
use crate::text::{chars_eq, chars_of, is_ws, strip_prefix_chars, trim, trim_chars, trim_end, trim_start};
use crate::text::strip_prefix as text_strip_prefix;
use crate::order::{char_order, compare_chars, lemma_str_total, lex_fn, str_order};

verus! {

/// `"HEAD"`.
pub open spec fn head_name() -> Seq<char> {
    seq!['H', 'E', 'A', 'D']
}

/// `"ref: "`, what starts a symbolic reference.
pub open spec fn symref_tag() -> Seq<char> {
    seq!['r', 'e', 'f', ':', ' ']
}

/// An ASCII hexadecimal digit of either case (`char::is_ascii_hexdigit`).
pub open spec fn is_hex_char(c: char) -> bool {
    let u = c as u32;
    (48 <= u <= 57) || (65 <= u <= 70) || (97 <= u <= 102)
}

/// A full object id as a name: forty hexadecimal digits of either case.
pub open spec fn is_full_id(name: Seq<char>) -> bool {
    name.len() == 40 && forall|i: int| 0 <= i < name.len() ==> is_hex_char(#[trigger] name[i])
}

/// The first step of resolving a name.
#[derive(Debug)]
pub enum RefStep {
    /// The name is `HEAD`: read the `HEAD` file and go on with what it holds.
    ReadHead,
    /// The name is itself an id.
    Resolved(String),
    /// Read the first of these files that exists; if none does, the name is unknown.
    Probe(Vec<String>),
}

/// The files that may hold a reference name: the name under `.git`, then under
/// `refs/heads` and `refs/tags`.
pub open spec fn ref_candidates(gitdir: Seq<char>, name: Seq<char>) -> Seq<Seq<char>> {
    seq![
        push_all(gitdir, seq![name]),
        push_all(gitdir, seq![seq!['r', 'e', 'f', 's'], seq!['h', 'e', 'a', 'd', 's'], name]),
        push_all(gitdir, seq![seq!['r', 'e', 'f', 's'], seq!['t', 'a', 'g', 's'], name]),
    ]
}

/// The string views of a vector of strings.
pub open spec fn string_views(v: Seq<String>) -> Seq<Seq<char>> {
    v.map_values(|s: String| s@)
}

/// Decides how to resolve a name: `HEAD` is read from its file, a full id stands for
/// itself, any other name is looked up among the reference files.
pub fn resolve_ref_start(repo: &GitRepo, name: &str) -> (res: RefStep)
    ensures
        name@ == head_name() ==> res is ReadHead,
        name@ != head_name() && is_full_id(name@) ==> (res matches RefStep::Resolved(s) && s@ == name@),
        name@ != head_name() && !is_full_id(name@) ==> (res matches RefStep::Probe(v) && string_views(v@)
            == ref_candidates(repo.gitdir@, name@)),
{
    let c = chars_of(name);
    let head: Vec<char> = vec!['H', 'E', 'A', 'D'];
    assert(head@ == head_name());
    if chars_eq(c.as_slice(), head.as_slice()) {
        return RefStep::ReadHead;
    }
    if c.len() == 40 {
        let mut i: usize = 0;
        let mut all_hex = true;
        while i < 40
            invariant
                i <= 40,
                c@.len() == 40,
                all_hex <==> forall|j: int| 0 <= j < i ==> is_hex_char(#[trigger] c@[j]),
            decreases 40 - i,
        {
            let u = c[i] as u32;
            if !((48 <= u && u <= 57) || (65 <= u && u <= 70) || (97 <= u && u <= 102)) {
                all_hex = false;
            }
            i = i + 1;
        }
        if all_hex {
            return RefStep::Resolved(name.to_owned());
        }
    }
    let refs = "refs";
    let heads = "heads";
    let tags = "tags";
    proof {
        reveal_strlit("refs");
        reveal_strlit("heads");
        reveal_strlit("tags");
    }
    assert(refs@ == seq!['r', 'e', 'f', 's']);
    assert(heads@ == seq!['h', 'e', 'a', 'd', 's']);
    assert(tags@ == seq!['t', 'a', 'g', 's']);
    let a: [&str; 1] = [name];
    let b: [&str; 3] = [refs, heads, name];
    let t: [&str; 3] = [refs, tags, name];
    assert(str_views(a@) == seq![name@]);
    assert(str_views(b@) == seq![refs@, heads@, name@]);
    assert(str_views(t@) == seq![refs@, tags@, name@]);
    let mut v: Vec<String> = Vec::new();
    v.push(repo_path(repo, a.as_slice()));
    v.push(repo_path(repo, b.as_slice()));
    v.push(repo_path(repo, t.as_slice()));
    assert(string_views(v@) == ref_candidates(repo.gitdir@, name@));
    RefStep::Probe(v)
}

/// What the `HEAD` file holds.
#[derive(Debug)]
pub enum HeadRef {
    /// `ref: <name>`: resolve that name next.
    Symbolic(String),
    /// An id, held directly.
    Direct(String),
}

/// Reads the `HEAD` file: trimmed, then `ref: <name>` names a reference; anything else
/// is the id itself.
pub fn head_target(content: &str) -> (res: HeadRef)
    ensures
        match text_strip_prefix(trim(content@), symref_tag()) {
            Some(r) => res matches HeadRef::Symbolic(s) && s@ == r,
            None => res matches HeadRef::Direct(s) && s@ == trim(content@),
        },
{
    let c = chars_of(content);
    let t = trim_chars(c.as_slice());
    let tag: Vec<char> = vec!['r', 'e', 'f', ':', ' '];
    assert(tag@ == symref_tag());
    match strip_prefix_chars(t.as_slice(), tag.as_slice()) {
        Some(r) => HeadRef::Symbolic(string_of(r.as_slice())),
        None => HeadRef::Direct(string_of(t.as_slice())),
    }
}

/// The id a reference file holds: its content, trimmed.
pub fn ref_value(content: &str) -> (res: String)
    ensures
        res@ == trim(content@),
{
    let c = chars_of(content);
    string_of(trim_chars(c.as_slice()).as_slice())
}

/// The content of the first reference file found, in probing order.
pub open spec fn first_found(found: Seq<Option<Seq<char>>>) -> Option<Seq<char>>
    decreases found.len(),
{
    if found.len() == 0 {
        None
    } else {
        match found[0] {
            Some(c) => Some(c),
            None => first_found(found.drop_first()),
        }
    }
}

/// The views of optional strings.
pub open spec fn opt_views(v: Seq<Option<String>>) -> Seq<Option<Seq<char>>> {
    v.map_values(|o: Option<String>| match o {
        Some(s) => Some(s@),
        None => None,
    })
}

/// Ends a probe for `name`: `found[i]` is the content of the `i`-th candidate file where it
/// exists. The first file found holds the id, trimmed; when none exists the name is an
/// unknown revision.
pub fn resolve_probe(name: &str, found: &[Option<String>]) -> (res: Result<String, GitError>)
    ensures
        match first_found(opt_views(found@)) {
            Some(c) => res matches Ok(s) && s@ == trim(c),
            None => res matches Err(e) && e@ == ErrorView::UnknownRevision(name@),
        },
{
    let ghost fv = opt_views(found@);
    let mut i: usize = 0;
    assert(fv.skip(0) == fv);
    while i < found.len()
        invariant
            i <= found@.len(),
            fv == opt_views(found@),
            first_found(fv.skip(i as int)) == first_found(fv),
        decreases found@.len() - i,
    {
        let ghost t = fv.skip(i as int);
        assert(t[0] == fv[i as int]);
        assert(t.drop_first() == fv.skip(i + 1));
        match &found[i] {
            Some(c) => {
                return Ok(ref_value(c.as_str()));
            },
            None => {},
        }
        i = i + 1;
    }
    assert(fv.skip(i as int).len() == 0);
    Err(GitError::UnknownRevision(name.to_owned()))
}

/// The result of resolving a name, with an unknown name read as no id at all.
pub fn resolve_ref_optional(resolved: Result<String, GitError>) -> (res: Result<Option<String>, GitError>)
    ensures
        match resolved {
            Ok(s) => res matches Ok(Some(x)) && x@ == s@,
            Err(GitError::UnknownRevision(_)) => res matches Ok(None),
            Err(e) => res matches Err(x) && x@ == e@,
        },
{
    match resolved {
        Ok(oid) => Ok(Some(oid)),
        Err(GitError::UnknownRevision(_)) => Ok(None),
        Err(e) => Err(e),
    }
}

/// The tree that an object stands for: a tree itself, or the tree of a commit; other
/// objects are no tree.
pub fn resolve_treeish(oid: String, kind: ObjectType, data: &[u8]) -> (res: Result<String, GitError>)
    ensures
        kind == ObjectType::Tree ==> (res matches Ok(s) && s@ == oid@),
        kind == ObjectType::Commit ==> match crate::commit::parse_commit(utf8_lossy(data@)) {
            Ok(c) => res matches Ok(s) && s@ == c.tree,
            Err(e) => res matches Err(x) && x@ == e,
        },
        (kind == ObjectType::Blob || kind == ObjectType::Tag) ==> (res matches Err(x) && x@ == ErrorView::NotTreeish),
{
    match kind {
        ObjectType::Tree => Ok(oid),
        ObjectType::Commit => match commit_read(data) {
            Ok(c) => Ok(c.tree),
            Err(e) => Err(e),
        },
        _ => Err(GitError::NotTreeish),
    }
}

/// The file a reference update writes: for `HEAD` holding `ref: <name>`, the file of that
/// name; otherwise the file of the name itself. `head` is what the `HEAD` file holds when
/// `name` is `HEAD`.
pub fn update_ref_path(repo: &GitRepo, name: &str, head: Option<&str>) -> (res: String)
    ensures
        match head {
            Some(h) if name@ == head_name() => match text_strip_prefix(trim(h@), symref_tag()) {
                Some(r) => res@ == push_all(repo.gitdir@, seq![r]),
                None => res@ == push_all(repo.gitdir@, seq![name@]),
            },
            _ => res@ == push_all(repo.gitdir@, seq![name@]),
        },
{
    let c = chars_of(name);
    let head_v: Vec<char> = vec!['H', 'E', 'A', 'D'];
    assert(head_v@ == head_name());
    if chars_eq(c.as_slice(), head_v.as_slice()) {
        match head {
            Some(h) => match head_target(h) {
                HeadRef::Symbolic(r) => {
                    let parts: [&str; 1] = [r.as_str()];
                    assert(str_views(parts@) == seq![r@]);
                    return repo_path(repo, parts.as_slice());
                },
                HeadRef::Direct(_) => {},
            },
            None => {},
        }
    }
    let parts: [&str; 1] = [name];
    assert(str_views(parts@) == seq![name@]);
    repo_path(repo, parts.as_slice())
}

/// The content written to a reference file: the id and a line feed.
pub fn ref_line(oid: &str) -> (res: String)
    ensures
        res@ == oid@ + seq!['\n'],
{
    let mut c = chars_of(oid);
    c.push('\n');
    string_of(c.as_slice())
}


/// The views of name and id pairs.
pub open spec fn pair_views(v: Seq<(String, String)>) -> Seq<(Seq<char>, Seq<char>)> {
    v.map_values(|p: (String, String)| (p.0@, p.1@))
}

/// Pairs in the order of their first parts.
pub open spec fn sorted_by_name(v: Seq<(Seq<char>, Seq<char>)>) -> bool {
    forall|i: int, j: int| 0 <= i < j < v.len() ==> str_order(v[i].0, v[j].0) <= 0
}

/// Inserting an element adds it to the multiset.
proof fn lemma_insert_multiset<A>(s: Seq<A>, k: int, x: A)
    requires
        0 <= k <= s.len(),
    ensures
        s.insert(k, x).to_multiset() == s.to_multiset().insert(x),
{
    let t = s.insert(k, x);
    s.insert_ensures(k, x);
    assert(t.remove(k) == s);
    t.to_multiset_ensures();
    assert(t.contains(x)) by {
        assert(t[k] == x);
    }
    assert(t.to_multiset().remove(x).insert(x) =~= t.to_multiset());
}

/// The reference files as names relative to `.git` with the ids they hold, sorted by
/// name. `files` holds each file's path and
/// content; a file outside `.git` is an error.
pub fn ref_listing(repo: &GitRepo, files: &[(String, String)]) -> (res: Result<Vec<(String, String)>, GitError>)
    ensures
        (exists|i: int| 0 <= i < files@.len() && path_strip_prefix(files@[i].0@, repo.gitdir@) is None)
            ==> (res matches Err(e) && e@ == ErrorView::OutsideGitDir),
        (forall|i: int| 0 <= i < files@.len() ==> path_strip_prefix(files@[i].0@, repo.gitdir@) is Some)
            ==> (res matches Ok(v) && sorted_by_name(pair_views(v@)) && pair_views(v@).to_multiset()
            == files@.map_values(
            |f: (String, String)|
                (path_strip_prefix(f.0@, repo.gitdir@).unwrap(), trim(f.1@)),
        ).to_multiset()),
{
    let ghost want = files@.map_values(
        |f: (String, String)| (path_strip_prefix(f.0@, repo.gitdir@).unwrap(), trim(f.1@)),
    );
    proof {
        lemma_str_total();
    }
    let ghost f = lex_fn(char_order());
    let mut sorted: Vec<(String, String)> = Vec::new();
    let mut i: usize = 0;
    assert(pair_views(sorted@) == Seq::<(Seq<char>, Seq<char>)>::empty());
    assert(want.take(0) == Seq::<(Seq<char>, Seq<char>)>::empty());
    while i < files.len()
        invariant
            i <= files@.len(),
            want == files@.map_values(
                |f: (String, String)| (path_strip_prefix(f.0@, repo.gitdir@).unwrap(), trim(f.1@)),
            ),
            crate::order::is_total_order(f),
            f == lex_fn(char_order()),
            forall|j: int| 0 <= j < i ==> path_strip_prefix(#[trigger] files@[j].0@, repo.gitdir@) is Some,
            sorted_by_name(pair_views(sorted@)),
            pair_views(sorted@).to_multiset() == want.take(i as int).to_multiset(),
        decreases files@.len() - i,
    {
        let name = match strip_prefix(files[i].0.as_str(), repo.gitdir.as_str()) {
            Some(n) => n,
            None => {
                return Err(GitError::OutsideGitDir);
            },
        };
        let value = ref_value(files[i].1.as_str());
        let ghost x = (name@, value@);
        assert(x == want[i as int]);
        let nc = chars_of(name.as_str());
        let ghost ss = pair_views(sorted@);
        let mut k: usize = 0;
        while k < sorted.len()
            invariant
                k <= sorted@.len(),
                ss == pair_views(sorted@),
                nc@ == name@,
                x.0 == nc@,
                forall|j: int| 0 <= j < k ==> str_order(x.0, #[trigger] ss[j].0) >= 0,
            ensures
                k <= sorted@.len(),
                forall|j: int| 0 <= j < k ==> str_order(x.0, #[trigger] ss[j].0) >= 0,
                k < ss.len() ==> str_order(x.0, ss[k as int].0) < 0,
            decreases sorted@.len() - k,
        {
            let sk = chars_of(sorted[k].0.as_str());
            assert(ss[k as int].0 == sk@);
            if compare_chars(nc.as_slice(), sk.as_slice()) < 0 {
                break;
            }
            k = k + 1;
        }
        proof {
            lemma_insert_multiset(ss, k as int, x);
            assert(want.take(i + 1) == want.take(i as int).push(x));
            want.take(i as int).to_multiset_ensures();
            ss.insert_ensures(k as int, x);
            let ns = ss.insert(k as int, x);
            assert forall|a: int, b: int| 0 <= a < b < ns.len() implies str_order(ns[a].0, ns[b].0) <= 0 by {
                assert(f(ns[a].0, ns[b].0) == str_order(ns[a].0, ns[b].0));
                assert(f(ns[b].0, ns[a].0) == str_order(ns[b].0, ns[a].0));
                if a < k && b < k {
                    assert(ns[a] == ss[a] && ns[b] == ss[b]);
                } else if a < k && b == k {
                    assert(ns[a] == ss[a]);
                } else if a < k && b > k {
                    assert(ns[a] == ss[a] && ns[b] == ss[b - 1]);
                    assert(f(ss[a].0, ss[b - 1].0) == str_order(ss[a].0, ss[b - 1].0));
                } else if a == k {
                    assert(ns[b] == ss[b - 1]);
                    assert(str_order(x.0, ss[k as int].0) < 0);
                    assert(f(x.0, ss[k as int].0) == str_order(x.0, ss[k as int].0));
                    assert(f(ss[k as int].0, ss[b - 1].0) == str_order(ss[k as int].0, ss[b - 1].0));
                    assert(f(ss[k as int].0, x.0) == str_order(ss[k as int].0, x.0));
                    assert(f(x.0, ss[b - 1].0) == str_order(x.0, ss[b - 1].0));
                    assert(f(ss[b - 1].0, ss[k as int].0) == str_order(ss[b - 1].0, ss[k as int].0));
                    assert(f(ss[b - 1].0, x.0) == str_order(ss[b - 1].0, x.0));
                } else {
                    assert(ns[a] == ss[a - 1] && ns[b] == ss[b - 1]);
                }
            }
        }
        sorted.insert(k, (name, value));
        assert(pair_views(sorted@) == ss.insert(k as int, x));
        i = i + 1;
    }
    assert(want.take(files@.len() as int) == want);
    Ok(sorted)
}

/// A reference file written with an id reads back as that id, for every id without
/// whitespace at its ends.
pub proof fn law_ref_read_after_write(oid: Seq<char>)
    requires
        oid.len() > 0 ==> !is_ws(oid[0]) && !is_ws(oid.last()),
    ensures
        trim(oid + seq!['\n']) == oid,
{
    let t = oid + seq!['\n'];
    if oid.len() == 0 {
        assert(t[0] == '\n');
        assert(is_ws('\n'));
        assert(t.drop_first() == Seq::<char>::empty());
        assert(trim_start(t.drop_first()) == Seq::<char>::empty());
        assert(trim_start(t) == Seq::<char>::empty());
    } else {
        assert(t[0] == oid[0]);
        assert(trim_start(t) == t);
        assert(t.drop_last() == oid);
        assert(trim_end(t) == trim_end(oid));
    }
}

/// Moving `HEAD` when it names a reference writes the file that resolving that name
/// reads first.
pub proof fn law_head_update_is_resolved(gitdir: Seq<char>, head: Seq<char>)
    ensures
        text_strip_prefix(trim(head), symref_tag()) matches Some(r) ==> ref_candidates(gitdir, r)[0]
            == push_all(gitdir, seq![r]),
{
}

/// After a commit moves `HEAD` that names a reference `r` to `oid`, resolving `HEAD` reads
/// `oid` back: the update writes `oid` and a line feed to the file of `r`, which is the
/// first one probed for `r`; the first file found holds that line; and it reads as `oid`.
pub proof fn law_resolve_head_after_update(
    gitdir: Seq<char>,
    head: Seq<char>,
    oid: Seq<char>,
    found: Seq<Option<Seq<char>>>,
)
    requires
        text_strip_prefix(trim(head), symref_tag()) is Some,
        oid.len() > 0 ==> !is_ws(oid[0]) && !is_ws(oid.last()),
        found.len() > 0,
        found[0] == Some(oid + seq!['\n']),
    ensures
        ref_candidates(gitdir, text_strip_prefix(trim(head), symref_tag()).unwrap())[0] == push_all(
            gitdir,
            seq![text_strip_prefix(trim(head), symref_tag()).unwrap()],
        ),
        first_found(found) == Some(oid + seq!['\n']),
        trim(oid + seq!['\n']) == oid,
{
    law_ref_read_after_write(oid);
}

} // verus!
