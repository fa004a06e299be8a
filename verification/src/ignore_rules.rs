//! Matching paths against `.gitignore` rules, done by the `ignore` crate.
use vstd::prelude::*;
use crate::convert::string_of;
use crate::refs::string_views;
use crate::path::{components, path_components, views};
use crate::text::{char_is_ws, chars_eq, chars_of, find_char, is_ws, lines, lines_of, strip_prefix, strip_prefix_chars};

verus! {

/// A line without its leading byte-order marks.
pub open spec fn trim_bom(l: Seq<char>) -> Seq<char>
    decreases l.len(),
{
    if l.len() > 0 && l[0] == '\u{feff}' {
        trim_bom(l.drop_first())
    } else {
        l
    }
}

/// The rule lines of an ignore file's text: its lines, the first without leading
/// byte-order marks, as `GitignoreBuilder::add` reads a file.
pub open spec fn rule_lines(text: Seq<char>) -> Seq<Seq<char>> {
    let ls = lines(text);
    if ls.len() == 0 {
        ls
    } else {
        ls.update(0, trim_bom(ls[0]))
    }
}

/// The characters of a line without its leading byte-order marks.
fn bom_trimmed(l: &[char]) -> (res: Vec<char>)
    ensures
        res@ == trim_bom(l@),
{
    let mut i: usize = 0;
    assert(l@.skip(0) == l@);
    while i < l.len() && l[i] == '\u{feff}'
        invariant
            i <= l@.len(),
            trim_bom(l@.skip(i as int)) == trim_bom(l@),
        decreases l@.len() - i,
    {
        assert(l@.skip(i as int).drop_first() == l@.skip(i + 1));
        i = i + 1;
    }
    let mut out: Vec<char> = Vec::new();
    let mut j: usize = i;
    while j < l.len()
        invariant
            i <= j <= l@.len(),
            out@ == l@.subrange(i as int, j as int),
        decreases l@.len() - j,
    {
        out.push(l[j]);
        j = j + 1;
        assert(l@.subrange(i as int, j as int) == l@.subrange(i as int, j - 1).push(l@[j - 1]));
    }
    assert(l@.subrange(i as int, l@.len() as int) == l@.skip(i as int));
    out
}

/// The rule lines of an ignore file's text.
pub fn rule_lines_of(text: &str) -> (res: Vec<String>)
    ensures
        string_views(res@) == rule_lines(text@),
{
    let c = chars_of(text);
    let ls = lines_of(c.as_slice());
    let ghost lv = ls@.map_values(|l: Vec<char>| l@);
    let mut res: Vec<String> = Vec::new();
    let mut i: usize = 0;
    while i < ls.len()
        invariant
            i <= ls@.len(),
            lv == ls@.map_values(|l: Vec<char>| l@),
            lv == lines(text@),
            string_views(res@) == rule_lines(text@).take(i as int),
        decreases ls@.len() - i,
    {
        let line = if i == 0 {
            bom_trimmed(ls[i].as_slice())
        } else {
            let mut v: Vec<char> = Vec::new();
            crate::path::extend_chars(&mut v, ls[i].as_slice());
            v
        };
        assert(line@ == rule_lines(text@)[i as int]);
        let ghost before = string_views(res@);
        res.push(string_of(line.as_slice()));
        assert(string_views(res@) == before.push(line@));
        assert(rule_lines(text@).take(i + 1) == rule_lines(text@).take(i as int).push(line@));
        i = i + 1;
    }
    assert(rule_lines(text@).take(ls@.len() as int) == rule_lines(text@));
    res
}

/// A rule line that adds no glob: a comment, or whitespace alone (the crate trims trailing
/// whitespace and skips what is then empty).
pub open spec fn inert_line(l: Seq<char>) -> bool {
    (l.len() > 0 && l[0] == '#') || forall|j: int| 0 <= j < l.len() ==> is_ws(#[trigger] l[j])
}

/// Rule lines none of which adds a glob: the matcher built from them is empty.
pub open spec fn rules_inert(ls: Seq<Seq<char>>) -> bool {
    forall|i: int| 0 <= i < ls.len() ==> inert_line(#[trigger] ls[i])
}

/// The root a `GitignoreBuilder` keeps: the given one without a leading `./`.
pub open spec fn matcher_root(root: Seq<char>) -> Seq<char> {
    match strip_prefix(root, seq!['.', '/']) {
        Some(r) => r,
        None => root,
    }
}

/// What the matcher makes of a path before matching it: a leading `./` goes; then, unless
/// its root is `.` (compared as paths are, by components) or the path has no `/`, a
/// leading copy of the root goes, and after it one `/`.
pub open spec fn matcher_path(root: Seq<char>, path: Seq<char>) -> Seq<char> {
    let p1 = match strip_prefix(path, seq!['.', '/']) {
        Some(r) => r,
        None => path,
    };
    let r = matcher_root(root);
    if components(r) != seq![seq!['.']] && p1.contains('/') {
        match strip_prefix(p1, r) {
            Some(p2) => match strip_prefix(p2, seq!['/']) {
                Some(p3) => p3,
                None => p2,
            },
            None => p1,
        }
    } else {
        p1
    }
}

/// Whether a path has a root: it starts with `/`.
pub open spec fn rooted(p: Seq<char>) -> bool {
    p.len() > 0 && p[0] == '/'
}

/// Whether asking the matcher built under `root` from `lines` about `path` fails its
/// assertion that the path lies under the root: the matcher has some rule and the
/// stripped path still has a root.
pub open spec fn matcher_rejects(root: Seq<char>, lines: Seq<Seq<char>>, path: Seq<char>) -> bool {
    !rules_inert(lines) && rooted(matcher_path(root, path))
}

/// Whether a rule line adds no glob.
fn line_is_inert(l: &str) -> (res: bool)
    ensures
        res == inert_line(l@),
{
    let c = chars_of(l);
    if c.len() > 0 && c[0] == '#' {
        return true;
    }
    assert(!(l@.len() > 0 && l@[0] == '#'));
    let mut i: usize = 0;
    while i < c.len()
        invariant
            i <= c@.len(),
            c@ == l@,
            !(l@.len() > 0 && l@[0] == '#'),
            forall|j: int| 0 <= j < i ==> is_ws(#[trigger] c@[j]),
        decreases c@.len() - i,
    {
        if !char_is_ws(c[i]) {
            assert(!is_ws(l@[i as int]));
            assert(!(forall|j: int| 0 <= j < l@.len() ==> is_ws(#[trigger] l@[j])));
            return false;
        }
        i = i + 1;
    }
    true
}

/// Whether no rule line adds a glob.
fn lines_are_inert(ls: &[String]) -> (res: bool)
    ensures
        res == rules_inert(string_views(ls@)),
{
    let mut i: usize = 0;
    while i < ls.len()
        invariant
            i <= ls@.len(),
            forall|k: int| 0 <= k < i ==> inert_line(#[trigger] string_views(ls@)[k]),
        decreases ls@.len() - i,
    {
        assert(string_views(ls@)[i as int] == ls@[i as int]@);
        if !line_is_inert(ls[i].as_str()) {
            return false;
        }
        i = i + 1;
    }
    true
}

/// The characters after a prefix, or all of them when the prefix is not there.
fn strip_or_keep(s: &[char], p: &[char]) -> (res: Vec<char>)
    ensures
        res@ == match strip_prefix(s@, p@) {
            Some(r) => r,
            None => s@,
        },
{
    match strip_prefix_chars(s, p) {
        Some(r) => r,
        None => {
            let mut v: Vec<char> = Vec::new();
            crate::path::extend_chars(&mut v, s);
            v
        },
    }
}

/// What the matcher under `root` makes of `path` before matching it.
pub fn matcher_path_of(root: &str, path: &str) -> (res: Vec<char>)
    ensures
        res@ == matcher_path(root@, path@),
{
    let dot_slash: Vec<char> = vec!['.', '/'];
    let slash: Vec<char> = vec!['/'];
    assert(dot_slash@ == seq!['.', '/']);
    assert(slash@ == seq!['/']);
    let pc = chars_of(path);
    let rc = chars_of(root);
    let p1 = strip_or_keep(pc.as_slice(), dot_slash.as_slice());
    let r = strip_or_keep(rc.as_slice(), dot_slash.as_slice());
    let rs = crate::convert::string_of(r.as_slice());
    assert(rs@ == matcher_root(root@));
    let comps = path_components(rs.as_str());
    let dot: Vec<char> = vec!['.'];
    assert(dot@ == seq!['.']);
    let is_dot = comps.len() == 1 && chars_eq(comps[0].as_slice(), dot.as_slice());
    proof {
        let cv = views(comps@);
        assert(cv == components(matcher_root(root@)));
        assert(cv.len() == comps@.len());
        if comps@.len() == 1 {
            assert(cv.len() == 1 && cv[0] == comps@[0]@);
            assert(cv == seq![comps@[0]@]);
        }
        if cv == seq![seq!['.']] {
            assert(cv.len() == 1);
            assert(comps@[0]@ == cv[0]);
        }
    }
    let has_slash = match find_char(p1.as_slice(), '/', 0) {
        Some(k) => {
            assert(p1@[k as int] == '/');
            true
        },
        None => false,
    };
    assert(has_slash == p1@.contains('/'));
    assert(is_dot == (components(matcher_root(root@)) == seq![seq!['.']]));
    if !is_dot && has_slash {
        match strip_prefix_chars(p1.as_slice(), r.as_slice()) {
            Some(p2) => strip_or_keep(p2.as_slice(), slash.as_slice()),
            None => p1,
        }
    } else {
        p1
    }
}

/// Whether asking the matcher built under `root` from `lines` about `path` fails its
/// assertion.
pub fn matcher_rejects_path(root: &str, lines: &[String], path: &str) -> (res: bool)
    ensures
        res == matcher_rejects(root@, string_views(lines@), path@),
{
    if lines_are_inert(lines) {
        return false;
    }
    let m = matcher_path_of(root, path);
    m.len() > 0 && m[0] == '/'
}

/// Whether the `ignore` crate's matcher, built under `root` from the rule `lines`,
/// ignores `path` (a directory when `is_dir`) or one of its parents; `None` when the
/// matcher cannot be built.
pub uninterp spec fn gitignore_ignores(root: Seq<char>, lines: Seq<Seq<char>>, path: Seq<char>, is_dir: bool) -> Option<bool>;

/// Builds an `ignore::gitignore::GitignoreBuilder` under `root`, adds each line with
/// `add_line` (a line the crate rejects is skipped, as `GitignoreBuilder::add` does),
/// then asks the built matcher `matched_path_or_any_parents(path, is_dir).is_ignore()`.
/// The answer is a function of the arguments; what it is is the crate's rule set and is
/// not stated. A path on which the matcher's assertion that it lies under the root would
/// fail is left out; lines that add no glob leave the matcher empty, and an empty matcher
/// answers before that assertion.
#[verifier::external_body]
pub fn gitignore_check(root: &str, lines: &[String], path: &str, is_dir: bool) -> (res: Option<bool>)
    requires
        !matcher_rejects(root@, string_views(lines@), path@),
    ensures
        res == gitignore_ignores(root@, string_views(lines@), path@, is_dir),
{
    let mut builder = ignore::gitignore::GitignoreBuilder::new(root);
    for line in lines {
        let _ = builder.add_line(None, line);
    }
    match builder.build() {
        Ok(gi) => Some(gi.matched_path_or_any_parents(path, is_dir).is_ignore()),
        Err(_) => None,
    }
}

} // verus!
