//! Unix paths as text: joining, and the component view that `std::path` takes of them
//! (a leading root, a leading `.`, then the non-empty segments other than `.`).
use vstd::prelude::*;
use crate::convert::string_of;
use crate::text::{chars_eq, chars_of, find_char, is_first_index, lemma_first_index, lemma_no_index, sub_chars};

verus! {

/// The views of a vector of character vectors.
pub open spec fn views(v: Seq<Vec<char>>) -> Seq<Seq<char>> {
    v.map_values(|x: Vec<char>| x@)
}

/// `PathBuf::push`: an absolute part replaces the path; otherwise it is appended, with a
/// separator unless the path is empty or already ends with one.
pub open spec fn push_path(base: Seq<char>, p: Seq<char>) -> Seq<char> {
    if p.len() > 0 && p[0] == '/' {
        p
    } else if base.len() == 0 || base.last() == '/' {
        base + p
    } else {
        base + seq!['/'] + p
    }
}

/// The pieces of `s` between occurrences of `c` (at least one piece).
pub open spec fn split_on(s: Seq<char>, c: char) -> Seq<Seq<char>>
    decreases s.len(),
{
    match s.index_of_first(c) {
        Some(i) => {
            if 0 <= i < s.len() {
                seq![s.take(i)] + split_on(s.skip(i + 1), c)
            } else {
                seq![s]
            }
        },
        None => seq![s],
    }
}

/// A segment that names a component: not empty and not `.`.
pub open spec fn is_named_segment(g: Seq<char>) -> bool {
    g.len() > 0 && g != seq!['.']
}

/// The components of the body of a path.
pub open spec fn body_components(s: Seq<char>) -> Seq<Seq<char>> {
    split_on(s, '/').filter(named_segment_pred())
}

/// `is_named_segment` as a predicate value.
pub open spec fn named_segment_pred() -> spec_fn(Seq<char>) -> bool {
    |g: Seq<char>| is_named_segment(g)
}

/// The components of a path: `/` for a leading root, `.` for a leading current
/// directory, then the named segments.
pub open spec fn components(p: Seq<char>) -> Seq<Seq<char>> {
    if p.len() > 0 && p[0] == '/' {
        seq![seq!['/']] + body_components(p)
    } else if p == seq!['.'] || (p.len() >= 2 && p[0] == '.' && p[1] == '/') {
        seq![seq!['.']] + body_components(p.skip(1))
    } else {
        body_components(p)
    }
}

/// `Path::starts_with`: the components of `base` begin those of `p`.
pub open spec fn path_starts_with(p: Seq<char>, base: Seq<char>) -> bool {
    let a = components(p);
    let b = components(base);
    b.len() <= a.len() && a.take(b.len() as int) == b
}

/// The length of what precedes the body of a path: one for a leading root or a leading
/// `.` component, otherwise none.
pub open spec fn lead_len(p: Seq<char>) -> int {
    if (p.len() > 0 && p[0] == '/') || p == seq!['.'] || (p.len() >= 2 && p[0] == '.' && p[1] == '/') {
        1
    } else {
        0
    }
}

/// Path text without its leading separators and `.` segments, as `std::path::Components`
/// trims the front of what it has left to read.
pub open spec fn trim_front(s: Seq<char>) -> Seq<char>
    decreases s.len(),
{
    if s.len() == 0 {
        s
    } else if s[0] == '/' || (s[0] == '.' && (s.len() == 1 || s[1] == '/')) {
        trim_front(s.drop_first())
    } else {
        s
    }
}

/// Path text without its trailing separators and `.` segments, as `std::path::Components`
/// trims the back of what it has left to read.
pub open spec fn trim_back(s: Seq<char>) -> Seq<char>
    decreases s.len(),
{
    if s.len() == 0 {
        s
    } else if s.last() == '/' || (s.last() == '.' && (s.len() == 1 || s[s.len() - 2] == '/')) {
        trim_back(s.drop_last())
    } else {
        s
    }
}

/// Path text after its first segment and the separator that ends it.
pub open spec fn drop_segment(s: Seq<char>) -> Seq<char>
    decreases s.len(),
{
    if s.len() == 0 {
        s
    } else if s[0] == '/' {
        s.drop_first()
    } else {
        drop_segment(s.drop_first())
    }
}

/// Path text before its last segment and the separator that precedes it.
pub open spec fn drop_last_segment(s: Seq<char>) -> Seq<char>
    decreases s.len(),
{
    if s.len() == 0 {
        s
    } else if s.last() == '/' {
        s.drop_last()
    } else {
        drop_last_segment(s.drop_last())
    }
}

/// The text of a path body left after reading `n` components from it.
pub open spec fn skip_components(s: Seq<char>, n: nat) -> Seq<char>
    decreases n,
{
    if n == 0 {
        s
    } else {
        skip_components(drop_segment(trim_front(s)), (n - 1) as nat)
    }
}

/// `Path::strip_prefix`: where the components of `base` begin those of `p`, the text of
/// `p` left after them, without leading and trailing separators and `.` segments (with
/// none of `base`, only the trailing ones go, and never a leading root or `.`).
pub open spec fn path_strip_prefix(p: Seq<char>, base: Seq<char>) -> Option<Seq<char>> {
    if path_starts_with(p, base) {
        let k = components(base).len();
        let l = lead_len(p);
        if k == 0 {
            Some(p.take(l) + trim_back(p.skip(l)))
        } else {
            let rest = if l == 1 {
                skip_components(p.skip(1), (k - 1) as nat)
            } else {
                skip_components(p, k)
            };
            Some(trim_back(trim_front(rest)))
        }
    } else {
        None
    }
}

/// `Path::parent`: the text before the last component, its trailing separators and `.`
/// segments trimmed; a lone `.` has the empty parent; the root and the empty path have
/// none.
pub open spec fn path_parent(p: Seq<char>) -> Option<Seq<char>> {
    let l = lead_len(p);
    let t = trim_back(p.skip(l));
    if t.len() > 0 {
        Some(p.take(l) + trim_back(drop_last_segment(t)))
    } else if l == 1 && p[0] == '.' {
        Some(seq![])
    } else {
        None
    }
}

/// Joins two paths as `PathBuf::push` does.
pub fn push(base: &str, part: &str) -> (res: String)
    ensures
        res@ == push_path(base@, part@),
{
    let b = chars_of(base);
    let p = chars_of(part);
    if p.len() > 0 && p[0] == '/' {
        return string_of(p.as_slice());
    }
    let mut out = b;
    if out.len() > 0 && out[out.len() - 1] != '/' {
        out.push('/');
    }
    let ghost mid = out@;
    let mut i: usize = 0;
    while i < p.len()
        invariant
            i <= p@.len(),
            out@ == mid + p@.take(i as int),
        decreases p@.len() - i,
    {
        out.push(p[i]);
        i = i + 1;
        assert(p@.take(i as int) == p@.take(i - 1).push(p@[i - 1]));
    }
    assert(p@.take(p@.len() as int) == p@);
    string_of(out.as_slice())
}

/// Splits characters at each occurrence of `c`.
pub fn split_chars(s: &[char], c: char) -> (res: Vec<Vec<char>>)
    ensures
        views(res@) == split_on(s@, c),
{
    let n = s.len();
    let mut res: Vec<Vec<char>> = Vec::new();
    let mut pos: usize = 0;
    assert(s@.skip(0) == s@);
    loop
        invariant
            pos <= n,
            n == s@.len(),
            views(res@) + split_on(s@.skip(pos as int), c) == split_on(s@, c),
        decreases n - pos,
    {
        let ghost rest = s@.skip(pos as int);
        let ghost before = views(res@);
        match find_char(s, c, pos) {
            Some(i) => {
                let piece = sub_chars(s, pos, i);
                proof {
                    lemma_first_index(rest, c, i - pos);
                    assert(rest.take(i - pos) == piece@);
                    assert(rest.skip(i - pos + 1) == s@.skip(i + 1));
                }
                res.push(piece);
                assert(views(res@) == before.push(piece@));
                assert(before.push(piece@) + split_on(s@.skip(i + 1), c) == before + (seq![piece@]
                    + split_on(s@.skip(i + 1), c)));
                pos = i + 1;
            },
            None => {
                let piece = sub_chars(s, pos, n);
                proof {
                    lemma_no_index(rest, c);
                    assert(piece@ == rest);
                }
                res.push(piece);
                assert(views(res@) == before.push(piece@));
                assert(before.push(piece@) == before + seq![piece@]);
                return res;
            },
        }
    }
}

/// Whether a segment names a component.
fn named_segment(g: &[char]) -> (res: bool)
    ensures
        res == is_named_segment(g@),
{
    let dot: Vec<char> = vec!['.'];
    assert(dot@ == seq!['.']);
    g.len() > 0 && !chars_eq(g, dot.as_slice())
}

/// The components of the body of a path.
fn body_components_of(s: &[char]) -> (res: Vec<Vec<char>>)
    ensures
        views(res@) == body_components(s@),
{
    let segs = split_chars(s, '/');
    let ghost gs = views(segs@);
    let mut res: Vec<Vec<char>> = Vec::new();
    let mut i: usize = 0;
    while i < segs.len()
        invariant
            i <= segs@.len(),
            gs == views(segs@),
            views(res@) == gs.take(i as int).filter(named_segment_pred()),
        decreases segs@.len() - i,
    {
        let g = &segs[i];
        assert(gs.take(i + 1).drop_last() == gs.take(i as int));
        assert(gs.take(i + 1).last() == g@);
        assert(named_segment_pred()(g@) == is_named_segment(g@));
        assert(gs.take(i as int).push(g@) == gs.take(i + 1));
        proof {
            gs.take(i as int).lemma_filter_push(g@, named_segment_pred());
        }
        if named_segment(g.as_slice()) {
            let ghost before = views(res@);
            res.push(sub_chars(g.as_slice(), 0, g.len()));
            assert(g@.subrange(0, g@.len() as int) == g@);
            assert(views(res@) == before.push(g@));
            assert(gs.take(i + 1).filter(named_segment_pred()) == gs.take(i as int).filter(
                named_segment_pred(),
            ).push(g@));
        } else {
            assert(gs.take(i + 1).filter(named_segment_pred()) == gs.take(i as int).filter(
                named_segment_pred(),
            ));
        }
        i = i + 1;
    }
    assert(gs.take(segs@.len() as int) == gs);
    res
}

/// The components of a path.
pub fn path_components(p: &str) -> (res: Vec<Vec<char>>)
    ensures
        views(res@) == components(p@),
{
    let c = chars_of(p);
    let n = c.len();
    if n > 0 && c[0] == '/' {
        let body = body_components_of(c.as_slice());
        let mut res: Vec<Vec<char>> = Vec::new();
        let root: Vec<char> = vec!['/'];
        assert(root@ == seq!['/']);
        res.push(root);
        let ghost first = views(res@);
        assert(first[0] == seq!['/']);
        assert(first =~= seq![seq!['/']]);
        append_all(&mut res, body);
        res
    } else if (n == 1 && c[0] == '.') || (n >= 2 && c[0] == '.' && c[1] == '/') {
        if n == 1 && c[0] == '.' {
            assert(c@ =~= seq!['.']);
        }
        let rest = sub_chars(c.as_slice(), 1, n);
        assert(rest@ == c@.skip(1));
        let body = body_components_of(rest.as_slice());
        let mut res: Vec<Vec<char>> = Vec::new();
        let dot: Vec<char> = vec!['.'];
        assert(dot@ == seq!['.']);
        res.push(dot);
        assert(views(res@) =~= seq![seq!['.']]);
        append_all(&mut res, body);
        res
    } else {
        assert(!(c@ == seq!['.'])) by {
            if c@ == seq!['.'] {
                assert(c@.len() == 1 && c@[0] == '.');
            }
        }
        body_components_of(c.as_slice())
    }
}

/// Moves all of `more` to the end of `v`.
fn append_all(v: &mut Vec<Vec<char>>, more: Vec<Vec<char>>)
    ensures
        views(final(v)@) == views(old(v)@) + views(more@),
{
    let ghost start = views(v@);
    let ghost ms = views(more@);
    let mut more = more;
    let mut rev: Vec<Vec<char>> = Vec::new();
    while more.len() > 0
        invariant
            views(more@) + views(rev@).reverse() == ms,
        decreases more@.len(),
    {
        let x = more.pop().unwrap();
        let ghost before = views(rev@);
        rev.push(x);
        assert(views(rev@) == before.push(x@));
        assert(views(rev@).reverse() == seq![x@] + before.reverse());
        assert(views(more@).push(x@) == views(more@) + seq![x@]);
    }
    assert(views(more@).len() == 0);
    assert(views(rev@).reverse() == ms);
    let ghost r = views(rev@);
    while rev.len() > 0
        invariant
            views(v@) + views(rev@).reverse() == start + ms,
        decreases rev@.len(),
    {
        let x = rev.pop().unwrap();
        let ghost before = views(v@);
        let ghost rv = views(rev@);
        v.push(x);
        assert(views(v@) == before.push(x@));
        assert(rv.push(x@).reverse() == seq![x@] + rv.reverse());
    }
    assert(views(rev@).len() == 0);
}


/// Appends characters to a vector.
pub fn extend_chars(v: &mut Vec<char>, more: &[char])
    ensures
        final(v)@ == old(v)@ + more@,
{
    let ghost start = v@;
    let mut i: usize = 0;
    while i < more.len()
        invariant
            i <= more@.len(),
            v@ == start + more@.take(i as int),
        decreases more@.len() - i,
    {
        v.push(more[i]);
        i = i + 1;
        assert(more@.take(i as int) == more@.take(i - 1).push(more@[i - 1]));
    }
    assert(more@.take(more@.len() as int) == more@);
}

/// Whether the components `b` begin the components `a`.
fn components_begin(a: &[Vec<char>], b: &[Vec<char>]) -> (res: bool)
    ensures
        res == (views(b@).len() <= views(a@).len() && views(a@).take(views(b@).len() as int) == views(
            b@,
        )),
{
    if b.len() > a.len() {
        return false;
    }
    let mut i: usize = 0;
    while i < b.len()
        invariant
            i <= b@.len() <= a@.len(),
            forall|j: int| 0 <= j < i ==> a@[j]@ == b@[j]@,
        decreases b@.len() - i,
    {
        if !chars_eq(a[i].as_slice(), b[i].as_slice()) {
            assert(views(a@).take(b@.len() as int)[i as int] != views(b@)[i as int]);
            return false;
        }
        i = i + 1;
    }
    assert(views(a@).take(views(b@).len() as int) =~= views(b@));
    true
}

/// `Path::starts_with`.
pub fn starts_with(p: &str, base: &str) -> (res: bool)
    ensures
        res == path_starts_with(p@, base@),
{
    let a = path_components(p);
    let b = path_components(base);
    components_begin(a.as_slice(), b.as_slice())
}

/// The length of what precedes the body of a path.
fn lead_of(c: &[char]) -> (res: usize)
    ensures
        res as int == lead_len(c@),
{
    let n = c.len();
    if n > 0 && c[0] == '/' {
        1
    } else if n > 0 && c[0] == '.' && (n == 1 || c[1] == '/') {
        if n == 1 {
            assert(c@ =~= seq!['.']);
        }
        1
    } else {
        assert(c@ != seq!['.']) by {
            if c@ == seq!['.'] {
                assert(c@[0] == '.');
            }
        }
        0
    }
}

/// Where the text from `from` on starts once its leading separators and `.` segments are
/// trimmed.
fn trim_front_from(c: &[char], from: usize) -> (res: usize)
    requires
        from <= c@.len(),
    ensures
        from <= res <= c@.len(),
        c@.skip(res as int) == trim_front(c@.skip(from as int)),
{
    let n = c.len();
    let mut j: usize = from;
    while j < n
        invariant
            from <= j <= n,
            n == c@.len(),
            trim_front(c@.skip(j as int)) == trim_front(c@.skip(from as int)),
        decreases n - j,
    {
        let ghost t = c@.skip(j as int);
        assert(t[0] == c@[j as int]);
        assert(t.drop_first() == c@.skip(j + 1));
        if c[j] == '/' || (c[j] == '.' && (j + 1 == n || c[j + 1] == '/')) {
            assert(t.len() == 1 || t[1] == c@[j + 1]);
            j = j + 1;
        } else {
            assert(t.len() > 1 ==> t[1] == c@[j + 1]);
            return j;
        }
    }
    assert(c@.skip(j as int).len() == 0);
    j
}

/// Where the text from `from` on continues after its first segment and the separator
/// that ends it.
fn drop_segment_from(c: &[char], from: usize) -> (res: usize)
    requires
        from <= c@.len(),
    ensures
        from <= res <= c@.len(),
        c@.skip(res as int) == drop_segment(c@.skip(from as int)),
{
    let n = c.len();
    let mut j: usize = from;
    while j < n
        invariant
            from <= j <= n,
            n == c@.len(),
            drop_segment(c@.skip(j as int)) == drop_segment(c@.skip(from as int)),
        decreases n - j,
    {
        let ghost t = c@.skip(j as int);
        assert(t[0] == c@[j as int]);
        assert(t.drop_first() == c@.skip(j + 1));
        if c[j] == '/' {
            return j + 1;
        }
        j = j + 1;
    }
    assert(c@.skip(j as int).len() == 0);
    j
}

/// Where the text from `lo` to `hi` ends once its trailing separators and `.` segments
/// are trimmed.
fn trim_back_to(c: &[char], lo: usize, hi: usize) -> (res: usize)
    requires
        lo <= hi <= c@.len(),
    ensures
        lo <= res <= hi,
        c@.subrange(lo as int, res as int) == trim_back(c@.subrange(lo as int, hi as int)),
{
    let mut h: usize = hi;
    while h > lo
        invariant
            lo <= h <= hi,
            hi <= c@.len(),
            trim_back(c@.subrange(lo as int, h as int)) == trim_back(c@.subrange(lo as int, hi as int)),
        decreases h,
    {
        let ghost t = c@.subrange(lo as int, h as int);
        assert(t.last() == c@[h - 1]);
        assert(t.drop_last() == c@.subrange(lo as int, h - 1));
        if c[h - 1] == '/' || (c[h - 1] == '.' && (h - 1 == lo || c[h - 2] == '/')) {
            assert(t.len() == 1 || t[t.len() - 2] == c@[h - 2]);
            h = h - 1;
        } else {
            assert(t.len() > 1 ==> t[t.len() - 2] == c@[h - 2]);
            return h;
        }
    }
    assert(c@.subrange(lo as int, h as int).len() == 0);
    h
}

/// Where the text from `lo` to `hi` ends once its last segment and the separator before
/// it are dropped.
fn drop_last_segment_to(c: &[char], lo: usize, hi: usize) -> (res: usize)
    requires
        lo <= hi <= c@.len(),
    ensures
        lo <= res <= hi,
        c@.subrange(lo as int, res as int) == drop_last_segment(c@.subrange(lo as int, hi as int)),
{
    let mut h: usize = hi;
    while h > lo
        invariant
            lo <= h <= hi,
            hi <= c@.len(),
            drop_last_segment(c@.subrange(lo as int, h as int)) == drop_last_segment(
                c@.subrange(lo as int, hi as int),
            ),
        decreases h,
    {
        let ghost t = c@.subrange(lo as int, h as int);
        assert(t.last() == c@[h - 1]);
        assert(t.drop_last() == c@.subrange(lo as int, h - 1));
        if c[h - 1] == '/' {
            return h - 1;
        }
        h = h - 1;
    }
    assert(c@.subrange(lo as int, h as int).len() == 0);
    h
}

/// `Path::strip_prefix`.
pub fn strip_prefix(p: &str, base: &str) -> (res: Option<String>)
    ensures
        match path_strip_prefix(p@, base@) {
            Some(r) => res matches Some(x) && x@ == r,
            None => res is None,
        },
{
    let a = path_components(p);
    let b = path_components(base);
    if !components_begin(a.as_slice(), b.as_slice()) {
        return None;
    }
    let c = chars_of(p);
    let n = c.len();
    let l = lead_of(c.as_slice());
    let k = b.len();
    if k == 0 {
        let hi = trim_back_to(c.as_slice(), l, n);
        assert(c@.subrange(l as int, n as int) == c@.skip(l as int));
        let out = sub_chars(c.as_slice(), 0, hi);
        assert(out@ == c@.take(l as int) + c@.subrange(l as int, hi as int));
        return Some(string_of(out.as_slice()));
    }
    let start: usize = l;
    let mut i: usize = l;
    let mut m: usize = if l == 1 { k - 1 } else { k };
    let ghost m0 = m as nat;
    assert(l == 0 ==> c@.skip(0) == c@);
    while m > 0
        invariant
            start <= i <= n,
            n == c@.len(),
            skip_components(c@.skip(i as int), m as nat) == skip_components(c@.skip(start as int), m0),
        decreases m,
    {
        let f = trim_front_from(c.as_slice(), i);
        let d = drop_segment_from(c.as_slice(), f);
        i = d;
        m = m - 1;
    }
    let j = trim_front_from(c.as_slice(), i);
    let hi = trim_back_to(c.as_slice(), j, n);
    assert(c@.subrange(j as int, n as int) == c@.skip(j as int));
    let out = sub_chars(c.as_slice(), j, hi);
    Some(string_of(out.as_slice()))
}

/// `Path::parent`.
pub fn parent(p: &str) -> (res: Option<String>)
    ensures
        match path_parent(p@) {
            Some(r) => res matches Some(x) && x@ == r,
            None => res is None,
        },
{
    let c = chars_of(p);
    let n = c.len();
    let l = lead_of(c.as_slice());
    let t = trim_back_to(c.as_slice(), l, n);
    assert(c@.subrange(l as int, n as int) == c@.skip(l as int));
    if t > l {
        let d = drop_last_segment_to(c.as_slice(), l, t);
        let h = trim_back_to(c.as_slice(), l, d);
        let out = sub_chars(c.as_slice(), 0, h);
        assert(out@ == c@.take(l as int) + c@.subrange(l as int, h as int));
        Some(string_of(out.as_slice()))
    } else if l == 1 && c[0] == '.' {
        Some(String::new())
    } else {
        None
    }
}

} // verus!
