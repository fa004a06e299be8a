//! Character-level text helpers shared by the parsers: whitespace trimming,
//! line splitting, searching and prefix stripping over `Seq<char>`.
use vstd::prelude::*;

verus! {

/// The characters with the Unicode `White_Space` property.
pub open spec fn is_ws(c: char) -> bool {
    let u = c as u32;
    (0x09 <= u && u <= 0x0d) || u == 0x20 || u == 0x85 || u == 0xa0 || u == 0x1680
        || (0x2000 <= u && u <= 0x200a) || u == 0x2028 || u == 0x2029 || u == 0x202f
        || u == 0x205f || u == 0x3000
}

/// Drops leading whitespace.
pub open spec fn trim_start(s: Seq<char>) -> Seq<char>
    decreases s.len(),
{
    if s.len() > 0 && is_ws(s[0]) {
        trim_start(s.drop_first())
    } else {
        s
    }
}

/// Drops trailing whitespace.
pub open spec fn trim_end(s: Seq<char>) -> Seq<char>
    decreases s.len(),
{
    if s.len() > 0 && is_ws(s.last()) {
        trim_end(s.drop_last())
    } else {
        s
    }
}

/// Drops whitespace at both ends.
pub open spec fn trim(s: Seq<char>) -> Seq<char> {
    trim_end(trim_start(s))
}

/// A line without its final carriage return, if it has one.
pub open spec fn strip_cr(l: Seq<char>) -> Seq<char> {
    if l.len() > 0 && l.last() == '\r' {
        l.drop_last()
    } else {
        l
    }
}

/// The lines of a text: split after each `'\n'`; a line that ended with `'\n'` loses it
/// and then a `'\r'` before it; a last piece without `'\n'` is kept as it is; an empty
/// text has no lines.
pub open spec fn lines(s: Seq<char>) -> Seq<Seq<char>>
    decreases s.len(),
{
    if s.len() == 0 {
        seq![]
    } else {
        match s.index_of_first('\n') {
            Some(i) => {
                if 0 <= i < s.len() {
                    seq![strip_cr(s.take(i))] + lines(s.skip(i + 1))
                } else {
                    seq![]
                }
            },
            None => seq![s],
        }
    }
}

/// The two sides of the first occurrence of `c`.
pub open spec fn split_once(s: Seq<char>, c: char) -> Option<(Seq<char>, Seq<char>)> {
    match s.index_of_first(c) {
        Some(i) => Some((s.take(i), s.skip(i + 1))),
        None => None,
    }
}

/// The rest of `s` after the prefix `p`, if `s` starts with it.
pub open spec fn strip_prefix(s: Seq<char>, p: Seq<char>) -> Option<Seq<char>> {
    if p.len() <= s.len() && s.take(p.len() as int) == p {
        Some(s.skip(p.len() as int))
    } else {
        None
    }
}

/// `i` is the first index of `x` in `s`.
pub open spec fn is_first_index<T>(s: Seq<T>, x: T, i: int) -> bool {
    &&& 0 <= i < s.len()
    &&& s[i] == x
    &&& forall|j: int| 0 <= j < i ==> s[j] != x
}

/// A first index found by a scan is the one `index_of_first` names.
pub proof fn lemma_first_index<T>(s: Seq<T>, x: T, i: int)
    requires
        is_first_index(s, x, i),
    ensures
        s.index_of_first(x) == Some(i),
{
    s.index_of_first_ensures(x);
    assert(s.contains(x));
    match s.index_of_first(x) {
        Some(k) => {
            if k < i {
                assert(s[k] != x);
            } else if k > i {
                assert(s[i] != x);
            }
        },
        None => {},
    }
}

/// A scan that finds nothing means `index_of_first` is `None`.
pub proof fn lemma_no_index<T>(s: Seq<T>, x: T)
    requires
        forall|j: int| 0 <= j < s.len() ==> s[j] != x,
    ensures
        s.index_of_first(x) is None,
{
    s.index_of_first_ensures(x);
    if s.contains(x) {
        let k = choose|k: int| 0 <= k < s.len() && s[k] == x;
        assert(s[k] != x);
    }
}

/// The characters of a string, in order.
pub fn chars_of(s: &str) -> (res: Vec<char>)
    ensures
        res@ == s@,
{
    let mut res: Vec<char> = Vec::new();
    for c in it: s.chars()
        invariant
            res@ == it.seq().take(it.index() as int),
            it.seq() == s@,
    {
        assert(it.seq().take(it.index() + 1) == it.seq().take(it.index() as int).push(c));
        res.push(c);
    }
    assert(s@.take(s@.len() as int) == s@);
    res
}


/// Whether `c` has the Unicode `White_Space` property.
pub fn char_is_ws(c: char) -> (res: bool)
    ensures
        res == is_ws(c),
{
    let u = c as u32;
    (0x09 <= u && u <= 0x0d) || u == 0x20 || u == 0x85 || u == 0xa0 || u == 0x1680
        || (0x2000 <= u && u <= 0x200a) || u == 0x2028 || u == 0x2029 || u == 0x202f
        || u == 0x205f || u == 0x3000
}

/// Dropping an all-whitespace prefix does not change the trimmed start.
proof fn lemma_trim_start_skip(s: Seq<char>, i: int)
    requires
        0 <= i <= s.len(),
        forall|j: int| 0 <= j < i ==> is_ws(s[j]),
    ensures
        trim_start(s) == trim_start(s.skip(i)),
    decreases i,
{
    if i > 0 {
        assert(s.drop_first().skip(i - 1) == s.skip(i));
        lemma_trim_start_skip(s.drop_first(), i - 1);
    } else {
        assert(s.skip(0) == s);
    }
}

/// Dropping an all-whitespace suffix does not change the trimmed end.
proof fn lemma_trim_end_take(s: Seq<char>, i: int)
    requires
        0 <= i <= s.len(),
        forall|j: int| i <= j < s.len() ==> is_ws(s[j]),
    ensures
        trim_end(s) == trim_end(s.take(i)),
    decreases s.len() - i,
{
    if i < s.len() {
        assert(s.drop_last().take(i) == s.take(i));
        lemma_trim_end_take(s.drop_last(), i);
    } else {
        assert(s.take(i) == s);
    }
}

/// The end of the run of whitespace that starts `s` at or after `from`.
proof fn lead_ws(s: Seq<char>, from: int) -> (i: int)
    requires
        0 <= from <= s.len(),
        forall|k: int| 0 <= k < from ==> is_ws(#[trigger] s[k]),
    ensures
        from <= i <= s.len(),
        forall|k: int| 0 <= k < i ==> is_ws(#[trigger] s[k]),
        i < s.len() ==> !is_ws(s[i]),
    decreases s.len() - from,
{
    if from < s.len() && is_ws(s[from]) {
        lead_ws(s, from + 1)
    } else {
        from
    }
}

/// The start of the run of whitespace that ends `s`, at or after `lo`, given that it
/// starts at or before `to`.
proof fn trail_ws(s: Seq<char>, lo: int, to: int) -> (j: int)
    requires
        0 <= lo <= to <= s.len(),
        forall|k: int| to <= k < s.len() ==> is_ws(#[trigger] s[k]),
    ensures
        lo <= j <= to,
        forall|k: int| j <= k < s.len() ==> is_ws(#[trigger] s[k]),
        j > lo ==> !is_ws(s[j - 1]),
    decreases to - lo,
{
    if to > lo && is_ws(s[to - 1]) {
        trail_ws(s, lo, to - 1)
    } else {
        to
    }
}

/// Trimming keeps exactly the run of `s` from its first to its last non-whitespace
/// character (nothing when it is all whitespace).
pub proof fn lemma_trim_run(s: Seq<char>)
    ensures
        exists|i: int, j: int|
            0 <= i <= j <= s.len() && trim(s) == s.subrange(i, j) && (forall|k: int|
                0 <= k < i ==> is_ws(#[trigger] s[k])) && (forall|k: int| j <= k < s.len() ==> is_ws(
                #[trigger] s[k],
            )) && (i < j ==> !is_ws(s[i]) && !is_ws(s[j - 1])),
{
    let n = s.len() as int;
    let i = lead_ws(s, 0);
    lemma_trim_start_skip(s, i);
    let t = s.skip(i);
    assert(trim_start(t) == t);
    let j = trail_ws(s, i, n);
    lemma_trim_end_take(t, j - i);
    assert forall|k: int| j - i <= k < t.len() implies is_ws(t[k]) by {
        assert(t[k] == s[k + i]);
    }
    let u = t.take(j - i);
    if j > i {
        assert(u.last() == s[j - 1]);
    }
    assert(trim_end(u) == u);
    assert(u == s.subrange(i, j));
    if i < j {
        assert(s[i] == t[0]);
    }
}

/// The characters of `s` without leading and trailing whitespace.
pub fn trim_chars(s: &[char]) -> (res: Vec<char>)
    ensures
        res@ == trim(s@),
{
    let n = s.len();
    let mut i: usize = 0;
    while i < n && char_is_ws(s[i])
        invariant
            i <= n,
            n == s@.len(),
            forall|j: int| 0 <= j < i ==> is_ws(s@[j]),
        decreases n - i,
    {
        i = i + 1;
    }
    proof {
        lemma_trim_start_skip(s@, i as int);
    }
    let mut k: usize = n;
    while k > i && char_is_ws(s[k - 1])
        invariant
            i <= k <= n,
            n == s@.len(),
            forall|j: int| k <= j < n ==> is_ws(s@[j]),
        decreases k,
    {
        k = k - 1;
    }
    let ghost t = s@.skip(i as int);
    proof {
        if i == n {
            assert(t.len() == 0);
        } else {
            assert(!is_ws(t[0]));
        }
        assert forall|j: int| k - i <= j < t.len() implies is_ws(t[j]) by {
            assert(t[j] == s@[j + i]);
        }
        lemma_trim_end_take(t, k - i);
        assert(trim_start(t) == t);
        assert(t.take(k - i) == s@.subrange(i as int, k as int));
        if k > i {
            assert(!is_ws(s@[k - 1]));
        }
    }
    let mut res: Vec<char> = Vec::new();
    let mut p: usize = i;
    while p < k
        invariant
            i <= p <= k <= n,
            n == s@.len(),
            res@ == s@.subrange(i as int, p as int),
        decreases k - p,
    {
        res.push(s[p]);
        p = p + 1;
        assert(res@ == s@.subrange(i as int, p as int));
    }
    res
}

/// The first index at or after `from` where `c` occurs.
pub fn find_char(s: &[char], c: char, from: usize) -> (res: Option<usize>)
    requires
        from <= s@.len(),
    ensures
        match res {
            Some(i) => is_first_index(s@.skip(from as int), c, i - from) && from <= i < s@.len()
                && s@[i as int] == c && forall|j: int| from <= j < i ==> s@[j] != c,
            None => forall|j: int| from <= j < s@.len() ==> s@[j] != c,
        },
{
    let mut i: usize = from;
    while i < s.len()
        invariant
            from <= i <= s@.len(),
            forall|j: int| from <= j < i ==> s@[j] != c,
        decreases s@.len() - i,
    {
        if s[i] == c {
            return Some(i);
        }
        i = i + 1;
    }
    None
}

/// The characters `s[from..to]`.
pub fn sub_chars(s: &[char], from: usize, to: usize) -> (res: Vec<char>)
    requires
        from <= to <= s@.len(),
    ensures
        res@ == s@.subrange(from as int, to as int),
{
    let mut res: Vec<char> = Vec::new();
    let mut p: usize = from;
    while p < to
        invariant
            from <= p <= to <= s@.len(),
            res@ == s@.subrange(from as int, p as int),
        decreases to - p,
    {
        res.push(s[p]);
        p = p + 1;
        assert(res@ == s@.subrange(from as int, p as int));
    }
    res
}

/// The two sides of the first `c` in `s`.
pub fn split_once_chars(s: &[char], c: char) -> (res: Option<(Vec<char>, Vec<char>)>)
    ensures
        match split_once(s@, c) {
            Some((a, b)) => res matches Some((x, y)) && x@ == a && y@ == b,
            None => res is None,
        },
{
    let n = s.len();
    let found = find_char(s, c, 0);
    match found {
        Some(i) => {
            assert(i < s@.len());
            proof {
                assert(s@.skip(0) == s@);
                lemma_first_index(s@, c, i as int);
            }
            let a = sub_chars(s, 0, i);
            let b = sub_chars(s, i + 1, n);
            assert(a@ == s@.take(i as int));
            assert(b@ == s@.skip(i + 1));
            Some((a, b))
        },
        None => {
            proof {
                lemma_no_index(s@, c);
            }
            None
        },
    }
}

/// Whether `s` starts with `p`.
pub fn starts_with_chars(s: &[char], p: &[char]) -> (res: bool)
    ensures
        res == (p@.len() <= s@.len() && s@.take(p@.len() as int) == p@),
{
    if p.len() > s.len() {
        return false;
    }
    let mut i: usize = 0;
    while i < p.len()
        invariant
            i <= p@.len() <= s@.len(),
            forall|j: int| 0 <= j < i ==> s@[j] == p@[j],
        decreases p@.len() - i,
    {
        if s[i] != p[i] {
            assert(s@.take(p@.len() as int)[i as int] != p@[i as int]);
            return false;
        }
        i = i + 1;
    }
    assert(s@.take(p@.len() as int) == p@);
    true
}

/// Whether two character sequences are equal.
pub fn chars_eq(a: &[char], b: &[char]) -> (res: bool)
    ensures
        res == (a@ == b@),
{
    if a.len() != b.len() {
        return false;
    }
    let r = starts_with_chars(a, b);
    assert(a@.take(b@.len() as int) == a@);
    r
}

/// The rest of `s` after the prefix `p`.
pub fn strip_prefix_chars(s: &[char], p: &[char]) -> (res: Option<Vec<char>>)
    ensures
        match strip_prefix(s@, p@) {
            Some(r) => res matches Some(x) && x@ == r,
            None => res is None,
        },
{
    if starts_with_chars(s, p) {
        let r = sub_chars(s, p.len(), s.len());
        assert(r@ == s@.skip(p@.len() as int));
        Some(r)
    } else {
        None
    }
}

/// One step of the line splitting: the first line and what follows it.
proof fn lemma_lines_step(s: Seq<char>, i: int)
    requires
        is_first_index(s, '\n', i),
    ensures
        lines(s) == seq![strip_cr(s.take(i))] + lines(s.skip(i + 1)),
{
    lemma_first_index(s, '\n', i);
}

/// The lines of a text.
pub fn lines_of(s: &[char]) -> (res: Vec<Vec<char>>)
    ensures
        res@.map_values(|l: Vec<char>| l@) == lines(s@),
{
    let mut res: Vec<Vec<char>> = Vec::new();
    let mut pos: usize = 0;
    assert(s@.skip(0) == s@);
    while pos < s.len()
        invariant
            pos <= s@.len(),
            res@.map_values(|l: Vec<char>| l@) + lines(s@.skip(pos as int)) == lines(s@),
        decreases s@.len() - pos,
    {
        let ghost rest = s@.skip(pos as int);
        match find_char(s, '\n', pos) {
            Some(i) => {
                let mut line = sub_chars(s, pos, i);
                if line.len() > 0 && line[line.len() - 1] == '\r' {
                    line.pop();
                }
                proof {
                    lemma_lines_step(rest, i - pos);
                    assert(rest.take(i - pos) == s@.subrange(pos as int, i as int));
                    assert(rest.skip(i - pos + 1) == s@.skip(i + 1));
                }
                let ghost before = res@.map_values(|l: Vec<char>| l@);
                res.push(line);
                assert(res@.map_values(|l: Vec<char>| l@) == before.push(line@));
                assert(before.push(line@) + lines(s@.skip(i + 1)) == before + (seq![line@] + lines(s@.skip(i + 1))));
                pos = i + 1;
            },
            None => {
                proof {
                    lemma_no_index(rest, '\n');
                    assert(lines(rest) == seq![rest]);
                }
                let line = sub_chars(s, pos, s.len());
                assert(line@ == rest);
                let ghost before = res@.map_values(|l: Vec<char>| l@);
                res.push(line);
                assert(res@.map_values(|l: Vec<char>| l@) == before.push(line@));
                assert(lines(s@.skip(s@.len() as int)) == Seq::<Seq<char>>::empty());
                pos = s.len();
            },
        }
    }
    assert(lines(s@.skip(pos as int)) == Seq::<Seq<char>>::empty());
    res
}

} // verus!
