//! Orders: the lexicographic order of sequences built on an order of their elements, the
//! order of strings (by character code, which is the order of their UTF-8 bytes), and
//! the order `std::path` gives paths (component by component).
use vstd::prelude::*;
use crate::path::views;
use crate::text::chars_eq;

verus! {

/// A three-way comparison that is a total order whose ties are equal values.
pub open spec fn is_total_order<T>(f: spec_fn(T, T) -> int) -> bool {
    &&& forall|x: T, y: T| #[trigger] f(x, y) == 0 <==> x == y
    &&& forall|x: T, y: T| #[trigger] f(x, y) == -f(y, x)
    &&& forall|x: T, y: T| -1 <= #[trigger] f(x, y) <= 1
    &&& forall|x: T, y: T, z: T| #[trigger] f(x, y) < 0 && #[trigger] f(y, z) < 0 ==> f(x, z) < 0
}

/// Lexicographic comparison: the first differing element decides; a proper prefix comes
/// first.
pub open spec fn lex_order<T>(a: Seq<T>, b: Seq<T>, f: spec_fn(T, T) -> int) -> int
    decreases a.len(),
{
    if a.len() == 0 {
        if b.len() == 0 {
            0
        } else {
            -1
        }
    } else if b.len() == 0 {
        1
    } else if f(a[0], b[0]) != 0 {
        f(a[0], b[0])
    } else {
        lex_order(a.drop_first(), b.drop_first(), f)
    }
}

/// Lexicographic comparison as a comparison value.
pub open spec fn lex_fn<T>(f: spec_fn(T, T) -> int) -> spec_fn(Seq<T>, Seq<T>) -> int {
    |a: Seq<T>, b: Seq<T>| lex_order(a, b, f)
}

/// Lexicographic comparison is a total order when the element comparison is.
pub proof fn lemma_lex_total<T>(f: spec_fn(T, T) -> int)
    requires
        is_total_order(f),
    ensures
        is_total_order(lex_fn(f)),
{
    let g = lex_fn(f);
    assert forall|x: Seq<T>, y: Seq<T>| #[trigger] g(x, y) == 0 <==> x == y by {
        lemma_lex_eq(x, y, f);
    }
    assert forall|x: Seq<T>, y: Seq<T>| #[trigger] g(x, y) == -g(y, x) by {
        lemma_lex_antisym(x, y, f);
    }
    assert forall|x: Seq<T>, y: Seq<T>| -1 <= #[trigger] g(x, y) <= 1 by {
        lemma_lex_range(x, y, f);
    }
    assert forall|x: Seq<T>, y: Seq<T>, z: Seq<T>| #[trigger] g(x, y) < 0 && #[trigger] g(y, z) < 0
        implies g(x, z) < 0 by {
        lemma_lex_trans(x, y, z, f);
    }
}

proof fn lemma_lex_range<T>(a: Seq<T>, b: Seq<T>, f: spec_fn(T, T) -> int)
    requires
        is_total_order(f),
    ensures
        -1 <= lex_order(a, b, f) <= 1,
    decreases a.len(),
{
    if a.len() > 0 && b.len() > 0 && f(a[0], b[0]) == 0 {
        lemma_lex_range(a.drop_first(), b.drop_first(), f);
    }
}

proof fn lemma_lex_eq<T>(a: Seq<T>, b: Seq<T>, f: spec_fn(T, T) -> int)
    requires
        is_total_order(f),
    ensures
        lex_order(a, b, f) == 0 <==> a == b,
    decreases a.len(),
{
    if a.len() > 0 && b.len() > 0 {
        if f(a[0], b[0]) == 0 {
            lemma_lex_eq(a.drop_first(), b.drop_first(), f);
            if a.drop_first() == b.drop_first() {
                assert(a == seq![a[0]] + a.drop_first());
                assert(b == seq![b[0]] + b.drop_first());
            }
            if a == b {
                assert(a.drop_first() == b.drop_first());
            }
        } else {
            assert(a[0] != b[0]);
        }
    } else if a.len() == 0 && b.len() > 0 {
        assert(a != b);
    } else if b.len() == 0 && a.len() > 0 {
        assert(a != b);
    } else {
        assert(a == b);
    }
}

proof fn lemma_lex_antisym<T>(a: Seq<T>, b: Seq<T>, f: spec_fn(T, T) -> int)
    requires
        is_total_order(f),
    ensures
        lex_order(a, b, f) == -lex_order(b, a, f),
    decreases a.len(),
{
    if a.len() > 0 && b.len() > 0 {
        assert(f(a[0], b[0]) == -f(b[0], a[0]));
        if f(a[0], b[0]) == 0 {
            lemma_lex_antisym(a.drop_first(), b.drop_first(), f);
        }
    }
}

proof fn lemma_lex_trans<T>(a: Seq<T>, b: Seq<T>, c: Seq<T>, f: spec_fn(T, T) -> int)
    requires
        is_total_order(f),
        lex_order(a, b, f) < 0,
        lex_order(b, c, f) < 0,
    ensures
        lex_order(a, c, f) < 0,
    decreases a.len(),
{
    if a.len() == 0 {
    } else {
        assert(b.len() > 0);
        assert(c.len() > 0);
        let fab = f(a[0], b[0]);
        let fbc = f(b[0], c[0]);
        if fab == 0 && fbc == 0 {
            assert(a[0] == b[0] && b[0] == c[0]);
            assert(f(a[0], c[0]) == 0);
            lemma_lex_trans(a.drop_first(), b.drop_first(), c.drop_first(), f);
        } else if fab == 0 {
            assert(a[0] == b[0]);
        } else if fbc == 0 {
            assert(b[0] == c[0]);
        } else {
            assert(fab < 0 && fbc < 0);
        }
    }
}

/// Characters compared by their codes.
pub open spec fn char_order() -> spec_fn(char, char) -> int {
    |x: char, y: char| if (x as u32) < (y as u32) {
        -1
    } else if (x as u32) == (y as u32) {
        0
    } else {
        1
    }
}

/// The order of strings: lexicographic by character code, which is the order of their
/// UTF-8 bytes.
pub open spec fn str_order(a: Seq<char>, b: Seq<char>) -> int {
    lex_order(a, b, char_order())
}

/// Character comparison is a total order.
pub proof fn lemma_char_total()
    ensures
        is_total_order(char_order()),
{
    assert forall|x: char, y: char| #[trigger] char_order()(x, y) == 0 <==> x == y by {
        if (x as u32) == (y as u32) {
            vstd::utf8::char_u32_cast(x, x as u32);
            vstd::utf8::char_u32_cast(y, y as u32);
        }
    }
}

/// The rank of a path component kind: root, current directory, parent directory, then
/// named components, in the order `std::path::Component` declares them.
pub open spec fn component_rank(c: Seq<char>) -> int {
    if c == seq!['/'] {
        1
    } else if c == seq!['.'] {
        2
    } else if c == seq!['.', '.'] {
        3
    } else {
        4
    }
}

/// Path components compared: by kind, then named components by their text.
pub open spec fn component_order() -> spec_fn(Seq<char>, Seq<char>) -> int {
    |x: Seq<char>, y: Seq<char>| if component_rank(x) < component_rank(y) {
        -1
    } else if component_rank(x) > component_rank(y) {
        1
    } else {
        str_order(x, y)
    }
}

/// The order `std::path` gives paths: lexicographic over their components.
pub open spec fn components_order(a: Seq<Seq<char>>, b: Seq<Seq<char>>) -> int {
    lex_order(a, b, component_order())
}

/// Component comparison is a total order.
pub proof fn lemma_component_total()
    ensures
        is_total_order(component_order()),
{
    lemma_char_total();
    lemma_lex_total(char_order());
    let s = lex_fn(char_order());
    assert forall|x: Seq<char>, y: Seq<char>| #[trigger] component_order()(x, y) == 0 <==> x == y by {
        assert(s(x, y) == str_order(x, y));
    }
    assert forall|x: Seq<char>, y: Seq<char>| #[trigger] component_order()(x, y) == -component_order()(
        y,
        x,
    ) by {
        assert(s(x, y) == str_order(x, y));
    }
    assert forall|x: Seq<char>, y: Seq<char>| -1 <= #[trigger] component_order()(x, y) <= 1 by {
        assert(s(x, y) == str_order(x, y));
    }
    assert forall|x: Seq<char>, y: Seq<char>, z: Seq<char>| #[trigger] component_order()(x, y) < 0
        && #[trigger] component_order()(y, z) < 0 implies component_order()(x, z) < 0 by {
        assert(s(x, y) == str_order(x, y));
        assert(s(y, z) == str_order(y, z));
        assert(s(x, z) == str_order(x, z));
    }
}

/// The order of component lists is a total order.
pub proof fn lemma_components_total()
    ensures
        is_total_order(lex_fn(component_order())),
{
    lemma_component_total();
    lemma_lex_total(component_order());
}

/// The order of strings is a total order.
pub proof fn lemma_str_total()
    ensures
        is_total_order(lex_fn(char_order())),
{
    lemma_char_total();
    lemma_lex_total(char_order());
}


/// Compares two strings as characters.
pub fn compare_chars(a: &[char], b: &[char]) -> (res: i8)
    ensures
        res as int == str_order(a@, b@),
{
    let mut i: usize = 0;
    assert(a@.skip(0) == a@ && b@.skip(0) == b@);
    while i < a.len() && i < b.len() && a[i] == b[i]
        invariant
            i <= a@.len(),
            i <= b@.len(),
            str_order(a@, b@) == str_order(a@.skip(i as int), b@.skip(i as int)),
        decreases a@.len() - i,
    {
        proof {
            lemma_char_total();
            assert(a@.skip(i as int).drop_first() == a@.skip(i + 1));
            assert(b@.skip(i as int).drop_first() == b@.skip(i + 1));
            assert(char_order()(a@[i as int], b@[i as int]) == 0);
        }
        i = i + 1;
    }
    if i == a.len() {
        if i == b.len() {
            0
        } else {
            -1
        }
    } else if i == b.len() {
        1
    } else {
        assert(a@.skip(i as int)[0] == a@[i as int]);
        assert(b@.skip(i as int)[0] == b@[i as int]);
        if (a[i] as u32) < (b[i] as u32) {
            -1
        } else {
            proof {
                if (a@[i as int] as u32) == (b@[i as int] as u32) {
                    vstd::utf8::char_u32_cast(a@[i as int], a@[i as int] as u32);
                    vstd::utf8::char_u32_cast(b@[i as int], b@[i as int] as u32);
                }
            }
            1
        }
    }
}

/// The rank of a path component.
fn rank_of(c: &[char]) -> (res: i8)
    ensures
        res as int == component_rank(c@),
{
    let root: Vec<char> = vec!['/'];
    let cur: Vec<char> = vec!['.'];
    let up: Vec<char> = vec!['.', '.'];
    assert(root@ == seq!['/'] && cur@ == seq!['.'] && up@ == seq!['.', '.']);
    if chars_eq(c, root.as_slice()) {
        1
    } else if chars_eq(c, cur.as_slice()) {
        2
    } else if chars_eq(c, up.as_slice()) {
        3
    } else {
        4
    }
}

/// Compares two path components.
pub fn compare_component(a: &[char], b: &[char]) -> (res: i8)
    ensures
        res as int == component_order()(a@, b@),
{
    let ra = rank_of(a);
    let rb = rank_of(b);
    if ra < rb {
        -1
    } else if ra > rb {
        1
    } else {
        compare_chars(a, b)
    }
}

/// Compares two paths given as component lists, as `std::path` orders paths.
pub fn compare_components(a: &[Vec<char>], b: &[Vec<char>]) -> (res: i8)
    ensures
        res as int == components_order(views(a@), views(b@)),
{
    let ghost va = views(a@);
    let ghost vb = views(b@);
    let mut i: usize = 0;
    assert(va.skip(0) == va && vb.skip(0) == vb);
    loop
        invariant
            i <= a@.len(),
            i <= b@.len(),
            va == views(a@),
            vb == views(b@),
            components_order(va, vb) == components_order(va.skip(i as int), vb.skip(i as int)),
        decreases a@.len() - i,
    {
        if i == a.len() {
            if i == b.len() {
                return 0;
            } else {
                return -1;
            }
        } else if i == b.len() {
            return 1;
        }
        let c = compare_component(a[i].as_slice(), b[i].as_slice());
        assert(va.skip(i as int)[0] == a@[i as int]@);
        assert(vb.skip(i as int)[0] == b@[i as int]@);
        if c != 0 {
            return c;
        }
        assert(va.skip(i as int).drop_first() == va.skip(i + 1));
        assert(vb.skip(i as int).drop_first() == vb.skip(i + 1));
        i = i + 1;
    }
}

} // verus!
