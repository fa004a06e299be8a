//! The index: the staged files, one line `"<oid>\t<path>"` each, and the operations that
//! `add`, `rm` and `status` perform on it.
use vstd::prelude::*;
use crate::convert::string_of;
use crate::text::{chars_of, is_first_index, lemma_first_index, lines, lines_of, split_once, split_once_chars, strip_cr};
use crate::path::{components, extend_chars, path_components, views};
use crate::order::{component_order, components_order, compare_components, lemma_components_total, lex_fn};

verus! {

/// A staged file: its path relative to the work tree and the id of its blob.
#[derive(Debug, Clone)]
pub struct IndexEntry {
    pub path: String,
    pub oid: String,
}

/// A staged file as characters.
pub struct IndexEntryModel {
    pub path: Seq<char>,
    pub oid: Seq<char>,
}

impl View for IndexEntry {
    type V = IndexEntryModel;

    open spec fn view(&self) -> IndexEntryModel {
        IndexEntryModel { path: self.path@, oid: self.oid@ }
    }
}

/// The views of index entries.
pub open spec fn index_models(es: Seq<IndexEntry>) -> Seq<IndexEntryModel> {
    es.map_values(|e: IndexEntry| e@)
}

/// The entry that an index line holds: the id before the first tab, the path after it.
pub open spec fn index_line_entry(l: Seq<char>) -> Option<IndexEntryModel> {
    match split_once(l, '\t') {
        Some((o, p)) => Some(IndexEntryModel { path: p, oid: o }),
        None => None,
    }
}

/// The entries of index lines; lines without a tab are skipped.
pub open spec fn index_entries(ls: Seq<Seq<char>>) -> Seq<IndexEntryModel>
    decreases ls.len(),
{
    if ls.len() == 0 {
        seq![]
    } else {
        match index_line_entry(ls[0]) {
            Some(e) => seq![e] + index_entries(ls.drop_first()),
            None => index_entries(ls.drop_first()),
        }
    }
}

/// The entries of index text.
pub open spec fn index_of_text(text: Seq<char>) -> Seq<IndexEntryModel> {
    index_entries(lines(text))
}

/// The line written for an entry.
pub open spec fn index_line(e: IndexEntryModel) -> Seq<char> {
    e.oid + seq!['\t'] + e.path + seq!['\n']
}

/// The text written for entries.
pub open spec fn index_text(es: Seq<IndexEntryModel>) -> Seq<char>
    decreases es.len(),
{
    if es.len() == 0 {
        seq![]
    } else {
        index_line(es[0]) + index_text(es.drop_first())
    }
}

/// Reads index text.
pub fn read_index(text: &str) -> (res: Vec<IndexEntry>)
    ensures
        index_models(res@) == index_of_text(text@),
{
    let chars = chars_of(text);
    let ls = lines_of(chars.as_slice());
    let ghost lv = ls@.map_values(|l: Vec<char>| l@);
    let mut res: Vec<IndexEntry> = Vec::new();
    let mut i: usize = 0;
    assert(lv.skip(0) == lv);
    while i < ls.len()
        invariant
            i <= ls@.len(),
            lv == ls@.map_values(|l: Vec<char>| l@),
            lv == lines(text@),
            index_models(res@) + index_entries(lv.skip(i as int)) == index_entries(lv),
        decreases ls@.len() - i,
    {
        let ghost rest = lv.skip(i as int);
        assert(rest[0] == ls@[i as int]@);
        assert(rest.drop_first() == lv.skip(i + 1));
        match split_once_chars(ls[i].as_slice(), '\t') {
            Some((o, p)) => {
                let e = IndexEntry { path: string_of(p.as_slice()), oid: string_of(o.as_slice()) };
                let ghost before = index_models(res@);
                let ghost tail = index_entries(lv.skip(i + 1));
                res.push(e);
                assert(index_models(res@) == before.push(e@));
                assert(before.push(e@) + tail == before + (seq![e@] + tail));
            },
            None => {},
        }
        i = i + 1;
    }
    assert(lv.skip(ls@.len() as int) == Seq::<Seq<char>>::empty());
    assert(index_models(res@) + Seq::<IndexEntryModel>::empty() == index_models(res@));
    res
}

/// Appending an entry at the back appends its line.
proof fn lemma_index_text_push(es: Seq<IndexEntryModel>, e: IndexEntryModel)
    ensures
        index_text(es.push(e)) == index_text(es) + index_line(e),
    decreases es.len(),
{
    if es.len() > 0 {
        assert(es.push(e).drop_first() == es.drop_first().push(e));
        assert(es.push(e)[0] == es[0]);
        lemma_index_text_push(es.drop_first(), e);
        assert(index_line(es[0]) + (index_text(es.drop_first()) + index_line(e)) == (index_line(
            es[0],
        ) + index_text(es.drop_first())) + index_line(e));
    } else {
        assert(es.push(e).drop_first() == Seq::<IndexEntryModel>::empty());
        assert(es.push(e)[0] == e);
        assert(index_text(es.push(e).drop_first()) == Seq::<char>::empty());
        assert(index_text(es) == Seq::<char>::empty());
        assert(index_line(e) + Seq::<char>::empty() == index_line(e));
        assert(Seq::<char>::empty() + index_line(e) == index_line(e));
    }
}

/// Writes index text: one line `"<oid>\t<path>\n"` per entry.
pub fn write_index(entries: &[IndexEntry]) -> (res: String)
    ensures
        res@ == index_text(index_models(entries@)),
{
    let ghost ms = index_models(entries@);
    let mut out: Vec<char> = Vec::new();
    let mut i: usize = 0;
    while i < entries.len()
        invariant
            i <= entries@.len(),
            ms == index_models(entries@),
            out@ == index_text(ms.take(i as int)),
        decreases entries@.len() - i,
    {
        let e = &entries[i];
        let oid = chars_of(e.oid.as_str());
        let path = chars_of(e.path.as_str());
        let ghost before = out@;
        extend_chars(&mut out, oid.as_slice());
        out.push('\t');
        extend_chars(&mut out, path.as_slice());
        out.push('\n');
        proof {
            assert(out@ == before + index_line(ms[i as int]));
            assert(ms.take(i + 1) == ms.take(i as int).push(ms[i as int]));
            lemma_index_text_push(ms.take(i as int), ms[i as int]);
        }
        i = i + 1;
    }
    assert(ms.take(entries@.len() as int) == ms);
    string_of(out.as_slice())
}

/// An entry that the index text holds and reads back unchanged: the id has no tab and no
/// line feed, the path has no line feed and does not end with a carriage return.
pub open spec fn storable_index_entry(e: IndexEntryModel) -> bool {
    &&& forall|i: int| 0 <= i < e.oid.len() ==> e.oid[i] != '\t' && e.oid[i] != '\n'
    &&& forall|i: int| 0 <= i < e.path.len() ==> e.path[i] != '\n'
    &&& !(e.path.len() > 0 && e.path.last() == '\r')
}

/// The lines of one entry's line followed by more text.
proof fn lemma_lines_of_entry(e: IndexEntryModel, rest: Seq<char>)
    requires
        storable_index_entry(e),
    ensures
        lines(index_line(e) + rest) == seq![e.oid + seq!['\t'] + e.path] + lines(rest),
{
    let body = e.oid + seq!['\t'] + e.path;
    let t = index_line(e) + rest;
    assert(t == body + (seq!['\n'] + rest));
    assert(is_first_index(t, '\n', body.len() as int)) by {
        assert forall|j: int| 0 <= j < body.len() implies t[j] != '\n' by {
            assert(t[j] == body[j]);
            if j < e.oid.len() {
                assert(body[j] == e.oid[j]);
            } else if j > e.oid.len() {
                assert(body[j] == e.path[j - e.oid.len() - 1]);
            }
        }
    }
    lemma_first_index(t, '\n', body.len() as int);
    assert(t.take(body.len() as int) == body);
    assert(t.skip(body.len() as int + 1) == rest);
    assert(strip_cr(body) == body) by {
        if e.path.len() > 0 {
            assert(body.last() == e.path.last());
        } else {
            assert(body.last() == '\t');
        }
    }
}

/// The entry that one written line holds.
proof fn lemma_entry_of_line(e: IndexEntryModel)
    requires
        storable_index_entry(e),
    ensures
        index_line_entry(e.oid + seq!['\t'] + e.path) == Some(e),
{
    let body = e.oid + seq!['\t'] + e.path;
    assert(is_first_index(body, '\t', e.oid.len() as int)) by {
        assert forall|j: int| 0 <= j < e.oid.len() implies body[j] != '\t' by {
            assert(body[j] == e.oid[j]);
        }
    }
    lemma_first_index(body, '\t', e.oid.len() as int);
    assert(body.take(e.oid.len() as int) == e.oid);
    assert(body.skip(e.oid.len() as int + 1) == e.path);
}

/// Reading the index text written for entries gives back the entries, for entries whose
/// id has no tab or line feed and whose path has no line feed and does not end with a
/// carriage return.
pub proof fn law_read_index_after_write(es: Seq<IndexEntryModel>)
    requires
        forall|i: int| 0 <= i < es.len() ==> storable_index_entry(#[trigger] es[i]),
    ensures
        index_of_text(index_text(es)) == es,
    decreases es.len(),
{
    if es.len() > 0 {
        let t = es.drop_first();
        assert forall|i: int| 0 <= i < t.len() implies storable_index_entry(#[trigger] t[i]) by {
            assert(t[i] == es[i + 1]);
        }
        law_read_index_after_write(t);
        assert(storable_index_entry(es[0]));
        lemma_lines_of_entry(es[0], index_text(t));
        lemma_entry_of_line(es[0]);
        let ls = lines(index_text(es));
        assert(ls.drop_first() == lines(index_text(t)));
        assert(seq![es[0]] + t == es);
    } else {
        assert(lines(index_text(es)) == Seq::<Seq<char>>::empty());
        assert(es == Seq::<IndexEntryModel>::empty());
    }
}


/// The id staged for each path after the entries in order: later entries win.
pub open spec fn staged(es: Seq<IndexEntryModel>) -> Map<Seq<char>, Seq<char>>
    decreases es.len(),
{
    if es.len() == 0 {
        Map::empty()
    } else {
        staged(es.drop_last()).insert(es.last().path, es.last().oid)
    }
}

/// No two entries share a path.
pub open spec fn distinct_paths(es: Seq<IndexEntryModel>) -> bool {
    forall|i: int, j: int| 0 <= i < j < es.len() ==> es[i].path != es[j].path
}

/// The entries are exactly the map: one entry per path, each with the map's id.
pub open spec fn lists_map(es: Seq<IndexEntryModel>, m: Map<Seq<char>, Seq<char>>) -> bool {
    &&& distinct_paths(es)
    &&& forall|i: int| 0 <= i < es.len() ==> m.contains_key(#[trigger] es[i].path) && m[es[i].path]
        == es[i].oid
    &&& forall|k: Seq<char>| m.contains_key(k) ==> exists|i: int| 0 <= i < es.len() && #[trigger] es[i].path == k
}

/// The entries come in the order `std::path` gives their paths.
pub open spec fn sorted_by_path(es: Seq<IndexEntryModel>) -> bool {
    forall|i: int, j: int|
        0 <= i < j < es.len() ==> components_order(components(es[i].path), components(es[j].path))
            <= 0
}

/// Replacing the entry of a path keeps the entries a listing of the updated map.
proof fn lemma_lists_map_update(
    es: Seq<IndexEntryModel>,
    m: Map<Seq<char>, Seq<char>>,
    j: int,
    e: IndexEntryModel,
)
    requires
        lists_map(es, m),
        0 <= j < es.len(),
        es[j].path == e.path,
    ensures
        lists_map(es.update(j, e), m.insert(e.path, e.oid)),
{
    let es2 = es.update(j, e);
    let m2 = m.insert(e.path, e.oid);
    assert forall|k: Seq<char>| m2.contains_key(k) implies exists|i: int|
        0 <= i < es2.len() && #[trigger] es2[i].path == k by {
        if k == e.path {
            assert(es2[j].path == k);
        } else {
            let i = choose|i: int| 0 <= i < es.len() && #[trigger] es[i].path == k;
            assert(es2[i].path == k);
        }
    }
}

/// Adding the entry of a new path keeps the entries a listing of the updated map.
proof fn lemma_lists_map_push(es: Seq<IndexEntryModel>, m: Map<Seq<char>, Seq<char>>, e: IndexEntryModel)
    requires
        lists_map(es, m),
        forall|i: int| 0 <= i < es.len() ==> es[i].path != e.path,
    ensures
        lists_map(es.push(e), m.insert(e.path, e.oid)),
{
    let es2 = es.push(e);
    let m2 = m.insert(e.path, e.oid);
    assert forall|k: Seq<char>| m2.contains_key(k) implies exists|i: int|
        0 <= i < es2.len() && #[trigger] es2[i].path == k by {
        if k == e.path {
            assert(es2[es.len() as int].path == k);
        } else {
            let i = choose|i: int| 0 <= i < es.len() && #[trigger] es[i].path == k;
            assert(es2[i].path == k);
        }
    }
}

/// Merges entries into a list with one entry per path, later entries winning.
fn merge_entries(all: &[&IndexEntry]) -> (res: Vec<IndexEntry>)
    ensures
        lists_map(index_models(res@), staged(all@.map_values(|e: &IndexEntry| e@))),
{
    let ghost ms = all@.map_values(|e: &IndexEntry| e@);
    let mut merged: Vec<IndexEntry> = Vec::new();
    let mut i: usize = 0;
    while i < all.len()
        invariant
            i <= all@.len(),
            ms == all@.map_values(|e: &IndexEntry| e@),
            lists_map(index_models(merged@), staged(ms.take(i as int))),
        decreases all@.len() - i,
    {
        let e = all[i];
        let copy = IndexEntry { path: e.path.clone(), oid: e.oid.clone() };
        assert(copy@ == ms[i as int]);
        assert(ms.take(i + 1).drop_last() == ms.take(i as int));
        let ghost before = index_models(merged@);
        let mut j: usize = 0;
        while j < merged.len() && merged[j].path != e.path
            invariant
                j <= merged@.len(),
                before == index_models(merged@),
                forall|k: int| 0 <= k < j ==> before[k].path != e@.path,
            decreases merged@.len() - j,
        {
            j = j + 1;
        }
        if j < merged.len() {
            proof {
                lemma_lists_map_update(before, staged(ms.take(i as int)), j as int, copy@);
            }
            merged.set(j, copy);
            assert(index_models(merged@) == before.update(j as int, copy@));
        } else {
            proof {
                lemma_lists_map_push(before, staged(ms.take(i as int)), copy@);
            }
            merged.push(copy);
            assert(index_models(merged@) == before.push(copy@));
        }
        i = i + 1;
    }
    assert(ms.take(all@.len() as int) == ms);
    merged
}


/// Inserting the entry of a new path anywhere keeps the entries a listing of the
/// updated map.
proof fn lemma_lists_map_insert(
    es: Seq<IndexEntryModel>,
    m: Map<Seq<char>, Seq<char>>,
    k: int,
    e: IndexEntryModel,
)
    requires
        lists_map(es, m),
        0 <= k <= es.len(),
        !m.contains_key(e.path),
    ensures
        lists_map(es.insert(k, e), m.insert(e.path, e.oid)),
{
    let es2 = es.insert(k, e);
    let m2 = m.insert(e.path, e.oid);
    es.insert_ensures(k, e);
    assert forall|i: int| 0 <= i < es2.len() implies m2.contains_key(#[trigger] es2[i].path)
        && m2[es2[i].path] == es2[i].oid by {
        if i < k {
            assert(es2[i] == es[i]);
        } else if i > k {
            assert(es2[i] == es[i - 1]);
        }
    }
    assert forall|i: int, j: int| 0 <= i < j < es2.len() implies es2[i].path != es2[j].path by {
        if i == k {
            assert(es2[j] == es[j - 1]);
            assert(m.contains_key(es[j - 1].path));
        } else if j == k {
            assert(es2[i] == es[i]);
            assert(m.contains_key(es[i].path));
        } else {
            let a = if i < k { i } else { i - 1 };
            let b = if j < k { j } else { j - 1 };
            assert(es2[i] == es[a]);
            assert(es2[j] == es[b]);
        }
    }
    assert forall|key: Seq<char>| m2.contains_key(key) implies exists|i: int|
        0 <= i < es2.len() && #[trigger] es2[i].path == key by {
        if key == e.path {
            assert(es2[k].path == key);
        } else {
            let i = choose|i: int| 0 <= i < es.len() && #[trigger] es[i].path == key;
            if i < k {
                assert(es2[i].path == key);
            } else {
                assert(es2[i + 1].path == key);
            }
        }
    }
}

/// Entries with distinct paths list the map they stage.
proof fn lemma_staged_lists(es: Seq<IndexEntryModel>)
    requires
        distinct_paths(es),
    ensures
        lists_map(es, staged(es)),
    decreases es.len(),
{
    if es.len() > 0 {
        let init = es.drop_last();
        assert(distinct_paths(init)) by {
            assert forall|i: int, j: int| 0 <= i < j < init.len() implies init[i].path != init[j].path by {
                assert(init[i] == es[i] && init[j] == es[j]);
            }
        }
        lemma_staged_lists(init);
        assert forall|i: int| 0 <= i < init.len() implies init[i].path != es.last().path by {
            assert(init[i] == es[i]);
        }
        lemma_lists_map_push(init, staged(init), es.last());
        assert(init.push(es.last()) == es);
    } else {
        assert(staged(es) == Map::<Seq<char>, Seq<char>>::empty());
    }
}

/// A listing determines its map.
proof fn lemma_lists_map_unique(
    es: Seq<IndexEntryModel>,
    m1: Map<Seq<char>, Seq<char>>,
    m2: Map<Seq<char>, Seq<char>>,
)
    requires
        lists_map(es, m1),
        lists_map(es, m2),
    ensures
        m1 == m2,
{
    assert forall|k: Seq<char>| m1.contains_key(k) <==> m2.contains_key(k) by {
        if m1.contains_key(k) {
            let i = choose|i: int| 0 <= i < es.len() && #[trigger] es[i].path == k;
            assert(m2.contains_key(es[i].path));
        }
        if m2.contains_key(k) {
            let i = choose|i: int| 0 <= i < es.len() && #[trigger] es[i].path == k;
            assert(m1.contains_key(es[i].path));
        }
    }
    assert forall|k: Seq<char>| m1.contains_key(k) implies m1[k] == m2[k] by {
        let i = choose|i: int| 0 <= i < es.len() && #[trigger] es[i].path == k;
        assert(m1[es[i].path] == es[i].oid);
    }
    assert(m1 =~= m2);
}

/// Sorts entries with distinct paths into the order `std::path` gives paths.
fn sort_by_path(entries: &Vec<IndexEntry>) -> (res: Vec<IndexEntry>)
    requires
        distinct_paths(index_models(entries@)),
    ensures
        lists_map(index_models(res@), staged(index_models(entries@))),
        sorted_by_path(index_models(res@)),
{
    let ghost ms = index_models(entries@);
    proof {
        lemma_components_total();
    }
    let mut sorted: Vec<IndexEntry> = Vec::new();
    let mut keys: Vec<Vec<Vec<char>>> = Vec::new();
    let mut i: usize = 0;
    proof {
        lemma_staged_lists(ms.take(0));
    }
    while i < entries.len()
        invariant
            i <= entries@.len(),
            ms == index_models(entries@),
            distinct_paths(ms),
            crate::order::is_total_order(lex_fn(component_order())),
            sorted@.len() == keys@.len(),
            forall|p: int| 0 <= p < keys@.len() ==> views(#[trigger] keys@[p]@) == components(sorted@[p]@.path),
            lists_map(index_models(sorted@), staged(ms.take(i as int))),
            sorted_by_path(index_models(sorted@)),
        decreases entries@.len() - i,
    {
        let e = &entries[i];
        let key = path_components(e.path.as_str());
        let ghost ss = index_models(sorted@);
        let mut k: usize = 0;
        while k < sorted.len() && compare_components(keys[k].as_slice(), key.as_slice()) <= 0
            invariant
                k <= sorted@.len(),
                sorted@.len() == keys@.len(),
                ss == index_models(sorted@),
                forall|p: int| 0 <= p < keys@.len() ==> views(#[trigger] keys@[p]@) == components(sorted@[p]@.path),
                views(key@) == components(e@.path),
                forall|p: int| 0 <= p < k ==> components_order(components(ss[p].path), components(e@.path)) <= 0,
            decreases sorted@.len() - k,
        {
            k = k + 1;
        }
        let copy = IndexEntry { path: e.path.clone(), oid: e.oid.clone() };
        assert(copy@ == ms[i as int]);
        proof {
            let t = ms.take(i as int);
            assert(distinct_paths(t)) by {
                assert forall|a: int, b: int| 0 <= a < b < t.len() implies t[a].path != t[b].path by {
                    assert(t[a] == ms[a] && t[b] == ms[b]);
                }
            }
            lemma_staged_lists(t);
            lemma_lists_map_unique(ss, staged(t), staged(t));
            if staged(t).contains_key(copy@.path) {
                let q = choose|q: int| 0 <= q < t.len() && #[trigger] t[q].path == copy@.path;
                assert(t[q] == ms[q]);
                assert(false);
            }
            lemma_lists_map_insert(ss, staged(t), k as int, copy@);
            assert(ms.take(i + 1).drop_last() == t);
            assert(ms.take(i + 1).last() == copy@);
            ss.insert_ensures(k as int, copy@);
            let f = lex_fn(component_order());
            let ns = ss.insert(k as int, copy@);
            let ce = components(copy@.path);
            assert forall|a: int, b: int| 0 <= a < b < ns.len() implies components_order(
                components(ns[a].path),
                components(ns[b].path),
            ) <= 0 by {
                let ka = components(ns[a].path);
                let kb = components(ns[b].path);
                assert(f(ka, kb) == components_order(ka, kb));
                if a < k && b < k {
                    assert(ns[a] == ss[a] && ns[b] == ss[b]);
                } else if a < k && b == k {
                    assert(ns[a] == ss[a]);
                } else if a < k && b > k {
                    assert(ns[a] == ss[a] && ns[b] == ss[b - 1]);
                    assert(f(components(ss[a].path), ce) == components_order(components(ss[a].path), ce));
                    assert(f(ce, components(ss[k as int].path)) == components_order(ce, components(ss[k as int].path)));
                    assert(f(components(ss[k as int].path), ce) == components_order(components(ss[k as int].path), ce));
                    assert(f(components(ss[k as int].path), kb) == components_order(components(ss[k as int].path), kb));
                    assert(f(components(ss[a].path), components(ss[k as int].path)) == components_order(components(ss[a].path), components(ss[k as int].path)));
                    assert(f(components(ss[a].path), kb) == components_order(components(ss[a].path), kb));
                } else if a == k {
                    assert(ns[b] == ss[b - 1]);
                    assert(f(components(ss[k as int].path), ce) == components_order(components(ss[k as int].path), ce));
                    assert(f(ce, components(ss[k as int].path)) == components_order(ce, components(ss[k as int].path)));
                    assert(f(components(ss[k as int].path), kb) == components_order(components(ss[k as int].path), kb));
                    assert(f(ce, kb) == components_order(ce, kb));
                } else {
                    assert(ns[a] == ss[a - 1] && ns[b] == ss[b - 1]);
                }
            }
        }
        sorted.insert(k, copy);
        keys.insert(k, key);
        proof {
            let ns = index_models(sorted@);
            assert(ns == ss.insert(k as int, copy@));
            assert forall|p: int| 0 <= p < keys@.len() implies views(#[trigger] keys@[p]@) == components(sorted@[p]@.path) by {
                if p < k {
                } else if p > k {
                }
            }
        }
        i = i + 1;
    }
    assert(ms.take(entries@.len() as int) == ms);
    sorted
}


/// Stages files: the index entries, then the added ones, one entry per path with the
/// last id given for it, in the order `std::path` gives paths.
pub fn index_add(index: &[IndexEntry], added: &[IndexEntry]) -> (res: Vec<IndexEntry>)
    ensures
        lists_map(index_models(res@), staged(index_models(index@) + index_models(added@))),
        sorted_by_path(index_models(res@)),
{
    let mut all: Vec<&IndexEntry> = Vec::new();
    let mut i: usize = 0;
    while i < index.len()
        invariant
            i <= index@.len(),
            all@.map_values(|e: &IndexEntry| e@) == index_models(index@).take(i as int),
        decreases index@.len() - i,
    {
        all.push(&index[i]);
        assert(index_models(index@).take(i + 1) == index_models(index@).take(i as int).push(index@[i as int]@));
        i = i + 1;
    }
    assert(index_models(index@).take(index@.len() as int) == index_models(index@));
    let mut j: usize = 0;
    while j < added.len()
        invariant
            j <= added@.len(),
            all@.map_values(|e: &IndexEntry| e@) == index_models(index@) + index_models(added@).take(j as int),
        decreases added@.len() - j,
    {
        let ghost before = all@.map_values(|e: &IndexEntry| e@);
        all.push(&added[j]);
        assert(all@.map_values(|e: &IndexEntry| e@) == before.push(added@[j as int]@));
        assert(index_models(added@).take(j + 1) == index_models(added@).take(j as int).push(added@[j as int]@));
        assert(index_models(index@) + index_models(added@).take(j + 1) == (index_models(index@)
            + index_models(added@).take(j as int)).push(added@[j as int]@));
        j = j + 1;
    }
    assert(index_models(added@).take(added@.len() as int) == index_models(added@));
    let merged = merge_entries(all.as_slice());
    let res = sort_by_path(&merged);
    proof {
        let m = staged(index_models(index@) + index_models(added@));
        lemma_staged_lists(index_models(merged@));
        lemma_lists_map_unique(index_models(merged@), staged(index_models(merged@)), m);
    }
    res
}

/// Unstages paths: the index without the entries whose path is one of `paths`.
pub fn index_remove(index: &[IndexEntry], paths: &[String]) -> (res: Vec<IndexEntry>)
    ensures
        index_models(res@) == index_models(index@).filter(
            |e: IndexEntryModel| !paths@.map_values(|p: String| p@).contains(e.path),
        ),
{
    let ghost pv = paths@.map_values(|p: String| p@);
    let ghost pred = |e: IndexEntryModel| !pv.contains(e.path);
    let ghost ms = index_models(index@);
    let mut res: Vec<IndexEntry> = Vec::new();
    let mut i: usize = 0;
    while i < index.len()
        invariant
            i <= index@.len(),
            ms == index_models(index@),
            pv == paths@.map_values(|p: String| p@),
            pred == (|e: IndexEntryModel| !pv.contains(e.path)),
            index_models(res@) == ms.take(i as int).filter(pred),
        decreases index@.len() - i,
    {
        let e = &index[i];
        let mut listed = false;
        let mut j: usize = 0;
        while j < paths.len()
            invariant
                j <= paths@.len(),
                pv == paths@.map_values(|p: String| p@),
                listed <==> exists|q: int| 0 <= q < j && pv[q] == e@.path,
            decreases paths@.len() - j,
        {
            assert(pv[j as int] == paths@[j as int]@);
            if paths[j] == e.path {
                listed = true;
            }
            j = j + 1;
            assert(listed <==> exists|q: int| 0 <= q < j && pv[q] == e@.path) by {
                if listed && !(exists|q: int| 0 <= q < j - 1 && pv[q] == e@.path) {
                    assert(pv[j - 1] == e@.path);
                }
            }
        }
        assert(listed <==> pv.contains(e@.path));
        proof {
            assert(ms.take(i as int).push(ms[i as int]) == ms.take(i + 1));
            ms.take(i as int).lemma_filter_push(ms[i as int], pred);
        }
        if !listed {
            let ghost before = index_models(res@);
            res.push(IndexEntry { path: e.path.clone(), oid: e.oid.clone() });
            assert(index_models(res@) == before.push(ms[i as int]));
        }
        i = i + 1;
    }
    assert(ms.take(index@.len() as int) == ms);
    res
}

/// The staged map of entries followed by more: the later entries win.
proof fn lemma_staged_append(w: Seq<IndexEntryModel>, a: Seq<IndexEntryModel>)
    ensures
        staged(w + a) == staged(w).union_prefer_right(staged(a)),
    decreases a.len(),
{
    if a.len() == 0 {
        assert(w + a == w);
        assert(staged(w).union_prefer_right(staged(a)) == staged(w));
    } else {
        let a1 = a.drop_last();
        lemma_staged_append(w, a1);
        assert((w + a).drop_last() == w + a1);
        assert((w + a).last() == a.last());
        let l = a.last();
        assert(staged(w + a) == staged(w + a1).insert(l.path, l.oid));
        assert(staged(a) == staged(a1).insert(l.path, l.oid));
        assert(staged(w).union_prefer_right(staged(a1)).insert(l.path, l.oid) == staged(w).union_prefer_right(
            staged(a),
        ));
    }
}

/// Adding the same files twice stages what adding them once did: when `once` lists what
/// adding `added` to `index` stages, and `twice` lists what adding `added` to `once`
/// stages, both list the same paths with the same ids.
pub proof fn law_add_twice(
    index: Seq<IndexEntryModel>,
    added: Seq<IndexEntryModel>,
    once: Seq<IndexEntryModel>,
    twice: Seq<IndexEntryModel>,
)
    requires
        lists_map(once, staged(index + added)),
        lists_map(twice, staged(once + added)),
    ensures
        staged(once + added) == staged(index + added),
        lists_map(twice, staged(index + added)),
{
    lemma_staged_lists(once);
    lemma_lists_map_unique(once, staged(once), staged(index + added));
    lemma_staged_append(once, added);
    lemma_staged_append(index, added);
    let m = staged(index);
    let n = staged(added);
    assert(m.union_prefer_right(n).union_prefer_right(n) == m.union_prefer_right(n));
}

} // verus!
