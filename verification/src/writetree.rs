//! Writing the index as trees: entries are grouped by their first path component, each
//! group of a directory becomes a tree of its own, written before the tree that names it.
use vstd::prelude::*;
use crate::convert::string_of;
use crate::error::{ErrorView, GitError};
use crate::index::{index_models, IndexEntry, IndexEntryModel};
use crate::object::{object_id, object_write, ObjectType};
use crate::order::{char_order, lemma_str_total, lex_fn, str_order, compare_chars};
use crate::path::{components, path_components, views};
use crate::text::{chars_eq, chars_of, sub_chars};
use crate::tree::{tree_data, write_tree_data, TreeEntry, TreeEntryModel};

verus! {

/// An entry below a directory: the components of its path relative to that directory,
/// and its id.
pub struct RelEntry {
    pub comps: Seq<Seq<char>>,
    pub oid: Seq<char>,
}

/// The mode of a file entry, `100644`.
pub open spec fn file_mode() -> Seq<char> {
    seq!['1', '0', '0', '6', '4', '4']
}

/// The mode of a directory entry, `40000`.
pub open spec fn dir_mode() -> Seq<char> {
    seq!['4', '0', '0', '0', '0']
}

/// The entries of the files directly in the directory, in index order.
pub open spec fn file_entries(es: Seq<RelEntry>) -> Seq<TreeEntryModel>
    decreases es.len(),
{
    if es.len() == 0 {
        seq![]
    } else {
        let f = file_entries(es.drop_last());
        let e = es.last();
        if e.comps.len() == 1 {
            f.push(TreeEntryModel { mode: file_mode(), name: e.comps[0], oid: e.oid })
        } else {
            f
        }
    }
}

/// The entries below the subdirectory `d`, relative to it, in index order.
pub open spec fn group(es: Seq<RelEntry>, d: Seq<char>) -> Seq<RelEntry>
    decreases es.len(),
{
    if es.len() == 0 {
        seq![]
    } else {
        let g = group(es.drop_last(), d);
        let e = es.last();
        if e.comps.len() > 1 && e.comps[0] == d {
            g.push(RelEntry { comps: e.comps.drop_first(), oid: e.oid })
        } else {
            g
        }
    }
}

/// A name put into a list sorted by the string order, unless it is there already.
pub open spec fn insert_name(s: Seq<Seq<char>>, x: Seq<char>) -> Seq<Seq<char>>
    decreases s.len(),
{
    if s.len() == 0 {
        seq![x]
    } else if s[0] == x {
        s
    } else if str_order(x, s[0]) < 0 {
        seq![x] + s
    } else {
        seq![s[0]] + insert_name(s.drop_first(), x)
    }
}

/// The names of the subdirectories, each once, in the string order.
pub open spec fn dir_names(es: Seq<RelEntry>) -> Seq<Seq<char>>
    decreases es.len(),
{
    if es.len() == 0 {
        seq![]
    } else {
        let d = dir_names(es.drop_last());
        let e = es.last();
        if e.comps.len() > 1 {
            insert_name(d, e.comps[0])
        } else {
            d
        }
    }
}

/// Writes the tree of a directory: first the trees of its subdirectories in name order,
/// then its own tree, with its files (in index order) before its subdirectories. The
/// result is the tree's id and the data of every tree written, in writing order.
pub open spec fn build_tree(es: Seq<RelEntry>, depth: nat) -> Result<(Seq<char>, Seq<Seq<u8>>), ErrorView>
    decreases depth, 1nat, 0nat,
{
    match build_dirs(es, dir_names(es), depth) {
        Err(e) => Err(e),
        Ok((dirs, objs)) => match tree_data(file_entries(es) + dirs) {
            Err(e) => Err(e),
            Ok(d) => Ok((object_id(ObjectType::Tree, d), objs.push(d))),
        },
    }
}

/// Writes the trees of the subdirectories `names`, in order; the result is their
/// entries in the parent tree and the data of every tree written.
pub open spec fn build_dirs(es: Seq<RelEntry>, names: Seq<Seq<char>>, depth: nat) -> Result<
    (Seq<TreeEntryModel>, Seq<Seq<u8>>),
    ErrorView,
>
    decreases depth, 0nat, names.len(),
{
    if names.len() == 0 {
        Ok((seq![], seq![]))
    } else if depth == 0 {
        Ok((seq![], seq![]))
    } else {
        match build_dirs(es, names.drop_last(), depth) {
            Err(e) => Err(e),
            Ok((ents, objs)) => match build_tree(group(es, names.last()), (depth - 1) as nat) {
                Err(e) => Err(e),
                Ok((oid, sub)) => Ok(
                    (
                        ents.push(TreeEntryModel { mode: dir_mode(), name: names.last(), oid }),
                        objs + sub,
                    ),
                ),
            },
        }
    }
}

/// The data of the trees that writing a directory stores, in writing order, whether or
/// not the writing fails: those of its subdirectories as far as they get, then its own
/// when all of them and its own data succeed.
pub open spec fn tree_writes(es: Seq<RelEntry>, depth: nat) -> Seq<Seq<u8>>
    decreases depth, 1nat, 0nat,
{
    let d = dirs_writes(es, dir_names(es), depth);
    match build_dirs(es, dir_names(es), depth) {
        Err(_) => d,
        Ok((dirs, _)) => match tree_data(file_entries(es) + dirs) {
            Err(_) => d,
            Ok(data) => d.push(data),
        },
    }
}

/// The data of the trees that writing the subdirectories `names` stores, in writing
/// order, up to and including the one whose writing fails.
pub open spec fn dirs_writes(es: Seq<RelEntry>, names: Seq<Seq<char>>, depth: nat) -> Seq<Seq<u8>>
    decreases depth, 0nat, names.len(),
{
    if names.len() == 0 || depth == 0 {
        seq![]
    } else {
        let w = dirs_writes(es, names.drop_last(), depth);
        match build_dirs(es, names.drop_last(), depth) {
            Err(_) => w,
            Ok(_) => w + tree_writes(group(es, names.last()), (depth - 1) as nat),
        }
    }
}

/// After a failure among the first directories, no later directory is written.
proof fn lemma_dirs_writes_err(es: Seq<RelEntry>, names: Seq<Seq<char>>, k: int, depth: nat)
    requires
        0 <= k <= names.len(),
        depth > 0,
        build_dirs(es, names.take(k), depth) is Err,
    ensures
        dirs_writes(es, names, depth) == dirs_writes(es, names.take(k), depth),
    decreases names.len() - k,
{
    if k < names.len() {
        assert(names.drop_last().take(k) == names.take(k));
        lemma_dirs_writes_err(es, names.drop_last(), k, depth);
        lemma_build_dirs_err(es, names.drop_last(), k, depth);
    } else {
        assert(names.take(k) == names);
    }
}

/// The longest component list among the entries.
pub open spec fn max_depth(es: Seq<RelEntry>) -> nat
    decreases es.len(),
{
    if es.len() == 0 {
        0
    } else {
        let m = max_depth(es.drop_last());
        if es.last().comps.len() > m {
            es.last().comps.len()
        } else {
            m
        }
    }
}

/// The index entries relative to the top of the work tree.
pub open spec fn rel_entries(es: Seq<IndexEntryModel>) -> Seq<RelEntry> {
    es.map_values(|e: IndexEntryModel| RelEntry { comps: components(e.path), oid: e.oid })
}

/// What writing the index as trees gives: the root tree's id and the data of every tree,
/// in writing order.
pub open spec fn write_tree_result(es: Seq<IndexEntryModel>) -> Result<(Seq<char>, Seq<Seq<u8>>), ErrorView> {
    build_tree(rel_entries(es), max_depth(rel_entries(es)))
}


/// An entry below a directory, in exec form.
pub struct RelItem {
    pub comps: Vec<Vec<char>>,
    pub oid: String,
}

impl View for RelItem {
    type V = RelEntry;

    open spec fn view(&self) -> RelEntry {
        RelEntry { comps: views(self.comps@), oid: self.oid@ }
    }
}

/// The views of entries below a directory.
pub open spec fn rel_models(es: Seq<RelItem>) -> Seq<RelEntry> {
    es.map_values(|e: RelItem| e@)
}

/// The views of byte vectors.
pub open spec fn byte_views(v: Seq<Vec<u8>>) -> Seq<Seq<u8>> {
    v.map_values(|b: Vec<u8>| b@)
}

/// A copy of a character vector.
fn copy_chars(v: &Vec<char>) -> (res: Vec<char>)
    ensures
        res@ == v@,
{
    let r = sub_chars(v.as_slice(), 0, v.len());
    assert(v@.subrange(0, v@.len() as int) == v@);
    r
}

/// A name scan that stops at the first name not below `x` decides where `x` goes.
proof fn lemma_insert_name_at(s: Seq<Seq<char>>, x: Seq<char>, k: int)
    requires
        0 <= k <= s.len(),
        crate::order::is_total_order(lex_fn(char_order())),
        forall|j: int| 0 <= j < k ==> str_order(#[trigger] s[j], x) < 0,
        k < s.len() ==> str_order(s[k], x) >= 0,
    ensures
        insert_name(s, x) == (if k < s.len() && s[k] == x {
            s
        } else {
            s.insert(k, x)
        }),
    decreases k,
{
    let f = lex_fn(char_order());
    if s.len() == 0 {
        assert(s.insert(0, x) == seq![x]);
    } else if k == 0 {
        assert(f(s[0], x) == str_order(s[0], x));
        assert(f(x, s[0]) == str_order(x, s[0]));
        if s[0] != x {
            assert(str_order(x, s[0]) < 0);
            assert(s.insert(0, x) == seq![x] + s);
        }
    } else {
        assert(f(s[0], x) == str_order(s[0], x));
        assert(f(x, s[0]) == str_order(x, s[0]));
        assert(str_order(s[0], x) < 0);
        assert(s[0] != x);
        let t = s.drop_first();
        assert forall|j: int| 0 <= j < k - 1 implies str_order(#[trigger] t[j], x) < 0 by {
            assert(t[j] == s[j + 1]);
        }
        if k < s.len() {
            assert(t[k - 1] == s[k]);
        }
        lemma_insert_name_at(t, x, k - 1);
        if k < s.len() && s[k] == x {
            assert(seq![s[0]] + t == s);
        } else {
            assert(seq![s[0]] + t.insert(k - 1, x) == s.insert(k, x));
        }
    }
}

/// Puts a name into a sorted list of names, unless it is there already.
fn insert_name_into(names: &mut Vec<Vec<char>>, x: &Vec<char>)
    ensures
        views(final(names)@) == insert_name(views(old(names)@), x@),
{
    proof {
        lemma_str_total();
    }
    let ghost s = views(names@);
    let mut k: usize = 0;
    while k < names.len() && compare_chars(names[k].as_slice(), x.as_slice()) < 0
        invariant
            k <= names@.len(),
            s == views(names@),
            forall|j: int| 0 <= j < k ==> str_order(#[trigger] s[j], x@) < 0,
        decreases names@.len() - k,
    {
        k = k + 1;
    }
    proof {
        lemma_insert_name_at(s, x@, k as int);
    }
    if k < names.len() && chars_eq(names[k].as_slice(), x.as_slice()) {
        return;
    }
    names.insert(k, copy_chars(x));
    proof {
        s.insert_ensures(k as int, x@);
        assert(views(names@) =~= s.insert(k as int, x@));
    }
}

/// The names of the subdirectories.
fn dir_names_of(es: &Vec<RelItem>) -> (res: Vec<Vec<char>>)
    ensures
        views(res@) == dir_names(rel_models(es@)),
{
    let ghost ms = rel_models(es@);
    let mut names: Vec<Vec<char>> = Vec::new();
    let mut i: usize = 0;
    while i < es.len()
        invariant
            i <= es@.len(),
            ms == rel_models(es@),
            views(names@) == dir_names(ms.take(i as int)),
        decreases es@.len() - i,
    {
        assert(ms.take(i + 1).drop_last() == ms.take(i as int));
        assert(ms.take(i + 1).last() == es@[i as int]@);
        if es[i].comps.len() > 1 {
            insert_name_into(&mut names, &es[i].comps[0]);
        }
        i = i + 1;
    }
    assert(ms.take(es@.len() as int) == ms);
    names
}

/// A copy of a component list from index `from` on.
fn copy_comps_from(cs: &Vec<Vec<char>>, from: usize) -> (res: Vec<Vec<char>>)
    requires
        from <= cs@.len(),
    ensures
        views(res@) == views(cs@).skip(from as int),
{
    let mut res: Vec<Vec<char>> = Vec::new();
    let mut i: usize = from;
    while i < cs.len()
        invariant
            from <= i <= cs@.len(),
            views(res@) == views(cs@).subrange(from as int, i as int),
        decreases cs@.len() - i,
    {
        let ghost before = views(res@);
        res.push(copy_chars(&cs[i]));
        assert(views(res@) == before.push(cs@[i as int]@));
        assert(views(cs@).subrange(from as int, i + 1) == views(cs@).subrange(from as int, i as int).push(cs@[i as int]@));
        i = i + 1;
    }
    res
}

/// The entries below a subdirectory.
fn group_of(es: &Vec<RelItem>, d: &Vec<char>) -> (res: Vec<RelItem>)
    ensures
        rel_models(res@) == group(rel_models(es@), d@),
{
    let ghost ms = rel_models(es@);
    let mut res: Vec<RelItem> = Vec::new();
    let mut i: usize = 0;
    while i < es.len()
        invariant
            i <= es@.len(),
            ms == rel_models(es@),
            rel_models(res@) == group(ms.take(i as int), d@),
        decreases es@.len() - i,
    {
        assert(ms.take(i + 1).drop_last() == ms.take(i as int));
        assert(ms.take(i + 1).last() == es@[i as int]@);
        let e = &es[i];
        if e.comps.len() > 1 && chars_eq(e.comps[0].as_slice(), d.as_slice()) {
            let item = RelItem { comps: copy_comps_from(&e.comps, 1), oid: e.oid.clone() };
            let ghost before = rel_models(res@);
            res.push(item);
            assert(rel_models(res@) == before.push(item@));
            assert(views(e.comps@).skip(1) == views(e.comps@).drop_first());
        }
        i = i + 1;
    }
    assert(ms.take(es@.len() as int) == ms);
    res
}

/// The entries of the files directly in the directory.
fn file_entries_of(es: &Vec<RelItem>) -> (res: Vec<TreeEntry>)
    ensures
        crate::tree::tree_models(res@) == file_entries(rel_models(es@)),
{
    let ghost ms = rel_models(es@);
    let mut res: Vec<TreeEntry> = Vec::new();
    let mut i: usize = 0;
    while i < es.len()
        invariant
            i <= es@.len(),
            ms == rel_models(es@),
            crate::tree::tree_models(res@) == file_entries(ms.take(i as int)),
        decreases es@.len() - i,
    {
        assert(ms.take(i + 1).drop_last() == ms.take(i as int));
        assert(ms.take(i + 1).last() == es@[i as int]@);
        let e = &es[i];
        if e.comps.len() == 1 {
            let mode: Vec<char> = vec!['1', '0', '0', '6', '4', '4'];
            assert(mode@ == file_mode());
            let entry = TreeEntry {
                mode: string_of(mode.as_slice()),
                path: string_of(e.comps[0].as_slice()),
                oid: e.oid.clone(),
            };
            let ghost before = crate::tree::tree_models(res@);
            res.push(entry);
            assert(crate::tree::tree_models(res@) == before.push(entry@));
        }
        i = i + 1;
    }
    assert(ms.take(es@.len() as int) == ms);
    res
}

/// Writes the tree of a directory and those of its subdirectories, for entries whose
/// component lists are at most `depth` long. Each tree's data is also appended to
/// `written` as it is made, so that on a failure the trees made before it are there.
pub fn write_tree_inner(es: &Vec<RelItem>, depth: usize, written: &mut Vec<Vec<u8>>) -> (res: Result<(String, Vec<Vec<u8>>), GitError>)
    ensures
        match build_tree(rel_models(es@), depth as nat) {
            Ok((oid, objs)) => res matches Ok((o, v)) && o@ == oid && byte_views(v@) == objs,
            Err(e) => res matches Err(x) && x@ == e,
        },
        byte_views(final(written)@) == byte_views(old(written)@) + tree_writes(rel_models(es@), depth as nat),
    decreases depth,
{
    let ghost w0 = byte_views(written@);
    let ghost ms = rel_models(es@);
    let names = dir_names_of(es);
    let ghost ns = views(names@);
    let mut dirs: Vec<TreeEntry> = Vec::new();
    let mut objs: Vec<Vec<u8>> = Vec::new();
    assert(crate::tree::tree_models(dirs@) == Seq::<TreeEntryModel>::empty());
    assert(byte_views(objs@) == Seq::<Seq<u8>>::empty());
    if depth > 0 {
        let mut k: usize = 0;
        assert(ns.take(0) == Seq::<Seq<char>>::empty());
        while k < names.len()
            invariant
                k <= names@.len(),
                depth > 0,
                ms == rel_models(es@),
                ns == views(names@),
                ns == dir_names(ms),
                build_dirs(ms, ns.take(k as int), depth as nat) == Ok::<(Seq<TreeEntryModel>, Seq<Seq<u8>>), ErrorView>(
                    (crate::tree::tree_models(dirs@), byte_views(objs@)),
                ),
                byte_views(written@) == w0 + dirs_writes(ms, ns.take(k as int), depth as nat),
                w0 == byte_views(old(written)@),
            decreases names@.len() - k,
        {
            assert(ns.take(k + 1).drop_last() == ns.take(k as int));
            assert(ns.take(k + 1).last() == names@[k as int]@);
            let sub = group_of(es, &names[k]);
            let ghost wk = byte_views(written@);
            match write_tree_inner(&sub, depth - 1, written) {
                Err(e) => {
                    proof {
                        lemma_build_dirs_err(ms, ns, k as int + 1, depth as nat);
                        lemma_dirs_writes_err(ms, ns, k as int + 1, depth as nat);
                        assert(ns.take(ns.len() as int) == ns);
                        assert(build_dirs(ms, ns, depth as nat) is Err);
                        assert(tree_writes(ms, depth as nat) == dirs_writes(ms, ns, depth as nat));
                        assert(dirs_writes(ms, ns.take(k + 1), depth as nat) == dirs_writes(ms, ns.take(k as int), depth as nat)
                            + tree_writes(group(ms, ns[k as int]), (depth - 1) as nat));
                        assert(names@[k as int]@ == ns[k as int]);
                        assert(rel_models(sub@) == group(ms, ns[k as int]));
                        assert(byte_views(written@) == wk + tree_writes(group(ms, ns[k as int]), (depth - 1) as nat));
                        assert(wk + tree_writes(group(ms, ns[k as int]), (depth - 1) as nat) == w0 + (dirs_writes(
                            ms,
                            ns.take(k as int),
                            depth as nat,
                        ) + tree_writes(group(ms, ns[k as int]), (depth - 1) as nat)));
                    }
                    return Err(e);
                },
                Ok((oid, sub_objs)) => {
                    let mode: Vec<char> = vec!['4', '0', '0', '0', '0'];
                    assert(mode@ == dir_mode());
                    let entry = TreeEntry {
                        mode: string_of(mode.as_slice()),
                        path: string_of(names[k].as_slice()),
                        oid,
                    };
                    let ghost before = crate::tree::tree_models(dirs@);
                    dirs.push(entry);
                    assert(crate::tree::tree_models(dirs@) == before.push(entry@));
                    let ghost ob = byte_views(objs@);
                    let mut sub_objs = sub_objs;
                    let ghost sv = byte_views(sub_objs@);
                    objs.append(&mut sub_objs);
                    assert(byte_views(objs@) == ob + sv);
                    assert(wk + tree_writes(group(ms, ns[k as int]), (depth - 1) as nat) == w0 + (dirs_writes(
                        ms,
                        ns.take(k as int),
                        depth as nat,
                    ) + tree_writes(group(ms, ns[k as int]), (depth - 1) as nat)));
                },
            }
            k = k + 1;
        }
        assert(ns.take(names@.len() as int) == ns);
    } else {
        assert(build_dirs(ms, ns, 0) == Ok::<(Seq<TreeEntryModel>, Seq<Seq<u8>>), ErrorView>((seq![], seq![])));
        assert(crate::tree::tree_models(dirs@) == Seq::<TreeEntryModel>::empty());
        assert(byte_views(objs@) == Seq::<Seq<u8>>::empty());
        assert(byte_views(written@) == w0 + dirs_writes(ms, ns, 0));
    }
    let mut entries = file_entries_of(es);
    let ghost fm = crate::tree::tree_models(entries@);
    let ghost dm = crate::tree::tree_models(dirs@);
    entries.append(&mut dirs);
    assert(crate::tree::tree_models(entries@) == fm + dm);
    let data = match write_tree_data(entries.as_slice()) {
        Ok(d) => d,
        Err(e) => {
            assert(w0 + dirs_writes(ms, ns, depth as nat) == w0 + tree_writes(ms, depth as nat));
            return Err(e);
        },
    };
    let (oid, _store) = object_write(ObjectType::Tree, data.as_slice());
    let ghost ob = byte_views(objs@);
    let ghost wb = byte_views(written@);
    written.push(vstd::slice::slice_to_vec(data.as_slice()));
    assert(byte_views(written@) == wb.push(data@));
    assert(wb.push(data@) == w0 + dirs_writes(ms, ns, depth as nat).push(data@));
    objs.push(data);
    assert(byte_views(objs@) == ob.push(data@));
    Ok((oid, objs))
}

/// A failure among the first directories is the failure of all of them.
proof fn lemma_build_dirs_err(es: Seq<RelEntry>, names: Seq<Seq<char>>, k: int, depth: nat)
    requires
        0 <= k <= names.len(),
        depth > 0,
        build_dirs(es, names.take(k), depth) is Err,
    ensures
        build_dirs(es, names, depth) == build_dirs(es, names.take(k), depth),
    decreases names.len() - k,
{
    if k < names.len() {
        assert(names.drop_last().take(k) == names.take(k));
        lemma_build_dirs_err(es, names.drop_last(), k, depth);
    } else {
        assert(names.take(k) == names);
    }
}


/// The trees that writing the index produces: the root tree's id, and the data of every
/// tree object to store, in writing order (the root's last).
pub struct WrittenTrees {
    pub root: String,
    pub trees: Vec<Vec<u8>>,
}

/// Writes the index as trees. The data of each tree is also appended to `written` as it
/// is made, so that on a failure the trees made before it are there to store.
pub fn write_tree(entries: &[IndexEntry], written: &mut Vec<Vec<u8>>) -> (res: Result<WrittenTrees, GitError>)
    ensures
        match write_tree_result(index_models(entries@)) {
            Ok((oid, objs)) => res matches Ok(w) && w.root@ == oid && byte_views(w.trees@) == objs,
            Err(e) => res matches Err(x) && x@ == e,
        },
        byte_views(final(written)@) == byte_views(old(written)@) + tree_writes(
            rel_entries(index_models(entries@)),
            max_depth(rel_entries(index_models(entries@))),
        ),
{
    let ghost ms = index_models(entries@);
    let ghost rs = rel_entries(ms);
    let mut items: Vec<RelItem> = Vec::new();
    let mut depth: usize = 0;
    let mut i: usize = 0;
    while i < entries.len()
        invariant
            i <= entries@.len(),
            ms == index_models(entries@),
            rs == rel_entries(ms),
            rel_models(items@) == rs.take(i as int),
            depth as nat == max_depth(rs.take(i as int)),
        decreases entries@.len() - i,
    {
        let comps = path_components(entries[i].path.as_str());
        let item = RelItem { comps, oid: entries[i].oid.clone() };
        assert(item@ == rs[i as int]);
        assert(rs.take(i + 1).drop_last() == rs.take(i as int));
        assert(rs.take(i + 1).last() == rs[i as int]);
        if item.comps.len() > depth {
            depth = item.comps.len();
        }
        let ghost before = rel_models(items@);
        items.push(item);
        assert(rel_models(items@) == before.push(rs[i as int]));
        i = i + 1;
    }
    assert(rs.take(entries@.len() as int) == rs);
    match write_tree_inner(&items, depth, written) {
        Ok((root, trees)) => Ok(WrittenTrees { root, trees }),
        Err(e) => Err(e),
    }
}

/// The trees that committing the index records: an empty index has nothing to commit;
/// otherwise the index is written as trees, each appended to `written` as it is made.
pub fn commit_trees(entries: &[IndexEntry], written: &mut Vec<Vec<u8>>) -> (res: Result<WrittenTrees, GitError>)
    ensures
        entries@.len() == 0 ==> final(written)@ == old(written)@,
        entries@.len() > 0 ==> byte_views(final(written)@) == byte_views(old(written)@) + tree_writes(
            rel_entries(index_models(entries@)),
            max_depth(rel_entries(index_models(entries@))),
        ),
        entries@.len() == 0 ==> (res matches Err(e) && e@ == ErrorView::EmptyIndex),
        entries@.len() > 0 ==> (match write_tree_result(index_models(entries@)) {
            Ok((oid, objs)) => res matches Ok(w) && w.root@ == oid && byte_views(w.trees@) == objs,
            Err(e) => res matches Err(x) && x@ == e,
        }),
{
    if entries.len() == 0 {
        Err(GitError::EmptyIndex)
    } else {
        write_tree(entries, written)
    }
}

/// The entries that lie below the subdirectory `d`, unchanged, in index order.
pub open spec fn below(es: Seq<RelEntry>, d: Seq<char>) -> Seq<RelEntry>
    decreases es.len(),
{
    if es.len() == 0 {
        seq![]
    } else {
        let b = below(es.drop_last(), d);
        let e = es.last();
        if e.comps.len() > 1 && e.comps[0] == d {
            b.push(e)
        } else {
            b
        }
    }
}

/// Only the entries below a subdirectory form its group.
proof fn lemma_group_below(es: Seq<RelEntry>, d: Seq<char>)
    ensures
        group(below(es, d), d) == group(es, d),
    decreases es.len(),
{
    if es.len() > 0 {
        lemma_group_below(es.drop_last(), d);
        let e = es.last();
        if e.comps.len() > 1 && e.comps[0] == d {
            let bl = below(es, d);
            assert(bl.drop_last() == below(es.drop_last(), d));
            assert(bl.last() == e);
        }
    }
}

/// The tree written for a subdirectory `d` depends only on the entries below `d`:
/// dropping every entry that does not lie below it (one outside it, or one naming `d`
/// itself) leaves that tree and the trees written under it unchanged.
pub proof fn law_subtree_ignores_others(es: Seq<RelEntry>, d: Seq<char>, depth: nat)
    ensures
        build_tree(group(below(es, d), d), depth) == build_tree(group(es, d), depth),
{
    lemma_group_below(es, d);
}

/// The entries that name something: those with at least one component.
pub open spec fn named(es: Seq<RelEntry>) -> Seq<RelEntry>
    decreases es.len(),
{
    if es.len() == 0 {
        seq![]
    } else {
        let n = named(es.drop_last());
        if es.last().comps.len() > 0 {
            n.push(es.last())
        } else {
            n
        }
    }
}

/// Entries without components add no file, no subdirectory and nothing to a group.
proof fn lemma_named_parts(es: Seq<RelEntry>)
    ensures
        file_entries(named(es)) == file_entries(es),
        dir_names(named(es)) == dir_names(es),
        forall|d: Seq<char>| #[trigger] group(named(es), d) == group(es, d),
    decreases es.len(),
{
    if es.len() > 0 {
        lemma_named_parts(es.drop_last());
        let e = es.last();
        if e.comps.len() > 0 {
            let n = named(es);
            assert(n.drop_last() == named(es.drop_last()));
            assert(n.last() == e);
            assert forall|d: Seq<char>| #[trigger] group(named(es), d) == group(es, d) by {
                assert(group(named(es.drop_last()), d) == group(es.drop_last(), d));
            }
        } else {
            assert forall|d: Seq<char>| #[trigger] group(named(es), d) == group(es, d) by {
                assert(group(named(es.drop_last()), d) == group(es.drop_last(), d));
            }
        }
    }
}

/// Subdirectory trees built from entries with the same groups are the same.
proof fn lemma_build_dirs_same_groups(a: Seq<RelEntry>, b: Seq<RelEntry>, names: Seq<Seq<char>>, depth: nat)
    requires
        forall|d: Seq<char>| #[trigger] group(a, d) == group(b, d),
    ensures
        build_dirs(a, names, depth) == build_dirs(b, names, depth),
    decreases names.len(),
{
    if names.len() > 0 && depth > 0 {
        lemma_build_dirs_same_groups(a, b, names.drop_last(), depth);
        assert(group(a, names.last()) == group(b, names.last()));
    }
}

/// Entries with no components contribute nothing: the trees written are those of the
/// entries that name something (at the top, an entry whose path is the prefix itself).
pub proof fn law_tree_ignores_empty_paths(es: Seq<RelEntry>, depth: nat)
    ensures
        build_tree(named(es), depth) == build_tree(es, depth),
{
    lemma_named_parts(es);
    lemma_build_dirs_same_groups(named(es), es, dir_names(es), depth);
}

/// Names in strictly increasing string order.
pub open spec fn ascending(s: Seq<Seq<char>>) -> bool {
    forall|i: int, j: int| 0 <= i < j < s.len() ==> str_order(s[i], s[j]) < 0
}

/// The first component of an entry below a subdirectory.
pub open spec fn names_dir(es: Seq<RelEntry>, y: Seq<char>) -> bool {
    exists|i: int| 0 <= i < es.len() && (#[trigger] es[i]).comps.len() > 1 && es[i].comps[0] == y
}

/// Putting a name into an increasing list keeps it increasing and adds just that name.
proof fn lemma_insert_name_sorted(s: Seq<Seq<char>>, x: Seq<char>)
    requires
        ascending(s),
        crate::order::is_total_order(lex_fn(char_order())),
    ensures
        ascending(insert_name(s, x)),
        insert_name(s, x).contains(x),
        forall|y: Seq<char>| insert_name(s, x).contains(y) <==> (s.contains(y) || y == x),
    decreases s.len(),
{
    let f = lex_fn(char_order());
    let r = insert_name(s, x);
    if s.len() == 0 {
        assert(r == seq![x]);
        assert(r[0] == x);
    } else if s[0] == x {
        assert(r == s);
    } else if str_order(x, s[0]) < 0 {
        assert(r == seq![x] + s);
        assert(r[0] == x);
        assert forall|i: int, j: int| 0 <= i < j < r.len() implies str_order(r[i], r[j]) < 0 by {
            if i == 0 {
                assert(r[j] == s[j - 1]);
                if j > 1 {
                    assert(f(x, s[0]) == str_order(x, s[0]));
                    assert(f(s[0], s[j - 1]) == str_order(s[0], s[j - 1]));
                    assert(f(x, s[j - 1]) == str_order(x, s[j - 1]));
                }
            } else {
                assert(r[i] == s[i - 1] && r[j] == s[j - 1]);
            }
        }
        assert forall|y: Seq<char>| r.contains(y) <==> (s.contains(y) || y == x) by {
            if r.contains(y) && y != x {
                let k = choose|k: int| 0 <= k < r.len() && r[k] == y;
                assert(s[k - 1] == y);
            }
            if s.contains(y) {
                let k = choose|k: int| 0 <= k < s.len() && s[k] == y;
                assert(r[k + 1] == y);
            }
        }
    } else {
        let t = s.drop_first();
        assert forall|i: int, j: int| 0 <= i < j < t.len() implies str_order(t[i], t[j]) < 0 by {
            assert(t[i] == s[i + 1] && t[j] == s[j + 1]);
        }
        lemma_insert_name_sorted(t, x);
        let it = insert_name(t, x);
        assert(r == seq![s[0]] + it);
        assert(f(x, s[0]) == str_order(x, s[0]));
        assert(f(s[0], x) == str_order(s[0], x));
        assert(str_order(s[0], x) < 0);
        assert forall|k: int| 0 <= k < it.len() implies str_order(s[0], #[trigger] it[k]) < 0 by {
            assert(it.contains(it[k]));
            if it[k] != x {
                assert(t.contains(it[k]));
                let m = choose|m: int| 0 <= m < t.len() && t[m] == it[k];
                assert(s[m + 1] == it[k]);
            }
        }
        assert forall|i: int, j: int| 0 <= i < j < r.len() implies str_order(r[i], r[j]) < 0 by {
            if i == 0 {
                assert(r[j] == it[j - 1]);
            } else {
                assert(r[i] == it[i - 1] && r[j] == it[j - 1]);
            }
        }
        assert(r[0] == s[0]);
        assert forall|y: Seq<char>| r.contains(y) <==> (s.contains(y) || y == x) by {
            if r.contains(y) && y != s[0] {
                let k = choose|k: int| 0 <= k < r.len() && r[k] == y;
                assert(it[k - 1] == y);
                assert(it.contains(y));
                if y != x {
                    assert(t.contains(y));
                    let m = choose|m: int| 0 <= m < t.len() && t[m] == y;
                    assert(s[m + 1] == y);
                }
            }
            if s.contains(y) && y != s[0] {
                let k = choose|k: int| 0 <= k < s.len() && s[k] == y;
                assert(t[k - 1] == y);
                assert(t.contains(y));
                let m = choose|m: int| 0 <= m < it.len() && it[m] == y;
                assert(r[m + 1] == y);
            }
            if y == x {
                let m = choose|m: int| 0 <= m < it.len() && it[m] == x;
                assert(r[m + 1] == x);
            }
        }
    }
}

/// The subdirectory names are increasing and are exactly the first components of the
/// entries below a subdirectory.
proof fn lemma_dir_names_sorted(es: Seq<RelEntry>)
    requires
        crate::order::is_total_order(lex_fn(char_order())),
    ensures
        ascending(dir_names(es)),
        forall|y: Seq<char>| dir_names(es).contains(y) <==> names_dir(es, y),
    decreases es.len(),
{
    if es.len() > 0 {
        let init = es.drop_last();
        let e = es.last();
        lemma_dir_names_sorted(init);
        if e.comps.len() > 1 {
            lemma_insert_name_sorted(dir_names(init), e.comps[0]);
        }
        assert forall|y: Seq<char>| dir_names(es).contains(y) <==> names_dir(es, y) by {
            if names_dir(init, y) {
                let i = choose|i: int| 0 <= i < init.len() && (#[trigger] init[i]).comps.len() > 1 && init[i].comps[0] == y;
                assert(es[i] == init[i]);
            }
            if names_dir(es, y) {
                let i = choose|i: int| 0 <= i < es.len() && (#[trigger] es[i]).comps.len() > 1 && es[i].comps[0] == y;
                if i < init.len() {
                    assert(init[i] == es[i]);
                    assert(names_dir(init, y));
                } else {
                    assert(es[i] == e);
                }
            }
            if e.comps.len() > 1 && y == e.comps[0] {
                assert(es[es.len() - 1] == e);
            }
        }
    }
}

/// The entries that writing subdirectories adds to their parent: one per name, in order,
/// each naming the tree written for the entries below it.
proof fn lemma_build_dirs_entries(es: Seq<RelEntry>, names: Seq<Seq<char>>, depth: nat)
    requires
        depth > 0,
        build_dirs(es, names, depth) is Ok,
    ensures
        build_dirs(es, names, depth)->Ok_0.0.len() == names.len(),
        forall|i: int| 0 <= i < names.len() ==> build_tree(group(es, #[trigger] names[i]), (depth - 1) as nat) is Ok
            && build_dirs(es, names, depth)->Ok_0.0[i] == (TreeEntryModel {
                mode: dir_mode(),
                name: names[i],
                oid: build_tree(group(es, names[i]), (depth - 1) as nat)->Ok_0.0,
            }),
    decreases names.len(),
{
    if names.len() > 0 {
        let init = names.drop_last();
        lemma_build_dirs_entries(es, init, depth);
        assert forall|i: int| 0 <= i < names.len() implies build_tree(group(es, #[trigger] names[i]), (depth - 1) as nat) is Ok
            && build_dirs(es, names, depth)->Ok_0.0[i] == (TreeEntryModel {
                mode: dir_mode(),
                name: names[i],
                oid: build_tree(group(es, names[i]), (depth - 1) as nat)->Ok_0.0,
            }) by {
            if i < init.len() {
                assert(init[i] == names[i]);
            }
        }
    }
}

/// The layout of a written tree: its data lists the files directly in it, in index order,
/// then one entry per subdirectory, in increasing name order, each naming the tree written
/// for the entries below that subdirectory; the subdirectories are exactly the first
/// components of the entries below one; and the tree's data is written last.
pub proof fn law_tree_layout(es: Seq<RelEntry>, depth: nat)
    requires
        depth > 0,
        build_tree(es, depth) is Ok,
    ensures
        ascending(dir_names(es)),
        forall|y: Seq<char>| dir_names(es).contains(y) <==> names_dir(es, y),
        ({
            let dirs = dir_names(es).map_values(|d: Seq<char>| TreeEntryModel {
                mode: dir_mode(),
                name: d,
                oid: build_tree(group(es, d), (depth - 1) as nat)->Ok_0.0,
            });
            &&& tree_data(file_entries(es) + dirs) is Ok
            &&& build_tree(es, depth)->Ok_0.0 == object_id(ObjectType::Tree, tree_data(file_entries(es) + dirs)->Ok_0)
            &&& build_tree(es, depth)->Ok_0.1.last() == tree_data(file_entries(es) + dirs)->Ok_0
        }),
        forall|i: int| 0 <= i < dir_names(es).len() ==> build_tree(group(es, #[trigger] dir_names(es)[i]), (depth - 1) as nat) is Ok,
{
    lemma_str_total();
    lemma_dir_names_sorted(es);
    let names = dir_names(es);
    lemma_build_dirs_entries(es, names, depth);
    let dirs = names.map_values(|d: Seq<char>| TreeEntryModel {
        mode: dir_mode(),
        name: d,
        oid: build_tree(group(es, d), (depth - 1) as nat)->Ok_0.0,
    });
    assert(build_dirs(es, names, depth)->Ok_0.0 == dirs);
}

/// What a successful writing of subdirectories stores is the data it gives.
proof fn lemma_dirs_writes_ok(es: Seq<RelEntry>, names: Seq<Seq<char>>, depth: nat)
    requires
        build_dirs(es, names, depth) is Ok,
    ensures
        dirs_writes(es, names, depth) == build_dirs(es, names, depth)->Ok_0.1,
    decreases depth, 0nat, names.len(),
{
    if names.len() > 0 && depth > 0 {
        lemma_dirs_writes_ok(es, names.drop_last(), depth);
        law_writes_on_success(group(es, names.last()), (depth - 1) as nat);
    }
}

/// When writing a directory succeeds, the trees stored along the way are exactly the
/// trees it gives, in the same order.
pub proof fn law_writes_on_success(es: Seq<RelEntry>, depth: nat)
    requires
        build_tree(es, depth) is Ok,
    ensures
        tree_writes(es, depth) == build_tree(es, depth)->Ok_0.1,
    decreases depth, 1nat, 0nat,
{
    lemma_dirs_writes_ok(es, dir_names(es), depth);
}

/// Whether the tree written for `es` (with `depth` levels to go) holds the entry of the
/// path `comps` with id `oid`: its data encodes a list of entries that, for a single
/// component, holds that name as a file (mode `100644`) with the id, and otherwise holds the
/// first component as a directory (mode `40000`) naming the tree written below it, which in
/// turn holds the rest of the path.
pub open spec fn lists_path(es: Seq<RelEntry>, depth: nat, comps: Seq<Seq<char>>, oid: Seq<char>) -> bool
    decreases comps.len(),
{
    match build_tree(es, depth) {
        Err(_) => false,
        Ok((_, objs)) => objs.len() > 0 && exists|l: Seq<TreeEntryModel>|
            #[trigger] tree_data(l) == Ok::<Seq<u8>, ErrorView>(objs.last()) && if comps.len() == 1 {
                l.contains(TreeEntryModel { mode: file_mode(), name: comps[0], oid })
            } else if comps.len() > 1 {
                &&& depth > 0
                &&& l.contains(
                    TreeEntryModel {
                        mode: dir_mode(),
                        name: comps[0],
                        oid: build_tree(group(es, comps[0]), (depth - 1) as nat)->Ok_0.0,
                    },
                )
                &&& lists_path(group(es, comps[0]), (depth - 1) as nat, comps.drop_first(), oid)
            } else {
                false
            },
    }
}

/// Every entry with a single component is listed among the files.
proof fn lemma_file_entries_contain(es: Seq<RelEntry>)
    ensures
        forall|i: int| 0 <= i < es.len() && (#[trigger] es[i]).comps.len() == 1 ==> file_entries(es).contains(
            TreeEntryModel { mode: file_mode(), name: es[i].comps[0], oid: es[i].oid },
        ),
    decreases es.len(),
{
    if es.len() > 0 {
        let init = es.drop_last();
        lemma_file_entries_contain(init);
        let f = file_entries(es);
        let f2 = file_entries(init);
        assert forall|i: int| 0 <= i < es.len() && (#[trigger] es[i]).comps.len() == 1 implies f.contains(
            TreeEntryModel { mode: file_mode(), name: es[i].comps[0], oid: es[i].oid },
        ) by {
            let x = TreeEntryModel { mode: file_mode(), name: es[i].comps[0], oid: es[i].oid };
            if i < init.len() {
                assert(init[i] == es[i]);
                let k = choose|k: int| 0 <= k < f2.len() && f2[k] == x;
                assert(f[k] == f2[k]);
            } else {
                assert(f[f.len() - 1] == x);
            }
        }
    }
}

/// Every entry below a subdirectory is in its group, without its first component.
proof fn lemma_group_contains(es: Seq<RelEntry>, d: Seq<char>)
    ensures
        forall|i: int| 0 <= i < es.len() && (#[trigger] es[i]).comps.len() > 1 && es[i].comps[0] == d
            ==> group(es, d).contains(RelEntry { comps: es[i].comps.drop_first(), oid: es[i].oid }),
        forall|j: int| 0 <= j < group(es, d).len() ==> exists|i: int|
            0 <= i < es.len() && #[trigger] group(es, d)[j].comps.len() + 1 == (#[trigger] es[i]).comps.len(),
    decreases es.len(),
{
    if es.len() > 0 {
        let init = es.drop_last();
        lemma_group_contains(init, d);
        let g = group(es, d);
        let g2 = group(init, d);
        assert forall|i: int| 0 <= i < es.len() && (#[trigger] es[i]).comps.len() > 1 && es[i].comps[0] == d
            implies g.contains(RelEntry { comps: es[i].comps.drop_first(), oid: es[i].oid }) by {
            let x = RelEntry { comps: es[i].comps.drop_first(), oid: es[i].oid };
            if i < init.len() {
                assert(init[i] == es[i]);
                let k = choose|k: int| 0 <= k < g2.len() && g2[k] == x;
                assert(g[k] == g2[k]);
            } else {
                assert(g[g.len() - 1] == x);
            }
        }
        assert forall|j: int| 0 <= j < g.len() implies exists|i: int|
            0 <= i < es.len() && #[trigger] g[j].comps.len() + 1 == (#[trigger] es[i]).comps.len() by {
            if j < g2.len() {
                assert(g[j] == g2[j]);
                let i = choose|i: int| 0 <= i < init.len() && #[trigger] g2[j].comps.len() + 1 == (#[trigger] init[i]).comps.len();
                assert(init[i] == es[i]);
            } else {
                assert(g[j].comps.len() + 1 == es[es.len() - 1].comps.len());
            }
        }
    }
}

/// Every entry of the index is written: for entries of at most `depth + 1` components, the
/// tree written for them holds each one's path.
proof fn lemma_path_listed(es: Seq<RelEntry>, depth: nat, e: RelEntry)
    requires
        es.contains(e),
        e.comps.len() >= 1,
        forall|i: int| 0 <= i < es.len() ==> (#[trigger] es[i]).comps.len() <= depth + 1,
        build_tree(es, depth) is Ok,
    ensures
        lists_path(es, depth, e.comps, e.oid),
    decreases e.comps.len(),
{
    let names = dir_names(es);
    let bd = build_dirs(es, names, depth);
    let dirs = bd->Ok_0.0;
    let l = file_entries(es) + dirs;
    let objs = build_tree(es, depth)->Ok_0.1;
    assert(tree_data(l) == Ok::<Seq<u8>, ErrorView>(objs.last()));
    let ie = choose|i: int| 0 <= i < es.len() && es[i] == e;
    if e.comps.len() == 1 {
        lemma_file_entries_contain(es);
        let x = TreeEntryModel { mode: file_mode(), name: e.comps[0], oid: e.oid };
        assert(es[ie].comps.len() == 1);
        let k = choose|k: int| 0 <= k < file_entries(es).len() && file_entries(es)[k] == x;
        assert(l[k] == x);
        assert(l.contains(x));
    } else {
        assert(es[ie].comps.len() <= depth + 1);
        assert(depth > 0);
        let d = e.comps[0];
        lemma_str_total();
        lemma_dir_names_sorted(es);
        assert(names_dir(es, d)) by {
            assert(es[ie].comps.len() > 1 && es[ie].comps[0] == d);
        }
        assert(names.contains(d));
        let k = choose|k: int| 0 <= k < names.len() && names[k] == d;
        lemma_build_dirs_entries(es, names, depth);
        let sub = group(es, d);
        let x = TreeEntryModel {
            mode: dir_mode(),
            name: d,
            oid: build_tree(sub, (depth - 1) as nat)->Ok_0.0,
        };
        assert(dirs[k] == x);
        assert(l[file_entries(es).len() + k] == x);
        assert(l.contains(x));
        lemma_group_contains(es, d);
        let e2 = RelEntry { comps: e.comps.drop_first(), oid: e.oid };
        assert(sub.contains(e2)) by {
            assert(es[ie].comps.len() > 1 && es[ie].comps[0] == d);
        }
        assert forall|j: int| 0 <= j < sub.len() implies (#[trigger] sub[j]).comps.len() <= (depth - 1) as nat + 1 by {
            let i = choose|i: int| 0 <= i < es.len() && #[trigger] sub[j].comps.len() + 1 == (#[trigger] es[i]).comps.len();
        }
        lemma_path_listed(sub, (depth - 1) as nat, e2);
    }
}

/// Every entry in the list bounds the longest component list.
proof fn lemma_max_depth_bounds(es: Seq<RelEntry>)
    ensures
        forall|i: int| 0 <= i < es.len() ==> (#[trigger] es[i]).comps.len() <= max_depth(es),
    decreases es.len(),
{
    if es.len() > 0 {
        lemma_max_depth_bounds(es.drop_last());
        assert forall|i: int| 0 <= i < es.len() implies (#[trigger] es[i]).comps.len() <= max_depth(es) by {
            if i < es.len() - 1 {
                assert(es.drop_last()[i] == es[i]);
            }
        }
    }
}

/// Writing the index as trees loses no file: every index entry whose path has a component
/// is reachable from the root tree that is written, following its path's components through
/// directory entries down to a file entry with its name and id, at every depth.
pub proof fn law_every_entry_written(es: Seq<IndexEntryModel>)
    requires
        write_tree_result(es) is Ok,
    ensures
        forall|i: int| 0 <= i < es.len() && components((#[trigger] es[i]).path).len() > 0 ==> exists|d: nat|
            build_tree(rel_entries(es), d) == write_tree_result(es) && lists_path(
                rel_entries(es),
                d,
                components(es[i].path),
                es[i].oid,
            ),
{
    let rs = rel_entries(es);
    let d = max_depth(rs);
    lemma_max_depth_bounds(rs);
    assert forall|i: int| 0 <= i < es.len() && components((#[trigger] es[i]).path).len() > 0 implies exists|dd: nat|
        build_tree(rs, dd) == write_tree_result(es) && lists_path(rs, dd, components(es[i].path), es[i].oid) by {
        let e = rs[i];
        assert(e == RelEntry { comps: components(es[i].path), oid: es[i].oid });
        assert(rs.contains(e));
        assert forall|j: int| 0 <= j < rs.len() implies (#[trigger] rs[j]).comps.len() <= d + 1 by {}
        lemma_path_listed(rs, d, e);
    }
}

} // verus!
