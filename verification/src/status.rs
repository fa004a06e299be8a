//! The status of the work tree against the index: modified, deleted and untracked files,
//! and the report that lists them.
use vstd::prelude::*;
use crate::convert::string_of;
use crate::index::{index_models, IndexEntry, IndexEntryModel};
use crate::object::{object_id, object_write, ObjectType};
use crate::path::extend_chars;
use crate::refs::string_views;
use crate::text::chars_of;

verus! {

/// The views of optional file contents.
pub open spec fn content_views(v: Seq<Option<Vec<u8>>>) -> Seq<Option<Seq<u8>>> {
    v.map_values(|c: Option<Vec<u8>>| match c {
        Some(d) => Some(d@),
        None => None,
    })
}

/// The paths of index entries whose file is gone, in index order.
pub open spec fn deleted_paths(es: Seq<IndexEntryModel>, cur: Seq<Option<Seq<u8>>>) -> Seq<Seq<char>>
    decreases es.len(),
{
    if es.len() == 0 || cur.len() == 0 {
        seq![]
    } else {
        let d = deleted_paths(es.drop_last(), cur.drop_last());
        if cur.last() is None {
            d.push(es.last().path)
        } else {
            d
        }
    }
}

/// The paths of index entries whose file's blob id differs from the staged one.
pub open spec fn modified_paths(es: Seq<IndexEntryModel>, cur: Seq<Option<Seq<u8>>>) -> Seq<Seq<char>>
    decreases es.len(),
{
    if es.len() == 0 || cur.len() == 0 {
        seq![]
    } else {
        let m = modified_paths(es.drop_last(), cur.drop_last());
        match cur.last() {
            Some(data) => {
                if object_id(ObjectType::Blob, data) != es.last().oid {
                    m.push(es.last().path)
                } else {
                    m
                }
            },
            None => m,
        }
    }
}

/// Whether some index entry has the path.
pub open spec fn indexed(es: Seq<IndexEntryModel>, p: Seq<char>) -> bool {
    exists|i: int| 0 <= i < es.len() && es[i].path == p
}

/// The work-tree files that no index entry names, in walking order.
pub open spec fn untracked_paths(files: Seq<Seq<char>>, es: Seq<IndexEntryModel>) -> Seq<Seq<char>> {
    files.filter(|f: Seq<char>| !indexed(es, f))
}

/// What the status finds.
#[derive(Debug)]
pub struct StatusReport {
    pub modified: Vec<String>,
    pub deleted: Vec<String>,
    pub untracked: Vec<String>,
}

/// Compares the work tree with the index. `contents[i]` is the content of the file of
/// `index[i]`, or `None` where it does not exist; `files` are the work-tree files (relative
/// paths, `.git` left out) in walking order.
pub fn status(index: &[IndexEntry], contents: &[Option<Vec<u8>>], files: &[String]) -> (res: StatusReport)
    requires
        contents@.len() == index@.len(),
    ensures
        string_views(res.modified@) == modified_paths(index_models(index@), content_views(contents@)),
        string_views(res.deleted@) == deleted_paths(index_models(index@), content_views(contents@)),
        string_views(res.untracked@) == untracked_paths(string_views(files@), index_models(index@)),
{
    let ghost ms = index_models(index@);
    let ghost cs = content_views(contents@);
    let mut modified: Vec<String> = Vec::new();
    let mut deleted: Vec<String> = Vec::new();
    let mut i: usize = 0;
    while i < index.len()
        invariant
            i <= index@.len(),
            contents@.len() == index@.len(),
            ms == index_models(index@),
            cs == content_views(contents@),
            string_views(modified@) == modified_paths(ms.take(i as int), cs.take(i as int)),
            string_views(deleted@) == deleted_paths(ms.take(i as int), cs.take(i as int)),
        decreases index@.len() - i,
    {
        assert(ms.take(i + 1).drop_last() == ms.take(i as int));
        assert(cs.take(i + 1).drop_last() == cs.take(i as int));
        assert(ms.take(i + 1).last() == index@[i as int]@);
        assert(cs.take(i + 1).last() == cs[i as int]);
        let e = &index[i];
        match &contents[i] {
            None => {
                let ghost before = string_views(deleted@);
                deleted.push(e.path.clone());
                assert(string_views(deleted@) == before.push(e.path@));
            },
            Some(data) => {
                let (oid, _store) = object_write(ObjectType::Blob, data.as_slice());
                if oid != e.oid {
                    let ghost before = string_views(modified@);
                    modified.push(e.path.clone());
                    assert(string_views(modified@) == before.push(e.path@));
                }
            },
        }
        i = i + 1;
    }
    assert(ms.take(index@.len() as int) == ms);
    assert(cs.take(index@.len() as int) == cs);
    let ghost fs = string_views(files@);
    let ghost pred = |f: Seq<char>| !indexed(ms, f);
    let mut untracked: Vec<String> = Vec::new();
    let mut j: usize = 0;
    while j < files.len()
        invariant
            j <= files@.len(),
            ms == index_models(index@),
            fs == string_views(files@),
            pred == (|f: Seq<char>| !indexed(ms, f)),
            string_views(untracked@) == fs.take(j as int).filter(pred),
        decreases files@.len() - j,
    {
        let mut found = false;
        let mut k: usize = 0;
        while k < index.len()
            invariant
                k <= index@.len(),
                j < files@.len(),
                ms == index_models(index@),
                found <==> exists|q: int| 0 <= q < k && ms[q].path == files@[j as int]@,
            decreases index@.len() - k,
        {
            assert(ms[k as int] == index@[k as int]@);
            if index[k].path == files[j] {
                found = true;
            }
            k = k + 1;
            assert(found <==> exists|q: int| 0 <= q < k && ms[q].path == files@[j as int]@) by {
                if found && !(exists|q: int| 0 <= q < k - 1 && ms[q].path == files@[j as int]@) {
                    assert(ms[k - 1].path == files@[j as int]@);
                }
            }
        }
        assert(found <==> indexed(ms, fs[j as int]));
        proof {
            assert(fs.take(j as int).push(fs[j as int]) == fs.take(j + 1));
            fs.take(j as int).lemma_filter_push(fs[j as int], pred);
        }
        if !found {
            let ghost before = string_views(untracked@);
            untracked.push(files[j].clone());
            assert(string_views(untracked@) == before.push(fs[j as int]));
        }
        j = j + 1;
    }
    assert(fs.take(files@.len() as int) == fs);
    StatusReport { modified, deleted, untracked }
}

/// A work tree that holds, for every index entry, a file whose blob id is the staged one
/// shows nothing modified and nothing deleted; and a work tree whose files are all in the
/// index shows nothing untracked.
pub proof fn law_status_clean(es: Seq<IndexEntryModel>, cur: Seq<Option<Seq<u8>>>, files: Seq<Seq<char>>)
    requires
        cur.len() == es.len(),
        forall|i: int| 0 <= i < es.len() ==> (#[trigger] cur[i] matches Some(d) && object_id(ObjectType::Blob, d) == es[i].oid),
        forall|j: int| 0 <= j < files.len() ==> indexed(es, #[trigger] files[j]),
    ensures
        modified_paths(es, cur) == Seq::<Seq<char>>::empty(),
        deleted_paths(es, cur) == Seq::<Seq<char>>::empty(),
        untracked_paths(files, es) == Seq::<Seq<char>>::empty(),
    decreases es.len(),
{
    if es.len() > 0 {
        let es2 = es.drop_last();
        let cur2 = cur.drop_last();
        assert forall|i: int| 0 <= i < es2.len() implies (#[trigger] cur2[i] matches Some(d) && object_id(ObjectType::Blob, d) == es2[i].oid) by {
            assert(cur2[i] == cur[i]);
            assert(es2[i] == es[i]);
        }
        law_status_clean(es2, cur2, Seq::<Seq<char>>::empty());
        assert(cur.last() == cur[es.len() - 1]);
    }
    let pred = |f: Seq<char>| !indexed(es, f);
    let u = files.filter(pred);
    if u.len() > 0 {
        assert(u.contains(u[0]));
        files.lemma_filter_contains_rev(pred, u[0]);
        let j = choose|j: int| 0 <= j < files.len() && files[j] == u[0];
        assert(indexed(es, files[j]));
    }
}

/// A file content whose blob id differs from the staged id.
pub open spec fn stale(c: Option<Seq<u8>>, oid: Seq<char>) -> bool {
    match c {
        Some(d) => object_id(ObjectType::Blob, d) != oid,
        None => false,
    }
}

/// Every index entry is checked against its file: an entry whose file is gone is among the
/// deleted paths, and one whose file's blob id differs from the staged id is among the
/// modified paths. Conversely every deleted or modified path comes from such an entry.
pub proof fn law_status_checks_every_entry(es: Seq<IndexEntryModel>, cur: Seq<Option<Seq<u8>>>)
    requires
        cur.len() == es.len(),
    ensures
        forall|i: int| 0 <= i < es.len() && #[trigger] cur[i] is None ==> deleted_paths(es, cur).contains(es[i].path),
        forall|i: int|
            0 <= i < es.len() && stale(#[trigger] cur[i], es[i].oid)
                ==> modified_paths(es, cur).contains(es[i].path),
        forall|p: Seq<char>| #[trigger] deleted_paths(es, cur).contains(p) ==> exists|i: int|
            0 <= i < es.len() && cur[i] is None && #[trigger] es[i].path == p,
        forall|p: Seq<char>| #[trigger] modified_paths(es, cur).contains(p) ==> exists|i: int|
            0 <= i < es.len() && stale(cur[i], es[i].oid)
                && #[trigger] es[i].path == p,
    decreases es.len(),
{
    if es.len() > 0 {
        let e2 = es.drop_last();
        let c2 = cur.drop_last();
        law_status_checks_every_entry(e2, c2);
        let n = es.len() - 1;
        let dl = deleted_paths(es, cur);
        let ml = modified_paths(es, cur);
        let d2 = deleted_paths(e2, c2);
        let m2 = modified_paths(e2, c2);
        assert forall|i: int| 0 <= i < es.len() && #[trigger] cur[i] is None implies dl.contains(es[i].path) by {
            if i < n {
                assert(c2[i] == cur[i] && e2[i] == es[i]);
                let k = choose|k: int| 0 <= k < d2.len() && d2[k] == es[i].path;
                assert(dl[k] == d2[k]);
            } else {
                assert(dl[dl.len() - 1] == es[i].path);
            }
        }
        assert forall|i: int|
            0 <= i < es.len() && stale(#[trigger] cur[i], es[i].oid)
            implies ml.contains(es[i].path) by {
            if i < n {
                assert(c2[i] == cur[i] && e2[i] == es[i]);
                let k = choose|k: int| 0 <= k < m2.len() && m2[k] == es[i].path;
                assert(ml[k] == m2[k]);
            } else {
                assert(ml[ml.len() - 1] == es[i].path);
            }
        }
        assert forall|p: Seq<char>| #[trigger] dl.contains(p) implies exists|i: int|
            0 <= i < es.len() && cur[i] is None && #[trigger] es[i].path == p by {
            let k = choose|k: int| 0 <= k < dl.len() && dl[k] == p;
            if k < d2.len() {
                assert(d2[k] == dl[k]);
                assert(d2.contains(p));
                let i = choose|i: int| 0 <= i < e2.len() && c2[i] is None && #[trigger] e2[i].path == p;
                assert(e2[i] == es[i] && c2[i] == cur[i]);
            } else {
                assert(es[n].path == p);
            }
        }
        assert forall|p: Seq<char>| #[trigger] ml.contains(p) implies exists|i: int|
            0 <= i < es.len() && stale(cur[i], es[i].oid)
                && #[trigger] es[i].path == p by {
            let k = choose|k: int| 0 <= k < ml.len() && ml[k] == p;
            if k < m2.len() {
                assert(m2[k] == ml[k]);
                assert(m2.contains(p));
                let i = choose|i: int|
                    0 <= i < e2.len() && stale(c2[i], e2[i].oid)
                        && #[trigger] e2[i].path == p;
                assert(e2[i] == es[i] && c2[i] == cur[i]);
            } else {
                assert(es[n].path == p);
            }
        }
    }
}

} // verus!
