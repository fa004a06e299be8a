//! Checking out a tree: a run that goes through the tree depth-first, one object at a
//! time, and collects the index entries of the files it writes.
use vstd::prelude::*;
use crate::error::{ErrorView, GitError};
use crate::index::{index_models, IndexEntry, IndexEntryModel};
use crate::object::ObjectType;
use crate::path::path_strip_prefix;
use crate::tree::{scan_tree, TreeEntryModel, TreeScan};
use crate::worktree::{checkout_item_of, checkout_items, expect_blob, item_view, worktree_relative, CheckoutItem};
use crate::repo::GitRepo;

verus! {

/// An item to check out: whether it is a directory, its path, its id.
pub type ItemView = (bool, Seq<char>, Seq<char>);

/// A checkout in progress: the items still to check out, the next one last, and the index
/// entries collected so far.
pub struct CheckoutRun {
    pub pending: Vec<CheckoutItem>,
    pub entries: Vec<IndexEntry>,
}

/// The items still to check out, the next one first.
pub open spec fn work_list(pending: Seq<CheckoutItem>) -> Seq<ItemView> {
    pending.map_values(|i: CheckoutItem| item_view(i)).reverse()
}

/// What checking out one item does, given the object its id names: a directory must name
/// a tree, whose entries are checked out next, in order, before the rest; a file must
/// name a blob, and its path relative to the work tree is collected with its id.
pub open spec fn checkout_step_model(
    worktree: Seq<char>,
    work: Seq<ItemView>,
    entries: Seq<IndexEntryModel>,
    kind: ObjectType,
    data: Seq<u8>,
) -> Result<(Seq<ItemView>, Seq<IndexEntryModel>), ErrorView> {
    let it = work[0];
    if it.0 {
        if kind != ObjectType::Tree {
            Err(ErrorView::ExpectedTree)
        } else {
            match scan_tree(data) {
                TreeScan::Parsed(es) => Ok(
                    (es.map_values(|e: TreeEntryModel| checkout_item_of(it.1, e)) + work.drop_first(), entries),
                ),
                TreeScan::Failed(e) => Err(e),
                TreeScan::Truncated => Err(ErrorView::InvalidTree),
            }
        }
    } else if kind != ObjectType::Blob {
        Err(ErrorView::NotABlob)
    } else {
        match path_strip_prefix(it.1, worktree) {
            Some(r) => Ok((work.drop_first(), entries.push(IndexEntryModel { path: r, oid: it.2 }))),
            None => Err(ErrorView::OutsideWorktree),
        }
    }
}

/// Whether checking out the item with this object would read tree data cut short inside
/// an id.
pub open spec fn step_truncated(it: ItemView, kind: ObjectType, data: Seq<u8>) -> bool {
    it.0 && kind == ObjectType::Tree && scan_tree(data) is Truncated
}

/// Starts checking out the tree `oid` into `base`, after the index entries `entries`.
pub fn checkout_start(base: &str, oid: &str, entries: Vec<IndexEntry>) -> (res: CheckoutRun)
    ensures
        work_list(res.pending@) == seq![(true, base@, oid@)],
        index_models(res.entries@) == index_models(entries@),
{
    let mut pending: Vec<CheckoutItem> = Vec::new();
    pending.push(CheckoutItem::Dir { path: base.to_owned(), oid: oid.to_owned() });
    let res = CheckoutRun { pending, entries };
    assert(res.pending@.map_values(|i: CheckoutItem| item_view(i)) =~= seq![(true, base@, oid@)]);
    assert(work_list(res.pending@) =~= seq![(true, base@, oid@)]);
    res
}

/// Checks out the next item, given the kind and data of the object its id names. On an
/// error the run stops: the item is taken off and the entries stay as they were; otherwise the item is done and, for a directory, its entries are
/// next. Tree data cut short inside an id is left out: reading it would index past its end.
pub fn checkout_step(run: &mut CheckoutRun, repo: &GitRepo, kind: ObjectType, data: &[u8]) -> (res: Result<(), GitError>)
    requires
        old(run).pending@.len() > 0,
        !step_truncated(work_list(old(run).pending@)[0], kind, data@),
    ensures
        match checkout_step_model(
            repo.worktree@,
            work_list(old(run).pending@),
            index_models(old(run).entries@),
            kind,
            data@,
        ) {
            Ok((w, e)) => res is Ok && work_list(final(run).pending@) == w && index_models(final(run).entries@) == e,
            Err(e) => res matches Err(x) && x@ == e,
        },
        res is Err ==> index_models(final(run).entries@) == index_models(old(run).entries@)
            && work_list(final(run).pending@) == work_list(old(run).pending@).drop_first(),
{
    let ghost w0 = work_list(run.pending@);
    let ghost v0 = run.pending@.map_values(|i: CheckoutItem| item_view(i));
    let ghost e0 = index_models(run.entries@);
    let item = run.pending.pop().unwrap();
    proof {
        assert(v0.last() == item_view(item));
        assert(w0[0] == v0.last());
        assert(run.pending@.map_values(|i: CheckoutItem| item_view(i)) == v0.drop_last());
        assert(w0.drop_first() == v0.drop_last().reverse());
        assert(w0.drop_first() == work_list(run.pending@));
    }
    match item {
        CheckoutItem::Dir { path, oid } => {
            let items = match checkout_items(path.as_str(), kind, data) {
                Ok(v) => v,
                Err(e) => {
                    return Err(e);
                },
            };
            let ghost iv = items@.map_values(|i: CheckoutItem| item_view(i));
            let mut items = items;
            let ghost rest = work_list(run.pending@);
            while items.len() > 0
                invariant
                    items@.map_values(|i: CheckoutItem| item_view(i)) + work_list(run.pending@) == iv + rest,
                    index_models(run.entries@) == e0,
                decreases items@.len(),
            {
                let ghost before = items@.map_values(|i: CheckoutItem| item_view(i));
                let ghost wl = work_list(run.pending@);
                let x = items.pop().unwrap();
                assert(items@.map_values(|i: CheckoutItem| item_view(i)) == before.drop_last());
                assert(before.last() == item_view(x));
                let ghost pv = run.pending@.map_values(|i: CheckoutItem| item_view(i));
                run.pending.push(x);
                assert(run.pending@.map_values(|i: CheckoutItem| item_view(i)) == pv.push(item_view(x)));
                assert(work_list(run.pending@) == seq![item_view(x)] + wl);
                assert(before == before.drop_last() + seq![item_view(x)]);
                assert(before.drop_last() + (seq![item_view(x)] + wl) == before + wl);
            }
            assert(items@.map_values(|i: CheckoutItem| item_view(i)) == Seq::<ItemView>::empty());
            assert(Seq::<ItemView>::empty() + work_list(run.pending@) == work_list(run.pending@));
            Ok(())
        },
        CheckoutItem::File { path, oid } => {
            match expect_blob(kind) {
                Ok(()) => {},
                Err(e) => {
                    return Err(e);
                },
            }
            let rel = match worktree_relative(repo, path.as_str()) {
                Ok(r) => r,
                Err(e) => {
                    return Err(e);
                },
            };
            let ghost before = index_models(run.entries@);
            let entry = IndexEntry { path: rel, oid };
            run.entries.push(entry);
            assert(index_models(run.entries@) == before.push(entry@));
            Ok(())
        },
    }
}

/// The index entries that checking out an item collects, given the kind and data of the
/// object each id names (`objs`), for trees nested at most `depth` deep: a directory's
/// entries depth-first in tree order, a file's path relative to the work tree with its
/// id; or the error that stops it; or `None` where it goes deeper or would read tree data
/// cut short.
pub open spec fn expand_item(
    worktree: Seq<char>,
    objs: spec_fn(Seq<char>) -> (ObjectType, Seq<u8>),
    it: ItemView,
    depth: nat,
) -> Option<Result<Seq<IndexEntryModel>, ErrorView>>
    decreases depth, 0nat,
{
    let kind = objs(it.2).0;
    let data = objs(it.2).1;
    if it.0 {
        if kind != ObjectType::Tree {
            Some(Err(ErrorView::ExpectedTree))
        } else {
            match scan_tree(data) {
                TreeScan::Parsed(es) => {
                    if depth == 0 {
                        None
                    } else {
                        expand_items(
                            worktree,
                            objs,
                            es.map_values(|e: TreeEntryModel| checkout_item_of(it.1, e)),
                            (depth - 1) as nat,
                        )
                    }
                },
                TreeScan::Failed(e) => Some(Err(e)),
                TreeScan::Truncated => None,
            }
        }
    } else if kind != ObjectType::Blob {
        Some(Err(ErrorView::NotABlob))
    } else {
        match path_strip_prefix(it.1, worktree) {
            Some(r) => Some(Ok(seq![IndexEntryModel { path: r, oid: it.2 }])),
            None => Some(Err(ErrorView::OutsideWorktree)),
        }
    }
}

/// The index entries that checking out items in order collects (see `expand_item`).
pub open spec fn expand_items(
    worktree: Seq<char>,
    objs: spec_fn(Seq<char>) -> (ObjectType, Seq<u8>),
    items: Seq<ItemView>,
    depth: nat,
) -> Option<Result<Seq<IndexEntryModel>, ErrorView>>
    decreases depth, items.len(),
{
    if items.len() == 0 {
        Some(Ok(seq![]))
    } else {
        match expand_item(worktree, objs, items[0], depth) {
            None => None,
            Some(Err(e)) => Some(Err(e)),
            Some(Ok(a)) => match expand_items(worktree, objs, items.drop_first(), depth) {
                None => None,
                Some(Err(e)) => Some(Err(e)),
                Some(Ok(b)) => Some(Ok(a + b)),
            },
        }
    }
}

/// A checkout run of at most `n` steps over the objects `objs`, each step given the object
/// of the next item as `checkout_step` is: the entries it ends with, the error that stops
/// it, or `None` where it needs more steps or would read tree data cut short.
pub open spec fn checkout_run(
    worktree: Seq<char>,
    objs: spec_fn(Seq<char>) -> (ObjectType, Seq<u8>),
    work: Seq<ItemView>,
    entries: Seq<IndexEntryModel>,
    n: nat,
) -> Option<Result<Seq<IndexEntryModel>, ErrorView>>
    decreases n,
{
    if work.len() == 0 {
        Some(Ok(entries))
    } else if n == 0 {
        None
    } else if step_truncated(work[0], objs(work[0].2).0, objs(work[0].2).1) {
        None
    } else {
        match checkout_step_model(worktree, work, entries, objs(work[0].2).0, objs(work[0].2).1) {
            Err(e) => Some(Err(e)),
            Ok((w, e)) => checkout_run(worktree, objs, w, e, (n - 1) as nat),
        }
    }
}

/// What a run that starts with `entries` gives for an expansion result.
pub open spec fn after_expansion(
    entries: Seq<IndexEntryModel>,
    r: Option<Result<Seq<IndexEntryModel>, ErrorView>>,
) -> Option<Result<Seq<IndexEntryModel>, ErrorView>> {
    match r {
        Some(Ok(a)) => Some(Ok(entries + a)),
        Some(Err(e)) => Some(Err(e)),
        None => None,
    }
}

/// Running one item and then the rest: within `k` steps the item is done.
proof fn lemma_item_run(
    worktree: Seq<char>,
    objs: spec_fn(Seq<char>) -> (ObjectType, Seq<u8>),
    it: ItemView,
    depth: nat,
) -> (k: nat)
    requires
        expand_item(worktree, objs, it, depth) is Some,
    ensures
        forall|rest: Seq<ItemView>, entries: Seq<IndexEntryModel>, n: nat|
            n >= k ==> #[trigger] checkout_run(worktree, objs, seq![it] + rest, entries, n) == match expand_item(
                worktree,
                objs,
                it,
                depth,
            ) {
                Some(Ok(a)) => checkout_run(worktree, objs, rest, entries + a, (n - k) as nat),
                Some(Err(e)) => Some(Err(e)),
                None => None,
            },
    decreases depth, 0nat,
{
    let kind = objs(it.2).0;
    let data = objs(it.2).1;
    if it.0 && kind == ObjectType::Tree && scan_tree(data) is Parsed {
        let es = scan_tree(data)->Parsed_0;
        let children = es.map_values(|e: TreeEntryModel| checkout_item_of(it.1, e));
        let k2 = lemma_items_run(worktree, objs, children, (depth - 1) as nat);
        assert forall|rest: Seq<ItemView>, entries: Seq<IndexEntryModel>, n: nat|
            n >= k2 + 1 implies #[trigger] checkout_run(worktree, objs, seq![it] + rest, entries, n) == match expand_item(
                worktree,
                objs,
                it,
                depth,
            ) {
                Some(Ok(a)) => checkout_run(worktree, objs, rest, entries + a, (n - (k2 + 1)) as nat),
                Some(Err(e)) => Some(Err(e)),
                None => None,
            } by {
            let w = seq![it] + rest;
            assert(w[0] == it);
            assert(w.drop_first() == rest);
            assert(checkout_run(worktree, objs, w, entries, n) == checkout_run(
                worktree,
                objs,
                children + rest,
                entries,
                (n - 1) as nat,
            ));
        }
        k2 + 1
    } else {
        assert forall|rest: Seq<ItemView>, entries: Seq<IndexEntryModel>, n: nat|
            n >= 1 implies #[trigger] checkout_run(worktree, objs, seq![it] + rest, entries, n) == match expand_item(
                worktree,
                objs,
                it,
                depth,
            ) {
                Some(Ok(a)) => checkout_run(worktree, objs, rest, entries + a, (n - 1) as nat),
                Some(Err(e)) => Some(Err(e)),
                None => None,
            } by {
            let w = seq![it] + rest;
            assert(w[0] == it);
            assert(w.drop_first() == rest);
            if !it.0 && kind == ObjectType::Blob {
                match path_strip_prefix(it.1, worktree) {
                    Some(r) => {
                        let x = IndexEntryModel { path: r, oid: it.2 };
                        assert(entries.push(x) == entries + seq![x]);
                    },
                    None => {},
                }
            }
        }
        1
    }
}

/// Running items in order and then the rest: within `k` steps the items are done.
proof fn lemma_items_run(
    worktree: Seq<char>,
    objs: spec_fn(Seq<char>) -> (ObjectType, Seq<u8>),
    items: Seq<ItemView>,
    depth: nat,
) -> (k: nat)
    requires
        expand_items(worktree, objs, items, depth) is Some,
    ensures
        forall|rest: Seq<ItemView>, entries: Seq<IndexEntryModel>, n: nat|
            n >= k ==> #[trigger] checkout_run(worktree, objs, items + rest, entries, n) == match expand_items(
                worktree,
                objs,
                items,
                depth,
            ) {
                Some(Ok(a)) => checkout_run(worktree, objs, rest, entries + a, (n - k) as nat),
                Some(Err(e)) => Some(Err(e)),
                None => None,
            },
    decreases depth, items.len(),
{
    if items.len() == 0 {
        assert forall|rest: Seq<ItemView>, entries: Seq<IndexEntryModel>, n: nat|
            n >= 0 implies #[trigger] checkout_run(worktree, objs, items + rest, entries, n) == match expand_items(
                worktree,
                objs,
                items,
                depth,
            ) {
                Some(Ok(a)) => checkout_run(worktree, objs, rest, entries + a, (n - 0) as nat),
                Some(Err(e)) => Some(Err(e)),
                None => None,
            } by {
            assert(items + rest == rest);
            assert(entries + Seq::<IndexEntryModel>::empty() == entries);
        }
        0
    } else {
        let it = items[0];
        let tl = items.drop_first();
        let k1 = lemma_item_run(worktree, objs, it, depth);
        match expand_item(worktree, objs, it, depth) {
            Some(Ok(a)) => {
                let k2 = lemma_items_run(worktree, objs, tl, depth);
                assert forall|rest: Seq<ItemView>, entries: Seq<IndexEntryModel>, n: nat|
                    n >= k1 + k2 implies #[trigger] checkout_run(worktree, objs, items + rest, entries, n) == match expand_items(
                        worktree,
                        objs,
                        items,
                        depth,
                    ) {
                        Some(Ok(c)) => checkout_run(worktree, objs, rest, entries + c, (n - (k1 + k2)) as nat),
                        Some(Err(e)) => Some(Err(e)),
                        None => None,
                    } by {
                    assert(items + rest == seq![it] + (tl + rest));
                    assert(checkout_run(worktree, objs, seq![it] + (tl + rest), entries, n) == checkout_run(
                        worktree,
                        objs,
                        tl + rest,
                        entries + a,
                        (n - k1) as nat,
                    ));
                    match expand_items(worktree, objs, tl, depth) {
                        Some(Ok(b)) => {
                            assert(entries + a + b == entries + (a + b));
                        },
                        _ => {},
                    }
                }
                k1 + k2
            },
            _ => {
                assert forall|rest: Seq<ItemView>, entries: Seq<IndexEntryModel>, n: nat|
                    n >= k1 implies #[trigger] checkout_run(worktree, objs, items + rest, entries, n) == match expand_items(
                        worktree,
                        objs,
                        items,
                        depth,
                    ) {
                        Some(Ok(c)) => checkout_run(worktree, objs, rest, entries + c, (n - k1) as nat),
                        Some(Err(e)) => Some(Err(e)),
                        None => None,
                    } by {
                    assert(items + rest == seq![it] + (tl + rest));
                    assert(checkout_run(worktree, objs, seq![it] + (tl + rest), entries, n) == checkout_run(
                        worktree,
                        objs,
                        items + rest,
                        entries,
                        n,
                    ));
                }
                k1
            },
        }
    }
}

/// Checking out a tree goes depth-first: a run started by `checkout_start` and stepped by
/// `checkout_step` with the objects that the ids name ends, within some number of steps,
/// with the entries it started with followed by the files of the tree depth-first in tree
/// order (each path relative to the work tree, with its blob id), or stops with the first
/// error met in that order: an object that should be a tree and is not, tree data that
/// does not parse, a file entry that names no blob, a file outside the work tree.
pub proof fn law_checkout_depth_first(
    worktree: Seq<char>,
    objs: spec_fn(Seq<char>) -> (ObjectType, Seq<u8>),
    base: Seq<char>,
    oid: Seq<char>,
    entries: Seq<IndexEntryModel>,
    depth: nat,
)
    requires
        expand_item(worktree, objs, (true, base, oid), depth) is Some,
    ensures
        exists|n: nat|
            checkout_run(worktree, objs, seq![(true, base, oid)], entries, n) == after_expansion(
                entries,
                expand_item(worktree, objs, (true, base, oid), depth),
            ),
{
    let it = (true, base, oid);
    let k = lemma_item_run(worktree, objs, it, depth);
    let empty = Seq::<ItemView>::empty();
    assert(seq![it] + empty == seq![it]);
    assert(checkout_run(worktree, objs, seq![it] + empty, entries, k) == match expand_item(
        worktree,
        objs,
        it,
        depth,
    ) {
        Some(Ok(a)) => checkout_run(worktree, objs, empty, entries + a, 0),
        Some(Err(e)) => Some(Err(e)),
        None => None,
    });
}

} // verus!
