//! Tree objects: a sequence of entries `"<mode> <name>\0"` followed by the 20 raw bytes
//! of the entry's object id.
use vstd::prelude::*;
use vstd::utf8::*;
use crate::codec::{hex_bytes, hex_decode, hex_encode, hex_lower, is_hex_text, is_oid, lemma_hex_roundtrip};
use crate::encoding::{lemma_encode_avoids};
use crate::text::is_first_index;
use crate::convert::{utf8_decode, utf8_error_message, utf8_error_text};
use crate::error::{ErrorView, GitError};
use crate::text::{lemma_first_index, lemma_no_index};

verus! {

/// One entry of a tree: its mode, its name and the id of the object it names.
#[derive(Debug, Clone)]
pub struct TreeEntry {
    pub mode: String,
    pub path: String,
    pub oid: String,
}

/// A tree entry as characters.
pub struct TreeEntryModel {
    pub mode: Seq<char>,
    pub name: Seq<char>,
    pub oid: Seq<char>,
}

impl View for TreeEntry {
    type V = TreeEntryModel;

    open spec fn view(&self) -> TreeEntryModel {
        TreeEntryModel { mode: self.mode@, name: self.path@, oid: self.oid@ }
    }
}

/// The views of a sequence of tree entries.
pub open spec fn tree_models(es: Seq<TreeEntry>) -> Seq<TreeEntryModel> {
    es.map_values(|e: TreeEntry| e@)
}

/// The bytes of one entry, given the raw bytes of its id.
pub open spec fn entry_bytes(e: TreeEntryModel, raw_oid: Seq<u8>) -> Seq<u8> {
    encode_utf8(e.mode) + seq![32u8] + encode_utf8(e.name) + seq![0u8] + raw_oid
}

/// The data of a tree object made of these entries; the first entry whose id is not
/// hexadecimal text makes it fail.
pub open spec fn tree_data(es: Seq<TreeEntryModel>) -> Result<Seq<u8>, ErrorView>
    decreases es.len(),
{
    if es.len() == 0 {
        Ok(seq![])
    } else {
        match tree_data(es.drop_last()) {
            Err(e) => Err(e),
            Ok(d) => {
                let e = es.last();
                let ob = encode_utf8(e.oid);
                if is_hex_text(ob) {
                    Ok(d + entry_bytes(e, hex_bytes(ob)))
                } else {
                    Err(ErrorView::InvalidHex(e.oid))
                }
            },
        }
    }
}

/// Encodes the entries of a tree object.
pub fn write_tree_data(entries: &[TreeEntry]) -> (res: Result<Vec<u8>, GitError>)
    ensures
        match tree_data(entries@.map_values(|e: TreeEntry| e@)) {
            Ok(d) => res matches Ok(v) && v@ == d,
            Err(e) => res matches Err(x) && x@ == e,
        },
{
    let ghost ms = entries@.map_values(|e: TreeEntry| e@);
    let mut data: Vec<u8> = Vec::new();
    let mut i: usize = 0;
    while i < entries.len()
        invariant
            i <= entries@.len(),
            ms == entries@.map_values(|e: TreeEntry| e@),
            tree_data(ms.take(i as int)) == Ok::<Seq<u8>, ErrorView>(data@),
        decreases entries@.len() - i,
    {
        let e = &entries[i];
        assert(ms.take(i + 1).drop_last() == ms.take(i as int));
        assert(ms.take(i + 1).last() == e@);
        let raw = match hex_decode(e.oid.as_str().as_bytes()) {
            Ok(r) => r,
            Err(_) => {
                proof {
                    lemma_tree_data_prefix_err(ms, i + 1);
                }
                return Err(GitError::InvalidHex(e.oid.clone()));
            },
        };
        let ghost old_data = data@;
        let mb = e.mode.as_str().as_bytes();
        let pb = e.path.as_str().as_bytes();
        assert(mb@ == encode_utf8(e@.mode));
        assert(pb@ == encode_utf8(e@.name));
        data.extend_from_slice(mb);
        data.push(32u8);
        data.extend_from_slice(pb);
        data.push(0u8);
        data.extend_from_slice(raw.as_slice());
        assert(data@ == old_data + entry_bytes(e@, raw@));
        i = i + 1;
    }
    assert(ms.take(entries@.len() as int) == ms);
    Ok(data)
}

/// A failure on a prefix of the entries is the failure of the whole.
proof fn lemma_tree_data_prefix_err(ms: Seq<TreeEntryModel>, i: int)
    requires
        0 <= i <= ms.len(),
        tree_data(ms.take(i)) is Err,
    ensures
        tree_data(ms) == tree_data(ms.take(i)),
    decreases ms.len() - i,
{
    if i < ms.len() {
        assert(ms.drop_last().take(i) == ms.take(i));
        lemma_tree_data_prefix_err(ms.drop_last(), i);
    } else {
        assert(ms.take(i) == ms);
    }
}

/// What scanning tree data gives: the entries, a reported failure, or a truncated id
/// (fewer than 20 bytes where an id should be).
pub enum TreeScan {
    Parsed(Seq<TreeEntryModel>),
    Failed(ErrorView),
    Truncated,
}

/// Scans tree data: the mode runs to the first space and must be UTF-8, the name to the
/// next NUL and must be UTF-8, then 20 bytes of id, written back as lower-case hex.
pub open spec fn scan_tree(data: Seq<u8>) -> TreeScan
    decreases data.len(),
{
    if data.len() == 0 {
        TreeScan::Parsed(seq![])
    } else {
        match data.index_of_first(32u8) {
            None => TreeScan::Failed(ErrorView::InvalidTree),
            Some(m) => {
                if !(0 <= m < data.len()) {
                    TreeScan::Failed(ErrorView::InvalidTree)
                } else if !valid_utf8(data.take(m)) {
                    TreeScan::Failed(ErrorView::TreeNotUtf8(utf8_error_text(data.take(m))))
                } else {
                    let rest = data.skip(m + 1);
                    match rest.index_of_first(0u8) {
                        None => TreeScan::Failed(ErrorView::InvalidTree),
                        Some(k) => {
                            if !(0 <= k < rest.len()) {
                                TreeScan::Failed(ErrorView::InvalidTree)
                            } else if !valid_utf8(rest.take(k)) {
                                TreeScan::Failed(ErrorView::TreeNotUtf8(utf8_error_text(rest.take(k))))
                            } else {
                                let after = rest.skip(k + 1);
                                if after.len() < 20 {
                                    TreeScan::Truncated
                                } else {
                                    let e = TreeEntryModel {
                                        mode: decode_utf8(data.take(m)),
                                        name: decode_utf8(rest.take(k)),
                                        oid: hex_lower(after.take(20)),
                                    };
                                    match scan_tree(after.skip(20)) {
                                        TreeScan::Parsed(es) => TreeScan::Parsed(seq![e] + es),
                                        other => other,
                                    }
                                }
                            }
                        },
                    }
                }
            },
        }
    }
}

/// Entries already read, in front of what the rest of the data scans to.
pub open spec fn scan_after(prefix: Seq<TreeEntryModel>, s: TreeScan) -> TreeScan {
    match s {
        TreeScan::Parsed(es) => TreeScan::Parsed(prefix + es),
        other => other,
    }
}

/// The result of scanning tree data.
pub enum TreeScanResult {
    Parsed(Vec<TreeEntry>),
    Failed(GitError),
    Truncated,
}

/// A scan result against its model.
pub open spec fn scanned_as(r: TreeScanResult, s: TreeScan) -> bool {
    match s {
        TreeScan::Parsed(es) => r matches TreeScanResult::Parsed(v) && tree_models(v@) == es,
        TreeScan::Failed(e) => r matches TreeScanResult::Failed(x) && x@ == e,
        TreeScan::Truncated => r is Truncated,
    }
}

/// The first index at or after `from` that holds `b`.
fn find_byte(s: &[u8], b: u8, from: usize) -> (res: Option<usize>)
    requires
        from <= s@.len(),
    ensures
        match res {
            Some(i) => from <= i < s@.len() && s@[i as int] == b && forall|j: int|
                from <= j < i ==> s@[j] != b,
            None => forall|j: int| from <= j < s@.len() ==> s@[j] != b,
        },
{
    let mut i: usize = from;
    while i < s.len()
        invariant
            from <= i <= s@.len(),
            forall|j: int| from <= j < i ==> s@[j] != b,
        decreases s@.len() - i,
    {
        if s[i] == b {
            return Some(i);
        }
        i = i + 1;
    }
    None
}

/// Scans tree data into entries.
#[verifier::spinoff_prover]
#[verifier::rlimit(50)]
pub fn scan_tree_data(data: &[u8]) -> (res: TreeScanResult)
    ensures
        scanned_as(res, scan_tree(data@)),
{
    let n = data.len();
    let mut entries: Vec<TreeEntry> = Vec::new();
    let mut idx: usize = 0;
    assert(data@.skip(0) == data@);
    while idx < n
        invariant
            idx <= n,
            n == data@.len(),
            scan_tree(data@) == scan_after(tree_models(entries@), scan_tree(data@.skip(idx as int))),
        decreases n - idx,
    {
        let ghost rest0 = data@.skip(idx as int);
        let mode_end = match find_byte(data, 32u8, idx) {
            Some(m) => m,
            None => {
                proof {
                    lemma_no_index(rest0, 32u8);
                }
                return TreeScanResult::Failed(GitError::InvalidTree);
            },
        };
        proof {
            lemma_first_index(rest0, 32u8, mode_end - idx);
            assert(rest0.take(mode_end - idx) == data@.subrange(idx as int, mode_end as int));
        }
        let mode = match utf8_decode(&data[idx..mode_end]) {
            Some(s) => s,
            None => {
                return TreeScanResult::Failed(GitError::TreeNotUtf8(utf8_error_message(&data[idx..mode_end])));
            },
        };
        let name_start = mode_end + 1;
        let ghost rest1 = data@.skip(name_start as int);
        assert(rest0.skip(mode_end - idx + 1) == rest1);
        let name_end = match find_byte(data, 0u8, name_start) {
            Some(k) => k,
            None => {
                proof {
                    lemma_no_index(rest1, 0u8);
                }
                return TreeScanResult::Failed(GitError::InvalidTree);
            },
        };
        proof {
            lemma_first_index(rest1, 0u8, name_end - name_start);
            assert(rest1.take(name_end - name_start) == data@.subrange(name_start as int, name_end as int));
        }
        let name = match utf8_decode(&data[name_start..name_end]) {
            Some(s) => s,
            None => {
                return TreeScanResult::Failed(GitError::TreeNotUtf8(utf8_error_message(&data[name_start..name_end])));
            },
        };
        let oid_start = name_end + 1;
        let ghost after = data@.skip(oid_start as int);
        assert(rest1.skip(name_end - name_start + 1) == after);
        if n - oid_start < 20 {
            return TreeScanResult::Truncated;
        }
        let oid = hex_encode(&data[oid_start..oid_start + 20]);
        assert(data@.subrange(oid_start as int, oid_start + 20) == after.take(20));
        let ghost prev = tree_models(entries@);
        let entry = TreeEntry { mode, path: name, oid };
        entries.push(entry);
        proof {
            assert(tree_models(entries@) == prev + seq![entry@]);
            assert(after.skip(20) == data@.skip(oid_start + 20));
            assert(prev + (seq![entry@] + seq![]) == prev + seq![entry@]);
            match scan_tree(after.skip(20)) {
                TreeScan::Parsed(es) => {
                    assert(prev + (seq![entry@] + es) == (prev + seq![entry@]) + es);
                },
                _ => {},
            }
        }
        idx = oid_start + 20;
    }
    assert(data@.skip(n as int).len() == 0);
    assert(tree_models(entries@) + seq![] == tree_models(entries@));
    TreeScanResult::Parsed(entries)
}

/// Reads tree data into entries. Data whose last entry is cut short inside its id is left
/// out: reading it would index past the end of the data.
pub fn read_tree(data: &[u8]) -> (res: Result<Vec<TreeEntry>, GitError>)
    requires
        !(scan_tree(data@) is Truncated),
    ensures
        match scan_tree(data@) {
            TreeScan::Parsed(es) => res matches Ok(v) && tree_models(v@) == es,
            TreeScan::Failed(e) => res matches Err(x) && x@ == e,
            TreeScan::Truncated => false,
        },
{
    match scan_tree_data(data) {
        TreeScanResult::Parsed(v) => Ok(v),
        TreeScanResult::Failed(e) => Err(e),
        TreeScanResult::Truncated => {
            assert(false);
            Err(GitError::InvalidTree)
        },
    }
}

/// Whether reading the tree data would run past its end inside an id.
pub fn tree_is_truncated(data: &[u8]) -> (res: bool)
    ensures
        res == (scan_tree(data@) is Truncated),
{
    match scan_tree_data(data) {
        TreeScanResult::Truncated => true,
        _ => false,
    }
}


/// An entry that a tree can hold and read back unchanged: its mode has no space, its
/// name no NUL, and its id is forty lower-case hexadecimal digits.
pub open spec fn storable_entry(e: TreeEntryModel) -> bool {
    &&& forall|i: int| 0 <= i < e.mode.len() ==> e.mode[i] != ' '
    &&& forall|i: int| 0 <= i < e.name.len() ==> e.name[i] != '\0'
    &&& is_oid(e.oid)
}

/// The bytes of entries, front to back.
pub open spec fn entries_bytes(es: Seq<TreeEntryModel>) -> Seq<u8>
    decreases es.len(),
{
    if es.len() == 0 {
        seq![]
    } else {
        entry_bytes(es[0], hex_bytes(encode_utf8(es[0].oid))) + entries_bytes(es.drop_first())
    }
}

/// Appending one entry at the back appends its bytes.
proof fn lemma_entries_bytes_push(es: Seq<TreeEntryModel>, e: TreeEntryModel)
    ensures
        entries_bytes(es.push(e)) == entries_bytes(es) + entry_bytes(e, hex_bytes(encode_utf8(e.oid))),
    decreases es.len(),
{
    let eb = entry_bytes(e, hex_bytes(encode_utf8(e.oid)));
    if es.len() > 0 {
        assert(es.push(e).drop_first() == es.drop_first().push(e));
        assert(es.push(e)[0] == es[0]);
        lemma_entries_bytes_push(es.drop_first(), e);
        let h = entry_bytes(es[0], hex_bytes(encode_utf8(es[0].oid)));
        assert(entries_bytes(es.push(e)) == h + entries_bytes(es.push(e).drop_first()));
        assert(h + (entries_bytes(es.drop_first()) + eb) == (h + entries_bytes(es.drop_first()))
            + eb);
    } else {
        assert(es.push(e).drop_first() == Seq::<TreeEntryModel>::empty());
        assert(es.push(e)[0] == e);
        assert(entries_bytes(es.push(e).drop_first()) == Seq::<u8>::empty());
        assert(entries_bytes(es) == Seq::<u8>::empty());
        assert(eb + Seq::<u8>::empty() == eb);
        assert(Seq::<u8>::empty() + eb == eb);
    }
}

/// Entries with hexadecimal ids encode to their bytes, front to back.
proof fn lemma_tree_data_ok(es: Seq<TreeEntryModel>)
    requires
        forall|i: int| 0 <= i < es.len() ==> storable_entry(#[trigger] es[i]),
    ensures
        tree_data(es) == Ok::<Seq<u8>, ErrorView>(entries_bytes(es)),
    decreases es.len(),
{
    if es.len() > 0 {
        let init = es.drop_last();
        assert forall|i: int| 0 <= i < init.len() implies storable_entry(#[trigger] init[i]) by {
            assert(init[i] == es[i]);
        }
        lemma_tree_data_ok(init);
        assert(storable_entry(es[es.len() - 1]));
        lemma_hex_roundtrip(es.last().oid);
        lemma_entries_bytes_push(init, es.last());
        assert(init.push(es.last()) == es);
    }
}

/// Scanning one storable entry in front of more data reads the entry and goes on.
proof fn lemma_scan_entry(e: TreeEntryModel, rest: Seq<u8>)
    requires
        storable_entry(e),
    ensures
        scan_tree(entry_bytes(e, hex_bytes(encode_utf8(e.oid))) + rest) == scan_after(
            seq![e],
            scan_tree(rest),
        ),
{
    lemma_hex_roundtrip(e.oid);
    let raw = hex_bytes(encode_utf8(e.oid));
    let em = encode_utf8(e.mode);
    let en = encode_utf8(e.name);
    let data = entry_bytes(e, raw) + rest;
    lemma_encode_avoids(e.mode, ' ');
    lemma_encode_avoids(e.name, '\0');
    assert(data == em + (seq![32u8] + (en + (seq![0u8] + (raw + rest)))));
    assert(is_first_index(data, 32u8, em.len() as int)) by {
        assert forall|j: int| 0 <= j < em.len() implies data[j] != 32u8 by {
            assert(data[j] == em[j]);
        }
    }
    lemma_first_index(data, 32u8, em.len() as int);
    assert(data.take(em.len() as int) == em);
    let r1 = data.skip(em.len() as int + 1);
    assert(r1 == en + (seq![0u8] + (raw + rest)));
    assert(is_first_index(r1, 0u8, en.len() as int)) by {
        assert forall|j: int| 0 <= j < en.len() implies r1[j] != 0u8 by {
            assert(r1[j] == en[j]);
        }
    }
    lemma_first_index(r1, 0u8, en.len() as int);
    assert(r1.take(en.len() as int) == en);
    let after = r1.skip(en.len() as int + 1);
    assert(after == raw + rest);
    assert(after.take(20) == raw);
    assert(after.skip(20) == rest);
    vstd::utf8::encode_utf8_decode_utf8(e.mode);
    vstd::utf8::encode_utf8_decode_utf8(e.name);
    vstd::utf8::encode_utf8_valid_utf8(e.mode);
    vstd::utf8::encode_utf8_valid_utf8(e.name);
    let m = TreeEntryModel { mode: decode_utf8(em), name: decode_utf8(en), oid: hex_lower(raw) };
    assert(m == e);
    match scan_tree(rest) {
        TreeScan::Parsed(es) => {},
        _ => {},
    }
}

/// Reading the data of a tree gives back its entries, for entries whose mode has no
/// space, whose name has no NUL and whose id is forty lower-case hexadecimal digits.
pub proof fn law_read_tree_after_write(es: Seq<TreeEntryModel>)
    requires
        forall|i: int| 0 <= i < es.len() ==> storable_entry(#[trigger] es[i]),
    ensures
        tree_data(es) matches Ok(d) && scan_tree(d) == TreeScan::Parsed(es),
    decreases es.len(),
{
    lemma_tree_data_ok(es);
    lemma_scan_all(es);
}

/// Scanning the bytes of storable entries reads them all.
proof fn lemma_scan_all(es: Seq<TreeEntryModel>)
    requires
        forall|i: int| 0 <= i < es.len() ==> storable_entry(#[trigger] es[i]),
    ensures
        scan_tree(entries_bytes(es)) == TreeScan::Parsed(es),
    decreases es.len(),
{
    if es.len() > 0 {
        let t = es.drop_first();
        assert forall|i: int| 0 <= i < t.len() implies storable_entry(#[trigger] t[i]) by {
            assert(t[i] == es[i + 1]);
        }
        lemma_scan_all(t);
        assert(storable_entry(es[0]));
        lemma_scan_entry(es[0], entries_bytes(t));
        assert(seq![es[0]] + t == es);
    } else {
        assert(entries_bytes(es).len() == 0);
        assert(es == Seq::<TreeEntryModel>::empty());
        assert(entries_bytes(es) == Seq::<u8>::empty());
    }
}

} // verus!
