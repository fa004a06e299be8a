use vex::index::{index_add, index_remove, read_index, write_index, IndexEntry};

fn e(path: &str, oid: &str) -> IndexEntry {
    IndexEntry { path: path.to_string(), oid: oid.to_string() }
}

fn pairs(v: &[IndexEntry]) -> Vec<(String, String)> {
    v.iter().map(|x| (x.path.clone(), x.oid.clone())).collect()
}

fn p(path: &str, oid: &str) -> (String, String) {
    (path.to_string(), oid.to_string())
}

#[test]
fn index_text_lines() {
    let text = write_index(&[e("a.txt", "111"), e("dir/b.txt", "222")]);
    assert_eq!(text, "111\ta.txt\n222\tdir/b.txt\n");
    assert_eq!(write_index(&[]), "");
}

#[test]
fn read_index_after_write() {
    let es = vec![e("a.txt", "111"), e("dir/b c.txt", "222"), e("x", "")];
    let back = read_index(&write_index(&es));
    assert_eq!(pairs(&back), pairs(&es));
}

#[test]
fn read_index_skips_lines_without_tab() {
    let back = read_index("garbage\n111\ta\n\n222\tb\tc\r\nlast\tz");
    assert_eq!(pairs(&back), vec![p("a", "111"), p("b\tc", "222"), p("z", "last")]);
    assert!(read_index("").is_empty());
}

#[test]
fn add_keeps_one_entry_per_path_last_wins() {
    let res = index_add(&[e("b", "1"), e("a", "2")], &[e("b", "3"), e("c", "4"), e("b", "5")]);
    assert_eq!(pairs(&res), vec![p("a", "2"), p("b", "5"), p("c", "4")]);
}

#[test]
fn add_sorts_by_path_components() {
    let res = index_add(&[], &[e("a.txt", "1"), e("a/b", "2"), e("a", "3"), e("B", "4")]);
    assert_eq!(pairs(&res), vec![p("B", "4"), p("a", "3"), p("a/b", "2"), p("a.txt", "1")]);
}

#[test]
fn add_nothing_to_empty_index() {
    assert!(index_add(&[], &[]).is_empty());
}

#[test]
fn remove_listed_paths() {
    let idx = [e("a", "1"), e("b", "2"), e("c", "3"), e("b", "4")];
    let res = index_remove(&idx, &["b".to_string(), "zz".to_string()]);
    assert_eq!(pairs(&res), vec![p("a", "1"), p("c", "3")]);
    assert_eq!(pairs(&index_remove(&idx, &[])), pairs(&idx));
}
