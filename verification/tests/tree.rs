use std::collections::HashMap;
use strata::tree::{object_header, parse_tree, EntryKind, TreeWalk};

fn oid(n: u8) -> [u8; 20] {
    [n; 20]
}

fn entry(mode: &str, name: &[u8], n: u8) -> Vec<u8> {
    let mut v = mode.as_bytes().to_vec();
    v.push(b' ');
    v.extend(name);
    v.push(0);
    v.extend(oid(n));
    v
}

fn tree(entries: &[(&str, &str, u8)]) -> Vec<u8> {
    entries.iter().flat_map(|(m, n, o)| entry(m, n.as_bytes(), *o)).collect()
}

#[test]
fn headers_of_objects() {
    assert_eq!(object_header(b"abc tree 123\n"), Some((true, 123)));
    assert_eq!(object_header(b"abc tree +7\n"), Some((true, 7)));
    assert_eq!(object_header(b"  abc\t tree \x0c 0 extra\r\n"), Some((true, 0)));
    assert_eq!(object_header(b"abc blob 123\n"), Some((false, 123)));
    assert_eq!(object_header(b"abc trees 5\n"), Some((false, 5)));
    assert_eq!(object_header(b"abc missing\n"), None);
    assert_eq!(object_header(b"abc tree\n"), None);
    assert_eq!(object_header(b"abc tree -1\n"), None);
    assert_eq!(object_header(b"abc tree 1x\n"), None);
    assert_eq!(object_header(b"abc tree 99999999999999999999999\n"), None);
    assert_eq!(object_header(b"abc\xc2\xa0tree 1\n"), None);
    assert_eq!(object_header(b"\xff tree 1\n"), None);
    assert_eq!(object_header(b""), None);
}

#[test]
fn entries_of_a_tree() {
    let data = tree(&[
        ("100644", "a b", 1),
        ("40000", "dir", 2),
        ("040000", "pad", 3),
        ("160000", "sub", 4),
        ("120000", "ln", 5),
    ]);
    let got: Vec<(EntryKind, String, [u8; 20])> =
        parse_tree(&data).into_iter().map(|e| (e.kind, e.name, e.oid)).collect();
    assert!(
        got == vec![
            (EntryKind::File, "a b".to_string(), oid(1)),
            (EntryKind::Tree, "dir".to_string(), oid(2)),
            (EntryKind::Tree, "pad".to_string(), oid(3)),
            (EntryKind::Link, "sub".to_string(), oid(4)),
            (EntryKind::File, "ln".to_string(), oid(5)),
        ]
    );
}

#[test]
fn names_that_are_no_text_are_passed_over() {
    let mut data = entry("100644", b"\xff", 1);
    data.extend(entry("100644", b"ok", 2));
    let got = parse_tree(&data);
    assert_eq!(got.len(), 1);
    assert_eq!(got[0].name, "ok");
    let mut cut = entry("100644", b"ok", 2);
    cut.extend(&entry("100644", b"\xff", 1)[..12]);
    assert_eq!(parse_tree(&cut).len(), 1);
}

#[test]
fn what_is_cut_short_ends_the_list() {
    let whole = tree(&[("100644", "a", 1), ("100644", "b", 2)]);
    assert_eq!(parse_tree(&whole).len(), 2);
    assert_eq!(parse_tree(&whole[..whole.len() - 1]).len(), 1);
    assert_eq!(parse_tree(&whole[..30]).len(), 1);
    assert_eq!(parse_tree(b"100644").len(), 0);
    assert_eq!(parse_tree(b"100644 name").len(), 0);
    assert_eq!(parse_tree(b"").len(), 0);
}

fn walk(trees: &HashMap<u8, Vec<u8>>, root: u8) -> (Vec<([u8; 20], String)>, usize) {
    let mut w = TreeWalk::new(oid(root));
    let mut asked: usize = 0;
    while let Some(o) = w.next_tree() {
        asked += 1;
        w.take_tree(trees.get(&o[0]).cloned());
    }
    (w.into_files(), asked)
}

#[test]
fn a_walk_finds_all_files_in_order() {
    let mut trees: HashMap<u8, Vec<u8>> = HashMap::new();
    trees.insert(
        1,
        tree(&[("100644", "a", 10), ("40000", "d", 2), ("160000", "m", 9), ("100755", "z", 11)]),
    );
    trees.insert(2, tree(&[("40000", "e", 3), ("100644", "f", 12)]));
    trees.insert(3, tree(&[("120000", "g", 13)]));
    let (files, asked) = walk(&trees, 1);
    assert_eq!(
        files,
        vec![
            (oid(10), "a".to_string()),
            (oid(13), "d/e/g".to_string()),
            (oid(12), "d/f".to_string()),
            (oid(11), "z".to_string())
        ]
    );
    assert_eq!(asked, 3);
}

#[test]
fn a_tree_that_cannot_be_read_has_no_files() {
    let mut trees: HashMap<u8, Vec<u8>> = HashMap::new();
    trees.insert(1, tree(&[("40000", "gone", 2), ("100644", "f", 12)]));
    assert_eq!(walk(&trees, 1).0, vec![(oid(12), "f".to_string())]);
    assert_eq!(walk(&trees, 7).0, vec![]);
}
