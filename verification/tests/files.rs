use strata::files::{
    collect_work_items, extension_list, find_extension, keep_files, path_passes,
};
use strata::globs::{build_glob_set, split_patterns, GlobError};

fn oid(n: u8) -> [u8; 20] {
    [n; 20]
}

fn ext(path: &str) -> Option<String> {
    find_extension(path)
}

#[test]
fn extensions_of_paths() {
    for path in [
        "a.rs", "src/a.rs", "src.d/a", ".gitignore", "a.", "a.tar.gz", "x/.hidden.rs", "", "/",
        "a/b.rs/", "a/b.rs/.", "a/..", "..", ".", "a/./b.c", "...", "..a", "a..b", "x/...rs",
    ] {
        let expected = std::path::Path::new(path)
            .extension()
            .and_then(|e| e.to_str())
            .map(|e| e.to_string());
        assert_eq!(ext(path), expected, "{path}");
    }
    assert_eq!(ext("a.tar.gz"), Some("gz".to_string()));
    assert_eq!(ext(".gitignore"), None);
    assert_eq!(ext("a."), Some("".to_string()));
}

#[test]
fn wanted_extensions() {
    let wanted = Some(vec![".rs".to_string(), "ts".to_string()]);
    assert!(path_passes("src/a.rs", &wanted, None, None));
    assert!(path_passes("src/a.ts", &wanted, None, None));
    assert!(!path_passes("src/a.RS", &wanted, None, None));
    assert!(!path_passes("src/a", &wanted, None, None));
    assert!(!path_passes("src/rs", &wanted, None, None));
    assert!(path_passes("src/anything", &None, None, None));
    assert!(!path_passes("a.rs", &Some(vec![]), None, None));
    assert!(path_passes("Makefile", &Some(vec!["".to_string()]), None, None));
    assert!(path_passes("a.rs", &Some(vec!["..rs".to_string()]), None, None));
}

#[test]
fn what_the_sets_say() {
    assert!(path_passes("a", &None, Some(true), Some(false)));
    assert!(!path_passes("a", &None, Some(false), Some(false)));
    assert!(!path_passes("a", &None, Some(true), Some(true)));
    assert!(!path_passes("a", &None, None, Some(true)));
}

#[test]
fn lists_of_extensions() {
    assert_eq!(extension_list(".rs, .ts ,js"), vec![".rs", ".ts", "js"]);
    assert_eq!(extension_list(""), vec![""]);
    assert_eq!(extension_list("a,"), vec!["a", ""]);
}

#[test]
fn lists_of_patterns() {
    assert_eq!(split_patterns("src/**, ,lib/*.rs,"), vec!["src/**", "lib/*.rs"]);
    assert_eq!(split_patterns("  "), Vec::<String>::new());
}

#[test]
fn sets_of_patterns() {
    assert!(matches!(build_glob_set(None), Ok(None)));
    assert!(matches!(build_glob_set(Some("".to_string())), Ok(Some(_))));
    assert!(matches!(
        build_glob_set(Some("src/**,[".to_string())),
        Err(GlobError::Pattern(_))
    ));
    assert!(matches!(build_glob_set(Some("src/**,*.rs".to_string())), Ok(Some(_))));
}

fn names(entries: &Vec<([u8; 20], [u8; 20], String)>) -> Vec<String> {
    entries.iter().map(|e| e.2.clone()).collect()
}

#[test]
fn files_that_count() {
    let files: Vec<([u8; 20], String)> = ["src/a.rs", "src/b.ts", "tests/c.rs", "README"]
        .iter()
        .enumerate()
        .map(|(i, p)| (oid(i as u8), p.to_string()))
        .collect();
    let wanted = build_glob_set(Some("src/**,tests/**".to_string())).ok().unwrap();
    let unwanted = build_glob_set(Some("**/c.rs".to_string())).ok().unwrap();
    let rs = Some(vec![".rs".to_string()]);
    assert_eq!(names(&keep_files(oid(9), &files, &None, &None, &None)).len(), 4);
    assert_eq!(
        names(&keep_files(oid(9), &files, &None, &wanted, &None)),
        vec!["src/a.rs", "src/b.ts", "tests/c.rs"]
    );
    assert_eq!(
        names(&keep_files(oid(9), &files, &rs, &wanted, &None)),
        vec!["src/a.rs", "tests/c.rs"]
    );
    let kept = keep_files(oid(9), &files, &rs, &wanted, &unwanted);
    assert_eq!(kept, vec![(oid(0), oid(9), "src/a.rs".to_string())]);
}

#[test]
fn an_empty_set_matches_nothing() {
    let files = vec![(oid(1), "a".to_string())];
    let empty = build_glob_set(Some(" , ".to_string())).ok().unwrap();
    assert!(keep_files(oid(9), &files, &None, &empty, &None).is_empty());
    assert_eq!(keep_files(oid(9), &files, &None, &None, &empty).len(), 1);
}

#[test]
fn more_patterns_match_more_paths() {
    let files = vec![(oid(1), "a.x".to_string()), (oid(2), "b.y".to_string())];
    let one = build_glob_set(Some("*.x".to_string())).ok().unwrap();
    let two = build_glob_set(Some("*.x,*.y".to_string())).ok().unwrap();
    assert_eq!(keep_files(oid(9), &files, &None, &one, &None).len(), 1);
    assert_eq!(keep_files(oid(9), &files, &None, &two, &None).len(), 2);
}

#[test]
fn each_blob_is_blamed_where_it_occurs_first() {
    let per_commit = vec![
        vec![(oid(1), oid(100), "a".to_string()), (oid(2), oid(100), "b".to_string())],
        vec![],
        vec![
            (oid(1), oid(101), "moved".to_string()),
            (oid(3), oid(101), "c".to_string()),
            (oid(3), oid(101), "copy".to_string()),
        ],
    ];
    let (items, lookup) = collect_work_items(&per_commit);
    let pairs: Vec<([u8; 20], [u8; 20])> =
        items.iter().map(|i| (i.commit_oid, i.blob_oid)).collect();
    assert_eq!(
        pairs,
        vec![
            (oid(100), oid(1)),
            (oid(100), oid(2)),
            (oid(101), oid(1)),
            (oid(101), oid(3)),
            (oid(101), oid(3))
        ]
    );
    assert_eq!(lookup.len(), 3);
    assert_eq!(lookup.get(&oid(1)), Some(&(oid(100), "a".to_string())));
    assert_eq!(lookup.get(&oid(2)), Some(&(oid(100), "b".to_string())));
    assert_eq!(lookup.get(&oid(3)), Some(&(oid(101), "c".to_string())));
    for item in &items {
        assert!(lookup.contains_key(&item.blob_oid));
    }
}
