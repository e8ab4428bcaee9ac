use rustc_hash::FxHashMap;
use strata::history::{
    find_first_parent_root, find_foreign_oids, first_parents, get_commit_list, CommitRecord,
    FirstParents, HistoryError,
};

fn oid(n: u8) -> [u8; 20] {
    [n; 20]
}

fn record(n: u8, ts: i64, parent: Option<u8>, message: &str) -> CommitRecord {
    CommitRecord {
        oid: oid(n),
        ts,
        first_parent: parent.map(oid),
        message: Some(message.to_string()),
    }
}

/// 1 <- 2 <- 3 <- 6 (head), and 4 <- 5 as a history of its own.
fn history() -> Vec<CommitRecord> {
    vec![
        record(6, 60, Some(3), "merge"),
        record(5, 50, Some(4), "other project"),
        record(3, 30, Some(2), "more"),
        record(4, 10, None, "other start"),
        record(2, 20, Some(1), "next"),
        record(1, 15, None, "start"),
    ]
}

#[test]
fn commits_from_oldest_to_newest() {
    let list = get_commit_list(&history(), Some(oid(6)), false).ok().unwrap();
    assert_eq!(list, vec![(oid(1), 15), (oid(2), 20), (oid(3), 30), (oid(6), 60)]);
}

#[test]
fn a_first_parent_walk_keeps_all() {
    let list = get_commit_list(&history(), Some(oid(6)), true).ok().unwrap();
    assert_eq!(list.len(), 6);
    assert_eq!(list[0], (oid(4), 10));
}

#[test]
fn squashed_subtrees_are_left_out() {
    let mut records = history();
    records.push(record(7, 55, Some(1), "Squashed 'deps/x/' content from commit abc"));
    records.push(record(8, 56, Some(1), "squashed 'lower case' stays"));
    let list = get_commit_list(&records, Some(oid(6)), false).ok().unwrap();
    assert!(!list.contains(&(oid(7), 55)));
    assert!(list.contains(&(oid(8), 56)));
    let list = get_commit_list(&records, Some(oid(6)), true).ok().unwrap();
    assert!(list.contains(&(oid(7), 55)));
}

#[test]
fn a_message_that_is_no_text_is_no_squash() {
    let mut records = history();
    records[2].message = None;
    let list = get_commit_list(&records, Some(oid(6)), false).ok().unwrap();
    assert!(list.contains(&(oid(3), 30)));
}

#[test]
fn without_a_head_no_history_is_foreign() {
    let mut records = history();
    records.push(record(7, 55, Some(1), "Squashed 'x'"));
    let list = get_commit_list(&records, None, false).ok().unwrap();
    assert_eq!(list.len(), 6);
    assert!(list.contains(&(oid(5), 50)));
}

#[test]
fn commits_of_the_same_time_keep_their_order() {
    let records = vec![
        record(3, 7, Some(2), ""),
        record(1, 7, None, ""),
        record(2, 7, Some(1), ""),
    ];
    let list = get_commit_list(&records, Some(oid(3)), false).ok().unwrap();
    assert_eq!(list, vec![(oid(3), 7), (oid(1), 7), (oid(2), 7)]);
}

#[test]
fn no_commits_is_an_error() {
    assert!(matches!(
        get_commit_list(&vec![], None, false),
        Err(HistoryError::NoCommits)
    ));
    assert!(matches!(
        get_commit_list(&vec![], Some(oid(1)), true),
        Err(HistoryError::NoCommits)
    ));
}

#[test]
fn a_missing_parent_is_an_error() {
    let records = vec![record(2, 5, Some(1), ""), record(3, 6, None, "")];
    assert!(matches!(
        get_commit_list(&records, Some(oid(3)), false),
        Err(HistoryError::MissingCommit(o)) if o == oid(1)
    ));
    assert!(matches!(
        get_commit_list(&records, Some(oid(9)), false),
        Err(HistoryError::MissingCommit(o)) if o == oid(9)
    ));
    assert!(get_commit_list(&records, Some(oid(9)), true).is_ok());
}

#[test]
fn a_circle_of_parents_is_an_error() {
    let records = vec![
        record(1, 1, Some(2), ""),
        record(2, 2, Some(3), ""),
        record(3, 3, Some(1), ""),
        record(4, 4, None, ""),
    ];
    assert!(matches!(
        get_commit_list(&records, Some(oid(1)), false),
        Err(HistoryError::EndlessChain)
    ));
    assert!(matches!(
        get_commit_list(&records, Some(oid(4)), false),
        Err(HistoryError::EndlessChain)
    ));
}

#[test]
fn the_root_of_the_head() {
    let parents = first_parents(&history());
    assert!(matches!(find_first_parent_root(&parents, oid(6)), Ok(o) if o == oid(1)));
    assert!(matches!(find_first_parent_root(&parents, oid(5)), Ok(o) if o == oid(4)));
    assert!(matches!(find_first_parent_root(&parents, oid(1)), Ok(o) if o == oid(1)));
    assert!(matches!(
        find_first_parent_root(&parents, oid(77)),
        Err(HistoryError::MissingCommit(o)) if o == oid(77)
    ));
}

#[test]
fn commits_of_another_history() {
    let parents = first_parents(&history());
    let commits: Vec<([u8; 20], i64)> = history().iter().map(|c| (c.oid, c.ts)).collect();
    let foreign = find_foreign_oids(&parents, &commits, oid(1)).ok().unwrap();
    assert_eq!(foreign.len(), 2);
    assert!(foreign.contains(&oid(4)));
    assert!(foreign.contains(&oid(5)));
}

#[test]
fn the_mainline_is_never_foreign() {
    let mut parents: FirstParents = FxHashMap::default();
    for n in 1..50u8 {
        parents.insert(oid(n), if n == 1 { None } else { Some(oid(n - 1)) });
    }
    let commits: Vec<([u8; 20], i64)> = (1..50u8).rev().map(|n| (oid(n), n as i64)).collect();
    let foreign = find_foreign_oids(&parents, &commits, oid(1)).ok().unwrap();
    assert!(foreign.is_empty());
}

#[test]
fn the_foreign_set_holds_chains_of_listed_commits_only() {
    let parents = first_parents(&history());
    let none = find_foreign_oids(&parents, &vec![], oid(1)).ok().unwrap();
    assert!(none.is_empty());
    // 5 is not on the chain of 4, nor of the mainline
    let some = find_foreign_oids(&parents, &vec![(oid(4), 10), (oid(6), 60)], oid(1)).ok().unwrap();
    assert_eq!(some.into_iter().collect::<Vec<_>>(), vec![oid(4)]);
    // 4 is on the chain of 5, though it is not listed
    let both = find_foreign_oids(&parents, &vec![(oid(5), 50)], oid(1)).ok().unwrap();
    assert_eq!(both.len(), 2);
    assert!(both.contains(&oid(4)) && both.contains(&oid(5)));
}

#[test]
fn the_foreign_set_does_not_depend_on_the_order() {
    let parents = first_parents(&history());
    let mut commits: Vec<([u8; 20], i64)> = history().iter().map(|c| (c.oid, c.ts)).collect();
    let one = find_foreign_oids(&parents, &commits, oid(1)).ok().unwrap();
    commits.reverse();
    let other = find_foreign_oids(&parents, &commits, oid(1)).ok().unwrap();
    assert_eq!(one, other);
    assert!(!one.contains(&oid(1)));
}

#[test]
fn chains_are_followed_to_the_main_root_and_no_further() {
    let parents = first_parents(&history());
    let commits: Vec<([u8; 20], i64)> = history().iter().map(|c| (c.oid, c.ts)).collect();
    // 1 comes before 2, and its own chain does not pass 2
    let foreign = find_foreign_oids(&parents, &commits, oid(2)).ok().unwrap();
    assert_eq!(foreign.len(), 3);
    assert!([1, 4, 5].iter().all(|n| foreign.contains(&oid(*n))));
    // where 1 is not listed, the chain of 6 stops at 2
    let foreign = find_foreign_oids(&parents, &vec![(oid(6), 60)], oid(2)).ok().unwrap();
    assert!(foreign.is_empty());
}

#[test]
fn a_main_root_that_no_chain_passes() {
    let parents = first_parents(&history());
    let commits: Vec<([u8; 20], i64)> = history().iter().map(|c| (c.oid, c.ts)).collect();
    let foreign = find_foreign_oids(&parents, &commits, oid(99)).ok().unwrap();
    assert_eq!(foreign.len(), 6);
}

#[test]
fn a_chain_that_passes_the_main_root_makes_no_error() {
    // 3 <- 4, and 3 names a parent that is not there
    let parents = first_parents(&vec![record(4, 4, Some(3), ""), record(3, 3, Some(2), "")]);
    let commits = vec![(oid(4), 4)];
    assert!(find_foreign_oids(&parents, &commits, oid(3)).ok().unwrap().is_empty());
    assert!(find_foreign_oids(&parents, &commits, oid(2)).ok().unwrap().is_empty());
    assert!(matches!(
        find_foreign_oids(&parents, &commits, oid(1)),
        Err(HistoryError::MissingCommit(c)) if c == oid(2)
    ));
}

#[test]
fn an_endless_chain_through_the_main_root() {
    let parents = first_parents(&vec![record(2, 2, Some(1), ""), record(1, 1, Some(2), "")]);
    let commits = vec![(oid(1), 1), (oid(2), 2)];
    assert!(find_foreign_oids(&parents, &commits, oid(2)).ok().unwrap().is_empty());
    assert!(matches!(
        find_foreign_oids(&parents, &commits, oid(3)),
        Err(HistoryError::EndlessChain)
    ));
}
