use rustc_hash::{FxHashMap, FxHashSet};
use strata::aggregate::AuthorAgg;
use strata::authors::{
    check_authors_fit, lines_outside, name_authors, select_authors, Threshold,
};

const HEAD: [u8; 20] = [1; 20];
const OLD: [u8; 20] = [2; 20];

fn agg(entries: &[([u8; 20], &str, u64)]) -> AuthorAgg {
    let mut m: AuthorAgg = FxHashMap::default();
    for (oid, author, n) in entries {
        m.insert((*oid, author.to_string()), *n);
    }
    m
}

fn share(num: u64, den: u64) -> Threshold {
    Threshold { num, den }
}

#[test]
fn authors_until_the_share_is_covered() {
    let a = agg(&[
        (HEAD, "ann", 50),
        (HEAD, "bob", 30),
        (HEAD, "cid", 15),
        (HEAD, "dan", 5),
        (OLD, "eve", 9),
        (OLD, "ann", 1),
    ]);
    let sampled = vec![(OLD, 1), (HEAD, 2)];
    let (active, has_other, other) = select_authors(&a, &sampled, share(80, 100));
    assert_eq!(active, vec!["ann", "bob"]);
    assert!(has_other);
    assert_eq!(other.get(&HEAD), Some(&20));
    assert_eq!(other.get(&OLD), Some(&9));
    assert_eq!(other.len(), 2);
}

#[test]
fn just_below_the_share_takes_one_more() {
    let a = agg(&[(HEAD, "ann", 79), (HEAD, "bob", 20), (HEAD, "cid", 1)]);
    let sampled = vec![(HEAD, 2)];
    let (active, has_other, _) = select_authors(&a, &sampled, share(80, 100));
    assert_eq!(active, vec!["ann", "bob"]);
    assert!(has_other);
    let (active, _, _) = select_authors(&a, &sampled, share(79, 100));
    assert_eq!(active, vec!["ann"]);
}

#[test]
fn fractions_of_a_line_count() {
    // 0.8 of 9 lines is 7.2, so 7 lines are not enough
    let a = agg(&[(HEAD, "ann", 7), (HEAD, "bob", 2)]);
    let (active, _, _) = select_authors(&a, &vec![(HEAD, 2)], share(80, 100));
    assert_eq!(active, vec!["ann", "bob"]);
}

#[test]
fn the_biggest_contributor_alone() {
    let a = agg(&[(HEAD, "ann", 50), (HEAD, "bob", 30), (HEAD, "cid", 20)]);
    let (active, has_other, other) = select_authors(&a, &vec![(HEAD, 2)], share(50, 100));
    assert_eq!(active, vec!["ann"]);
    assert!(has_other);
    assert_eq!(other.get(&HEAD), Some(&50));
}

#[test]
fn no_fewer_authors_have_the_share() {
    let counts = [("a", 40u64), ("b", 25), ("c", 20), ("d", 10), ("e", 5)];
    let a = agg(&counts.iter().map(|(n, c)| (HEAD, *n, *c)).collect::<Vec<_>>());
    for percent in 1..101u64 {
        let (active, _, _) = select_authors(&a, &vec![(HEAD, 2)], share(percent, 100));
        let lines: u64 = active
            .iter()
            .map(|name| counts.iter().find(|(n, _)| n == name).unwrap().1)
            .sum();
        assert!(lines >= percent);
        // the largest sum that one author fewer can have
        let fewer: u64 = counts.iter().take(active.len() - 1).map(|(_, c)| *c).sum();
        assert!(fewer < percent);
    }
}

#[test]
fn a_share_of_nothing_names_one() {
    let a = agg(&[(HEAD, "ann", 5), (HEAD, "bob", 3)]);
    let (active, has_other, _) = select_authors(&a, &vec![(HEAD, 2)], share(0, 1));
    assert_eq!(active, vec!["ann"]);
    assert!(has_other);
}

#[test]
fn more_than_all_names_all() {
    let a = agg(&[(HEAD, "ann", 5), (HEAD, "bob", 3), (OLD, "cid", 9)]);
    let (active, has_other, other) = select_authors(&a, &vec![(OLD, 1), (HEAD, 2)], share(2, 1));
    assert_eq!(active, vec!["ann", "bob"]);
    assert!(!has_other);
    assert!(other.is_empty());
}

#[test]
fn no_commits_no_authors() {
    let a = agg(&[(HEAD, "ann", 5)]);
    let (active, has_other, other) = select_authors(&a, &vec![], share(80, 100));
    assert!(active.is_empty());
    assert!(!has_other);
    assert!(other.is_empty());
    let (active, has_other, _) = select_authors(&agg(&[]), &vec![(HEAD, 2)], share(80, 100));
    assert!(active.is_empty());
    assert!(!has_other);
}

#[test]
fn equal_lines_keep_the_order_of_the_list() {
    let head = vec![("x".to_string(), 5), ("y".to_string(), 9), ("z".to_string(), 5)];
    assert_eq!(name_authors(&head, 19, share(1, 1)), vec!["y", "x", "z"]);
    assert_eq!(name_authors(&head, 19, share(10, 19)), vec!["y", "x"]);
    assert_eq!(name_authors(&head, 19, share(9, 19)), vec!["y"]);
    assert_eq!(name_authors(&vec![], 0, share(1, 1)), Vec::<String>::new());
    assert_eq!(name_authors(&head, 19, share(1, 0)), vec!["y", "x", "z"]);
    assert_eq!(name_authors(&head, 19, share(0, 0)), vec!["y"]);
}

#[test]
fn huge_counts_do_not_wrap() {
    let head = vec![("x".to_string(), u64::MAX), ("y".to_string(), u64::MAX)];
    assert_eq!(name_authors(&head, u64::MAX, share(u64::MAX, u64::MAX)), vec!["x"]);
}

#[test]
fn lines_of_the_others() {
    let a = agg(&[(HEAD, "ann", 1), (HEAD, "bob", 2), (HEAD, "cid", 4), (OLD, "ann", 8)]);
    let mut named: FxHashSet<String> = FxHashSet::default();
    named.insert("ann".to_string());
    let sums = lines_outside(&a, &named).unwrap();
    assert_eq!(sums.get(&HEAD), Some(&6));
    assert_eq!(sums.get(&OLD), None);
}

#[test]
fn lines_that_do_not_fit() {
    let a = agg(&[(HEAD, "ann", u64::MAX), (HEAD, "bob", 1)]);
    assert!(!check_authors_fit(&a));
    assert!(lines_outside(&a, &FxHashSet::default()).is_none());
    let mut named: FxHashSet<String> = FxHashSet::default();
    named.insert("bob".to_string());
    assert_eq!(lines_outside(&a, &named).unwrap().get(&HEAD), Some(&u64::MAX));
    assert!(check_authors_fit(&agg(&[(HEAD, "ann", u64::MAX), (OLD, "ann", 1)])));
}
