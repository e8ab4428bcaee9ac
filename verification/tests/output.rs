use rustc_hash::FxHashMap;
use strata::aggregate::{aggregate, checked_aggregate, BlobHists};
use strata::authors::{select_authors, Threshold};
use strata::output::{add_repo, build_output, update_repos};
use strata::series::{build_series, period_keys, period_labels, author_legend, CommitMeta};
use strata::tally::blob_histograms;
use strata::types::{oid_hex, Granularity, OutputData, WorkItem};

fn oid(n: u8) -> [u8; 20] {
    [n; 20]
}

fn item(commit: u8, blob: u8) -> WorkItem {
    WorkItem { commit_oid: oid(commit), blob_oid: oid(blob) }
}

const Q1_2018: i64 = 1514764800;
const Q3_2019: i64 = 1561939200;

fn lines(entries: &[(i64, &str)]) -> Vec<(i64, String)> {
    entries.iter().map(|(t, a)| (*t, a.to_string())).collect()
}

fn hists(yearly: bool) -> BlobHists {
    let mut h: BlobHists = FxHashMap::default();
    h.insert(
        oid(1),
        blob_histograms(&lines(&[(Q1_2018, "ann"), (Q1_2018, "ann"), (Q3_2019, "bob")]), yearly),
    );
    h.insert(oid(2), blob_histograms(&lines(&[(Q3_2019, "cid")]), yearly));
    h
}

fn meta(summary: Option<&str>, author: Option<&str>) -> Option<CommitMeta> {
    Some(CommitMeta {
        summary: summary.map(|s| s.to_string()),
        author: author.map(|s| s.to_string()),
    })
}

#[test]
fn histograms_count_lines() {
    let (periods, authors) =
        blob_histograms(&lines(&[(0, "a"), (0, "b"), (1, "a"), (i64::MAX, "a")]), false);
    assert_eq!(periods.get(&(1970 * 4)), Some(&3));
    assert_eq!(periods.get(&i32::MIN), Some(&1));
    assert_eq!(periods.len(), 2);
    assert_eq!(authors.get("a"), Some(&3));
    assert_eq!(authors.get("b"), Some(&1));
    assert_eq!(authors.len(), 2);
}

#[test]
fn commits_add_up_their_files() {
    let items = vec![item(10, 1), item(10, 2), item(10, 1), item(11, 2), item(11, 99)];
    let (agg, author_agg) = aggregate(&items, &hists(false));
    assert_eq!(agg.get(&(oid(10), 2018 * 4)), Some(&4));
    assert_eq!(agg.get(&(oid(10), 2019 * 4 + 2)), Some(&3));
    assert_eq!(agg.get(&(oid(11), 2019 * 4 + 2)), Some(&1));
    assert_eq!(agg.len(), 3);
    assert_eq!(author_agg.get(&(oid(10), "ann".to_string())), Some(&4));
    assert_eq!(author_agg.get(&(oid(10), "bob".to_string())), Some(&2));
    assert_eq!(author_agg.get(&(oid(10), "cid".to_string())), Some(&1));
    assert_eq!(author_agg.get(&(oid(11), "cid".to_string())), Some(&1));
    assert_eq!(author_agg.len(), 4);
}

#[test]
fn counts_that_do_not_fit() {
    let mut h: BlobHists = FxHashMap::default();
    let mut periods: FxHashMap<i32, u64> = FxHashMap::default();
    periods.insert(0, u64::MAX);
    h.insert(oid(1), (periods, FxHashMap::default()));
    assert!(checked_aggregate(&vec![item(10, 1)], &h).is_some());
    assert!(checked_aggregate(&vec![item(10, 1), item(10, 1)], &h).is_none());
    assert!(checked_aggregate(&vec![item(10, 1), item(11, 1)], &h).is_some());
    let mut authors: FxHashMap<String, u64> = FxHashMap::default();
    authors.insert("a".to_string(), u64::MAX);
    h.insert(oid(1), (FxHashMap::default(), authors));
    assert!(checked_aggregate(&vec![item(10, 1), item(10, 1)], &h).is_none());
}

#[test]
fn periods_from_the_earliest_on() {
    let items = vec![item(10, 1), item(11, 2)];
    let (agg, _) = aggregate(&items, &hists(false));
    let keys = period_keys(&agg);
    assert_eq!(keys, vec![2018 * 4, 2019 * 4 + 2]);
    assert_eq!(period_labels(&keys, false), vec!["2018-Q1", "2019-Q3"]);
    assert_eq!(period_keys(&FxHashMap::default()), Vec::<i32>::new());
}

#[test]
fn legends() {
    let active = vec!["ann".to_string(), "bob".to_string()];
    assert_eq!(author_legend(&active, true), vec!["ann", "bob", "other"]);
    assert_eq!(author_legend(&active, false), vec!["ann", "bob"]);
}

#[test]
fn points_list_counts_above_zero() {
    let items = vec![item(10, 1), item(11, 2)];
    let (agg, author_agg) = aggregate(&items, &hists(false));
    let mut other: FxHashMap<[u8; 20], u64> = FxHashMap::default();
    other.insert(oid(11), 1);
    let sampled = vec![(oid(10), 5), (oid(11), 6), (oid(12), 7)];
    let metas = vec![meta(Some("fix"), None), None, meta(None, Some("zoe"))];
    let active = vec!["bob".to_string(), "ann".to_string()];
    let points = build_series(
        &sampled,
        &agg,
        &author_agg,
        &active,
        true,
        &other,
        &vec![2018 * 4, 2018 * 4 + 1, 2019 * 4 + 2],
        &metas,
    );
    assert_eq!(points.len(), 3);
    assert_eq!((points[0].ts, points[0].total), (5, 3));
    assert_eq!(points[0].counts, vec![(0, 2), (2, 1)]);
    assert_eq!(points[0].author_counts, vec![(0, 1), (1, 2)]);
    assert_eq!((points[0].summary.as_str(), points[0].author.as_str()), ("fix", "unknown"));
    assert_eq!(points[1].counts, vec![(2, 1)]);
    assert_eq!(points[1].author_counts, vec![(2, 1)]);
    assert_eq!((points[1].summary.as_str(), points[1].author.as_str()), ("", ""));
    assert_eq!((points[2].ts, points[2].total), (7, 0));
    assert!(points[2].counts.is_empty() && points[2].author_counts.is_empty());
    assert_eq!((points[2].summary.as_str(), points[2].author.as_str()), ("", "zoe"));
}

#[test]
fn both_views_split_the_same_total() {
    let items = vec![item(10, 1), item(11, 1), item(11, 1), item(11, 2)];
    let (agg, author_agg) = aggregate(&items, &hists(false));
    let sampled = vec![(oid(10), 5), (oid(11), 6)];
    let (active, has_other, other) =
        select_authors(&author_agg, &sampled, Threshold { num: 50, den: 100 });
    assert_eq!(active, vec!["ann"]);
    assert!(has_other);
    let points = build_series(
        &sampled,
        &agg,
        &author_agg,
        &active,
        has_other,
        &other,
        &period_keys(&agg),
        &vec![None, None],
    );
    assert_eq!(points[0].author_counts, vec![(0, 2), (1, 1)]);
    assert_eq!(points[1].author_counts, vec![(0, 4), (1, 3)]);
    assert_eq!(points[1].counts, vec![(0, 4), (1, 3)]);
    let totals: Vec<u64> = points.iter().map(|p| p.total).collect();
    assert_eq!(totals, vec![3, 7]);
    for p in &points {
        assert_eq!(p.counts.iter().map(|c| c.1).sum::<u64>(), p.total);
        assert_eq!(p.author_counts.iter().map(|c| c.1).sum::<u64>(), p.total);
    }
}

fn analyse(items: &Vec<WorkItem>, granularity: Granularity, num: u64) -> Option<OutputData> {
    build_output(
        "repo".to_string(),
        granularity,
        "now".to_string(),
        "head".to_string(),
        items,
        &hists(granularity == Granularity::Year),
        &vec![(oid(10), 5), (oid(11), 6)],
        &vec![meta(Some("one"), Some("ann")), None],
        Threshold { num, den: 100 },
        Vec::new(),
    )
}

#[test]
fn a_whole_chart() {
    let items = vec![item(10, 1), item(10, 2), item(11, 1)];
    let out = analyse(&items, Granularity::Quarter, 60).unwrap();
    assert_eq!(out.repo, "repo");
    assert_eq!(out.granularity, "quarter");
    assert_eq!(out.generated_at, "now");
    assert_eq!(out.head_commit, "head");
    assert_eq!(out.periods, vec!["2018-Q1", "2019-Q3"]);
    assert_eq!(out.authors, vec!["ann", "other"]);
    assert_eq!(out.series.len(), 2);
    assert_eq!(out.series[0].total, 4);
    assert_eq!(out.series[0].counts, vec![(0, 2), (1, 2)]);
    assert_eq!(out.series[0].author_counts, vec![(0, 2), (1, 2)]);
    assert_eq!(out.series[1].total, 3);
    assert_eq!(out.series[1].author_counts, vec![(0, 2), (1, 1)]);
    assert!(out.tags.is_empty());
}

#[test]
fn a_chart_by_year() {
    let items = vec![item(10, 1), item(11, 1)];
    let out = analyse(&items, Granularity::Year, 100).unwrap();
    assert_eq!(out.granularity, "year");
    assert_eq!(out.periods, vec!["2018", "2019"]);
    assert_eq!(out.authors, vec!["ann", "bob"]);
}

#[test]
fn the_chart_shows_every_line() {
    let items = vec![item(10, 1), item(10, 2), item(10, 2), item(11, 1), item(11, 2)];
    for num in [1, 30, 60, 90, 100] {
        let out = analyse(&items, Granularity::Quarter, num).unwrap();
        let totals: Vec<u64> = out.series.iter().map(|p| p.total).collect();
        assert_eq!(totals, vec![5, 4]);
        for point in &out.series {
            assert_eq!(point.counts.iter().map(|c| c.1).sum::<u64>(), point.total);
            assert_eq!(point.author_counts.iter().map(|c| c.1).sum::<u64>(), point.total);
        }
    }
}

#[test]
fn an_empty_analysis() {
    let out = analyse(&vec![], Granularity::Quarter, 80).unwrap();
    assert!(out.periods.is_empty());
    assert!(out.authors.is_empty());
    assert_eq!(out.series.len(), 2);
    assert_eq!(out.series[0].total, 0);
}

#[test]
fn an_analysis_that_does_not_fit() {
    let mut h: BlobHists = FxHashMap::default();
    let mut periods: FxHashMap<i32, u64> = FxHashMap::default();
    periods.insert(0, u64::MAX);
    periods.insert(4, 1);
    h.insert(oid(1), (periods, FxHashMap::default()));
    let out = build_output(
        "r".to_string(),
        Granularity::Year,
        String::new(),
        String::new(),
        &vec![item(10, 1)],
        &h,
        &vec![(oid(10), 5)],
        &vec![None],
        Threshold { num: 1, den: 1 },
        Vec::new(),
    );
    assert!(out.is_none());
}

#[test]
fn repositories_are_listed_in_order() {
    let repos = vec!["b".to_string(), "a".to_string()];
    assert_eq!(
        add_repo(repos.clone(), "B"),
        Some(vec!["B".to_string(), "a".to_string(), "b".to_string()])
    );
    assert_eq!(add_repo(repos, "a"), None);
    assert_eq!(add_repo(vec![], ""), Some(vec!["".to_string()]));
}

#[test]
fn the_text_of_the_list_of_repositories() {
    let first = update_repos(None, "my-lib").unwrap();
    assert_eq!(first, "[\n  \"my-lib\"\n]");
    let second = update_repos(Some(first.clone()), "my-app").unwrap();
    assert_eq!(second, "[\n  \"my-app\",\n  \"my-lib\"\n]");
    assert_eq!(update_repos(Some(second), "my-lib"), None);
    assert_eq!(update_repos(Some("no list".to_string()), "x").unwrap(), "[\n  \"x\"\n]");
    assert_eq!(
        update_repos(Some("[\"a\\\"b\"]".to_string()), "a\"b"),
        None
    );
}

#[test]
fn names_of_objects_in_hexadecimal() {
    assert_eq!(oid_hex(&oid(0xa5)), "a5".repeat(20));
    assert_eq!(oid_hex(&oid(0x07)), "07".repeat(20));
}

#[test]
fn names_of_granularities() {
    assert_eq!(Granularity::Quarter.name(), "quarter");
    assert_eq!(Granularity::Year.name(), "year");
}
