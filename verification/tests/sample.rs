use strata::sample::sample_commits;

fn commits(n: usize) -> Vec<([u8; 20], i64)> {
    (0..n)
        .map(|i| {
            let mut oid = [0u8; 20];
            oid[0] = (i % 256) as u8;
            (oid, i as i64)
        })
        .collect()
}

fn places(v: &Vec<([u8; 20], i64)>) -> Vec<i64> {
    v.iter().map(|c| c.1).collect()
}

#[test]
fn all_commits_for_zero_or_enough() {
    assert_eq!(sample_commits(commits(5), 0), commits(5));
    assert_eq!(sample_commits(commits(5), 5), commits(5));
    assert_eq!(sample_commits(commits(5), 9), commits(5));
    assert_eq!(sample_commits(commits(0), 3), commits(0));
}

#[test]
fn one_sample_is_the_middle() {
    assert_eq!(places(&sample_commits(commits(5), 1)), vec![2]);
    assert_eq!(places(&sample_commits(commits(4), 1)), vec![2]);
}

#[test]
fn samples_are_evenly_spaced() {
    assert_eq!(places(&sample_commits(commits(10), 4)), vec![0, 3, 6, 9]);
    assert_eq!(places(&sample_commits(commits(10), 2)), vec![0, 9]);
    assert_eq!(places(&sample_commits(commits(11), 4)), vec![0, 3, 6, 10]);
}

#[test]
fn gaps_differ_by_one_at_most() {
    let sampled = places(&sample_commits(commits(10000), 100));
    assert_eq!(sampled.len(), 100);
    assert_eq!(sampled[0], 0);
    assert_eq!(sampled[99], 9999);
    for pair in sampled.windows(2) {
        let gap = pair[1] - pair[0];
        assert!(gap == 101 || gap == 102 || gap == 100);
        assert!(gap == 9999 / 99 || gap == 9999 / 99 + 1);
    }
}
