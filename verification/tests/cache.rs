use rustc_hash::FxHashMap;
use strata::cache::{blamed_histograms, cached_histograms, cached_lines, fresh_lines};

const OUT: &str = "aaaaaaaaaaaaaaaaaaaaaaaaaaaaaaaaaaaaaaaa 1 1 2\nauthor Ann\nauthor-time 1561939200\n\tone\n\ttwo\n";

#[test]
fn a_stored_entry_is_read_back() {
    let (lines, entry) = fresh_lines(Some(OUT.as_bytes().to_vec()));
    assert_eq!(
        lines,
        vec![(1561939200, "Ann".to_string()), (1561939200, "Ann".to_string())]
    );
    assert_eq!(cached_lines(false, Some(entry.clone())), Some(lines));
    assert_eq!(cached_lines(true, Some(entry)), None);
}

#[test]
fn the_form_of_an_entry() {
    let (_, entry) = fresh_lines(Some(OUT.as_bytes().to_vec()));
    let mut expected: Vec<u8> = vec![2, 0, 0, 0, 0, 0, 0, 0];
    for _ in 0..2 {
        expected.extend(1561939200i64.to_le_bytes());
        expected.extend(3u64.to_le_bytes());
        expected.extend(b"Ann");
    }
    assert_eq!(entry, expected);
}

#[test]
fn no_entry_and_bad_entries_give_no_lines() {
    assert_eq!(cached_lines(false, None), None);
    assert_eq!(cached_lines(false, Some(vec![1, 2, 3])), None);
    assert_eq!(cached_lines(false, Some(vec![0; 8])), Some(vec![]));
}

#[test]
fn a_failed_blame_has_no_lines_and_is_stored_as_such() {
    let (lines, entry) = fresh_lines(None);
    assert_eq!(lines, vec![]);
    assert_eq!(entry, vec![0; 8]);
}

#[test]
fn histograms_of_a_blob() {
    let ((periods, authors), entry) = blamed_histograms(Some(OUT.as_bytes().to_vec()), false);
    let mut expected: FxHashMap<i32, u64> = FxHashMap::default();
    expected.insert(2019 * 4 + 2, 2);
    assert_eq!(periods, expected);
    let mut expected: FxHashMap<String, u64> = FxHashMap::default();
    expected.insert("Ann".to_string(), 2);
    assert_eq!(authors, expected);
    let again = cached_histograms(false, Some(entry.clone()), false);
    assert_eq!(again, Some((periods, authors)));
    let yearly = cached_histograms(false, Some(entry.clone()), true).unwrap();
    assert_eq!(yearly.0.get(&(2019 * 4)), Some(&2));
    assert_eq!(cached_histograms(true, Some(entry), false), None);
    assert_eq!(cached_histograms(false, None, false), None);
}
