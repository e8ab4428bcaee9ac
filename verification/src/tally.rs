//! The histograms of one blob: its lines by period and by author.

use crate::blame::line_views;
use crate::fx::{map_get, map_insert, map_new, map_of, FxKey};
use crate::period::{in_calendar, lemma_month_exists, period_of, ts_to_period_int};
use rustc_hash::FxHashMap;
use vstd::prelude::*;

verus! {

/// The count that a table holds for `k`, 0 where it holds none.
pub open spec fn count_in<K>(h: Map<K, u64>, k: K) -> int {
    if h.contains_key(k) {
        h[k] as int
    } else {
        0
    }
}

/// How often `k` occurs in `s`.
pub open spec fn occurrences<K>(s: Seq<K>, k: K) -> int
    decreases s.len(),
{
    if s.len() == 0 {
        0
    } else {
        occurrences(s.drop_last(), k) + (if s.last() == k {
            1int
        } else {
            0
        })
    }
}

/// The table holds what occurs in `s`, each with its count, and nothing else.
pub open spec fn tallies<K>(h: Map<K, u64>, s: Seq<K>) -> bool {
    &&& forall|k: K| #[trigger] h.contains_key(k) <==> occurrences(s, k) > 0
    &&& forall|k: K| #[trigger] h.contains_key(k) ==> h[k] == occurrences(s, k)
}

/// The sum of the first `n` numbers.
pub open spec fn prefix_sum(s: Seq<u64>, n: int) -> int
    decreases n,
{
    if n <= 0 {
        0
    } else {
        prefix_sum(s, n - 1) + s[n - 1]
    }
}

/// The periods of the lines.
pub open spec fn periods_of(lines: Seq<(i64, Seq<char>)>, yearly: bool) -> Seq<i32> {
    lines.map_values(|l: (i64, Seq<char>)| period_of(l.0 as int, yearly) as i32)
}

/// The authors of the lines.
pub open spec fn authors_of(lines: Seq<(i64, Seq<char>)>) -> Seq<Seq<char>> {
    lines.map_values(|l: (i64, Seq<char>)| l.1)
}

pub proof fn lemma_occurrences_bound<K>(s: Seq<K>, k: K)
    ensures
        0 <= occurrences(s, k) <= s.len(),
    decreases s.len(),
{
    if s.len() > 0 {
        lemma_occurrences_bound(s.drop_last(), k);
    }
}

/// Adds `count` to what the table holds for `key`, if the sum fits.
pub(crate) fn add_count<K: FxKey>(h: &mut FxHashMap<K, u64>, key: K, count: u64) -> (fits: bool)
    ensures
        fits == (count_in(map_of(old(h)), key.model()) + count <= u64::MAX),
        fits ==> map_of(final(h)) == map_of(old(h)).insert(
            key.model(),
            (count_in(map_of(old(h)), key.model()) + count) as u64,
        ),
        !fits ==> map_of(final(h)) == map_of(old(h)),
{
    let held: u64 = match map_get(h, &key) {
        Some(n) => *n,
        None => 0,
    };
    match held.checked_add(count) {
        Some(sum) => {
            map_insert(h, key, sum);
            true
        },
        None => false,
    }
}

/// The lines of a blob by period and by author.
pub fn blob_histograms(lines: &Vec<(i64, String)>, yearly: bool) -> (r: (
    FxHashMap<i32, u64>,
    FxHashMap<String, u64>,
))
    ensures
        tallies(map_of(&r.0), periods_of(line_views(lines@), yearly)),
        tallies(map_of(&r.1), authors_of(line_views(lines@))),
{
    let ghost periods = periods_of(line_views(lines@), yearly);
    let ghost authors = authors_of(line_views(lines@));
    let mut period_hist: FxHashMap<i32, u64> = map_new();
    let mut author_hist: FxHashMap<String, u64> = map_new();
    let mut i: usize = 0;
    while i < lines.len()
        invariant
            i <= lines@.len(),
            periods == periods_of(line_views(lines@), yearly),
            authors == authors_of(line_views(lines@)),
            periods.len() == lines@.len(),
            authors.len() == lines@.len(),
            tallies(map_of(&period_hist), periods.take(i as int)),
            tallies(map_of(&author_hist), authors.take(i as int)),
        decreases lines@.len() - i,
    {
        let (ts, author) = &lines[i];
        let period = ts_to_period_int(*ts, yearly);
        let ghost p = map_of(&period_hist);
        let ghost a = map_of(&author_hist);
        proof {
            lemma_occurrences_bound(periods.take(i as int), period);
            lemma_occurrences_bound(authors.take(i as int), author@);
            assert(periods[i as int] == period);
            assert(authors[i as int] == author@);
            assert(periods.take(i + 1).drop_last() =~= periods.take(i as int));
            assert(authors.take(i + 1).drop_last() =~= authors.take(i as int));
            assert(p.contains_key(period) || !p.contains_key(period));
            assert(a.contains_key(author@) || !a.contains_key(author@));
        }
        add_count(&mut period_hist, period, 1);
        add_count(&mut author_hist, author.clone(), 1);
        i += 1;
    }
    assert(periods.take(i as int) =~= periods);
    assert(authors.take(i as int) =~= authors);
    (period_hist, author_hist)
}

proof fn lemma_occurrences_of<A, K>(s: Seq<A>, f: spec_fn(A) -> K, k: K, is_k: spec_fn(A) -> bool)
    requires
        forall|a: A| #[trigger] is_k(a) == (f(a) == k),
    ensures
        occurrences(s.map_values(f), k) == s.filter(is_k).len(),
    decreases s.len(),
{
    reveal(Seq::filter);
    if s.len() > 0 {
        let fewer = s.drop_last();
        lemma_occurrences_of(fewer, f, k, is_k);
        assert(s.map_values(f).drop_last() =~= fewer.map_values(f));
        assert(is_k(s.last()) == (f(s.last()) == k));
    }
}

proof fn lemma_key_fits(ts: int, yearly: bool)
    ensures
        i32::MIN <= period_of(ts, yearly) <= i32::MAX,
{
    if in_calendar(ts) {
        lemma_month_exists(ts);
    }
}

/// A histogram by period holds for each key the number of the lines whose moment
/// has that key, and one by author for each name the number of the author's lines;
/// neither holds a count of nothing.
pub proof fn law_histograms_count_lines(
    lines: Seq<(i64, Seq<char>)>,
    yearly: bool,
    by_period: Map<i32, u64>,
    by_author: Map<Seq<char>, u64>,
    p: i32,
    a: Seq<char>,
)
    requires
        tallies(by_period, periods_of(lines, yearly)),
        tallies(by_author, authors_of(lines)),
    ensures
        ({
            let n = lines.filter(|l: (i64, Seq<char>)| period_of(l.0 as int, yearly) == p).len();
            if by_period.contains_key(p) {
                by_period[p] == n && n > 0
            } else {
                n == 0
            }
        }),
        ({
            let n = lines.filter(|l: (i64, Seq<char>)| l.1 == a).len();
            if by_author.contains_key(a) {
                by_author[a] == n && n > 0
            } else {
                n == 0
            }
        }),
{
    let f = |l: (i64, Seq<char>)| period_of(l.0 as int, yearly) as i32;
    let g = |l: (i64, Seq<char>)| l.1;
    let has_p = |l: (i64, Seq<char>)| period_of(l.0 as int, yearly) == p;
    let has_a = |l: (i64, Seq<char>)| l.1 == a;
    assert forall|l: (i64, Seq<char>)| #[trigger] has_p(l) == (f(l) == p) by {
        lemma_key_fits(l.0 as int, yearly);
    }
    lemma_occurrences_of(lines, f, p, has_p);
    lemma_occurrences_of(lines, g, a, has_a);
    assert(periods_of(lines, yearly) =~= lines.map_values(f));
    assert(authors_of(lines) =~= lines.map_values(g));
    lemma_occurrences_bound(periods_of(lines, yearly), p);
    lemma_occurrences_bound(authors_of(lines), a);
}

} // verus!
