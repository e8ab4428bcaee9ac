//! What the counts of a chart add up to: the lines of the commit's files.

use crate::aggregate::{commit_count, commit_has, lemma_commit_count_absent, sums_up};
use crate::authors::{
    authors_outside, commit_authors, commit_keys, has_member, is_selection, law_no_line_lost,
    lemma_lines_by_insert, lines_by, sums_outside, Threshold,
};
use crate::series::{
    author_counts, has_period, is_point, lists_periods, period_counts, sparse, sum_of, totals_fit,
    CommitMeta,
};
use crate::tally::{
    authors_of, count_in, lemma_occurrences_bound, occurrences, periods_of, prefix_sum, tallies,
};
use crate::types::{Oid, SeriesPoint, WorkItem};
use vstd::prelude::*;

verus! {

/// The lines of all the files of a commit.
pub open spec fn snapshot_lines(
    items: Seq<WorkItem>,
    lines_of: spec_fn(Oid) -> Seq<(i64, Seq<char>)>,
    commit: Oid,
) -> int
    decreases items.len(),
{
    if items.len() == 0 {
        0
    } else {
        snapshot_lines(items.drop_last(), lines_of, commit) + (if items.last().commit_oid
            == commit {
            lines_of(items.last().blob_oid).len() as int
        } else {
            0
        })
    }
}

/// The sum of `f` over a list of keys.
pub open spec fn sum_over<K>(keys: Seq<K>, f: spec_fn(K) -> int) -> int
    decreases keys.len(),
{
    if keys.len() == 0 {
        0
    } else {
        sum_over(keys.drop_last(), f) + f(keys.last())
    }
}

proof fn lemma_sum_over_adds<K>(
    keys: Seq<K>,
    f: spec_fn(K) -> int,
    g: spec_fn(K) -> int,
    h: spec_fn(K) -> int,
)
    requires
        forall|k: K| #[trigger] h(k) == f(k) + g(k),
    ensures
        sum_over(keys, h) == sum_over(keys, f) + sum_over(keys, g),
    decreases keys.len(),
{
    if keys.len() > 0 {
        lemma_sum_over_adds(keys.drop_last(), f, g, h);
    }
}

proof fn lemma_sum_over_same<K>(keys: Seq<K>, f: spec_fn(K) -> int, g: spec_fn(K) -> int)
    requires
        forall|i: int| 0 <= i < keys.len() ==> f(#[trigger] keys[i]) == g(keys[i]),
    ensures
        sum_over(keys, f) == sum_over(keys, g),
    decreases keys.len(),
{
    if keys.len() > 0 {
        assert forall|i: int| 0 <= i < keys.drop_last().len() implies f(
            #[trigger] keys.drop_last()[i],
        ) == g(keys.drop_last()[i]) by {
            assert(keys.drop_last()[i] == keys[i]);
        }
        lemma_sum_over_same(keys.drop_last(), f, g);
        assert(keys.last() == keys[keys.len() - 1]);
    }
}

proof fn lemma_sum_of_one<K>(keys: Seq<K>, x: K)
    requires
        keys.no_duplicates(),
    ensures
        sum_over(
            keys,
            |k: K|
                if k == x {
                    1int
                } else {
                    0
                },
        ) == (if keys.contains(x) {
            1int
        } else {
            0
        }),
    decreases keys.len(),
{
    if keys.len() > 0 {
        let fewer = keys.drop_last();
        lemma_sum_of_one(fewer, x);
        if fewer.contains(x) {
            let i = choose|i: int| 0 <= i < fewer.len() && fewer[i] == x;
            assert(keys[i] == x);
            assert(keys.last() != x);
        } else if keys.contains(x) {
            let i = choose|i: int| 0 <= i < keys.len() && keys[i] == x;
            if i < keys.len() - 1 {
                assert(fewer[i] == x);
            }
            assert(keys.last() == x);
        } else {
            assert(keys.contains(keys.last()));
        }
    }
}

/// How often each key occurs adds up to the length, if every item is a key.
proof fn lemma_occurrences_total<K>(s: Seq<K>, keys: Seq<K>)
    requires
        keys.no_duplicates(),
        forall|i: int| 0 <= i < s.len() ==> keys.contains(#[trigger] s[i]),
    ensures
        sum_over(keys, |k: K| occurrences(s, k)) == s.len(),
    decreases s.len(),
{
    if s.len() == 0 {
        lemma_sum_over_adds(
            keys,
            |k: K| occurrences(s, k),
            |k: K| occurrences(s, k),
            |k: K| occurrences(s, k),
        );
    } else {
        let fewer = s.drop_last();
        assert forall|i: int| 0 <= i < fewer.len() implies keys.contains(#[trigger] fewer[i]) by {
            assert(fewer[i] == s[i]);
        }
        lemma_occurrences_total(fewer, keys);
        let x = s.last();
        lemma_sum_of_one(keys, x);
        lemma_sum_over_adds(
            keys,
            |k: K| occurrences(fewer, k),
            |k: K|
                if k == x {
                    1int
                } else {
                    0
                },
            |k: K| occurrences(s, k),
        );
        assert(keys.contains(s[s.len() - 1]));
    }
}

proof fn lemma_occurs<K>(s: Seq<K>, i: int)
    requires
        0 <= i < s.len(),
    ensures
        occurrences(s, s[i]) > 0,
    decreases s.len(),
{
    lemma_occurrences_bound(s.drop_last(), s[i]);
    if i < s.len() - 1 {
        lemma_occurs(s.drop_last(), i);
        assert(s.drop_last()[i] == s[i]);
    }
}

proof fn lemma_commit_has<K>(
    items: Seq<WorkItem>,
    hist: spec_fn(Oid) -> Map<K, u64>,
    i: int,
    k: K,
)
    requires
        0 <= i < items.len(),
        hist(items[i].blob_oid).contains_key(k),
    ensures
        commit_has(items, hist, items[i].commit_oid, k),
    decreases items.len(),
{
    if i < items.len() - 1 {
        lemma_commit_has(items.drop_last(), hist, i, k);
    }
}

/// The counts of a commit over all keys add up to the lines of its files.
proof fn lemma_counts_add_up<K>(
    items: Seq<WorkItem>,
    hist: spec_fn(Oid) -> Map<K, u64>,
    lines_of: spec_fn(Oid) -> Seq<(i64, Seq<char>)>,
    commit: Oid,
    keys: Seq<K>,
)
    requires
        forall|i: int|
            0 <= i < items.len() && (#[trigger] items[i]).commit_oid == commit ==> sum_over(
                keys,
                |k: K| count_in(hist(items[i].blob_oid), k),
            ) == lines_of(items[i].blob_oid).len(),
    ensures
        sum_over(keys, |k: K| commit_count(items, hist, commit, k)) == snapshot_lines(
            items,
            lines_of,
            commit,
        ),
    decreases items.len(),
{
    let now = |k: K| commit_count(items, hist, commit, k);
    if items.len() == 0 {
        lemma_sum_over_adds(keys, now, now, now);
    } else {
        let fewer = items.drop_last();
        let last = items.last();
        assert(items[items.len() - 1] == last);
        assert forall|i: int|
            0 <= i < fewer.len() && (#[trigger] fewer[i]).commit_oid == commit implies sum_over(
            keys,
            |k: K| count_in(hist(fewer[i].blob_oid), k),
        ) == lines_of(fewer[i].blob_oid).len() by {
            assert(items[i] == fewer[i]);
        }
        lemma_counts_add_up(fewer, hist, lines_of, commit, keys);
        let before = |k: K| commit_count(fewer, hist, commit, k);
        if last.commit_oid == commit {
            lemma_sum_over_adds(keys, before, |k: K| count_in(hist(last.blob_oid), k), now);
        } else {
            lemma_sum_over_same(keys, before, now);
        }
    }
}

/// What one file adds: as many lines as it has.
proof fn lemma_file_adds_up<K>(h: Map<K, u64>, s: Seq<K>, keys: Seq<K>)
    requires
        tallies(h, s),
        keys.no_duplicates(),
        forall|k: K| #[trigger] h.contains_key(k) ==> keys.contains(k),
    ensures
        sum_over(keys, |k: K| count_in(h, k)) == s.len(),
{
    assert forall|i: int| 0 <= i < s.len() implies keys.contains(#[trigger] s[i]) by {
        lemma_occurs(s, i);
        assert(h.contains_key(s[i]));
    }
    lemma_occurrences_total(s, keys);
    assert forall|i: int| 0 <= i < keys.len() implies (|k: K| count_in(h, k))(#[trigger] keys[i])
        == (|k: K| occurrences(s, k))(keys[i]) by {
        lemma_occurrences_bound(s, keys[i]);
        assert(h.contains_key(keys[i]) || !h.contains_key(keys[i]));
    }
    lemma_sum_over_same(keys, |k: K| count_in(h, k), |k: K| occurrences(s, k));
}

proof fn lemma_agg_adds_up<K>(
    agg: Map<(Oid, K), u64>,
    items: Seq<WorkItem>,
    hist: spec_fn(Oid) -> Map<K, u64>,
    seq_of: spec_fn(Oid) -> Seq<K>,
    lines_of: spec_fn(Oid) -> Seq<(i64, Seq<char>)>,
    commit: Oid,
    keys: Seq<K>,
)
    requires
        sums_up(agg, items, hist),
        forall|i: int|
            0 <= i < items.len() ==> tallies(
                hist((#[trigger] items[i]).blob_oid),
                seq_of(items[i].blob_oid),
            ),
        forall|i: int|
            0 <= i < items.len() ==> seq_of((#[trigger] items[i]).blob_oid).len() == lines_of(
                items[i].blob_oid,
            ).len(),
        keys.no_duplicates(),
        forall|k: K| #[trigger] agg.contains_key((commit, k)) ==> keys.contains(k),
    ensures
        sum_over(keys, |k: K| count_in(agg, (commit, k))) == snapshot_lines(
            items,
            lines_of,
            commit,
        ),
{
    assert forall|i: int|
        0 <= i < items.len() && (#[trigger] items[i]).commit_oid == commit implies sum_over(
        keys,
        |k: K| count_in(hist(items[i].blob_oid), k),
    ) == lines_of(items[i].blob_oid).len() by {
        let h = hist(items[i].blob_oid);
        assert forall|k: K| #[trigger] h.contains_key(k) implies keys.contains(k) by {
            lemma_commit_has(items, hist, i, k);
            assert(agg.contains_key((commit, k)));
        }
        lemma_file_adds_up(h, seq_of(items[i].blob_oid), keys);
        lemma_sum_over_same(
            keys,
            |k: K| count_in(h, k),
            |k: K| count_in(hist(items[i].blob_oid), k),
        );
    }
    lemma_counts_add_up(items, hist, lines_of, commit, keys);
    assert forall|i: int| 0 <= i < keys.len() implies (|k: K| count_in(agg, (commit, k)))(
        #[trigger] keys[i],
    ) == (|k: K| commit_count(items, hist, commit, k))(keys[i]) by {
        lemma_commit_count_absent(items, hist, commit, keys[i]);
        assert(agg.contains_key((commit, keys[i])) || !agg.contains_key((commit, keys[i])));
    }
    lemma_sum_over_same(
        keys,
        |k: K| count_in(agg, (commit, k)),
        |k: K| commit_count(items, hist, commit, k),
    );
}

/// How often `k` occurs in all the files of a commit.
pub open spec fn snapshot_occurrences<K>(
    items: Seq<WorkItem>,
    seq_of: spec_fn(Oid) -> Seq<K>,
    commit: Oid,
    k: K,
) -> int
    decreases items.len(),
{
    if items.len() == 0 {
        0
    } else {
        snapshot_occurrences(items.drop_last(), seq_of, commit, k) + (if items.last().commit_oid
            == commit {
            occurrences(seq_of(items.last().blob_oid), k)
        } else {
            0
        })
    }
}

/// Counting the lines of each blob once and adding the counts to every commit
/// that has the blob gives what counting the lines of every file of every commit
/// would give.
pub proof fn law_two_passes_count_every_line<K>(
    agg: Map<(Oid, K), u64>,
    items: Seq<WorkItem>,
    hist: spec_fn(Oid) -> Map<K, u64>,
    seq_of: spec_fn(Oid) -> Seq<K>,
    commit: Oid,
    k: K,
)
    requires
        sums_up(agg, items, hist),
        forall|i: int|
            0 <= i < items.len() ==> tallies(
                hist((#[trigger] items[i]).blob_oid),
                seq_of(items[i].blob_oid),
            ),
    ensures
        count_in(agg, (commit, k)) == snapshot_occurrences(items, seq_of, commit, k),
{
    lemma_commit_count_absent(items, hist, commit, k);
    assert(agg.contains_key((commit, k)) || !agg.contains_key((commit, k)));
    lemma_counts_are_occurrences(items, hist, seq_of, commit, k);
}

proof fn lemma_counts_are_occurrences<K>(
    items: Seq<WorkItem>,
    hist: spec_fn(Oid) -> Map<K, u64>,
    seq_of: spec_fn(Oid) -> Seq<K>,
    commit: Oid,
    k: K,
)
    requires
        forall|i: int|
            0 <= i < items.len() ==> tallies(
                hist((#[trigger] items[i]).blob_oid),
                seq_of(items[i].blob_oid),
            ),
    ensures
        commit_count(items, hist, commit, k) == snapshot_occurrences(items, seq_of, commit, k),
    decreases items.len(),
{
    if items.len() > 0 {
        let fewer = items.drop_last();
        let last = items.last();
        assert(items[items.len() - 1] == last);
        assert forall|i: int| 0 <= i < fewer.len() implies tallies(
            hist((#[trigger] fewer[i]).blob_oid),
            seq_of(fewer[i].blob_oid),
        ) by {
            assert(items[i] == fewer[i]);
        }
        lemma_counts_are_occurrences(fewer, hist, seq_of, commit, k);
        let h = hist(last.blob_oid);
        lemma_occurrences_bound(seq_of(last.blob_oid), k);
        assert(h.contains_key(k) || !h.contains_key(k));
    }
}

proof fn lemma_sum_of_is_sum_over<K>(values: Seq<u64>, keys: Seq<K>, f: spec_fn(K) -> int)
    requires
        values.len() == keys.len(),
        forall|i: int| 0 <= i < keys.len() ==> values[i] == f(#[trigger] keys[i]),
    ensures
        sum_of(values) == sum_over(keys, f),
    decreases keys.len(),
{
    if keys.len() > 0 {
        let n = keys.len() - 1;
        assert forall|i: int| 0 <= i < n implies values.drop_last()[i] == f(
            #[trigger] keys.drop_last()[i],
        ) by {
            assert(keys.drop_last()[i] == keys[i]);
        }
        lemma_sum_of_is_sum_over(values.drop_last(), keys.drop_last(), f);
        lemma_prefix_of_prefix(values, n, n);
        assert(values.take(n) =~= values.drop_last());
        assert(values[n] == f(keys[n]));
    }
}

proof fn lemma_prefix_of_prefix(s: Seq<u64>, m: int, n: int)
    requires
        0 <= n <= m <= s.len(),
    ensures
        prefix_sum(s.take(m), n) == prefix_sum(s, n),
    decreases n,
{
    if n > 0 {
        lemma_prefix_of_prefix(s, m, n - 1);
    }
}

/// The lines of a commit over all periods are the lines of its files: none is
/// lost and none counted twice.
pub proof fn law_periods_add_up(
    agg: Map<(Oid, i32), u64>,
    items: Seq<WorkItem>,
    hist: spec_fn(Oid) -> Map<i32, u64>,
    lines_of: spec_fn(Oid) -> Seq<(i64, Seq<char>)>,
    yearly: bool,
    keys: Seq<i32>,
    commit: Oid,
)
    requires
        sums_up(agg, items, hist),
        forall|i: int|
            0 <= i < items.len() ==> tallies(
                hist((#[trigger] items[i]).blob_oid),
                periods_of(lines_of(items[i].blob_oid), yearly),
            ),
        lists_periods(keys, agg),
    ensures
        sum_of(period_counts(agg, commit, keys)) == snapshot_lines(items, lines_of, commit),
{
    assert forall|k: i32| #[trigger] agg.contains_key((commit, k)) implies keys.contains(k) by {
        assert(has_period(agg, k));
    }
    lemma_agg_adds_up(
        agg,
        items,
        hist,
        |blob: Oid| periods_of(lines_of(blob), yearly),
        lines_of,
        commit,
        keys,
    );
    lemma_sum_of_is_sum_over(
        period_counts(agg, commit, keys),
        keys,
        |k: i32| count_in(agg, (commit, k)),
    );
}

/// The authors of the lines of all the files of a commit.
spec fn snapshot_authors(
    items: Seq<WorkItem>,
    lines_of: spec_fn(Oid) -> Seq<(i64, Seq<char>)>,
    commit: Oid,
) -> Seq<Seq<char>>
    decreases items.len(),
{
    if items.len() == 0 {
        seq![]
    } else {
        snapshot_authors(items.drop_last(), lines_of, commit) + (if items.last().commit_oid
            == commit {
            authors_of(lines_of(items.last().blob_oid))
        } else {
            seq![]
        })
    }
}

proof fn lemma_occurring<K>(s: Seq<K>, k: K)
    requires
        occurrences(s, k) > 0,
    ensures
        s.contains(k),
    decreases s.len(),
{
    if s.last() == k {
        assert(s[s.len() - 1] == k);
    } else {
        lemma_occurring(s.drop_last(), k);
        let i = choose|i: int| 0 <= i < s.drop_last().len() && s.drop_last()[i] == k;
        assert(s[i] == k);
    }
}

proof fn lemma_snapshot_authors(
    items: Seq<WorkItem>,
    hist: spec_fn(Oid) -> Map<Seq<char>, u64>,
    lines_of: spec_fn(Oid) -> Seq<(i64, Seq<char>)>,
    commit: Oid,
    a: Seq<char>,
)
    requires
        forall|i: int|
            0 <= i < items.len() ==> tallies(
                hist((#[trigger] items[i]).blob_oid),
                authors_of(lines_of(items[i].blob_oid)),
            ),
        commit_has(items, hist, commit, a),
    ensures
        snapshot_authors(items, lines_of, commit).contains(a),
    decreases items.len(),
{
    let fewer = items.drop_last();
    let before = snapshot_authors(fewer, lines_of, commit);
    let now = snapshot_authors(items, lines_of, commit);
    let last = items.last();
    assert(items[items.len() - 1] == last);
    if commit_has(fewer, hist, commit, a) {
        assert forall|i: int| 0 <= i < fewer.len() implies tallies(
            hist((#[trigger] fewer[i]).blob_oid),
            authors_of(lines_of(fewer[i].blob_oid)),
        ) by {
            assert(items[i] == fewer[i]);
        }
        lemma_snapshot_authors(fewer, hist, lines_of, commit, a);
        let i = choose|i: int| 0 <= i < before.len() && before[i] == a;
        assert(now[i] == a);
    } else {
        let own = authors_of(lines_of(last.blob_oid));
        assert(hist(last.blob_oid).contains_key(a));
        lemma_occurring(own, a);
        let i = choose|i: int| 0 <= i < own.len() && own[i] == a;
        assert(now[before.len() + i] == a);
    }
}

/// A commit has finitely many authors.
pub proof fn lemma_authors_finite(
    author_agg: Map<(Oid, Seq<char>), u64>,
    items: Seq<WorkItem>,
    hist: spec_fn(Oid) -> Map<Seq<char>, u64>,
    lines_of: spec_fn(Oid) -> Seq<(i64, Seq<char>)>,
    commit: Oid,
)
    requires
        sums_up(author_agg, items, hist),
        forall|i: int|
            0 <= i < items.len() ==> tallies(
                hist((#[trigger] items[i]).blob_oid),
                authors_of(lines_of(items[i].blob_oid)),
            ),
    ensures
        commit_authors(author_agg, commit).finite(),
{
    let all = snapshot_authors(items, lines_of, commit);
    assert forall|a: Seq<char>| commit_authors(author_agg, commit).contains(
        a,
    ) implies all.to_set().contains(a) by {
        assert(author_agg.contains_key((commit, a)));
        lemma_snapshot_authors(items, hist, lines_of, commit, a);
    }
    vstd::seq_lib::seq_to_set_is_finite(all);
    vstd::set_lib::lemma_set_subset_finite(all.to_set(), commit_authors(author_agg, commit));
}

/// A list of the members of a set.
proof fn list_of(authors: Set<Seq<char>>) -> (list: Seq<Seq<char>>)
    requires
        authors.finite(),
    ensures
        list.no_duplicates(),
        list.to_set() == authors,
    decreases authors.len(),
{
    if authors.len() == 0 {
        assert(Seq::<Seq<char>>::empty().to_set() =~= authors);
        Seq::empty()
    } else {
        let a = authors.choose();
        let rest = list_of(authors.remove(a));
        let list = rest.push(a);
        assert(!rest.contains(a)) by {
            assert(!rest.to_set().contains(a));
        }
        assert forall|x: Seq<char>| list.to_set().contains(x) == authors.contains(x) by {
            assert(rest.to_set().contains(x) == authors.remove(a).contains(x));
            if rest.contains(x) {
                let i = choose|i: int| 0 <= i < rest.len() && rest[i] == x;
                assert(list[i] == x);
            }
            assert(list[rest.len() as int] == a);
        }
        assert(list.to_set() =~= authors);
        list
    }
}

/// The lines of the authors, or periods, in a list.
proof fn lemma_list_lines<K>(agg: Map<(Oid, K), u64>, commit: Oid, list: Seq<K>)
    requires
        list.no_duplicates(),
    ensures
        list.to_set().finite(),
        sum_over(list, |k: K| count_in(agg, (commit, k))) == lines_by(
            agg,
            commit,
            list.to_set(),
        ),
    decreases list.len(),
{
    vstd::seq_lib::seq_to_set_is_finite(list);
    if list.len() == 0 {
        assert(list.to_set() =~= Set::empty());
    } else {
        let rest = list.drop_last();
        let a = list.last();
        lemma_list_lines(agg, commit, rest);
        assert(!rest.to_set().contains(a)) by {
            if rest.to_set().contains(a) {
                let i = choose|i: int| 0 <= i < rest.len() && rest[i] == a;
                assert(list[i] == list[list.len() - 1]);
            }
        }
        assert forall|x: K| list.to_set().contains(x) == rest.to_set().insert(a).contains(x) by {
            if list.contains(x) && x != a {
                let i = choose|i: int| 0 <= i < list.len() && list[i] == x;
                assert(rest[i] == x);
            }
            if rest.contains(x) {
                let i = choose|i: int| 0 <= i < rest.len() && rest[i] == x;
                assert(list[i] == x);
            }
            assert(list[list.len() - 1] == a);
        }
        assert(list.to_set() =~= rest.to_set().insert(a));
        lemma_lines_by_insert(agg, commit, rest.to_set(), a);
    }
}

/// The lines of a commit over all its authors are the lines of its files: none
/// is lost and none counted twice.
pub proof fn law_authors_add_up(
    author_agg: Map<(Oid, Seq<char>), u64>,
    items: Seq<WorkItem>,
    hist: spec_fn(Oid) -> Map<Seq<char>, u64>,
    lines_of: spec_fn(Oid) -> Seq<(i64, Seq<char>)>,
    commit: Oid,
)
    requires
        sums_up(author_agg, items, hist),
        forall|i: int|
            0 <= i < items.len() ==> tallies(
                hist((#[trigger] items[i]).blob_oid),
                authors_of(lines_of(items[i].blob_oid)),
            ),
    ensures
        lines_by(author_agg, commit, commit_authors(author_agg, commit)) == snapshot_lines(
            items,
            lines_of,
            commit,
        ),
{
    lemma_authors_finite(author_agg, items, hist, lines_of, commit);
    let all = commit_authors(author_agg, commit);
    let list = list_of(all);
    assert forall|a: Seq<char>| #[trigger]
        author_agg.contains_key((commit, a)) implies list.contains(a) by {
        assert(all.contains(a));
        assert(list.to_set().contains(a));
    }
    lemma_agg_adds_up(
        author_agg,
        items,
        hist,
        |blob: Oid| authors_of(lines_of(blob)),
        lines_of,
        commit,
        list,
    );
    lemma_list_lines(author_agg, commit, list);
}

proof fn lemma_present_only<K>(agg: Map<(Oid, K), u64>, commit: Oid, keys: Set<K>)
    requires
        keys.finite(),
    ensures
        lines_by(agg, commit, keys) == lines_by(
            agg,
            commit,
            commit_keys(agg, commit).intersect(keys),
        ),
    decreases keys.len(),
{
    let all = commit_keys(agg, commit);
    if keys.len() == 0 {
        assert(all.intersect(keys) =~= keys);
    } else {
        let k = keys.choose();
        lemma_present_only(agg, commit, keys.remove(k));
        if all.contains(k) {
            assert(all.intersect(keys) =~= all.intersect(keys.remove(k)).insert(k));
            vstd::set_lib::lemma_set_subset_finite(keys, all.intersect(keys.remove(k)));
            lemma_lines_by_insert(agg, commit, all.intersect(keys.remove(k)), k);
        } else {
            assert(all.intersect(keys) =~= all.intersect(keys.remove(k)));
        }
    }
}

/// The author counts of a point add up to all the lines of its commit, if the
/// chart has the bucket "other" or the commit has no author outside the legend.
pub proof fn law_legend_adds_up(
    author_agg: Map<(Oid, Seq<char>), u64>,
    commit: Oid,
    active: Seq<Seq<char>>,
    has_other: bool,
    commit_other: Map<Oid, u64>,
)
    requires
        commit_authors(author_agg, commit).finite(),
        active.no_duplicates(),
        has_other ==> sums_outside(commit_other, author_agg, active.to_set()),
        has_other || !has_member(authors_outside(author_agg, commit, active.to_set())),
    ensures
        sum_of(author_counts(author_agg, commit, active, has_other, commit_other)) == lines_by(
            author_agg,
            commit,
            commit_authors(author_agg, commit),
        ),
{
    let named = author_counts(author_agg, commit, active, false, commit_other);
    let f = |a: Seq<char>| count_in(author_agg, (commit, a));
    lemma_sum_of_is_sum_over(named, active, f);
    lemma_list_lines(author_agg, commit, active);
    lemma_present_only(author_agg, commit, active.to_set());
    law_no_line_lost(author_agg, commit, active.to_set());
    let outside = authors_outside(author_agg, commit, active.to_set());
    if !has_member(outside) {
        assert(outside =~= Set::empty());
    }
    if has_other {
        assert(commit_other.contains_key(commit) || !commit_other.contains_key(commit));
        let full = author_counts(author_agg, commit, active, true, commit_other);
        lemma_prefix_of_prefix(full, active.len() as int, active.len() as int);
        assert(full.take(active.len() as int) =~= named);
    }
}

/// Looks up a place in a list of counts above zero.
pub open spec fn listed_count(entries: Seq<(usize, u64)>, i: int) -> u64
    decreases entries.len(),
{
    if entries.len() == 0 {
        0
    } else if entries.last().0 == i {
        entries.last().1
    } else {
        listed_count(entries.drop_last(), i)
    }
}

/// Nothing is lost by listing only the counts above zero: a look-up gives back
/// every count.
pub proof fn law_sparse_gives_back(values: Seq<u64>, i: int)
    requires
        values.len() <= usize::MAX,
        0 <= i < values.len(),
    ensures
        listed_count(sparse(values), i) == values[i],
    decreases values.len(),
{
    let fewer = values.drop_last();
    if values.last() > 0 {
        assert(sparse(values).drop_last() =~= sparse(fewer));
    }
    if i < values.len() - 1 {
        law_sparse_gives_back(fewer, i);
    } else if values.last() == 0 {
        lemma_unlisted(fewer, i);
    }
}

proof fn lemma_unlisted(values: Seq<u64>, i: int)
    requires
        values.len() <= usize::MAX,
        i >= values.len(),
    ensures
        listed_count(sparse(values), i) == 0,
    decreases values.len(),
{
    if values.len() > 0 {
        lemma_unlisted(values.drop_last(), i);
        if values.last() > 0 {
            assert(sparse(values).drop_last() =~= sparse(values.drop_last()));
        }
    }
}

/// The sum of the listed counts.
pub open spec fn listed_sum(entries: Seq<(usize, u64)>) -> int
    decreases entries.len(),
{
    if entries.len() == 0 {
        0
    } else {
        listed_sum(entries.drop_last()) + entries.last().1
    }
}

/// The listed counts add up to the same as all counts.
pub proof fn law_sparse_keeps_sum(values: Seq<u64>)
    ensures
        listed_sum(sparse(values)) == sum_of(values),
    decreases values.len(),
{
    if values.len() > 0 {
        let n = values.len() - 1;
        law_sparse_keeps_sum(values.drop_last());
        lemma_prefix_of_prefix(values, n, n);
        assert(values.take(n) =~= values.drop_last());
        if values.last() > 0 {
            assert(sparse(values).drop_last() =~= sparse(values.drop_last()));
        }
    }
}

/// The period counts of a point add up to all the lines of its commit.
proof fn lemma_periods_listed(agg: Map<(Oid, i32), u64>, commit: Oid, keys: Seq<i32>)
    requires
        lists_periods(keys, agg),
    ensures
        sum_of(period_counts(agg, commit, keys)) == lines_by(
            agg,
            commit,
            commit_keys(agg, commit),
        ),
{
    let all = commit_keys(agg, commit);
    assert forall|k: i32| #[trigger] all.contains(k) implies keys.to_set().contains(k) by {
        assert(agg.contains_key((commit, k)));
        assert(has_period(agg, k));
    }
    lemma_sum_of_is_sum_over(
        period_counts(agg, commit, keys),
        keys,
        |k: i32| count_in(agg, (commit, k)),
    );
    lemma_list_lines(agg, commit, keys);
    lemma_present_only(agg, commit, keys.to_set());
    assert(all.intersect(keys.to_set()) =~= all);
}

/// A commit of a finite table has finitely many authors.
proof fn lemma_commit_authors_finite(author_agg: Map<(Oid, Seq<char>), u64>, commit: Oid)
    requires
        author_agg.dom().finite(),
    ensures
        commit_authors(author_agg, commit).finite(),
{
    let names = author_agg.dom().map(|k: (Oid, Seq<char>)| k.1);
    author_agg.dom().lemma_map_finite(|k: (Oid, Seq<char>)| k.1);
    assert forall|a: Seq<char>| #[trigger] commit_authors(author_agg, commit).contains(
        a,
    ) implies names.contains(a) by {
        assert(author_agg.dom().contains((commit, a)));
    }
    vstd::set_lib::lemma_set_subset_finite(names, commit_authors(author_agg, commit));
}

/// The author view and the period view of every point split the same total: where
/// the two tables hold the same number of lines for a commit, and the legend has
/// the bucket "other", the author counts of its point add up to the point's total,
/// and so do its period counts.
pub proof fn law_views_split_one_total(
    points: Seq<SeriesPoint>,
    sampled: Seq<(Oid, i64)>,
    agg: Map<(Oid, i32), u64>,
    author_agg: Map<(Oid, Seq<char>), u64>,
    threshold: Threshold,
    active: Seq<Seq<char>>,
    commit_other: Map<Oid, u64>,
    keys: Seq<i32>,
    metas: Seq<Option<CommitMeta>>,
)
    requires
        author_agg.dom().finite(),
        forall|i: int|
            0 <= i < sampled.len() ==> lines_by(
                agg,
                (#[trigger] sampled[i]).0,
                commit_keys(agg, sampled[i].0),
            ) == lines_by(author_agg, sampled[i].0, commit_keys(author_agg, sampled[i].0)),
        lists_periods(keys, agg),
        is_selection(author_agg, sampled, threshold, active, true, commit_other),
        points.len() == sampled.len(),
        forall|i: int|
            0 <= i < sampled.len() ==> is_point(
                #[trigger] points[i],
                sampled[i],
                metas[i],
                period_counts(agg, sampled[i].0, keys),
                author_counts(author_agg, sampled[i].0, active, true, commit_other),
            ),
    ensures
        forall|i: int|
            0 <= i < points.len() ==> listed_sum((#[trigger] points[i]).author_counts@)
                == points[i].total == listed_sum(points[i].counts@),
{
    assert forall|i: int| 0 <= i < points.len() implies listed_sum(
        (#[trigger] points[i]).author_counts@,
    ) == points[i].total == listed_sum(points[i].counts@) by {
        let commit = sampled[i].0;
        lemma_commit_authors_finite(author_agg, commit);
        lemma_periods_listed(agg, commit, keys);
        law_legend_adds_up(author_agg, commit, active, true, commit_other);
        law_sparse_keeps_sum(period_counts(agg, commit, keys));
        law_sparse_keeps_sum(author_counts(author_agg, commit, active, true, commit_other));
    }
}

/// A point gives for each period the lines that the commit has of it, for each
/// named author those of the author, and behind them, where the legend has the
/// bucket "other", those of the others. Its total is the sum over the periods.
pub proof fn law_point_counts_its_commit(
    point: SeriesPoint,
    commit: (Oid, i64),
    meta: Option<CommitMeta>,
    agg: Map<(Oid, i32), u64>,
    keys: Seq<i32>,
    author_agg: Map<(Oid, Seq<char>), u64>,
    active: Seq<Seq<char>>,
    has_other: bool,
    commit_other: Map<Oid, u64>,
    i: int,
)
    requires
        is_point(
            point,
            commit,
            meta,
            period_counts(agg, commit.0, keys),
            author_counts(author_agg, commit.0, active, has_other, commit_other),
        ),
        keys.len() <= usize::MAX,
        active.len() < usize::MAX,
    ensures
        0 <= i < keys.len() ==> listed_count(point.counts@, i) == (if agg.contains_key(
            (commit.0, keys[i]),
        ) {
            agg[(commit.0, keys[i])]
        } else {
            0
        }),
        0 <= i < active.len() ==> listed_count(point.author_counts@, i) == (
        if author_agg.contains_key((commit.0, active[i])) {
            author_agg[(commit.0, active[i])]
        } else {
            0
        }),
        listed_count(point.author_counts@, active.len() as int) == (if has_other
            && commit_other.contains_key(commit.0) {
            commit_other[commit.0]
        } else {
            0
        }),
        listed_sum(point.counts@) == point.total,
{
    let periods = period_counts(agg, commit.0, keys);
    let authors = author_counts(author_agg, commit.0, active, has_other, commit_other);
    law_sparse_keeps_sum(periods);
    if 0 <= i < keys.len() {
        law_sparse_gives_back(periods, i);
    }
    if 0 <= i < active.len() {
        law_sparse_gives_back(authors, i);
    }
    if has_other {
        law_sparse_gives_back(authors, active.len() as int);
    } else {
        lemma_unlisted(authors, active.len() as int);
    }
}

/// The totals fit if and only if the listed counts of no sampled commit add up to
/// more than the largest `u64`.
pub proof fn law_when_totals_fit(
    sampled: Seq<(Oid, i64)>,
    agg: Map<(Oid, i32), u64>,
    keys: Seq<i32>,
)
    ensures
        totals_fit(sampled, agg, keys) <==> forall|i: int|
            0 <= i < sampled.len() ==> listed_sum(
                sparse(period_counts(agg, (#[trigger] sampled[i]).0, keys)),
            ) <= 0xffff_ffff_ffff_ffff,
{
    assert forall|i: int| 0 <= i < sampled.len() implies listed_sum(
        sparse(period_counts(agg, (#[trigger] sampled[i]).0, keys)),
    ) == sum_of(period_counts(agg, sampled[i].0, keys)) by {
        law_sparse_keeps_sum(period_counts(agg, sampled[i].0, keys));
    }
    if totals_fit(sampled, agg, keys) {
        assert forall|i: int| 0 <= i < sampled.len() implies listed_sum(
            sparse(period_counts(agg, (#[trigger] sampled[i]).0, keys)),
        ) <= 0xffff_ffff_ffff_ffff by {
            assert(sum_of(period_counts(agg, sampled[i].0, keys)) <= u64::MAX);
        }
    }
    if forall|i: int|
        0 <= i < sampled.len() ==> listed_sum(
            sparse(period_counts(agg, (#[trigger] sampled[i]).0, keys)),
        ) <= 0xffff_ffff_ffff_ffff {
        assert forall|i: int| 0 <= i < sampled.len() implies sum_of(
            period_counts(agg, (#[trigger] sampled[i]).0, keys),
        ) <= u64::MAX by {
            assert(listed_sum(sparse(period_counts(agg, sampled[i].0, keys)))
                <= 0xffff_ffff_ffff_ffff);
        }
    }
}

} // verus!
