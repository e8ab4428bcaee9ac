//! The points of the chart: one per sampled commit, with its lines by period and
//! by author.

use crate::aggregate::{AuthorAgg, PeriodAgg};
use crate::fx::{
    lists_entries, map_entries, map_get, map_of, set_contains, set_insert, set_new, set_of, FxKey,
};
use crate::period::{period_int_to_string, period_text};
use crate::sort::{goes_before, is_stable_order, stable_order};
use crate::tally::{count_in, prefix_sum};
use crate::text::texts;
use crate::types::{Oid, SeriesPoint};
use rustc_hash::{FxHashMap, FxHashSet};
use vstd::prelude::*;

verus! {

/// Whether some commit has lines of the period.
pub open spec fn has_period(agg: Map<(Oid, i32), u64>, p: i32) -> bool {
    exists|commit: Oid| #[trigger] agg.contains_key((commit, p))
}

/// The list holds the periods of all commits, each once, earliest first.
pub open spec fn lists_periods(keys: Seq<i32>, agg: Map<(Oid, i32), u64>) -> bool {
    &&& forall|i: int, j: int| 0 <= i < j < keys.len() ==> #[trigger] keys[i] < #[trigger] keys[j]
    &&& forall|p: i32| #[trigger] keys.contains(p) <==> has_period(agg, p)
}

/// The periods that occur, each once, in no particular order.
fn distinct_periods(agg: &PeriodAgg) -> (r: Vec<i32>)
    ensures
        r@.no_duplicates(),
        forall|p: i32| #[trigger] r@.contains(p) <==> has_period(map_of(agg), p),
{
    let entries = map_entries(agg);
    let mut found: FxHashSet<i32> = set_new();
    let mut r: Vec<i32> = Vec::new();
    let mut i: usize = 0;
    while i < entries.len()
        invariant
            i <= entries@.len(),
            lists_entries(entries@, agg),
            r@.no_duplicates(),
            forall|p: i32| #[trigger] r@.contains(p) <==> set_of(&found).contains(p),
            forall|p: i32| #[trigger] r@.contains(p) ==> has_period(map_of(agg), p),
            forall|k: int| 0 <= k < i ==> r@.contains((#[trigger] entries@[k]).0.1),
        decreases entries@.len() - i,
    {
        let p = entries[i].0.1;
        let ghost before = r@;
        if !set_contains(&found, &p) {
            assert(!before.contains(p));
            set_insert(&mut found, p);
            r.push(p);
            proof {
                assert(r@[before.len() as int] == p);
                assert forall|q: i32| #[trigger] r@.contains(q) <==> before.contains(q) || q
                    == p by {
                    if before.contains(q) {
                        let k = choose|k: int| 0 <= k < before.len() && before[k] == q;
                        assert(r@[k] == q);
                    }
                    if r@.contains(q) && q != p {
                        let k = choose|k: int| 0 <= k < r@.len() && r@[k] == q;
                        assert(before[k] == q);
                    }
                }
                assert(map_of(agg).contains_key(entries@[i as int].0.model()));
                assert(map_of(agg).contains_key((entries@[i as int].0.0, p)));
            }
        }
        i += 1;
    }
    proof {
        assert forall|p: i32| has_period(map_of(agg), p) implies #[trigger] r@.contains(p) by {
            let commit = choose|commit: Oid| #[trigger] map_of(agg).contains_key((commit, p));
            let k = choose|k: int|
                0 <= k < entries@.len() && (#[trigger] entries@[k]).0.model() == (commit, p);
            assert(r@.contains(entries@[k].0.1));
        }
    }
    r
}

/// The periods of all commits, earliest first.
pub fn period_keys(agg: &PeriodAgg) -> (r: Vec<i32>)
    ensures
        lists_periods(r@, map_of(agg)),
{
    let found = distinct_periods(agg);
    let mut keys: Vec<i128> = Vec::new();
    let mut i: usize = 0;
    while i < found.len()
        invariant
            i <= found@.len(),
            keys@.len() == i,
            forall|k: int| 0 <= k < i ==> #[trigger] keys@[k] == found@[k],
        decreases found@.len() - i,
    {
        keys.push(found[i] as i128);
        i += 1;
    }
    let order = stable_order(&keys);
    let mut r: Vec<i32> = Vec::new();
    let mut k: usize = 0;
    while k < order.len()
        invariant
            k <= order@.len(),
            found@.len() == keys@.len(),
            is_stable_order(keys@, order@),
            r@.len() == k,
            forall|a: int| 0 <= a < k ==> #[trigger] r@[a] == found@[order@[a] as int],
        decreases order@.len() - k,
    {
        r.push(found[order[k]]);
        k += 1;
    }
    proof {
        assert forall|a: int, b: int| 0 <= a < b < r@.len() implies #[trigger] r@[a]
            < #[trigger] r@[b] by {
            assert(goes_before(keys@, order@[a] as int, order@[b] as int));
            let p = order@[a] as int;
            let q = order@[b] as int;
            assert(keys@[p] == found@[p] && keys@[q] == found@[q]);
            assert(found@[p] != found@[q]);
        }
        assert forall|p: i32| #[trigger] r@.contains(p) <==> has_period(map_of(agg), p) by {
            if r@.contains(p) {
                let a = choose|a: int| 0 <= a < r@.len() && r@[a] == p;
                assert(found@[order@[a] as int] == p);
                assert(found@.contains(p));
            }
            if has_period(map_of(agg), p) {
                assert(found@.contains(p));
                let q = choose|q: int| 0 <= q < found@.len() && found@[q] == p;
                assert(order@.contains(q as usize));
                let a = choose|a: int| 0 <= a < order@.len() && order@[a] == q as usize;
                assert(r@[a] == p);
            }
        }
    }
    r
}

/// The labels of the periods.
pub open spec fn labels(keys: Seq<i32>, yearly: bool) -> Seq<Seq<char>> {
    keys.map_values(|p: i32| period_text(p as int, yearly))
}

/// The labels of the periods.
pub fn period_labels(keys: &Vec<i32>, yearly: bool) -> (r: Vec<String>)
    ensures
        texts(r@) == labels(keys@, yearly),
{
    let mut r: Vec<String> = Vec::new();
    let mut i: usize = 0;
    assert(texts(r@) =~= labels(keys@, yearly).take(0));
    while i < keys.len()
        invariant
            i <= keys@.len(),
            texts(r@) == labels(keys@, yearly).take(i as int),
        decreases keys@.len() - i,
    {
        let ghost before = r@;
        r.push(period_int_to_string(keys[i], yearly));
        assert(texts(r@) =~= texts(before).push(labels(keys@, yearly)[i as int]));
        assert(labels(keys@, yearly).take(i + 1) =~= labels(keys@, yearly).take(i as int).push(
            labels(keys@, yearly)[i as int],
        ));
        i += 1;
    }
    assert(labels(keys@, yearly).take(i as int) =~= labels(keys@, yearly));
    r
}

/// The legend: the named authors, and "other" after them if there are more.
pub open spec fn legend(active: Seq<Seq<char>>, has_other: bool) -> Seq<Seq<char>> {
    if has_other {
        active.push("other"@)
    } else {
        active
    }
}

/// The legend of the authors.
pub fn author_legend(active: &Vec<String>, has_other: bool) -> (r: Vec<String>)
    ensures
        texts(r@) == legend(texts(active@), has_other),
{
    let mut r: Vec<String> = Vec::new();
    let mut i: usize = 0;
    assert(texts(r@) =~= texts(active@).take(0));
    while i < active.len()
        invariant
            i <= active@.len(),
            texts(r@) == texts(active@).take(i as int),
        decreases active@.len() - i,
    {
        let ghost before = r@;
        r.push(active[i].clone());
        assert(texts(r@) =~= texts(before).push(active@[i as int]@));
        assert(texts(active@).take(i + 1) =~= texts(active@).take(i as int).push(
            texts(active@)[i as int],
        ));
        i += 1;
    }
    assert(texts(active@).take(i as int) =~= texts(active@));
    if has_other {
        let ghost before = r@;
        r.push("other".to_owned());
        assert(texts(r@) =~= texts(before).push("other"@));
    }
    r
}

/// The counts above zero, each with its place.
pub open spec fn sparse(values: Seq<u64>) -> Seq<(usize, u64)>
    decreases values.len(),
{
    if values.len() == 0 {
        seq![]
    } else {
        let rest = sparse(values.drop_last());
        if values.last() > 0 {
            rest.push(((values.len() - 1) as usize, values.last()))
        } else {
            rest
        }
    }
}

/// The lines of a commit in each of the periods.
pub open spec fn period_counts(agg: Map<(Oid, i32), u64>, commit: Oid, keys: Seq<i32>) -> Seq<u64> {
    Seq::new(keys.len(), |i: int| count_in(agg, (commit, keys[i])) as u64)
}

/// The lines of each named author at a commit, and after them those of the
/// others, where there are others.
pub open spec fn author_counts(
    author_agg: Map<(Oid, Seq<char>), u64>,
    commit: Oid,
    active: Seq<Seq<char>>,
    has_other: bool,
    commit_other: Map<Oid, u64>,
) -> Seq<u64> {
    let named = Seq::new(active.len(), |i: int| count_in(author_agg, (commit, active[i])) as u64);
    if has_other {
        named.push(count_in(commit_other, commit) as u64)
    } else {
        named
    }
}

/// The sum of the numbers.
pub open spec fn sum_of(values: Seq<u64>) -> int {
    prefix_sum(values, values.len() as int)
}

/// What is known of a commit: the first line of its message and its author, each
/// where the commit holds it in readable form.
pub struct CommitMeta {
    pub summary: Option<String>,
    pub author: Option<String>,
}

/// The summary to show for a commit.
pub open spec fn summary_text(meta: Option<CommitMeta>) -> Seq<char> {
    match meta {
        Some(CommitMeta { summary: Some(s), .. }) => s@,
        _ => seq![],
    }
}

/// The author to show for a commit.
pub open spec fn author_text(meta: Option<CommitMeta>) -> Seq<char> {
    match meta {
        Some(CommitMeta { author: Some(a), .. }) => a@,
        Some(CommitMeta { author: None, .. }) => "unknown"@,
        None => seq![],
    }
}

/// The point of a sampled commit.
pub open spec fn is_point(
    point: SeriesPoint,
    commit: (Oid, i64),
    meta: Option<CommitMeta>,
    periods: Seq<u64>,
    authors: Seq<u64>,
) -> bool {
    &&& point.ts == commit.1
    &&& point.total == sum_of(periods)
    &&& point.counts@ == sparse(periods)
    &&& point.author_counts@ == sparse(authors)
    &&& point.summary@ == summary_text(meta)
    &&& point.author@ == author_text(meta)
}

/// The lines of every sampled commit fit a `u64`.
pub open spec fn totals_fit(
    sampled: Seq<(Oid, i64)>,
    agg: Map<(Oid, i32), u64>,
    keys: Seq<i32>,
) -> bool {
    forall|i: int|
        0 <= i < sampled.len() ==> sum_of(
            period_counts(agg, (#[trigger] sampled[i]).0, keys),
        ) <= u64::MAX
}

proof fn lemma_prefix_sum_grows(s: Seq<u64>, m: int, n: int)
    requires
        0 <= m <= n,
    ensures
        0 <= prefix_sum(s, m) <= prefix_sum(s, n),
    decreases n,
{
    if m < n {
        lemma_prefix_sum_grows(s, m, n - 1);
    } else if n > 0 {
        lemma_prefix_sum_grows(s, n - 1, n - 1);
    }
}

/// The periods in which a commit has lines, and the number of its lines, if that
/// fits.
fn commit_periods(agg: &PeriodAgg, commit: Oid, keys: &Vec<i32>) -> (r: Option<
    (Vec<(usize, u64)>, u64),
>)
    ensures
        r is Some <==> sum_of(period_counts(map_of(agg), commit, keys@)) <= u64::MAX,
        r matches Some(x) ==> x.0@ == sparse(period_counts(map_of(agg), commit, keys@)) && x.1
            == sum_of(period_counts(map_of(agg), commit, keys@)),
{
    let ghost values = period_counts(map_of(agg), commit, keys@);
    let mut counts: Vec<(usize, u64)> = Vec::new();
    let mut total: u64 = 0;
    let mut i: usize = 0;
    while i < keys.len()
        invariant
            i <= keys@.len(),
            values == period_counts(map_of(agg), commit, keys@),
            counts@ == sparse(values.take(i as int)),
            total == prefix_sum(values, i as int),
        decreases keys@.len() - i,
    {
        let c: u64 = match map_get(agg, &(commit, keys[i])) {
            Some(n) => *n,
            None => 0,
        };
        assert(values[i as int] == c);
        assert(values.take(i + 1).drop_last() =~= values.take(i as int));
        match total.checked_add(c) {
            Some(sum) => {
                total = sum;
            },
            None => {
                proof {
                    lemma_prefix_sum_grows(values, i + 1, values.len() as int);
                }
                return None;
            },
        }
        if c > 0 {
            counts.push((i, c));
        }
        i += 1;
    }
    assert(values.take(i as int) =~= values);
    Some((counts, total))
}

/// The named authors who have lines at a commit, and the others if there are
/// any.
fn commit_authors_listed(
    author_agg: &AuthorAgg,
    commit: Oid,
    active: &Vec<String>,
    has_other: bool,
    commit_other: &FxHashMap<Oid, u64>,
) -> (r: Vec<(usize, u64)>)
    ensures
        r@ == sparse(
            author_counts(
                map_of(author_agg),
                commit,
                texts(active@),
                has_other,
                map_of(commit_other),
            ),
        ),
{
    let ghost named = author_counts(
        map_of(author_agg),
        commit,
        texts(active@),
        false,
        map_of(commit_other),
    );
    let mut counts: Vec<(usize, u64)> = Vec::new();
    let mut i: usize = 0;
    while i < active.len()
        invariant
            i <= active@.len(),
            named == author_counts(
                map_of(author_agg),
                commit,
                texts(active@),
                false,
                map_of(commit_other),
            ),
            counts@ == sparse(named.take(i as int)),
        decreases active@.len() - i,
    {
        let c: u64 = match map_get(author_agg, &(commit, active[i].clone())) {
            Some(n) => *n,
            None => 0,
        };
        assert(named[i as int] == c);
        assert(named.take(i + 1).drop_last() =~= named.take(i as int));
        if c > 0 {
            counts.push((i, c));
        }
        i += 1;
    }
    assert(named.take(i as int) =~= named);
    if has_other {
        let c: u64 = match map_get(commit_other, &commit) {
            Some(n) => *n,
            None => 0,
        };
        assert(named.push(c).drop_last() =~= named);
        if c > 0 {
            counts.push((active.len(), c));
        }
    }
    counts
}

/// The summary and the author to show for a commit.
fn shown_meta(meta: &Option<CommitMeta>) -> (r: (String, String))
    ensures
        r.0@ == summary_text(*meta),
        r.1@ == author_text(*meta),
{
    match meta {
        Some(m) => {
            let summary = match &m.summary {
                Some(s) => s.clone(),
                None => String::new(),
            };
            let author = match &m.author {
                Some(a) => a.clone(),
                None => "unknown".to_owned(),
            };
            (summary, author)
        },
        None => (String::new(), String::new()),
    }
}

/// The points that `build_series` gives, if the lines of every sampled commit
/// fit a `u64`.
pub fn checked_series(
    sampled: &Vec<(Oid, i64)>,
    agg: &PeriodAgg,
    author_agg: &AuthorAgg,
    active_authors: &Vec<String>,
    has_other: bool,
    commit_other: &FxHashMap<Oid, u64>,
    all_period_ints: &Vec<i32>,
    metas: &Vec<Option<CommitMeta>>,
) -> (r: Option<Vec<SeriesPoint>>)
    requires
        metas@.len() == sampled@.len(),
    ensures
        r is Some <==> totals_fit(sampled@, map_of(agg), all_period_ints@),
        r matches Some(points) ==> points@.len() == sampled@.len() && forall|i: int|
            0 <= i < sampled@.len() ==> is_point(
                #[trigger] points@[i],
                sampled@[i],
                metas@[i],
                period_counts(map_of(agg), sampled@[i].0, all_period_ints@),
                author_counts(
                    map_of(author_agg),
                    sampled@[i].0,
                    texts(active_authors@),
                    has_other,
                    map_of(commit_other),
                ),
            ),
{
    let mut points: Vec<SeriesPoint> = Vec::new();
    let mut i: usize = 0;
    while i < sampled.len()
        invariant
            i <= sampled@.len(),
            metas@.len() == sampled@.len(),
            points@.len() == i,
            forall|k: int|
                0 <= k < i ==> sum_of(
                    period_counts(map_of(agg), (#[trigger] sampled@[k]).0, all_period_ints@),
                ) <= u64::MAX,
            forall|k: int|
                0 <= k < i ==> is_point(
                    #[trigger] points@[k],
                    sampled@[k],
                    metas@[k],
                    period_counts(map_of(agg), sampled@[k].0, all_period_ints@),
                    author_counts(
                        map_of(author_agg),
                        sampled@[k].0,
                        texts(active_authors@),
                        has_other,
                        map_of(commit_other),
                    ),
                ),
        decreases sampled@.len() - i,
    {
        let (oid, ts) = sampled[i];
        let (counts, total) = match commit_periods(agg, oid, all_period_ints) {
            Some(x) => x,
            None => {
                assert(sampled@[i as int].0 == oid);
                return None;
            },
        };
        let author_counts = commit_authors_listed(
            author_agg,
            oid,
            active_authors,
            has_other,
            commit_other,
        );
        let (summary, author) = shown_meta(&metas[i]);
        points.push(SeriesPoint { ts, total, counts, author_counts, summary, author });
        i += 1;
    }
    Some(points)
}

/// The points of the chart, one per sampled commit, in the order of the
/// commits. `metas` holds what is known of each of them.
pub fn build_series(
    sampled: &Vec<(Oid, i64)>,
    agg: &PeriodAgg,
    author_agg: &AuthorAgg,
    active_authors: &Vec<String>,
    has_other: bool,
    commit_other: &FxHashMap<Oid, u64>,
    all_period_ints: &Vec<i32>,
    metas: &Vec<Option<CommitMeta>>,
) -> (r: Vec<SeriesPoint>)
    requires
        metas@.len() == sampled@.len(),
        totals_fit(sampled@, map_of(agg), all_period_ints@),
    ensures
        r@.len() == sampled@.len(),
        forall|i: int|
            0 <= i < sampled@.len() ==> is_point(
                #[trigger] r@[i],
                sampled@[i],
                metas@[i],
                period_counts(map_of(agg), sampled@[i].0, all_period_ints@),
                author_counts(
                    map_of(author_agg),
                    sampled@[i].0,
                    texts(active_authors@),
                    has_other,
                    map_of(commit_other),
                ),
            ),
{
    checked_series(
        sampled,
        agg,
        author_agg,
        active_authors,
        has_other,
        commit_other,
        all_period_ints,
        metas,
    ).unwrap()
}

/// The summary of a point is the first line of the commit's message, whoever the
/// author is, and nothing where it has none to be read. The author is the
/// commit's author, whatever the message is, and "unknown" where it has none to
/// be read. A commit of which nothing is known shows neither.
pub proof fn law_point_shows_its_commit(
    point: SeriesPoint,
    commit: (Oid, i64),
    meta: Option<CommitMeta>,
    periods: Seq<u64>,
    authors: Seq<u64>,
)
    requires
        is_point(point, commit, meta, periods, authors),
    ensures
        point.ts == commit.1,
        meta matches Some(m) ==> (m.summary matches Some(s) ==> point.summary@ == s@),
        meta matches Some(m) ==> (m.summary is None ==> point.summary@.len() == 0),
        meta matches Some(m) ==> (m.author matches Some(a) ==> point.author@ == a@),
        meta matches Some(m) ==> (m.author is None ==> point.author@ == seq![
            'u',
            'n',
            'k',
            'n',
            'o',
            'w',
            'n',
        ]),
        meta is None ==> point.summary@.len() == 0 && point.author@.len() == 0,
{
    reveal_strlit("unknown");
    assert("unknown"@ =~= seq!['u', 'n', 'k', 'n', 'o', 'w', 'n']);
}

/// The legend has the named authors in their order, and behind them, where there
/// are more, the word "other".
pub proof fn law_legend(active: Seq<Seq<char>>)
    ensures
        legend(active, false) == active,
        legend(active, true) == active + seq![seq!['o', 't', 'h', 'e', 'r']],
{
    reveal_strlit("other");
    assert("other"@ =~= seq!['o', 't', 'h', 'e', 'r']);
    assert(legend(active, true) =~= active + seq![seq!['o', 't', 'h', 'e', 'r']]);
}

/// The periods are listed from the earliest on, and a period is listed if and only
/// if some commit has lines of it. There is a label for each.
pub proof fn law_periods_from_the_earliest_on(
    keys: Seq<i32>,
    agg: Map<(Oid, i32), u64>,
    yearly: bool,
    i: int,
    j: int,
    p: i32,
)
    requires
        lists_periods(keys, agg),
    ensures
        0 <= i < j < keys.len() ==> keys[i] < keys[j],
        keys.contains(p) <==> exists|commit: Oid| #[trigger] agg.contains_key((commit, p)),
        labels(keys, yearly).len() == keys.len(),
        0 <= i < keys.len() ==> labels(keys, yearly)[i] == period_text(keys[i] as int, yearly),
{
}

/// Only counts above zero are listed, with their places, the first place first.
pub proof fn law_listed_counts(values: Seq<u64>)
    requires
        values.len() <= usize::MAX,
    ensures
        forall|k: int|
            0 <= k < sparse(values).len() ==> (#[trigger] sparse(values)[k]).0 < values.len()
                && sparse(values)[k].1 > 0 && sparse(values)[k].1 == values[sparse(values)[k].0 as int],
        forall|k: int, l: int|
            0 <= k < l < sparse(values).len() ==> (#[trigger] sparse(values)[k]).0 < (
            #[trigger] sparse(values)[l]).0,
        forall|i: int|
            0 <= i < values.len() && #[trigger] values[i] > 0 ==> sparse(values).contains(
                (i as usize, values[i]),
            ),
    decreases values.len(),
{
    if values.len() > 0 {
        let fewer = values.drop_last();
        let n = values.len() - 1;
        law_listed_counts(fewer);
        let all = sparse(values);
        let rest = sparse(fewer);
        assert forall|k: int| 0 <= k < all.len() implies (#[trigger] all[k]).0 < values.len()
            && all[k].1 > 0 && all[k].1 == values[all[k].0 as int] by {
            if k < rest.len() {
                assert(all[k] == rest[k]);
            }
        }
        assert forall|k: int, l: int| 0 <= k < l < all.len() implies (#[trigger] all[k]).0 < (
        #[trigger] all[l]).0 by {
            assert(all[k] == rest[k]);
            if l < rest.len() {
                assert(all[l] == rest[l]);
            }
        }
        assert forall|i: int| 0 <= i < values.len() && #[trigger] values[i] > 0 implies all.contains(
            (i as usize, values[i]),
        ) by {
            if i < n {
                assert(fewer[i] == values[i]);
                assert(rest.contains((i as usize, fewer[i])));
                let k = choose|k: int| 0 <= k < rest.len() && rest[k] == (i as usize, values[i]);
                assert(all[k] == rest[k]);
            } else {
                assert(all[rest.len() as int] == (i as usize, values[i]));
            }
        }
    }
}

} // verus!
