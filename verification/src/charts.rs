//! What the functions that make a chart give back: the counts of lines, the authors
//! that are named, the points and their axes.
use rustc_hash::FxHashMap;
use vstd::prelude::*;

use crate::aggregate::{
    aggregate, aggregated, author_hists, checked_aggregate, commit_count, commit_has, counts_fit, period_hists,
    sums_up, AuthorAgg, BlobHists, PeriodAgg,
};
use crate::authors::{
    authors_fit, check_authors_fit, is_selection, law_lines_of_the_others, law_when_authors_fit,
    law_who_is_named, lines_of_author, lines_of_authors, select_authors, Threshold,
};
use crate::fx::map_of;
use crate::output::{
    add_repo, build_output, decoded_names, has_axes, has_point_of, is_with_name,
    is_written, known_repos, law_chart_has_every_commit, law_list_is_in_order, law_repo_is_listed,
    maybe_text, shows, update_repos,
};
use crate::period::{
    in_calendar, in_month, law_key_of_a_moment, law_label_of_a_key, period_int_to_string,
    ts_to_period_int,
};
use crate::profile::{
    count_functions, folded_line, joined, law_functions_are_counted, law_names_between_semicolons,
    law_ranking, law_stack_from_the_outermost, law_summary_rows, law_when_profiles_fit, rank, sample_views, stack_names,
    summary_lines, symbol_views, times_met,
};
use crate::sample::{law_sample_size, law_where_samples_stand, sample_commits};
use crate::series::{
    author_counts, author_legend, build_series, checked_series, is_point, law_legend, law_periods_from_the_earliest_on,
    law_point_shows_its_commit, lists_periods, period_counts, period_keys, period_labels, sparse,
    totals_fit, CommitMeta,
};
use crate::snapshot::{law_point_counts_its_commit, law_when_totals_fit, listed_count, listed_sum};
use crate::sort::{law_stable_order, sort_texts, stable_order, text_before};
use crate::text::{decimal, split_on, text_le, texts};
use crate::types::{
    law_bytes_in_hex, law_granularity_names, oid_hex, same_oid, Granularity, Oid, OutputData, SeriesPoint, Tag, WorkItem,
};

verus! {

/// The key and the label of a moment are those of its year, or of the quarter of
/// the year that it falls in.
pub proof fn law_period_of_a_moment(
    ts: i64,
    yearly: bool,
    key: i32,
    label: String,
    year: int,
    month: int,
)
    requires
        call_ensures(ts_to_period_int, (ts, yearly), key),
        call_ensures(period_int_to_string, (key, yearly), label),
        in_month(ts as int, year, month),
    ensures
        in_calendar(ts as int) && yearly ==> key == 4 * year && label@ == decimal(year),
        in_calendar(ts as int) && !yearly ==> key == 4 * year + month / 3 && label@ == decimal(year)
            + seq!['-', 'Q'] + seq!["1234"@[month / 3]],
        !in_calendar(ts as int) ==> key == i32::MIN && label@ == "unknown"@,
{
    law_key_of_a_moment(ts as int, year, month);
    if in_calendar(ts as int) {
        law_label_of_a_key(year, if yearly {
            0
        } else {
            month / 3
        });
    } else {
        law_label_of_a_key(0, 0);
    }
}

/// Of the commits as many are taken as are asked for, from the first to the last
/// and evenly spaced; all of them, where no more are there or none are asked for.
pub proof fn law_sample_commits(commits: Vec<(Oid, i64)>, n: usize, r: Vec<(Oid, i64)>, i: int)
    requires
        call_ensures(sample_commits, (commits, n), r),
    ensures
        n == 0 || n >= commits@.len() ==> r@ == commits@,
        n == 1 && commits@.len() > 1 ==> r@.len() == 1 && exists|p: int|
            0 <= p < commits@.len() && r@[0] == #[trigger] commits@[p] && 2 * p <= commits@.len()
                < 2 * (p + 1),
        2 <= n < commits@.len() ==> r@.len() == n,
        2 <= n < commits@.len() && 0 <= i < n ==> exists|p: int|
            0 <= p < commits@.len() && r@[i] == #[trigger] commits@[p] && p * (n - 1) <= i * (
            commits@.len() - 1) < (p + 1) * (n - 1),
{
    law_where_samples_stand(commits@, n as int, i);
    if 0 < n < commits@.len() {
        law_sample_size(commits@, n as int);
    }
}

/// Keys are put in order by the places they stand at, and equal ones keep theirs.
pub proof fn law_stable_order_of_keys(keys: &Vec<i128>, r: Vec<usize>)
    requires
        call_ensures(stable_order, (keys,), r),
    ensures
        r@.len() == keys@.len(),
        r@.no_duplicates(),
        forall|a: int| 0 <= a < r@.len() ==> (#[trigger] r@[a]) < keys@.len(),
        forall|a: int, b: int|
            0 <= a < b < r@.len() ==> keys@[#[trigger] r@[a] as int] <= keys@[
                #[trigger] r@[b] as int] && (keys@[r@[a] as int] == keys@[r@[b] as int] ==> r@[a]
                < r@[b]),
{
    law_stable_order(keys@, r@);
}

/// Texts are put in order, none lost and none added: of two of them the first one is
/// not behind the second.
pub proof fn law_texts_in_order(
    v: Vec<String>,
    r: Vec<String>,
    i: int,
    j: int,
    a: &str,
    b: &str,
    before: bool,
)
    requires
        call_ensures(sort_texts, (v,), r),
        0 <= i < j < r@.len(),
        a@ == r@[i]@,
        b@ == r@[j]@,
        call_ensures(text_before, (a, b), before),
    ensures
        before == text_le(a@, b@) && before,
        texts(r@).to_multiset() == texts(v@).to_multiset(),
{
    assert(texts(r@)[i] == r@[i]@ && texts(r@)[j] == r@[j]@);
}

/// Objects are the same where all their bytes are; the name of one is two digits for
/// each byte; and a granularity is called by its word.
pub proof fn law_names_of_objects(
    a: &Oid,
    b: &Oid,
    r: bool,
    name: String,
    i: int,
    granularity: &Granularity,
    text: String,
)
    requires
        call_ensures(same_oid, (a, b), r),
        call_ensures(oid_hex, (a,), name),
        call_ensures(Granularity::name, (granularity,), text),
        0 <= i < 20,
    ensures
        r <==> *a == *b,
        name@.len() == 40,
        name@[2 * i] == "0123456789abcdef"@[a@[i] as int / 16],
        name@[2 * i + 1] == "0123456789abcdef"@[a@[i] as int % 16],
        *granularity == Granularity::Quarter ==> text@ == seq!['q', 'u', 'a', 'r', 't', 'e', 'r'],
        *granularity == Granularity::Year ==> text@ == seq!['y', 'e', 'a', 'r'],
{
    law_bytes_in_hex(a@);
    law_granularity_names();
    assert(a@[i] == a@[i]);
}

proof fn lemma_commit_has<K>(
    items: Seq<WorkItem>,
    hist: spec_fn(Oid) -> Map<K, u64>,
    commit: Oid,
    k: K,
)
    ensures
        commit_has(items, hist, commit, k) <==> exists|i: int|
            0 <= i < items.len() && (#[trigger] items[i]).commit_oid == commit && hist(
                items[i].blob_oid,
            ).contains_key(k),
    decreases items.len(),
{
    if items.len() > 0 {
        let n = items.len() - 1;
        let before = items.drop_last();
        lemma_commit_has(before, hist, commit, k);
        assert(forall|i: int| 0 <= i < n ==> #[trigger] before[i] == items[i]);
        assert(items[n] == items.last());
        if commit_has(before, hist, commit, k) {
            let i = choose|i: int|
                0 <= i < before.len() && (#[trigger] before[i]).commit_oid == commit && hist(
                    before[i].blob_oid,
                ).contains_key(k);
            assert(items[i] == before[i]);
        }
        if exists|i: int|
            0 <= i < items.len() && (#[trigger] items[i]).commit_oid == commit && hist(
                items[i].blob_oid,
            ).contains_key(k) {
            let i = choose|i: int|
                0 <= i < items.len() && (#[trigger] items[i]).commit_oid == commit && hist(
                    items[i].blob_oid,
                ).contains_key(k);
            if i < n {
                assert(before[i] == items[i]);
            }
        }
    }
}

proof fn lemma_same_sums<K>(
    a: Map<(Oid, K), u64>,
    b: Map<(Oid, K), u64>,
    items: Seq<WorkItem>,
    hist: spec_fn(Oid) -> Map<K, u64>,
)
    requires
        sums_up(a, items, hist),
        sums_up(b, items, hist),
    ensures
        a == b,
{
    assert forall|x: (Oid, K)| #[trigger] a.contains_key(x) == b.contains_key(x) && (
    a.contains_key(x) ==> a[x] == b[x]) by {
        assert(a.contains_key((x.0, x.1)) == b.contains_key((x.0, x.1)));
    }
    assert(a.dom() =~= b.dom());
    assert(a =~= b);
}

/// Under a commit and a key stands the sum of what the histograms of its blobs have
/// under the key, as often as a file of it has the blob, where one of them has the
/// key at all; and there is no result only where such a sum is too large.
pub proof fn law_checked_aggregate(
    items: &Vec<WorkItem>,
    blob_hists: &BlobHists,
    r: Option<(PeriodAgg, AuthorAgg)>,
    commit: Oid,
    p: i32,
    a: Seq<char>,
)
    requires
        call_ensures(checked_aggregate, (items, blob_hists), r),
    ensures
        r is Some <==> (forall|c: Oid, k: i32| #[trigger]
            commit_count(items@, period_hists(blob_hists), c, k) <= 0xffff_ffff_ffff_ffff) && (
        forall|c: Oid, x: Seq<char>| #[trigger]
            commit_count(items@, author_hists(blob_hists), c, x) <= 0xffff_ffff_ffff_ffff),
        r matches Some(aggs) ==> map_of(&aggs.0).contains_key((commit, p)) ==> map_of(&aggs.0)[(
            commit,
            p,
        )] == commit_count(items@, period_hists(blob_hists), commit, p),
        r matches Some(aggs) ==> map_of(&aggs.1).contains_key((commit, a)) ==> map_of(&aggs.1)[(
            commit,
            a,
        )] == commit_count(items@, author_hists(blob_hists), commit, a),
        r matches Some(aggs) ==> (map_of(&aggs.0).contains_key((commit, p)) <==> exists|i: int|
            0 <= i < items@.len() && (#[trigger] items@[i]).commit_oid == commit && period_hists(
                blob_hists,
            )(items@[i].blob_oid).contains_key(p)),
        r matches Some(aggs) ==> (map_of(&aggs.1).contains_key((commit, a)) <==> exists|i: int|
            0 <= i < items@.len() && (#[trigger] items@[i]).commit_oid == commit && author_hists(
                blob_hists,
            )(items@[i].blob_oid).contains_key(a)),
{
    lemma_commit_has(items@, period_hists(blob_hists), commit, p);
    lemma_commit_has(items@, author_hists(blob_hists), commit, a);
}

/// The same sums come out where it is known that they are not too large.
pub proof fn law_aggregate(
    items: &Vec<WorkItem>,
    blob_hists: &BlobHists,
    r: (PeriodAgg, AuthorAgg),
    checked: Option<(PeriodAgg, AuthorAgg)>,
)
    requires
        call_ensures(aggregate, (items, blob_hists), r),
        call_ensures(checked_aggregate, (items, blob_hists), checked),
    ensures
        checked matches Some(aggs) ==> map_of(&aggs.0) == map_of(&r.0) && map_of(&aggs.1) == map_of(
            &r.1,
        ),
{
    if let Some(aggs) = checked {
        lemma_same_sums(map_of(&aggs.0), map_of(&r.0), items@, period_hists(blob_hists));
        lemma_same_sums(map_of(&aggs.1), map_of(&r.1), items@, author_hists(blob_hists));
    }
}

/// Whether the lines of authors fit a `u64` is found out for every commit.
pub proof fn law_check_authors_fit(
    author_agg: &AuthorAgg,
    r: bool,
    everyone: spec_fn(Oid) -> Seq<Seq<char>>,
)
    requires
        call_ensures(check_authors_fit, (author_agg,), r),
        forall|commit: Oid| (#[trigger] everyone(commit)).no_duplicates(),
        forall|commit: Oid, x: Seq<char>| #[trigger]
            everyone(commit).contains(x) <==> map_of(author_agg).contains_key((commit, x)),
    ensures
        r <==> forall|commit: Oid|
            lines_of_authors(map_of(author_agg), commit, #[trigger] everyone(commit))
                <= 0xffff_ffff_ffff_ffff,
{
    law_when_authors_fit(map_of(author_agg), everyone);
}

/// The authors that are named are the fewest of the last commit, the ones with the
/// most lines first, that reach the wanted share; whether others are left is said,
/// and the lines of the others are counted at every commit.
pub proof fn law_select_authors(
    author_agg: &AuthorAgg,
    sampled: &Vec<(Oid, i64)>,
    threshold: Threshold,
    r: (Vec<String>, bool, FxHashMap<Oid, u64>),
    everyone: Seq<Seq<char>>,
    i: int,
    a: Seq<char>,
    commit: Oid,
    others: Seq<Seq<char>>,
)
    requires
        call_ensures(select_authors, (author_agg, sampled, threshold), r),
        sampled@.len() > 0,
        everyone.no_duplicates(),
        forall|x: Seq<char>| #[trigger]
            everyone.contains(x) <==> map_of(author_agg).contains_key((sampled@.last().0, x)),
        others.no_duplicates(),
        forall|x: Seq<char>| #[trigger]
            others.contains(x) <==> map_of(author_agg).contains_key((commit, x)) && !texts(
                r.0@,
            ).contains(x),
    ensures
        ({
            let agg = map_of(author_agg);
            let last = sampled@.last().0;
            let active = texts(r.0@);
            let wanted = lines_of_authors(agg, last, everyone) * threshold.num;
            &&& active.no_duplicates()
            &&& active.contains(a) ==> everyone.contains(a)
            &&& 0 <= i < active.len() && everyone.contains(a) && (forall|k: int|
                0 <= k < i ==> #[trigger] active[k] != a) ==> lines_of_author(agg, last, active[i])
                >= lines_of_author(agg, last, a)
            &&& everyone.len() > 0 ==> active.len() > 0
            &&& lines_of_authors(agg, last, active) * threshold.den >= wanted || forall|x: Seq<char>|
                #[trigger] everyone.contains(x) ==> active.contains(x)
            &&& 0 < i < active.len() ==> lines_of_authors(agg, last, active.take(i)) * threshold.den
                < wanted
            &&& r.1 <==> exists|x: Seq<char>| #[trigger] everyone.contains(x) && !active.contains(x)
            &&& r.1 ==> (map_of(&r.2).contains_key(commit) <==> others.len() > 0)
            &&& r.1 && others.len() > 0 ==> map_of(&r.2)[commit] == lines_of_authors(
                agg,
                commit,
                others,
            )
            &&& !r.1 ==> !map_of(&r.2).contains_key(commit)
        }),
{
    let agg = map_of(author_agg);
    law_who_is_named(agg, sampled@, threshold, texts(r.0@), r.1, map_of(&r.2), everyone, i, a);
    law_lines_of_the_others(
        agg,
        sampled@,
        threshold,
        texts(r.0@),
        r.1,
        map_of(&r.2),
        commit,
        others,
    );
}

/// The periods of a chart are those under which a commit has a count, the earliest
/// first, and each has its label.
pub proof fn law_period_axis(
    agg: &PeriodAgg,
    keys: Vec<i32>,
    yearly: bool,
    labels: Vec<String>,
    i: int,
    j: int,
    p: i32,
    label: String,
)
    requires
        call_ensures(period_keys, (agg,), keys),
        call_ensures(period_labels, (&keys, yearly), labels),
        0 <= i < keys@.len(),
        call_ensures(period_int_to_string, (keys@[i], yearly), label),
    ensures
        i < j < keys@.len() ==> keys@[i] < keys@[j],
        keys@.contains(p) <==> exists|commit: Oid| #[trigger] map_of(agg).contains_key((commit, p)),
        labels@.len() == keys@.len(),
        labels@[i]@ == label@,
{
    law_periods_from_the_earliest_on(keys@, map_of(agg), yearly, i, j, p);
    assert(texts(labels@).len() == labels@.len());
    assert(texts(labels@)[i] == labels@[i]@);
}

/// The legend has the named authors and, where there are others, "other" behind
/// them.
pub proof fn law_author_legend(active: &Vec<String>, has_other: bool, r: Vec<String>)
    requires
        call_ensures(author_legend, (active, has_other), r),
    ensures
        texts(r@) == (if has_other {
            texts(active@) + seq![seq!['o', 't', 'h', 'e', 'r']]
        } else {
            texts(active@)
        }),
{
    law_legend(texts(active@));
}

/// Each point of a series has the time of its commit, what its commit says of
/// itself, and the counts of its commit by period and by author.
pub proof fn law_build_series(
    sampled: &Vec<(Oid, i64)>,
    agg: &PeriodAgg,
    author_agg: &AuthorAgg,
    active: &Vec<String>,
    has_other: bool,
    others: &FxHashMap<Oid, u64>,
    keys: &Vec<i32>,
    metas: &Vec<Option<CommitMeta>>,
    r: Vec<SeriesPoint>,
    i: int,
    k: int,
)
    requires
        call_ensures(
            build_series,
            (sampled, agg, author_agg, active, has_other, others, keys, metas),
            r,
        ),
        0 <= i < sampled@.len(),
        keys@.len() <= usize::MAX,
        active@.len() < usize::MAX,
    ensures
        r@.len() == sampled@.len(),
        is_point_of(
            r@[i],
            sampled@[i],
            metas@[i],
            map_of(agg),
            map_of(author_agg),
            texts(active@),
            has_other,
            map_of(others),
            keys@,
            k,
        ),
{
    lemma_point(
        r@[i],
        sampled@[i],
        metas@[i],
        map_of(agg),
        map_of(author_agg),
        texts(active@),
        has_other,
        map_of(others),
        keys@,
        k,
    );
}

/// A series that is checked has the same points, and there is none only where the
/// lines of a commit are too many to be counted.
pub proof fn law_checked_series(
    sampled: &Vec<(Oid, i64)>,
    agg: &PeriodAgg,
    author_agg: &AuthorAgg,
    active: &Vec<String>,
    has_other: bool,
    others: &FxHashMap<Oid, u64>,
    keys: &Vec<i32>,
    metas: &Vec<Option<CommitMeta>>,
    r: Option<Vec<SeriesPoint>>,
    i: int,
    k: int,
)
    requires
        call_ensures(
            checked_series,
            (sampled, agg, author_agg, active, has_other, others, keys, metas),
            r,
        ),
        0 <= i < sampled@.len(),
        keys@.len() <= usize::MAX,
        active@.len() < usize::MAX,
    ensures
        r is Some <==> forall|c: int|
            0 <= c < sampled@.len() ==> listed_sum(
                sparse(period_counts(map_of(agg), (#[trigger] sampled@[c]).0, keys@)),
            ) <= 0xffff_ffff_ffff_ffff,
        r matches Some(points) ==> points@.len() == sampled@.len() && is_point_of(
            points@[i],
            sampled@[i],
            metas@[i],
            map_of(agg),
            map_of(author_agg),
            texts(active@),
            has_other,
            map_of(others),
            keys@,
            k,
        ),
{
    law_when_totals_fit(sampled@, map_of(agg), keys@);
    if let Some(points) = r {
        lemma_point(
            points@[i],
            sampled@[i],
            metas@[i],
            map_of(agg),
            map_of(author_agg),
            texts(active@),
            has_other,
            map_of(others),
            keys@,
            k,
        );
    }
}

/// Whether a point says of its commit what is known of it: its time, its first
/// line, its author, and at place `k` the count of a period and of an author.
pub open spec fn is_point_of(
    point: SeriesPoint,
    commit: (Oid, i64),
    meta: Option<CommitMeta>,
    agg: Map<(Oid, i32), u64>,
    author_agg: Map<(Oid, Seq<char>), u64>,
    active: Seq<Seq<char>>,
    has_other: bool,
    others: Map<Oid, u64>,
    keys: Seq<i32>,
    k: int,
) -> bool {
    &&& point.ts == commit.1
    &&& meta matches Some(m) ==> (m.summary matches Some(s) ==> point.summary@ == s@) && (m.summary
        is None ==> point.summary@.len() == 0)
    &&& meta matches Some(m) ==> (m.author matches Some(a) ==> point.author@ == a@) && (m.author
        is None ==> point.author@ == seq!['u', 'n', 'k', 'n', 'o', 'w', 'n'])
    &&& meta is None ==> point.summary@.len() == 0 && point.author@.len() == 0
    &&& point.total == listed_sum(point.counts@)
    &&& 0 <= k < keys.len() ==> listed_count(point.counts@, k) == (if agg.contains_key(
        (commit.0, keys[k]),
    ) {
        agg[(commit.0, keys[k])]
    } else {
        0
    })
    &&& 0 <= k < active.len() ==> listed_count(point.author_counts@, k) == (
    if author_agg.contains_key((commit.0, active[k])) {
        author_agg[(commit.0, active[k])]
    } else {
        0
    })
    &&& listed_count(point.author_counts@, active.len() as int) == (if has_other
        && others.contains_key(commit.0) {
        others[commit.0]
    } else {
        0
    })
}

proof fn lemma_point(
    point: SeriesPoint,
    commit: (Oid, i64),
    meta: Option<CommitMeta>,
    agg: Map<(Oid, i32), u64>,
    author_agg: Map<(Oid, Seq<char>), u64>,
    active: Seq<Seq<char>>,
    has_other: bool,
    others: Map<Oid, u64>,
    keys: Seq<i32>,
    k: int,
)
    requires
        is_point(
            point,
            commit,
            meta,
            period_counts(agg, commit.0, keys),
            author_counts(author_agg, commit.0, active, has_other, others),
        ),
        keys.len() <= usize::MAX,
        active.len() < usize::MAX,
    ensures
        is_point_of(point, commit, meta, agg, author_agg, active, has_other, others, keys, k),
{
    law_point_shows_its_commit(
        point,
        commit,
        meta,
        period_counts(agg, commit.0, keys),
        author_counts(author_agg, commit.0, active, has_other, others),
    );
    law_point_counts_its_commit(
        point,
        commit,
        meta,
        agg,
        keys,
        author_agg,
        active,
        has_other,
        others,
        k,
    );
}

/// A chart has what was said of the analysis as it was said, the name of its
/// granularity, and one point for each commit, in their order, with the time of the
/// commit and what the commit says of itself.
pub proof fn law_build_output(
    repo: String,
    granularity: Granularity,
    generated_at: String,
    head_commit: String,
    items: &Vec<WorkItem>,
    blob_hists: &BlobHists,
    sampled: &Vec<(Oid, i64)>,
    metas: &Vec<Option<CommitMeta>>,
    threshold: Threshold,
    tags: Vec<Tag>,
    r: Option<OutputData>,
    i: int,
)
    requires
        call_ensures(
            build_output,
            (
                repo,
                granularity,
                generated_at,
                head_commit,
                items,
                blob_hists,
                sampled,
                metas,
                threshold,
                tags,
            ),
            r,
        ),
        0 <= i < sampled@.len(),
    ensures
        r matches Some(out) ==> out.repo@ == repo@ && out.generated_at@ == generated_at@
            && out.head_commit@ == head_commit@ && out.tags == tags && out.series@.len()
            == sampled@.len(),
        r matches Some(out) ==> granularity == Granularity::Quarter ==> out.granularity@ == seq![
            'q',
            'u',
            'a',
            'r',
            't',
            'e',
            'r',
        ],
        r matches Some(out) ==> granularity == Granularity::Year ==> out.granularity@ == seq![
            'y',
            'e',
            'a',
            'r',
        ],
        r matches Some(out) ==> says_of_commit(out.series@[i], sampled@[i], metas@[i]),
{
    law_granularity_names();
    if let Some(out) = r {
        let agg = aggregated(items@, period_hists(blob_hists));
        let author_agg = aggregated(items@, author_hists(blob_hists));
        let yearly = granularity == Granularity::Year;
        let (keys, active, has_other, others) = choose|
            keys: Seq<i32>,
            active: Seq<Seq<char>>,
            has_other: bool,
            others: Map<Oid, u64>,
        |
            lists_periods(keys, agg) && is_selection(
                author_agg,
                sampled@,
                threshold,
                active,
                has_other,
                others,
            ) && #[trigger] shows(
                out,
                agg,
                author_agg,
                sampled@,
                metas@,
                keys,
                yearly,
                active,
                has_other,
                others,
            );
        law_point_shows_its_commit(
            out.series@[i],
            sampled@[i],
            metas@[i],
            period_counts(agg, sampled@[i].0, keys),
            author_counts(author_agg, sampled@[i].0, active, has_other, others),
        );
    }
}

/// Whether a point has the time of its commit, the commit's first line and its
/// author; an author who is not named is unknown, and nothing is said of a commit
/// that cannot be had.
pub open spec fn says_of_commit(
    point: SeriesPoint,
    commit: (Oid, i64),
    meta: Option<CommitMeta>,
) -> bool {
    &&& point.ts == commit.1
    &&& meta matches Some(m) ==> (m.summary matches Some(s) ==> point.summary@ == s@) && (m.summary
        is None ==> point.summary@.len() == 0)
    &&& meta matches Some(m) ==> (m.author matches Some(a) ==> point.author@ == a@) && (m.author
        is None ==> point.author@ == seq!['u', 'n', 'k', 'n', 'o', 'w', 'n'])
    &&& meta is None ==> point.summary@.len() == 0 && point.author@.len() == 0
}

/// A chart of commits counts the lines of each of them, by period and by author.
pub proof fn law_counts_of_a_chart(
    repo: String,
    granularity: Granularity,
    generated_at: String,
    head_commit: String,
    items: &Vec<WorkItem>,
    blob_hists: &BlobHists,
    sampled: &Vec<(Oid, i64)>,
    metas: &Vec<Option<CommitMeta>>,
    threshold: Threshold,
    tags: Vec<Tag>,
    r: Option<OutputData>,
    yearly: bool,
)
    requires
        yearly == (granularity == Granularity::Year),
        call_ensures(
            build_output,
            (
                repo,
                granularity,
                generated_at,
                head_commit,
                items,
                blob_hists,
                sampled,
                metas,
                threshold,
                tags,
            ),
            r,
        ),
    ensures
        r matches Some(out) ==> out.authors@.len() < usize::MAX ==> ({
            let agg = aggregated(items@, period_hists(blob_hists));
            let author_agg = aggregated(items@, author_hists(blob_hists));
            exists|keys: Seq<i32>, active: Seq<Seq<char>>, has_other: bool, others: Map<Oid, u64>|
                lists_periods(keys, agg) && #[trigger] is_selection(
                    author_agg,
                    sampled@,
                    threshold,
                    active,
                    has_other,
                    others,
                ) && #[trigger] has_axes(out, keys, yearly, active, has_other) && forall|i: int|
                    0 <= i < sampled@.len() ==> #[trigger] has_point_of(
                        out,
                        i,
                        sampled@[i],
                        metas@[i],
                        agg,
                        keys,
                        author_agg,
                        active,
                    )
        }),
        ({
            let agg = aggregated(items@, period_hists(blob_hists));
            r is Some <==> counts_fit(items@, period_hists(blob_hists)) && counts_fit(
                items@,
                author_hists(blob_hists),
            ) && authors_fit(aggregated(items@, author_hists(blob_hists))) && forall|keys: Seq<i32>|
             #[trigger] lists_periods(keys, agg) ==> totals_fit(sampled@, agg, keys)
        }),
{
    if let Some(out) = r {
        if out.authors@.len() < usize::MAX {
            law_chart_has_every_commit(
                out,
                items@,
                blob_hists,
                sampled@,
                metas@,
                yearly,
                threshold,
            );
        }
    }
}

/// A repository that is in the list stays as it is there; any other comes into it,
/// with all that were there, in order.
pub proof fn law_add_repo(
    repos: Vec<String>,
    name: &str,
    r: Option<Vec<String>>,
    other: Seq<char>,
    i: int,
    j: int,
)
    requires
        call_ensures(add_repo, (repos, name), r),
    ensures
        r is None <==> exists|k: int| 0 <= k < repos@.len() && (#[trigger] repos@[k])@ == name@,
        r matches Some(list) ==> list@.len() == repos@.len() + 1 && (texts(list@).contains(other)
            <==> texts(repos@).contains(other) || other == name@),
        r matches Some(list) ==> 0 <= i < j < list@.len() ==> text_le(list@[i]@, list@[j]@),
{
    assert(texts(repos@).len() == repos@.len());
    if texts(repos@).contains(name@) {
        let k = choose|k: int| 0 <= k < texts(repos@).len() && texts(repos@)[k] == name@;
        assert(repos@[k]@ == name@);
    }
    if exists|k: int| 0 <= k < repos@.len() && (#[trigger] repos@[k])@ == name@ {
        let k = choose|k: int| 0 <= k < repos@.len() && (#[trigger] repos@[k])@ == name@;
        assert(texts(repos@)[k] == name@);
    }
    if let Some(list) = r {
        law_repo_is_listed(texts(list@), texts(repos@), name@, other);
        assert(texts(list@).len() == list@.len());
        if 0 <= i < j < list@.len() {
            law_list_is_in_order(texts(list@), texts(repos@), name@, i, j);
            assert(texts(list@)[i] == list@[i]@ && texts(list@)[j] == list@[j]@);
        }
    }
}

/// The text of the list changes where it does not have the repository yet; what is
/// read from the new text are the names of the old one and that of the repository.
/// A text that is no list, or that is missing, has no names.
pub proof fn law_update_repos(text: Option<String>, name: &str, r: Option<String>, other: Seq<char>)
    requires
        call_ensures(update_repos, (text, name), r),
    ensures
        ({
            let names = match text {
                Some(t) => match decoded_names(t@) {
                    Some(names) => names,
                    None => seq![],
                },
                None => seq![],
            };
            &&& r is None <==> names.contains(name@)
            &&& r matches Some(after) ==> (decoded_names(after@) matches Some(list) && (
            list.contains(other) <==> names.contains(other) || other == name@) && list.len()
                == names.len() + 1)
        }),
{
    if let Some(after) = r {
        let names = known_repos(maybe_text(text));
        let list = choose|list: Seq<Seq<char>>| #[trigger]
            is_with_name(list, names, name@) && is_written(after@, list);
        law_repo_is_listed(list, names, name@, other);
    }
}

/// The stack of a sample has one name for each frame, the outermost first; a frame
/// whose name is not known, or is no text, is unknown.
pub proof fn law_stack_names(
    symbols: &Vec<Option<Vec<u8>>>,
    r: Vec<String>,
    i: int,
    name: Seq<char>,
)
    requires
        call_ensures(stack_names, (symbols,), r),
        0 <= i < symbols@.len(),
    ensures
        r@.len() == symbols@.len(),
        symbols@[i] matches Some(bytes) ==> bytes@ == vstd::utf8::encode_utf8(name) ==> r@[
        symbols@.len() - 1 - i]@ == name,
        symbols@[i] matches Some(bytes) ==> !vstd::utf8::valid_utf8(bytes@) ==> r@[symbols@.len() - 1
            - i]@ == "<unknown>"@,
        symbols@[i] is None ==> r@[symbols@.len() - 1 - i]@ == "<unknown>"@,
{
    let views = symbol_views(symbols@);
    assert(views.len() == symbols@.len());
    assert(views[i] == (match symbols@[i] {
        Some(bytes) => Some(bytes@),
        None => None,
    }));
    law_stack_from_the_outermost(views, i, name);
    assert(texts(r@).len() == r@.len());
    assert(texts(r@)[symbols@.len() - 1 - i] == r@[symbols@.len() - 1 - i]@);
}

/// A folded line has the names of the stack between semicolons and behind them, after
/// a blank, the count.
pub proof fn law_folded_line(stack: &Vec<String>, count: u64, r: String)
    requires
        call_ensures(folded_line, (stack, count), r),
        stack@.len() > 0,
        forall|i: int| 0 <= i < stack@.len() ==> !(#[trigger] stack@[i])@.contains(';'),
    ensures
        ({
            let digits = decimal(count as int);
            let n = r@.len() - digits.len() - 1;
            &&& n >= 0 && r@[n] == ' ' && r@.skip(n + 1) == digits
            &&& split_on(r@.take(n), ';') == texts(stack@)
        }),
{
    let names = texts(stack@);
    assert forall|i: int| 0 <= i < names.len() implies !(#[trigger] names[i]).contains(';') by {
        assert(names[i] == stack@[i]@);
    }
    law_names_between_semicolons(names);
    let digits = decimal(count as int);
    assert(r@ == joined(names).push(' ') + digits);
    let n = r@.len() - digits.len() - 1;
    assert(r@.take(n) =~= joined(names));
    assert(r@.skip(n + 1) =~= digits);
}

/// Every function is counted as often as it is met in the stacks, each time with
/// the count of the sample; and there is no result only where such a count is too
/// large.
pub proof fn law_count_functions(
    samples: &Vec<(Vec<String>, u64)>,
    r: Option<FxHashMap<String, u64>>,
    name: Seq<char>,
)
    requires
        call_ensures(count_functions, (samples,), r),
    ensures
        r is Some <==> forall|x: Seq<char>| #[trigger]
            times_met(sample_views(samples@), x) <= 0xffff_ffff_ffff_ffff,
        r matches Some(m) ==> (map_of(&m).contains_key(name) <==> exists|i: int, j: int|
            0 <= i < samples@.len() && 0 <= j < samples@[i].0@.len() && (
            #[trigger] samples@[i].0@[j])@ == name),
        r matches Some(m) ==> map_of(&m).contains_key(name) ==> map_of(&m)[name] == times_met(
            sample_views(samples@),
            name,
        ),
{
    let views = sample_views(samples@);
    law_when_profiles_fit(views);
    if let Some(m) = r {
        law_functions_are_counted(map_of(&m), views, name);
        assert(views.len() == samples@.len());
        assert forall|i: int| 0 <= i < views.len() implies (#[trigger] views[i]).0 == texts(
            samples@[i].0@,
        ) by {}
        if map_of(&m).contains_key(name) {
            let (i, j) = choose|i: int, j: int|
                0 <= i < views.len() && 0 <= j < views[i].0.len() && #[trigger] views[i].0[j]
                    == name;
            assert(samples@[i].0@[j]@ == name);
        }
        if exists|i: int, j: int|
            0 <= i < samples@.len() && 0 <= j < samples@[i].0@.len() && (
            #[trigger] samples@[i].0@[j])@ == name {
            let (i, j) = choose|i: int, j: int|
                0 <= i < samples@.len() && 0 <= j < samples@[i].0@.len() && (
                #[trigger] samples@[i].0@[j])@ == name;
            assert(views[i].0[j] == name);
        }
    }
}

/// The functions are ranked by their counts, each once, the largest first.
pub proof fn law_rank(m: &FxHashMap<String, u64>, r: Vec<(String, u64)>, i: int, j: int)
    requires
        call_ensures(rank, (m,), r),
    ensures
        0 <= i < j < r@.len() ==> r@[i].1 >= r@[j].1 && r@[i].0@ != r@[j].0@,
        0 <= i < r@.len() ==> map_of(m).contains_key(r@[i].0@) && map_of(m)[r@[i].0@] == r@[i].1,
        forall|name: Seq<char>| #[trigger]
            map_of(m).contains_key(name) ==> exists|k: int|
                0 <= k < r@.len() && (#[trigger] r@[k]).0@ == name,
{
    law_ranking(r@, map_of(m), i, j);
}

/// The summary has a heading, a rule, and a row for each of the first twenty: the
/// count, right-aligned, and the name behind two blanks.
pub proof fn law_summary_lines(ranked: &Vec<(String, u64)>, r: Vec<String>, i: int)
    requires
        call_ensures(summary_lines, (ranked,), r),
        0 <= i < ranked@.len(),
        i < 20,
    ensures
        ({
            let row = r@[i + 2]@;
            let digits = decimal(ranked@[i].1 as int);
            let name = ranked@[i].0@;
            &&& r@.len() == 2 + (if ranked@.len() < 20 {
                ranked@.len() as int
            } else {
                20
            })
            &&& r@[0]@ == " samples  function"@
            &&& r@[1]@.len() == 72 && forall|k: int| 0 <= k < 72 ==> #[trigger] r@[1]@[k] == '-'
            &&& row.skip(row.len() - name.len()) == name
            &&& digits.len() <= 8 ==> row.len() == 10 + name.len() && row.subrange(
                8 - digits.len(),
                8,
            ) == digits && forall|k: int| 0 <= k < 8 - digits.len() ==> #[trigger] row[k] == ' '
            &&& digits.len() > 8 ==> row == digits + "  "@ + name
            &&& row[row.len() - name.len() - 1] == ' ' && row[row.len() - name.len() - 2] == ' '
        }),
{
    law_summary_rows(ranked@, i);
    let lines = texts(r@);
    assert(lines.len() == r@.len());
    assert(lines[0] == r@[0]@ && lines[1] == r@[1]@ && lines[i + 2] == r@[i + 2]@);
}

} // verus!
