//! What an analysis writes: the chart, and the list of the repositories that
//! have one.

use crate::aggregate::{
    aggregated, author_hists, checked_aggregate, counts_fit, lemma_aggregated_sums_up,
    lemma_sums_up_to_one, period_hists, BlobHists,
};
use crate::authors::{
    authors_fit, check_authors_fit, is_selection, select_authors, Threshold,
};
use crate::fx::map_of;
use crate::period::period_text;
use crate::series::{
    author_counts, author_legend, checked_series, is_point, labels, law_legend,
    law_point_shows_its_commit, legend, lists_periods, period_counts, period_keys, period_labels,
    totals_fit, CommitMeta,
};
use crate::snapshot::{
    law_authors_add_up, law_legend_adds_up, law_periods_add_up, law_point_counts_its_commit,
    law_sparse_keeps_sum, lemma_authors_finite, listed_count, listed_sum, snapshot_lines,
};
use crate::sort::{is_sorted, sort_texts};
use crate::tally::{authors_of, periods_of, tallies};
use crate::text::{chars_of, same_chars, text_le, texts};
use crate::types::{Granularity, Oid, OutputData, Tag, WorkItem};
use vstd::prelude::*;

verus! {

/// All that is counted fits a `u64`: the lines of each commit by period and by
/// author, and all of them together.
pub open spec fn all_fit(
    items: Seq<WorkItem>,
    blob_hists: &BlobHists,
    sampled: Seq<(Oid, i64)>,
) -> bool {
    &&& counts_fit(items, period_hists(blob_hists))
    &&& counts_fit(items, author_hists(blob_hists))
    &&& authors_fit(aggregated(items, author_hists(blob_hists)))
    &&& forall|keys: Seq<i32>| #[trigger]
        lists_periods(keys, aggregated(items, period_hists(blob_hists))) ==> totals_fit(
            sampled,
            aggregated(items, period_hists(blob_hists)),
            keys,
        )
}

/// The chart has these periods, authors and points.
pub open spec fn shows(
    out: OutputData,
    agg: Map<(Oid, i32), u64>,
    author_agg: Map<(Oid, Seq<char>), u64>,
    sampled: Seq<(Oid, i64)>,
    metas: Seq<Option<CommitMeta>>,
    keys: Seq<i32>,
    yearly: bool,
    active: Seq<Seq<char>>,
    has_other: bool,
    commit_other: Map<Oid, u64>,
) -> bool {
    &&& texts(out.periods@) == labels(keys, yearly)
    &&& texts(out.authors@) == legend(active, has_other)
    &&& out.series@.len() == sampled.len()
    &&& forall|i: int|
        0 <= i < sampled.len() ==> is_point(
            #[trigger] out.series@[i],
            sampled[i],
            metas[i],
            period_counts(agg, sampled[i].0, keys),
            author_counts(author_agg, sampled[i].0, active, has_other, commit_other),
        )
}

/// The chart of the sampled commits: all the periods that occur, the authors to
/// be named, and one point per commit.
pub open spec fn is_chart(
    out: OutputData,
    items: Seq<WorkItem>,
    blob_hists: &BlobHists,
    sampled: Seq<(Oid, i64)>,
    metas: Seq<Option<CommitMeta>>,
    yearly: bool,
    threshold: Threshold,
) -> bool {
    let agg = aggregated(items, period_hists(blob_hists));
    let author_agg = aggregated(items, author_hists(blob_hists));
    exists|keys: Seq<i32>, active: Seq<Seq<char>>, has_other: bool, commit_other: Map<Oid, u64>|
        lists_periods(keys, agg) && is_selection(
            author_agg,
            sampled,
            threshold,
            active,
            has_other,
            commit_other,
        ) && #[trigger] shows(
            out,
            agg,
            author_agg,
            sampled,
            metas,
            keys,
            yearly,
            active,
            has_other,
            commit_other,
        )
}

proof fn lemma_one_list_of_periods(agg: Map<(Oid, i32), u64>, a: Seq<i32>, b: Seq<i32>)
    requires
        lists_periods(a, agg),
        lists_periods(b, agg),
    ensures
        a == b,
{
    assert forall|p: i32| a.contains(p) == b.contains(p) by {
        assert(a.contains(p) <==> b.contains(p));
    }
    lemma_same_members(a, b);
}

proof fn lemma_same_members(a: Seq<i32>, b: Seq<i32>)
    requires
        forall|i: int, j: int| 0 <= i < j < a.len() ==> #[trigger] a[i] < #[trigger] a[j],
        forall|i: int, j: int| 0 <= i < j < b.len() ==> #[trigger] b[i] < #[trigger] b[j],
        forall|p: i32| a.contains(p) == b.contains(p),
    ensures
        a == b,
    decreases a.len(),
{
    if a.len() == 0 {
        if b.len() > 0 {
            assert(b.contains(b[0]));
            assert(a.contains(b[0]));
        }
        assert(a =~= b);
    } else {
        assert(a.contains(a.last()));
        assert(b.contains(a.last()));
        assert(b.contains(b.last()));
        assert(a.contains(b.last()));
        let i = choose|i: int| 0 <= i < b.len() && b[i] == a.last();
        let j = choose|j: int| 0 <= j < a.len() && a[j] == b.last();
        assert(a.last() == b.last());
        let x = a.drop_last();
        let y = b.drop_last();
        assert forall|p: i32| x.contains(p) == y.contains(p) by {
            if x.contains(p) {
                let k = choose|k: int| 0 <= k < x.len() && x[k] == p;
                assert(a[k] == p && a[k] < a[a.len() - 1]);
                assert(a.contains(p));
                let l = choose|l: int| 0 <= l < b.len() && b[l] == p;
                assert(y[l] == p);
            }
            if y.contains(p) {
                let k = choose|k: int| 0 <= k < y.len() && y[k] == p;
                assert(b[k] == p && b[k] < b[b.len() - 1]);
                assert(b.contains(p));
                let l = choose|l: int| 0 <= l < a.len() && a[l] == p;
                assert(x[l] == p);
            }
        }
        lemma_same_members(x, y);
        assert(a =~= x.push(a.last()));
        assert(b =~= y.push(b.last()));
    }
}

/// Puts together what an analysis writes, if all that is counted fits a `u64`.
/// `metas` holds what is known of each sampled commit.
pub fn build_output(
    repo: String,
    granularity: Granularity,
    generated_at: String,
    head_commit: String,
    items: &Vec<WorkItem>,
    blob_hists: &BlobHists,
    sampled: &Vec<(Oid, i64)>,
    metas: &Vec<Option<CommitMeta>>,
    threshold: Threshold,
    tags: Vec<Tag>,
) -> (r: Option<OutputData>)
    requires
        metas@.len() == sampled@.len(),
    ensures
        r is Some <==> all_fit(items@, blob_hists, sampled@),
        r matches Some(out) ==> out.repo@ == repo@ && out.granularity@ == granularity.text()
            && out.generated_at@ == generated_at@ && out.head_commit@ == head_commit@ && out.tags
            == tags,
        r matches Some(out) ==> is_chart(
            out,
            items@,
            blob_hists,
            sampled@,
            metas@,
            granularity == Granularity::Year,
            threshold,
        ),
{
    let ghost ph = period_hists(blob_hists);
    let ghost ah = author_hists(blob_hists);
    let yearly = granularity == Granularity::Year;
    let (agg, author_agg) = match checked_aggregate(items, blob_hists) {
        Some(aggs) => aggs,
        None => {
            return None;
        },
    };
    proof {
        lemma_sums_up_to_one(map_of(&agg), items@, ph);
        lemma_sums_up_to_one(map_of(&author_agg), items@, ah);
    }
    if !check_authors_fit(&author_agg) {
        return None;
    }
    let keys = period_keys(&agg);
    let periods = period_labels(&keys, yearly);
    let (active, has_other, commit_other) = select_authors(&author_agg, sampled, threshold);
    let authors = author_legend(&active, has_other);
    let series = match checked_series(
        sampled,
        &agg,
        &author_agg,
        &active,
        has_other,
        &commit_other,
        &keys,
        metas,
    ) {
        Some(series) => series,
        None => {
            return None;
        },
    };
    let out = OutputData {
        repo,
        granularity: granularity.name(),
        generated_at,
        head_commit,
        periods,
        authors,
        series,
        tags,
    };
    proof {
        assert forall|other: Seq<i32>| #[trigger]
            lists_periods(other, map_of(&agg)) implies totals_fit(
            sampled@,
            map_of(&agg),
            other,
        ) by {
            lemma_one_list_of_periods(map_of(&agg), keys@, other);
        }
        assert(shows(
            out,
            map_of(&agg),
            map_of(&author_agg),
            sampled@,
            metas@,
            keys@,
            yearly,
            texts(active@),
            has_other,
            map_of(&commit_other),
        ));
    }
    Some(out)
}

/// The chart shows every line of every sampled commit once: the total of a point
/// is the number of lines of the commit's files, and the counts by period add
/// up to it; so do the counts by author, at the last commit, and at every commit
/// where the legend has the bucket "other".
pub proof fn law_chart_shows_every_line(
    out: OutputData,
    items: Seq<WorkItem>,
    blob_hists: &BlobHists,
    lines_of: spec_fn(Oid) -> Seq<(i64, Seq<char>)>,
    sampled: Seq<(Oid, i64)>,
    metas: Seq<Option<CommitMeta>>,
    yearly: bool,
    threshold: Threshold,
    keys: Seq<i32>,
    active: Seq<Seq<char>>,
    has_other: bool,
    commit_other: Map<Oid, u64>,
    i: int,
)
    requires
        all_fit(items, blob_hists, sampled),
        forall|k: int|
            0 <= k < items.len() ==> tallies(
                period_hists(blob_hists)((#[trigger] items[k]).blob_oid),
                periods_of(lines_of(items[k].blob_oid), yearly),
            ),
        forall|k: int|
            0 <= k < items.len() ==> tallies(
                author_hists(blob_hists)((#[trigger] items[k]).blob_oid),
                authors_of(lines_of(items[k].blob_oid)),
            ),
        lists_periods(keys, aggregated(items, period_hists(blob_hists))),
        is_selection(
            aggregated(items, author_hists(blob_hists)),
            sampled,
            threshold,
            active,
            has_other,
            commit_other,
        ),
        shows(
            out,
            aggregated(items, period_hists(blob_hists)),
            aggregated(items, author_hists(blob_hists)),
            sampled,
            metas,
            keys,
            yearly,
            active,
            has_other,
            commit_other,
        ),
        0 <= i < sampled.len(),
    ensures
        out.series@[i].total == snapshot_lines(items, lines_of, sampled[i].0),
        listed_sum(out.series@[i].counts@) == out.series@[i].total,
        has_other || i == sampled.len() - 1 ==> listed_sum(out.series@[i].author_counts@)
            == out.series@[i].total,
{
    let ph = period_hists(blob_hists);
    let ah = author_hists(blob_hists);
    let agg = aggregated(items, ph);
    let author_agg = aggregated(items, ah);
    let commit = sampled[i].0;
    lemma_aggregated_sums_up(items, ph);
    lemma_aggregated_sums_up(items, ah);
    law_periods_add_up(agg, items, ph, lines_of, yearly, keys, commit);
    law_sparse_keeps_sum(period_counts(agg, commit, keys));
    law_sparse_keeps_sum(author_counts(author_agg, commit, active, has_other, commit_other));
    law_authors_add_up(author_agg, items, ah, lines_of, commit);
    lemma_authors_finite(author_agg, items, ah, lines_of, commit);
    assert(is_point(
        out.series@[i],
        sampled[i],
        metas[i],
        period_counts(agg, commit, keys),
        author_counts(author_agg, commit, active, has_other, commit_other),
    ));
    if has_other || i == sampled.len() - 1 {
        law_legend_adds_up(author_agg, commit, active, has_other, commit_other);
    }
}

/// What `serde_json::from_str` makes of a text when asked for a list of strings;
/// nothing where it returns an error.
pub uninterp spec fn decoded_names(text: Seq<char>) -> Option<Seq<Seq<char>>>;

/// The text that `serde_json::to_string_pretty` writes a list of strings as.
pub uninterp spec fn encoded_names(names: Seq<Seq<char>>) -> Seq<char>;

/// Why `serde_json` failed.
#[verifier::external_type_specification]
#[verifier::external_body]
pub struct ExJsonError(serde_json::Error);

/// A list of strings that may be missing, as plain values.
pub open spec fn read_names(names: Result<Vec<String>, serde_json::Error>) -> Option<
    Seq<Seq<char>>,
> {
    match names {
        Ok(list) => Some(texts(list@)),
        Err(_) => None,
    }
}

/// `serde_json::from_str` at the type `Vec<String>`: its result is
/// `decoded_names` of the text.
#[verifier::external_body]
fn decode_names(text: &str) -> (r: Result<Vec<String>, serde_json::Error>)
    ensures
        read_names(r) == decoded_names(text@),
{
    serde_json::from_str::<Vec<String>>(text)
}

/// `serde_json::to_string_pretty` of a `Vec<String>`: it does not fail, its
/// result is `encoded_names` of the strings, and `serde_json::from_str` reads
/// the same strings from what it wrote.
#[verifier::external_body]
fn encode_names(names: &Vec<String>) -> (r: Result<String, serde_json::Error>)
    ensures
        r is Ok,
        r matches Ok(text) ==> text@ == encoded_names(texts(names@)),
        r matches Ok(text) ==> decoded_names(text@) == Some(texts(names@)),
{
    serde_json::to_string_pretty(names)
}

/// The list is the other one with one name more, in order.
pub open spec fn is_with_name(
    list: Seq<Seq<char>>,
    names: Seq<Seq<char>>,
    name: Seq<char>,
) -> bool {
    &&& is_sorted(list)
    &&& list.to_multiset() == names.to_multiset().insert(name)
}

/// The list with the name of a repository added to it, in order; nothing where
/// the name is there already.
pub fn add_repo(repos: Vec<String>, name: &str) -> (r: Option<Vec<String>>)
    ensures
        r is None <==> texts(repos@).contains(name@),
        r matches Some(list) ==> is_with_name(texts(list@), texts(repos@), name@),
{
    let wanted = chars_of(name);
    let mut i: usize = 0;
    while i < repos.len()
        invariant
            i <= repos@.len(),
            wanted@ == name@,
            forall|k: int| 0 <= k < i ==> #[trigger] texts(repos@)[k] != name@,
        decreases repos@.len() - i,
    {
        assert(texts(repos@)[i as int] == repos@[i as int]@);
        if same_chars(&chars_of(repos[i].as_str()), &wanted) {
            assert(texts(repos@).contains(name@));
            return None;
        }
        i += 1;
    }
    assert(!texts(repos@).contains(name@)) by {
        if texts(repos@).contains(name@) {
            let k = choose|k: int| 0 <= k < texts(repos@).len() && texts(repos@)[k] == name@;
            assert(texts(repos@)[k] != name@);
        }
    }
    let mut more = repos;
    more.push(name.to_owned());
    proof {
        broadcast use vstd::seq_lib::group_to_multiset_ensures;

        assert(texts(more@) =~= texts(repos@).push(name@));
    }
    Some(sort_texts(more))
}

/// The names in the text of the list of repositories; none where there is no
/// text or none that can be read.
pub open spec fn known_repos(text: Option<Seq<char>>) -> Seq<Seq<char>> {
    match text {
        Some(t) => match decoded_names(t) {
            Some(names) => names,
            None => seq![],
        },
        None => seq![],
    }
}

/// A text that may be missing, as a plain value.
pub open spec fn maybe_text(text: Option<String>) -> Option<Seq<char>> {
    match text {
        Some(t) => Some(t@),
        None => None,
    }
}

/// The text is the list as it is written, and is read back as the list.
pub open spec fn is_written(text: Seq<char>, list: Seq<Seq<char>>) -> bool {
    text == encoded_names(list) && decoded_names(text) == Some(list)
}

/// The new text of the list of repositories after an analysis of one, where it
/// changes. `text` is what the list says so far, if there is one.
pub fn update_repos(text: Option<String>, name: &str) -> (r: Option<String>)
    ensures
        r is None <==> known_repos(maybe_text(text)).contains(name@),
        r matches Some(after) ==> exists|list: Seq<Seq<char>>| #[trigger]
            is_with_name(list, known_repos(maybe_text(text)), name@) && is_written(after@, list),
{
    let repos: Vec<String> = match &text {
        Some(t) => match decode_names(t.as_str()) {
            Ok(names) => names,
            Err(_) => Vec::new(),
        },
        None => Vec::new(),
    };
    let ghost before = known_repos(maybe_text(text));
    assert(texts(repos@) =~= before);
    match add_repo(repos, name) {
        Some(list) => {
            assert(is_with_name(texts(list@), before, name@));
            match encode_names(&list) {
                Ok(after) => {
                    assert(is_written(after@, texts(list@)));
                    Some(after)
                },
                Err(_) => None,
            }
        },
        None => None,
    }
}

/// After an analysis the list of repositories has the name, and every name that
/// it had before, so that a second analysis changes nothing.
pub proof fn law_repo_is_listed(
    list: Seq<Seq<char>>,
    names: Seq<Seq<char>>,
    name: Seq<char>,
    other: Seq<char>,
)
    requires
        is_with_name(list, names, name),
    ensures
        list.contains(other) <==> names.contains(other) || other == name,
        list.len() == names.len() + 1,
{
    broadcast use vstd::seq_lib::group_to_multiset_ensures;

    let m = names.to_multiset().insert(name);
    assert(list.to_multiset().len() == list.len());
    assert(names.to_multiset().len() == names.len());
    assert(list.contains(other) <==> list.to_multiset().count(other) > 0);
    assert(names.contains(other) <==> names.to_multiset().count(other) > 0);
}

/// The list of repositories has the names that its text writes, and none where
/// there is no text or none that can be read.
pub proof fn law_names_in_the_list(text: Seq<char>)
    ensures
        decoded_names(text) matches Some(names) ==> known_repos(Some(text)) == names,
        decoded_names(text) is None ==> known_repos(Some(text)).len() == 0,
        known_repos(None).len() == 0,
{
}

/// The list of repositories is in order.
pub proof fn law_list_is_in_order(
    list: Seq<Seq<char>>,
    names: Seq<Seq<char>>,
    name: Seq<char>,
    i: int,
    j: int,
)
    requires
        is_with_name(list, names, name),
        0 <= i < j < list.len(),
    ensures
        text_le(list[i], list[j]),
        list.to_multiset() == names.push(name).to_multiset(),
{
    broadcast use vstd::seq_lib::group_to_multiset_ensures;

}

/// What a chart has at the place `i`: the point of the commit that was sampled
/// there, with its time, its summary and author, and its lines in each of the
/// periods and by each of the authors of the legend.
pub open spec fn has_point_of(
    out: OutputData,
    i: int,
    commit: (Oid, i64),
    meta: Option<CommitMeta>,
    agg: Map<(Oid, i32), u64>,
    keys: Seq<i32>,
    author_agg: Map<(Oid, Seq<char>), u64>,
    active: Seq<Seq<char>>,
) -> bool {
    let point = out.series@[i];
    &&& point.ts == commit.1
    &&& meta matches Some(m) ==> (m.summary matches Some(s) ==> point.summary@ == s@)
    &&& meta matches Some(m) ==> (m.author matches Some(a) ==> point.author@ == a@)
    &&& listed_sum(point.counts@) == point.total
    &&& forall|k: int|
        0 <= k < keys.len() ==> listed_count(point.counts@, k) == (if agg.contains_key(
            (commit.0, #[trigger] keys[k]),
        ) {
            agg[(commit.0, keys[k])]
        } else {
            0
        })
    &&& forall|k: int|
        0 <= k < active.len() ==> listed_count(point.author_counts@, k) == (
        if author_agg.contains_key((commit.0, #[trigger] active[k])) {
            author_agg[(commit.0, active[k])]
        } else {
            0
        })
}

/// What the axes of a chart say: a label for each period, the earliest first, and a
/// name for each author of the legend.
pub open spec fn has_axes(
    out: OutputData,
    keys: Seq<i32>,
    yearly: bool,
    active: Seq<Seq<char>>,
    has_other: bool,
) -> bool {
    &&& out.periods@.len() == keys.len()
    &&& forall|k: int|
        0 <= k < keys.len() ==> (#[trigger] out.periods@[k])@ == period_text(keys[k] as int, yearly)
    &&& out.authors@.len() == active.len() + (if has_other {
        1int
    } else {
        0
    })
    &&& forall|k: int| 0 <= k < active.len() ==> (#[trigger] out.authors@[k])@ == active[k]
    &&& has_other ==> out.authors@.last()@ == seq!['o', 't', 'h', 'e', 'r']
}

/// A chart has one point for each sampled commit, in their order, under the periods
/// that occur and the authors that are named.
pub proof fn law_chart_has_every_commit(
    out: OutputData,
    items: Seq<WorkItem>,
    blob_hists: &BlobHists,
    sampled: Seq<(Oid, i64)>,
    metas: Seq<Option<CommitMeta>>,
    yearly: bool,
    threshold: Threshold,
)
    requires
        is_chart(out, items, blob_hists, sampled, metas, yearly, threshold),
        out.authors@.len() < usize::MAX,
    ensures
        out.series@.len() == sampled.len(),
        ({
            let agg = aggregated(items, period_hists(blob_hists));
            let author_agg = aggregated(items, author_hists(blob_hists));
            exists|keys: Seq<i32>, active: Seq<Seq<char>>, has_other: bool, others: Map<Oid, u64>|
                lists_periods(keys, agg) && #[trigger] is_selection(
                    author_agg,
                    sampled,
                    threshold,
                    active,
                    has_other,
                    others,
                ) && #[trigger] has_axes(out, keys, yearly, active, has_other) && forall|i: int|
                    0 <= i < sampled.len() ==> #[trigger] has_point_of(
                        out,
                        i,
                        sampled[i],
                        metas[i],
                        agg,
                        keys,
                        author_agg,
                        active,
                    )
        }),
{
    let agg = aggregated(items, period_hists(blob_hists));
    let author_agg = aggregated(items, author_hists(blob_hists));
    let (keys, active, has_other, others) = choose|
        keys: Seq<i32>,
        active: Seq<Seq<char>>,
        has_other: bool,
        commit_other: Map<Oid, u64>,
    |
        lists_periods(keys, agg) && is_selection(
            author_agg,
            sampled,
            threshold,
            active,
            has_other,
            commit_other,
        ) && #[trigger] shows(
            out,
            agg,
            author_agg,
            sampled,
            metas,
            keys,
            yearly,
            active,
            has_other,
            commit_other,
        );
    let periods = texts(out.periods@);
    let names = texts(out.authors@);
    law_legend(active);
    assert(periods.len() == keys.len() && out.periods.len() == keys.len());
    assert(has_axes(out, keys, yearly, active, has_other)) by {
        assert forall|k: int| 0 <= k < keys.len() implies (#[trigger] out.periods@[k])@
            == period_text(keys[k] as int, yearly) by {
            assert(periods[k] == out.periods@[k]@);
        }
        assert forall|k: int| 0 <= k < active.len() implies (#[trigger] out.authors@[k])@
            == active[k] by {
            assert(names[k] == out.authors@[k]@);
        }
        if has_other {
            assert(names.last() == out.authors@.last()@);
        }
    }
    assert forall|i: int| 0 <= i < sampled.len() implies #[trigger] has_point_of(
        out,
        i,
        sampled[i],
        metas[i],
        agg,
        keys,
        author_agg,
        active,
    ) by {
        let point = out.series@[i];
        let commit = sampled[i];
        assert(is_point(
            point,
            commit,
            metas[i],
            period_counts(agg, commit.0, keys),
            author_counts(author_agg, commit.0, active, has_other, others),
        ));
        law_point_shows_its_commit(
            point,
            commit,
            metas[i],
            period_counts(agg, commit.0, keys),
            author_counts(author_agg, commit.0, active, has_other, others),
        );
        assert(names.len() == out.authors@.len());
        law_point_counts_its_commit(
            point,
            commit,
            metas[i],
            agg,
            keys,
            author_agg,
            active,
            has_other,
            others,
            0,
        );
        assert forall|k: int| 0 <= k < keys.len() implies listed_count(point.counts@, k) == (
        if agg.contains_key((commit.0, #[trigger] keys[k])) {
            agg[(commit.0, keys[k])]
        } else {
            0
        }) by {
            law_point_counts_its_commit(
                point,
                commit,
                metas[i],
                agg,
                keys,
                author_agg,
                active,
                has_other,
                others,
                k,
            );
        }
        assert forall|k: int| 0 <= k < active.len() implies listed_count(point.author_counts@, k)
            == (if author_agg.contains_key((commit.0, #[trigger] active[k])) {
            author_agg[(commit.0, active[k])]
        } else {
            0
        }) by {
            law_point_counts_its_commit(
                point,
                commit,
                metas[i],
                agg,
                keys,
                author_agg,
                active,
                has_other,
                others,
                k,
            );
        }
    }
}

} // verus!
