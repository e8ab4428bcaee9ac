//! The lines of each sampled commit: the histograms of the blobs, added up over
//! the commit's files.

use crate::fx::{lists_entries, map_entries, map_get, map_new, map_of, CopyKey, FxKey};
use crate::tally::{add_count, count_in};
use crate::types::{Oid, WorkItem};
use rustc_hash::FxHashMap;
use vstd::prelude::*;

verus! {

/// The histograms of each blob, by period and by author.
pub type BlobHists = FxHashMap<Oid, (FxHashMap<i32, u64>, FxHashMap<String, u64>)>;

/// The lines of each commit by period.
pub type PeriodAgg = FxHashMap<(Oid, i32), u64>;

/// The lines of each commit by author.
pub type AuthorAgg = FxHashMap<(Oid, String), u64>;

/// The histogram by period of each blob; an unknown blob has an empty one.
pub open spec fn period_hists(hists: &BlobHists) -> spec_fn(Oid) -> Map<i32, u64> {
    |blob: Oid|
        if map_of(hists).contains_key(blob) {
            map_of(&map_of(hists)[blob].0)
        } else {
            Map::<i32, u64>::empty()
        }
}

/// The histogram by author of each blob; an unknown blob has an empty one.
pub open spec fn author_hists(hists: &BlobHists) -> spec_fn(Oid) -> Map<Seq<char>, u64> {
    |blob: Oid|
        if map_of(hists).contains_key(blob) {
            map_of(&map_of(hists)[blob].1)
        } else {
            Map::<Seq<char>, u64>::empty()
        }
}

/// The count for `k` over all the files of a commit.
pub open spec fn commit_count<K>(
    items: Seq<WorkItem>,
    hist: spec_fn(Oid) -> Map<K, u64>,
    commit: Oid,
    k: K,
) -> int
    decreases items.len(),
{
    if items.len() == 0 {
        0
    } else {
        commit_count(items.drop_last(), hist, commit, k) + (if items.last().commit_oid == commit {
            count_in(hist(items.last().blob_oid), k)
        } else {
            0
        })
    }
}

/// Whether a file of the commit has `k` in its histogram.
pub open spec fn commit_has<K>(
    items: Seq<WorkItem>,
    hist: spec_fn(Oid) -> Map<K, u64>,
    commit: Oid,
    k: K,
) -> bool
    decreases items.len(),
{
    items.len() > 0 && (commit_has(items.drop_last(), hist, commit, k) || (
    items.last().commit_oid == commit && hist(items.last().blob_oid).contains_key(k)))
}

/// Every count of every commit fits a `u64`.
pub open spec fn counts_fit<K>(items: Seq<WorkItem>, hist: spec_fn(Oid) -> Map<K, u64>) -> bool {
    forall|commit: Oid, k: K| #[trigger] commit_count(items, hist, commit, k) <= u64::MAX
}

/// The table holds the counts of every commit, under what its files have in
/// their histograms, and nothing else.
pub open spec fn sums_up<K>(
    agg: Map<(Oid, K), u64>,
    items: Seq<WorkItem>,
    hist: spec_fn(Oid) -> Map<K, u64>,
) -> bool {
    &&& forall|commit: Oid, k: K| #[trigger]
        agg.contains_key((commit, k)) <==> commit_has(items, hist, commit, k)
    &&& forall|commit: Oid, k: K| #[trigger]
        agg.contains_key((commit, k)) ==> agg[(commit, k)] == commit_count(items, hist, commit, k)
}

/// The counts of every commit, under what its files have in their histograms.
pub open spec fn aggregated<K>(items: Seq<WorkItem>, hist: spec_fn(Oid) -> Map<K, u64>) -> Map<
    (Oid, K),
    u64,
> {
    Map::new(
        |ck: (Oid, K)| commit_has(items, hist, ck.0, ck.1),
        |ck: (Oid, K)| commit_count(items, hist, ck.0, ck.1) as u64,
    )
}

/// There is one table that holds the counts.
pub proof fn lemma_sums_up_to_one<K>(
    agg: Map<(Oid, K), u64>,
    items: Seq<WorkItem>,
    hist: spec_fn(Oid) -> Map<K, u64>,
)
    requires
        sums_up(agg, items, hist),
    ensures
        agg == aggregated(items, hist),
{
    let other = aggregated(items, hist);
    assert forall|ck: (Oid, K)| agg.contains_key(ck) == other.contains_key(ck) by {
        assert(agg.contains_key((ck.0, ck.1)) <==> commit_has(items, hist, ck.0, ck.1));
    }
    assert forall|ck: (Oid, K)| agg.contains_key(ck) implies agg[ck] == other[ck] by {
        assert(agg.contains_key((ck.0, ck.1)));
    }
    assert(agg =~= other);
}

/// The counts of every commit are what `sums_up` says, if they fit.
pub proof fn lemma_aggregated_sums_up<K>(items: Seq<WorkItem>, hist: spec_fn(Oid) -> Map<K, u64>)
    requires
        counts_fit(items, hist),
    ensures
        sums_up(aggregated(items, hist), items, hist),
{
    let agg = aggregated(items, hist);
    assert forall|commit: Oid, k: K| #[trigger] agg.contains_key((commit, k)) implies agg[(
        commit,
        k,
    )] == commit_count(items, hist, commit, k) by {
        lemma_commit_count_prefix(items, 0, hist, commit, k);
        assert(commit_count(items, hist, commit, k) <= u64::MAX);
    }
}

pub proof fn lemma_commit_count_prefix<K>(
    items: Seq<WorkItem>,
    n: int,
    hist: spec_fn(Oid) -> Map<K, u64>,
    commit: Oid,
    k: K,
)
    requires
        0 <= n <= items.len(),
    ensures
        0 <= commit_count(items.take(n), hist, commit, k) <= commit_count(items, hist, commit, k),
    decreases items.len(),
{
    if n == items.len() {
        assert(items.take(n) =~= items);
        if n > 0 {
            lemma_commit_count_prefix(items.drop_last(), n - 1, hist, commit, k);
            assert(items.drop_last().take(n - 1) =~= items.drop_last());
        }
    } else {
        lemma_commit_count_prefix(items.drop_last(), n, hist, commit, k);
        assert(items.drop_last().take(n) =~= items.take(n));
    }
}

pub proof fn lemma_commit_count_absent<K>(
    items: Seq<WorkItem>,
    hist: spec_fn(Oid) -> Map<K, u64>,
    commit: Oid,
    k: K,
)
    ensures
        !commit_has(items, hist, commit, k) ==> commit_count(items, hist, commit, k) == 0,
    decreases items.len(),
{
    if items.len() > 0 {
        lemma_commit_count_absent(items.drop_last(), hist, commit, k);
    }
}

/// Where an entry with the key `k` stands among the first `n`.
pub open spec fn listed<K>(keys: Seq<K>, n: int, k: K) -> bool {
    exists|i: int| 0 <= i < n && #[trigger] keys[i] == k
}

/// The table after the first `n` entries of a histogram went to one commit.
spec fn added_to<K>(
    agg: Map<(Oid, K), u64>,
    base: Map<(Oid, K), u64>,
    commit: Oid,
    h: Map<K, u64>,
    keys: Seq<K>,
    n: int,
) -> bool {
    forall|c: Oid, k: K|
        {
            let new = c == commit && listed(keys, n, k);
            &&& #[trigger] agg.contains_key((c, k)) <==> base.contains_key((c, k)) || new
            &&& agg.contains_key((c, k)) ==> agg[(c, k)] == count_in(base, (c, k)) + (if new {
                h[k] as int
            } else {
                0
            })
        }
}

/// What one more entry does to the table.
proof fn lemma_added_step<K>(
    agg: Map<(Oid, K), u64>,
    base: Map<(Oid, K), u64>,
    commit: Oid,
    h: Map<K, u64>,
    keys: Seq<K>,
    n: int,
)
    requires
        0 <= n < keys.len(),
        added_to(agg, base, commit, h, keys, n),
        !listed(keys, n, keys[n]),
        h.contains_key(keys[n]),
    ensures
        count_in(agg, (commit, keys[n])) == count_in(base, (commit, keys[n])),
        count_in(base, (commit, keys[n])) + h[keys[n]] <= u64::MAX ==> added_to(
            agg.insert(
                (commit, keys[n]),
                (count_in(base, (commit, keys[n])) + h[keys[n]]) as u64,
            ),
            base,
            commit,
            h,
            keys,
            n + 1,
        ),
{
    let key = keys[n];
    assert(agg.contains_key((commit, key)) <==> base.contains_key((commit, key)));
    if count_in(base, (commit, key)) + h[key] <= u64::MAX {
        let next = agg.insert((commit, key), (count_in(base, (commit, key)) + h[key]) as u64);
        assert forall|c: Oid, k: K|
            {
                let new = c == commit && listed(keys, n + 1, k);
                &&& #[trigger] next.contains_key((c, k)) <==> base.contains_key((c, k)) || new
                &&& next.contains_key((c, k)) ==> next[(c, k)] == count_in(base, (c, k)) + (if new {
                    h[k] as int
                } else {
                    0
                })
            } by {
            assert(agg.contains_key((c, k)) || !agg.contains_key((c, k)));
            if k == key {
                assert(keys[n] == k);
                assert(listed(keys, n + 1, k));
            } else {
                assert(listed(keys, n + 1, k) == listed(keys, n, k)) by {
                    if listed(keys, n + 1, k) {
                        let i = choose|i: int| 0 <= i < n + 1 && #[trigger] keys[i] == k;
                        assert(keys[i] == k);
                    }
                    if listed(keys, n, k) {
                        let i = choose|i: int| 0 <= i < n && #[trigger] keys[i] == k;
                        assert(keys[i] == k);
                    }
                }
            }
        }
    }
}

/// A whole histogram added to one commit is one more file of that commit.
proof fn lemma_added_all<K>(
    agg: Map<(Oid, K), u64>,
    base: Map<(Oid, K), u64>,
    items: Seq<WorkItem>,
    n: int,
    hist: spec_fn(Oid) -> Map<K, u64>,
    keys: Seq<K>,
)
    requires
        0 <= n < items.len(),
        sums_up(base, items.take(n), hist),
        added_to(
            agg,
            base,
            items[n].commit_oid,
            hist(items[n].blob_oid),
            keys,
            keys.len() as int,
        ),
        forall|k: K| #[trigger]
            hist(items[n].blob_oid).contains_key(k) <==> listed(keys, keys.len() as int, k),
    ensures
        sums_up(agg, items.take(n + 1), hist),
{
    let more = items.take(n + 1);
    assert(more.drop_last() =~= items.take(n));
    assert(more.last() == items[n]);
    let h = hist(items[n].blob_oid);
    assert forall|c: Oid, k: K| #[trigger] agg.contains_key((c, k)) implies agg[(c, k)]
        == commit_count(more, hist, c, k) by {
        assert(base.contains_key((c, k)) || !base.contains_key((c, k)));
        assert(h.contains_key(k) || !h.contains_key(k));
        lemma_commit_count_absent(items.take(n), hist, c, k);
    }
    assert forall|c: Oid, k: K| #[trigger] agg.contains_key((c, k)) <==> commit_has(
        more,
        hist,
        c,
        k,
    ) by {
        assert(base.contains_key((c, k)) || !base.contains_key((c, k)));
        assert(h.contains_key(k) || !h.contains_key(k));
    }
}

/// Adds a blob's histogram to a commit, unless a count would no longer fit.
fn add_histogram<K: CopyKey>(
    agg: &mut FxHashMap<(Oid, K), u64>,
    commit: Oid,
    h: &FxHashMap<K, u64>,
) -> (r: (bool, Ghost<Seq<K::Model>>))
    ensures
        r.0 ==> added_to(
            map_of(final(agg)),
            map_of(old(agg)),
            commit,
            map_of(h),
            r.1@,
            r.1@.len() as int,
        ),
        r.0 ==> forall|k: K::Model| #[trigger]
            map_of(h).contains_key(k) <==> listed(r.1@, r.1@.len() as int, k),
        !r.0 ==> exists|k: K::Model| #[trigger]
            map_of(h).contains_key(k) && count_in(map_of(old(agg)), (commit, k)) + map_of(h)[k]
                > u64::MAX,
{
    let entries = map_entries(h);
    let ghost base = map_of(agg);
    let ghost keys: Seq<K::Model> = Seq::new(entries@.len(), |i: int| entries@[i].0.model());
    let mut i: usize = 0;
    while i < entries.len()
        invariant
            i <= entries@.len(),
            base == map_of(old(agg)),
            keys == Seq::new(entries@.len(), |i: int| entries@[i].0.model()),
            lists_entries(entries@, h),
            added_to(map_of(agg), base, commit, map_of(h), keys, i as int),
        decreases entries@.len() - i,
    {
        let (key, count) = entries[i];
        proof {
            assert(keys[i as int] == key.model());
            assert(!listed(keys, i as int, keys[i as int])) by {
                if listed(keys, i as int, keys[i as int]) {
                    let k = choose|k: int| 0 <= k < i && #[trigger] keys[k] == keys[i as int];
                    assert(entries@[k].0.model() != entries@[i as int].0.model());
                }
            }
            lemma_added_step(map_of(agg), base, commit, map_of(h), keys, i as int);
        }
        if !add_count(agg, (commit, key.copy_key()), count) {
            assert(map_of(h).contains_key(key.model()));
            return (false, Ghost(keys));
        }
        i += 1;
    }
    proof {
        assert forall|k: K::Model| #[trigger] map_of(h).contains_key(k) <==> listed(
            keys,
            keys.len() as int,
            k,
        ) by {
            if map_of(h).contains_key(k) {
                let i = choose|i: int|
                    0 <= i < entries@.len() && (#[trigger] entries@[i]).0.model() == k;
                assert(keys[i] == k);
            }
            if listed(keys, keys.len() as int, k) {
                let i = choose|i: int| 0 <= i < keys.len() && #[trigger] keys[i] == k;
                assert(entries@[i].0.model() == k);
            }
        }
    }
    (true, Ghost(keys))
}

/// A count that a commit has after its file at `n` is one that it has at the end.
proof fn lemma_overflow<K>(
    base: Map<(Oid, K), u64>,
    items: Seq<WorkItem>,
    n: int,
    hist: spec_fn(Oid) -> Map<K, u64>,
    k: K,
)
    requires
        0 <= n < items.len(),
        sums_up(base, items.take(n), hist),
        hist(items[n].blob_oid).contains_key(k),
        count_in(base, (items[n].commit_oid, k)) + hist(items[n].blob_oid)[k] > u64::MAX,
    ensures
        !counts_fit(items, hist),
{
    let commit = items[n].commit_oid;
    let more = items.take(n + 1);
    assert(more.drop_last() =~= items.take(n));
    assert(more.last() == items[n]);
    lemma_commit_count_prefix(items, n + 1, hist, commit, k);
    lemma_commit_count_absent(items.take(n), hist, commit, k);
    assert(base.contains_key((commit, k)) || !base.contains_key((commit, k)));
    assert(commit_count(items, hist, commit, k) > u64::MAX);
}

/// Adds up the histograms as `aggregate` does, if every count fits a `u64`.
pub fn checked_aggregate(items: &Vec<WorkItem>, blob_hists: &BlobHists) -> (r: Option<
    (PeriodAgg, AuthorAgg),
>)
    ensures
        r is Some <==> counts_fit(items@, period_hists(blob_hists)) && counts_fit(
            items@,
            author_hists(blob_hists),
        ),
        r matches Some(aggs) ==> sums_up(map_of(&aggs.0), items@, period_hists(blob_hists)),
        r matches Some(aggs) ==> sums_up(map_of(&aggs.1), items@, author_hists(blob_hists)),
{
    let ghost ph = period_hists(blob_hists);
    let ghost ah = author_hists(blob_hists);
    let mut agg: PeriodAgg = map_new();
    let mut author_agg: AuthorAgg = map_new();
    let mut i: usize = 0;
    while i < items.len()
        invariant
            i <= items@.len(),
            ph == period_hists(blob_hists),
            ah == author_hists(blob_hists),
            sums_up(map_of(&agg), items@.take(i as int), ph),
            sums_up(map_of(&author_agg), items@.take(i as int), ah),
        decreases items@.len() - i,
    {
        let item = items[i];
        let ghost base = map_of(&agg);
        let ghost author_base = map_of(&author_agg);
        match map_get(blob_hists, &item.blob_oid) {
            Some(hist) => {
                assert(ph(item.blob_oid) == map_of(&hist.0));
                assert(ah(item.blob_oid) == map_of(&hist.1));
                let (fits, periods) = add_histogram(&mut agg, item.commit_oid, &hist.0);
                if !fits {
                    proof {
                        let k = choose|k: i32| #[trigger]
                            map_of(&hist.0).contains_key(k) && count_in(
                                base,
                                (item.commit_oid, k),
                            ) + map_of(&hist.0)[k] > u64::MAX;
                        lemma_overflow(base, items@, i as int, ph, k);
                    }
                    return None;
                }
                let (author_fits, authors) = add_histogram(
                    &mut author_agg,
                    item.commit_oid,
                    &hist.1,
                );
                if !author_fits {
                    proof {
                        let k = choose|k: Seq<char>| #[trigger]
                            map_of(&hist.1).contains_key(k) && count_in(
                                author_base,
                                (item.commit_oid, k),
                            ) + map_of(&hist.1)[k] > u64::MAX;
                        lemma_overflow(author_base, items@, i as int, ah, k);
                    }
                    return None;
                }
                proof {
                    lemma_added_all(map_of(&agg), base, items@, i as int, ph, periods@);
                    lemma_added_all(
                        map_of(&author_agg),
                        author_base,
                        items@,
                        i as int,
                        ah,
                        authors@,
                    );
                }
            },
            None => {
                proof {
                    lemma_added_all(base, base, items@, i as int, ph, seq![]);
                    lemma_added_all(author_base, author_base, items@, i as int, ah, seq![]);
                }
            },
        }
        i += 1;
    }
    assert(items@.take(i as int) =~= items@);
    proof {
        lemma_sums_fit(map_of(&agg), items@, ph);
        lemma_sums_fit(map_of(&author_agg), items@, ah);
    }
    Some((agg, author_agg))
}

/// What a table holds fits.
proof fn lemma_sums_fit<K>(
    agg: Map<(Oid, K), u64>,
    items: Seq<WorkItem>,
    hist: spec_fn(Oid) -> Map<K, u64>,
)
    requires
        sums_up(agg, items, hist),
    ensures
        counts_fit(items, hist),
{
    assert forall|commit: Oid, k: K| #[trigger]
        commit_count(items, hist, commit, k) <= u64::MAX by {
        lemma_commit_count_absent(items, hist, commit, k);
        if agg.contains_key((commit, k)) {
            let held: u64 = agg[(commit, k)];
            assert(held == commit_count(items, hist, commit, k));
        }
    }
}

/// Adds up the histograms: for each commit the lines by period and by author.
/// A file whose blob has no histograms counts for nothing.
pub fn aggregate(items: &Vec<WorkItem>, blob_hists: &BlobHists) -> (r: (PeriodAgg, AuthorAgg))
    requires
        counts_fit(items@, period_hists(blob_hists)),
        counts_fit(items@, author_hists(blob_hists)),
    ensures
        sums_up(map_of(&r.0), items@, period_hists(blob_hists)),
        sums_up(map_of(&r.1), items@, author_hists(blob_hists)),
{
    checked_aggregate(items, blob_hists).unwrap()
}

/// A blob with histograms has those, and a blob without has none that count.
pub proof fn law_histograms_of_a_blob(hists: &BlobHists, blob: Oid)
    ensures
        map_of(hists).contains_key(blob) ==> period_hists(hists)(blob) == map_of(
            &map_of(hists)[blob].0,
        ) && author_hists(hists)(blob) == map_of(&map_of(hists)[blob].1),
        !map_of(hists).contains_key(blob) ==> period_hists(hists)(blob) == Map::<i32, u64>::empty()
            && author_hists(hists)(blob) == Map::<Seq<char>, u64>::empty(),
{
}

/// One more file of a commit adds what its histogram holds to that commit, and
/// nothing to any other. Without files there is nothing.
pub proof fn law_one_more_file<K>(
    items: Seq<WorkItem>,
    item: WorkItem,
    hist: spec_fn(Oid) -> Map<K, u64>,
    commit: Oid,
    k: K,
    before: Map<(Oid, K), u64>,
    after: Map<(Oid, K), u64>,
)
    requires
        sums_up(before, items, hist),
        sums_up(after, items.push(item), hist),
    ensures
        items.len() == 0 ==> !before.contains_key((commit, k)),
        commit != item.commit_oid || !hist(item.blob_oid).contains_key(k) ==> (after.contains_key(
            (commit, k),
        ) <==> before.contains_key((commit, k))) && (before.contains_key((commit, k)) ==> after[(
            commit,
            k,
        )] == before[(commit, k)]),
        commit == item.commit_oid && hist(item.blob_oid).contains_key(k) ==> after.contains_key(
            (commit, k),
        ) && after[(commit, k)] == hist(item.blob_oid)[k] + (if before.contains_key((commit, k)) {
            before[(commit, k)] as int
        } else {
            0
        }),
{
    let more = items.push(item);
    assert(more.drop_last() =~= items);
    lemma_commit_count_absent(items, hist, commit, k);
    assert(before.contains_key((commit, k)) || !before.contains_key((commit, k)));
    assert(after.contains_key((commit, k)) || !after.contains_key((commit, k)));
}

/// The count of a commit grows with each of its files by what the file's histogram
/// holds; and all counts fit if and only if none is above the largest `u64`.
pub proof fn law_counts_of_commits<K>(
    items: Seq<WorkItem>,
    item: WorkItem,
    hist: spec_fn(Oid) -> Map<K, u64>,
    commit: Oid,
    k: K,
)
    ensures
        commit_count(Seq::<WorkItem>::empty(), hist, commit, k) == 0,
        commit_count(items.push(item), hist, commit, k) == commit_count(items, hist, commit, k) + (
        if item.commit_oid == commit && hist(item.blob_oid).contains_key(k) {
            hist(item.blob_oid)[k] as int
        } else {
            0
        }),
        counts_fit(items, hist) <==> forall|c: Oid, x: K| #[trigger]
            commit_count(items, hist, c, x) <= 0xffff_ffff_ffff_ffff,
{
    assert(items.push(item).drop_last() =~= items);
}

} // verus!
