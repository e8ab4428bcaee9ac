//! The authors that a chart names, and the rest of them in one bucket.

use crate::aggregate::AuthorAgg;
use crate::fx::{
    lists_entries, map_entries, map_get, map_new, map_of, set_contains, set_insert, set_new, set_of,
    FxKey,
};
use crate::sort::{goes_before, is_stable_order, law_stable_order, stable_order};
use crate::tally::{add_count, count_in, prefix_sum};
use crate::text::texts;
use crate::types::{same_oid, Oid};
use rustc_hash::{FxHashMap, FxHashSet};
use vstd::prelude::*;

verus! {

/// The authors, or the periods, that have lines at a commit.
pub open spec fn commit_keys<K>(agg: Map<(Oid, K), u64>, commit: Oid) -> Set<K> {
    Set::new(|k: K| agg.contains_key((commit, k)))
}

/// The authors who have lines at a commit.
pub open spec fn commit_authors(agg: Map<(Oid, Seq<char>), u64>, commit: Oid) -> Set<Seq<char>> {
    commit_keys(agg, commit)
}

/// The lines that the given authors, or periods, have together at a commit.
pub open spec fn lines_by<K>(agg: Map<(Oid, K), u64>, commit: Oid, keys: Set<K>) -> int
    decreases keys.len(),
    when keys.finite()
{
    if keys.len() == 0 {
        0
    } else {
        let k = keys.choose();
        count_in(agg, (commit, k)) + lines_by(agg, commit, keys.remove(k))
    }
}

pub proof fn lemma_lines_by_remove<K>(
    agg: Map<(Oid, K), u64>,
    commit: Oid,
    keys: Set<K>,
    k: K,
)
    requires
        keys.finite(),
        keys.contains(k),
    ensures
        lines_by(agg, commit, keys) == count_in(agg, (commit, k)) + lines_by(
            agg,
            commit,
            keys.remove(k),
        ),
    decreases keys.len(),
{
    let b = keys.choose();
    assert(keys.len() > 0);
    if k != b {
        lemma_lines_by_remove(agg, commit, keys.remove(b), k);
        lemma_lines_by_remove(agg, commit, keys.remove(k), b);
        assert(keys.remove(b).remove(k) =~= keys.remove(k).remove(b));
    }
}

pub proof fn lemma_lines_by_insert<K>(
    agg: Map<(Oid, K), u64>,
    commit: Oid,
    keys: Set<K>,
    k: K,
)
    requires
        keys.finite(),
        !keys.contains(k),
    ensures
        lines_by(agg, commit, keys.insert(k)) == count_in(agg, (commit, k)) + lines_by(
            agg,
            commit,
            keys,
        ),
{
    lemma_lines_by_remove(agg, commit, keys.insert(k), k);
    assert(keys.insert(k).remove(k) =~= keys);
}

pub proof fn lemma_lines_by_subset(
    agg: Map<(Oid, Seq<char>), u64>,
    commit: Oid,
    some: Set<Seq<char>>,
    all: Set<Seq<char>>,
)
    requires
        all.finite(),
        some.subset_of(all),
    ensures
        some.finite(),
        0 <= lines_by(agg, commit, some) <= lines_by(agg, commit, all),
    decreases all.len(),
{
    vstd::set_lib::lemma_set_subset_finite(all, some);
    if all.len() == 0 {
        assert(some =~= all);
    } else {
        let a = all.choose();
        if some.contains(a) {
            lemma_lines_by_remove(agg, commit, some, a);
            lemma_lines_by_subset(agg, commit, some.remove(a), all.remove(a));
        } else {
            lemma_lines_by_subset(agg, commit, some, all.remove(a));
        }
    }
}

/// The authors of a commit who are not among the named ones.
pub open spec fn authors_outside(
    agg: Map<(Oid, Seq<char>), u64>,
    commit: Oid,
    named: Set<Seq<char>>,
) -> Set<Seq<char>> {
    commit_authors(agg, commit).difference(named)
}

/// Whether a set has a member.
pub open spec fn has_member(authors: Set<Seq<char>>) -> bool {
    exists|a: Seq<char>| authors.contains(a)
}

/// The keys of a list of entries.
spec fn entry_keys(entries: Seq<(&(Oid, String), u64)>) -> Seq<(Oid, Seq<char>)> {
    Seq::new(entries.len(), |i: int| entries[i].0.model())
}

/// The authors of a commit among the first `n` keys who are not named.
spec fn seen(keys: Seq<(Oid, Seq<char>)>, n: int, commit: Oid, named: Set<Seq<char>>) -> Set<
    Seq<char>,
>
    decreases n,
{
    if n <= 0 {
        Set::empty()
    } else if keys[n - 1].0 == commit && !named.contains(keys[n - 1].1) {
        seen(keys, n - 1, commit, named).insert(keys[n - 1].1)
    } else {
        seen(keys, n - 1, commit, named)
    }
}

proof fn lemma_seen(keys: Seq<(Oid, Seq<char>)>, n: int, commit: Oid, named: Set<Seq<char>>)
    requires
        0 <= n <= keys.len(),
    ensures
        seen(keys, n, commit, named).finite(),
        forall|a: Seq<char>| #[trigger]
            seen(keys, n, commit, named).contains(a) <==> !named.contains(a) && exists|i: int|
                0 <= i < n && #[trigger] keys[i] == (commit, a),
    decreases n,
{
    if n > 0 {
        lemma_seen(keys, n - 1, commit, named);
        assert forall|a: Seq<char>| #[trigger]
            seen(keys, n, commit, named).contains(a) <==> !named.contains(a) && exists|i: int|
                0 <= i < n && #[trigger] keys[i] == (commit, a) by {
            if seen(keys, n, commit, named).contains(a) {
                if keys[n - 1] == (commit, a) {
                } else {
                    assert(seen(keys, n - 1, commit, named).contains(a));
                }
            }
            if !named.contains(a) && exists|i: int| 0 <= i < n && #[trigger] keys[i] == (commit, a) {
                let i = choose|i: int| 0 <= i < n && #[trigger] keys[i] == (commit, a);
                if i < n - 1 {
                    assert(seen(keys, n - 1, commit, named).contains(a));
                } else {
                    assert(keys[n - 1].1 == a);
                }
            }
        }
    }
}

/// The keys of a whole table give all the authors of a commit.
proof fn lemma_seen_all(
    agg: &AuthorAgg,
    entries: Seq<(&(Oid, String), u64)>,
    commit: Oid,
    named: Set<Seq<char>>,
)
    requires
        lists_entries(entries, agg),
    ensures
        seen(entry_keys(entries), entries.len() as int, commit, named) == authors_outside(
            map_of(agg),
            commit,
            named,
        ),
        authors_outside(map_of(agg), commit, named).finite(),
{
    let keys = entry_keys(entries);
    let n = entries.len() as int;
    lemma_seen(keys, n, commit, named);
    assert forall|a: Seq<char>|
        seen(keys, n, commit, named).contains(a) == authors_outside(
            map_of(agg),
            commit,
            named,
        ).contains(a) by {
        if map_of(agg).contains_key((commit, a)) {
            let i = choose|i: int|
                0 <= i < n && (#[trigger] entries[i]).0.model() == (commit, a);
            assert(keys[i] == (commit, a));
        }
        if seen(keys, n, commit, named).contains(a) {
            let i = choose|i: int| 0 <= i < n && #[trigger] keys[i] == (commit, a);
            assert(entries[i].0.model() == (commit, a));
        }
    }
    assert(seen(keys, n, commit, named) =~= authors_outside(map_of(agg), commit, named));
}

/// Whether the lines of the authors who are not named fit a `u64` at every
/// commit.
pub open spec fn outside_fits(agg: Map<(Oid, Seq<char>), u64>, named: Set<Seq<char>>) -> bool {
    forall|commit: Oid|
        #![trigger authors_outside(agg, commit, named)]
        lines_by(agg, commit, authors_outside(agg, commit, named)) <= u64::MAX
}

/// The table holds, for each commit that has authors who are not named, the
/// lines of those authors.
pub open spec fn sums_outside(
    m: Map<Oid, u64>,
    agg: Map<(Oid, Seq<char>), u64>,
    named: Set<Seq<char>>,
) -> bool {
    &&& forall|commit: Oid| #[trigger]
        m.contains_key(commit) <==> has_member(authors_outside(agg, commit, named))
    &&& forall|commit: Oid| #[trigger]
        m.contains_key(commit) ==> m[commit] == lines_by(
            agg,
            commit,
            authors_outside(agg, commit, named),
        )
}

/// The lines, at each commit, of the authors who are not named, if they fit.
pub fn lines_outside(author_agg: &AuthorAgg, named: &FxHashSet<String>) -> (r: Option<
    FxHashMap<Oid, u64>,
>)
    ensures
        r is Some <==> outside_fits(map_of(author_agg), set_of(named)),
        r matches Some(m) ==> sums_outside(map_of(&m), map_of(author_agg), set_of(named)),
{
    let ghost agg = map_of(author_agg);
    let ghost names = set_of(named);
    let entries = map_entries(author_agg);
    let ghost keys = entry_keys(entries@);
    let mut sums: FxHashMap<Oid, u64> = map_new();
    let mut i: usize = 0;
    while i < entries.len()
        invariant
            i <= entries@.len(),
            agg == map_of(author_agg),
            names == set_of(named),
            keys == entry_keys(entries@),
            lists_entries(entries@, author_agg),
            forall|c: Oid| #[trigger]
                map_of(&sums).contains_key(c) <==> has_member(seen(keys, i as int, c, names)),
            forall|c: Oid| #[trigger]
                map_of(&sums).contains_key(c) ==> map_of(&sums)[c] == lines_by(
                    agg,
                    c,
                    seen(keys, i as int, c, names),
                ),
        decreases entries@.len() - i,
    {
        let (key, count) = entries[i];
        let commit = key.0;
        let ghost a = key.1@;
        let ghost before = map_of(&sums);
        assert(keys[i as int] == (commit, a));
        if !set_contains(named, &key.1) {
            let ghost old_seen = seen(keys, i as int, commit, names);
            let ghost new_seen = seen(keys, i + 1, commit, names);
            proof {
                lemma_seen(keys, i as int, commit, names);
                assert(!old_seen.contains(a)) by {
                    if old_seen.contains(a) {
                        let k = choose|k: int| 0 <= k < i && #[trigger] keys[k] == (commit, a);
                        assert(entries@[k].0.model() != entries@[i as int].0.model());
                    }
                }
                assert(new_seen == old_seen.insert(a));
                lemma_lines_by_insert(agg, commit, old_seen, a);
                if !before.contains_key(commit) {
                    assert(old_seen =~= Set::empty());
                }
                assert(count_in(before, commit) == lines_by(agg, commit, old_seen));
                assert(count == count_in(agg, (commit, a)));
            }
            if !add_count(&mut sums, commit, count) {
                proof {
                    let all = authors_outside(agg, commit, names);
                    lemma_seen(keys, i + 1, commit, names);
                    lemma_seen(keys, entries@.len() as int, commit, names);
                    lemma_seen_all(author_agg, entries@, commit, names);
                    assert forall|x: Seq<char>| new_seen.contains(x) implies all.contains(x) by {
                        let k = choose|k: int| 0 <= k < i + 1 && #[trigger] keys[k] == (commit, x);
                        assert(keys[k] == (commit, x));
                        assert(seen(keys, entries@.len() as int, commit, names).contains(x));
                    }
                    lemma_lines_by_subset(agg, commit, new_seen, all);
                }
                return None;
            }
            proof {
                assert forall|c: Oid| #[trigger] map_of(&sums).contains_key(c) <==> has_member(
                    seen(keys, i + 1, c, names),
                ) by {
                    if c == commit {
                        assert(seen(keys, i + 1, c, names).contains(a));
                    } else {
                        assert(seen(keys, i + 1, c, names) == seen(keys, i as int, c, names));
                        assert(before.contains_key(c) || !before.contains_key(c));
                    }
                }
            }
        } else {
            assert forall|c: Oid| #[trigger] seen(keys, i + 1, c, names) == seen(
                keys,
                i as int,
                c,
                names,
            ) by {}
        }
        i += 1;
    }
    proof {
        assert forall|c: Oid| #[trigger] authors_outside(agg, c, names) == seen(
            keys,
            entries@.len() as int,
            c,
            names,
        ) by {
            lemma_seen_all(author_agg, entries@, c, names);
        }
        assert forall|c: Oid|
            #![trigger authors_outside(agg, c, names)]
            lines_by(agg, c, authors_outside(agg, c, names)) <= u64::MAX by {
            if map_of(&sums).contains_key(c) {
                let held: u64 = map_of(&sums)[c];
            } else {
                assert(authors_outside(agg, c, names) =~= Set::empty());
            }
        }
    }
    Some(sums)
}

/// The share of a commit's lines that the named authors must cover: `num / den`.
#[derive(Clone, Copy)]
pub struct Threshold {
    pub num: u64,
    pub den: u64,
}

/// Whether the given authors have at least the wanted share of a commit's lines.
pub open spec fn covers(
    agg: Map<(Oid, Seq<char>), u64>,
    commit: Oid,
    threshold: Threshold,
    authors: Set<Seq<char>>,
) -> bool {
    lines_by(agg, commit, authors) * threshold.den >= lines_by(
        agg,
        commit,
        commit_authors(agg, commit),
    ) * threshold.num
}

/// The authors in the list are those to be named at a commit: one after the
/// other the one with the most lines, until they cover the wanted share or no
/// author is left. Of authors with equally many lines either may come first.
pub open spec fn are_named(
    agg: Map<(Oid, Seq<char>), u64>,
    commit: Oid,
    threshold: Threshold,
    active: Seq<Seq<char>>,
) -> bool {
    let all = commit_authors(agg, commit);
    &&& all.finite()
    &&& active.no_duplicates()
    &&& forall|i: int| 0 <= i < active.len() ==> all.contains(#[trigger] active[i])
    &&& forall|i: int, j: int|
        0 <= i < j < active.len() ==> count_in(agg, (commit, #[trigger] active[i])) >= count_in(
            agg,
            (commit, #[trigger] active[j]),
        )
    &&& forall|i: int, a: Seq<char>|
        0 <= i < active.len() && #[trigger] all.contains(a) && !active.contains(a) ==> count_in(
            agg,
            (commit, #[trigger] active[i]),
        ) >= count_in(agg, (commit, a))
    &&& has_member(all) ==> active.len() > 0
    &&& covers(agg, commit, threshold, active.to_set()) || active.to_set() == all
    &&& forall|n: int|
        0 < n < active.len() ==> !covers(agg, commit, threshold, #[trigger] active.take(n).to_set())
}

/// Whether the lines of all authors fit a `u64` at every commit.
pub open spec fn authors_fit(agg: Map<(Oid, Seq<char>), u64>) -> bool {
    outside_fits(agg, Set::empty())
}

/// Whether the lines of all authors fit a `u64` at every commit.
pub fn check_authors_fit(author_agg: &AuthorAgg) -> (r: bool)
    ensures
        r == authors_fit(map_of(author_agg)),
{
    let none: FxHashSet<String> = set_new();
    lines_outside(author_agg, &none).is_some()
}

proof fn lemma_outside_fits(
    author_agg: &AuthorAgg,
    entries: Seq<(&(Oid, String), u64)>,
    named: Set<Seq<char>>,
)
    requires
        lists_entries(entries, author_agg),
        authors_fit(map_of(author_agg)),
    ensures
        outside_fits(map_of(author_agg), named),
{
    let agg = map_of(author_agg);
    assert forall|c: Oid|
        #![trigger authors_outside(agg, c, named)]
        lines_by(agg, c, authors_outside(agg, c, named)) <= u64::MAX by {
        lemma_seen_all(author_agg, entries, c, Set::empty());
        lemma_lines_by_subset(
            agg,
            c,
            authors_outside(agg, c, named),
            authors_outside(agg, c, Set::empty()),
        );
    }
}

/// The authors of a commit with their lines, in no particular order.
spec fn lists_head(agg: Map<(Oid, Seq<char>), u64>, commit: Oid, head: Seq<(String, u64)>) -> bool {
    &&& forall|i: int|
        0 <= i < head.len() ==> agg.contains_key((commit, (#[trigger] head[i]).0@)) && agg[(
            commit,
            head[i].0@,
        )] == head[i].1
    &&& forall|i: int, j: int|
        0 <= i < j < head.len() ==> (#[trigger] head[i]).0@ != (#[trigger] head[j]).0@
    &&& forall|a: Seq<char>| #[trigger]
        agg.contains_key((commit, a)) ==> exists|i: int|
            0 <= i < head.len() && (#[trigger] head[i]).0@ == a
}

/// The authors of a commit with their lines, and how many lines that is.
fn head_counts(author_agg: &AuthorAgg, commit: Oid) -> (r: (Vec<(String, u64)>, u64))
    requires
        authors_fit(map_of(author_agg)),
    ensures
        lists_head(map_of(author_agg), commit, r.0@),
        commit_authors(map_of(author_agg), commit).finite(),
        r.1 == lines_by(map_of(author_agg), commit, commit_authors(map_of(author_agg), commit)),
        forall|named: Set<Seq<char>>| #[trigger] outside_fits(map_of(author_agg), named),
{
    let ghost agg = map_of(author_agg);
    let ghost none = Set::<Seq<char>>::empty();
    let ghost all = commit_authors(agg, commit);
    let entries = map_entries(author_agg);
    let ghost keys = entry_keys(entries@);
    let mut head: Vec<(String, u64)> = Vec::new();
    let mut total: u64 = 0;
    let mut i: usize = 0;
    proof {
        lemma_seen_all(author_agg, entries@, commit, none);
        assert(authors_outside(agg, commit, none) =~= all);
        assert(lines_by(agg, commit, authors_outside(agg, commit, none)) <= u64::MAX);
        assert forall|named: Set<Seq<char>>| #[trigger] outside_fits(agg, named) by {
            lemma_outside_fits(author_agg, entries@, named);
        }
    }
    while i < entries.len()
        invariant
            i <= entries@.len(),
            agg == map_of(author_agg),
            none == Set::<Seq<char>>::empty(),
            all == commit_authors(agg, commit),
            all.finite(),
            lines_by(agg, commit, all) <= u64::MAX,
            keys == entry_keys(entries@),
            lists_entries(entries@, author_agg),
            total == lines_by(agg, commit, seen(keys, i as int, commit, none)),
            forall|k: int|
                0 <= k < head@.len() ==> agg.contains_key((commit, (#[trigger] head@[k]).0@))
                    && agg[(commit, head@[k].0@)] == head@[k].1 && seen(
                    keys,
                    i as int,
                    commit,
                    none,
                ).contains(head@[k].0@),
            forall|k: int, l: int|
                0 <= k < l < head@.len() ==> (#[trigger] head@[k]).0@ != (#[trigger] head@[l]).0@,
            forall|a: Seq<char>| #[trigger]
                seen(keys, i as int, commit, none).contains(a) ==> exists|k: int|
                    0 <= k < head@.len() && (#[trigger] head@[k]).0@ == a,
        decreases entries@.len() - i,
    {
        let (key, count) = entries[i];
        let ghost a = key.1@;
        assert(keys[i as int] == (key.0, a));
        let ghost old_seen = seen(keys, i as int, commit, none);
        let ghost new_seen = seen(keys, i + 1, commit, none);
        let ghost before = head@;
        if same_oid(&key.0, &commit) {
            proof {
                lemma_seen(keys, i as int, commit, none);
                lemma_seen(keys, i + 1, commit, none);
                assert(!old_seen.contains(a)) by {
                    if old_seen.contains(a) {
                        let k = choose|k: int| 0 <= k < i && #[trigger] keys[k] == (commit, a);
                        assert(entries@[k].0.model() != entries@[i as int].0.model());
                    }
                }
                assert(new_seen == old_seen.insert(a));
                lemma_lines_by_insert(agg, commit, old_seen, a);
                assert(entries@[i as int].0.model() == (commit, a));
                assert forall|x: Seq<char>| new_seen.contains(x) implies all.contains(x) by {
                    let k = choose|k: int| 0 <= k < i + 1 && #[trigger] keys[k] == (commit, x);
                    assert(entries@[k].0.model() == (commit, x));
                }
                lemma_lines_by_subset(agg, commit, new_seen, all);
            }
            head.push((key.1.clone(), count));
            total = total + count;
            proof {
                assert forall|x: Seq<char>| #[trigger] new_seen.contains(x) implies exists|k: int|
                    0 <= k < head@.len() && (#[trigger] head@[k]).0@ == x by {
                    if x == a {
                        assert(head@[before.len() as int].0@ == a);
                    } else {
                        assert(old_seen.contains(x));
                        let k = choose|k: int|
                            0 <= k < before.len() && (#[trigger] before[k]).0@ == x;
                        assert(head@[k].0@ == x);
                    }
                }
            }
        }
        i += 1;
    }
    proof {
        assert(seen(keys, i as int, commit, none) =~= all) by {
            lemma_seen_all(author_agg, entries@, commit, none);
            assert(authors_outside(agg, commit, none) =~= all);
        }
        assert forall|a: Seq<char>| #[trigger] agg.contains_key((commit, a)) implies exists|k: int|
            0 <= k < head@.len() && (#[trigger] head@[k]).0@ == a by {
            assert(seen(keys, i as int, commit, none).contains(a));
        }
    }
    (head, total)
}

/// The number of authors to name: the least `n`, from 1 on, whose first lines
/// are the wanted share of `total`, and all of them where there is none.
pub open spec fn is_cut(lines: Seq<u64>, total: int, threshold: Threshold, n: int) -> bool {
    &&& 0 <= n <= lines.len()
    &&& n == 0 ==> lines.len() == 0
    &&& n == lines.len() || prefix_sum(lines, n) * threshold.den >= total * threshold.num
    &&& forall|k: int|
        0 < k < n ==> #[trigger] prefix_sum(lines, k) * threshold.den < total * threshold.num
}

/// The keys that sort authors by their lines, most lines first.
pub open spec fn descending(head: Seq<(String, u64)>) -> Seq<i128> {
    Seq::new(head.len(), |i: int| (-(head[i].1 as int)) as i128)
}

/// The lines of the authors in the given order.
pub open spec fn lines_in_order(head: Seq<(String, u64)>, order: Seq<usize>) -> Seq<u64> {
    Seq::new(order.len(), |i: int| head[order[i] as int].1)
}

/// The first `n` names in the given order.
pub open spec fn names_in_order(head: Seq<(String, u64)>, order: Seq<usize>, n: int) -> Seq<
    Seq<char>,
> {
    Seq::new(n as nat, |i: int| head[order[i] as int].0@)
}

/// The least number of lines that is the wanted share of `total`, or nothing
/// where no number is.
fn wanted_lines(total: u64, threshold: Threshold) -> (r: Option<u128>)
    ensures
        forall|n: int|
            0 <= n ==> (#[trigger] (n * threshold.den) >= total * threshold.num <==> (r matches Some(w)
                && n >= w)),
{
    let max: u128 = 0xffff_ffff_ffff_ffff;
    assert(total as int * threshold.num as int <= max * max) by (nonlinear_arith)
        requires
            0 <= total <= max,
            0 <= threshold.num <= max,
            max == 0xffff_ffff_ffff_ffff,
    ;
    assert(max * max + max <= u128::MAX) by (nonlinear_arith)
        requires
            max == 0xffff_ffff_ffff_ffff,
    ;
    let least: u128 = total as u128 * threshold.num as u128;
    if threshold.den == 0 {
        assert forall|n: int| 0 <= n implies #[trigger] (n * threshold.den) == 0 by {
            assert(n * 0 == 0);
        }
        return if least == 0 {
            Some(0)
        } else {
            None
        };
    }
    let den = threshold.den as u128;
    let wanted: u128 = (least + (den - 1)) / den;
    assert forall|n: int| 0 <= n implies (#[trigger] (n * threshold.den) >= least <==> n >= wanted) by {
        assert(n * den >= least <==> n >= wanted) by (nonlinear_arith)
            requires
                den > 0,
                0 <= n,
                wanted == (least + (den - 1)) / den as int,
        ;
    }
    Some(wanted)
}

/// The authors of `head` to be named, most lines first, authors with equally
/// many lines in the order of `head`: so many that they have the wanted share
/// of `total` lines, but at least one, if there is one.
pub fn name_authors(head: &Vec<(String, u64)>, total: u64, threshold: Threshold) -> (r: Vec<String>)
    ensures
        exists|order: Seq<usize>| #[trigger]
            is_stable_order(descending(head@), order) && is_cut(
                lines_in_order(head@, order),
                total as int,
                threshold,
                r@.len() as int,
            ) && texts(r@) == names_in_order(head@, order, r@.len() as int),
{
    let mut keys: Vec<i128> = Vec::new();
    let mut i: usize = 0;
    while i < head.len()
        invariant
            i <= head@.len(),
            keys@ == descending(head@).take(i as int),
        decreases head@.len() - i,
    {
        keys.push(-(head[i].1 as i128));
        assert(descending(head@).take(i + 1) =~= descending(head@).take(i as int).push(
            descending(head@)[i as int],
        ));
        i += 1;
    }
    assert(descending(head@).take(i as int) =~= descending(head@));
    let order = stable_order(&keys);
    let ghost lines = lines_in_order(head@, order@);
    assert(is_stable_order(descending(head@), order@));
    let wanted = wanted_lines(total, threshold);
    let mut active: Vec<String> = Vec::new();
    let mut cumulative: u128 = 0;
    let mut k: usize = 0;
    assert(texts(active@) =~= names_in_order(head@, order@, 0));
    while k < order.len()
        invariant
            k <= order@.len(),
            order@.len() == head.len(),
            is_stable_order(descending(head@), order@),
            lines == lines_in_order(head@, order@),
            active@.len() == k,
            texts(active@) == names_in_order(head@, order@, k as int),
            cumulative == prefix_sum(lines, k as int),
            cumulative <= k * 0xffff_ffff_ffff_ffff,
            forall|n: int|
                0 <= n ==> (#[trigger] (n * threshold.den) >= total * threshold.num <==> (wanted matches Some(w)
                    && n >= w)),
            forall|n: int|
                0 < n <= k ==> #[trigger] prefix_sum(lines, n) * threshold.den < total
                    * threshold.num,
        decreases order@.len() - k,
    {
        let at = order[k];
        let ghost before = active@;
        active.push(head[at].0.clone());
        assert(texts(active@) =~= names_in_order(head@, order@, k + 1)) by {
            assert(texts(active@) =~= texts(before).push(head@[at as int].0@));
        }
        assert((k + 1) * 0xffff_ffff_ffff_ffff <= 0xffff_ffff_ffff_ffff * 0xffff_ffff_ffff_ffff)
            by (nonlinear_arith)
            requires
                0 <= k + 1 <= 0xffff_ffff_ffff_ffff,
        ;
        cumulative = cumulative + head[at].1 as u128;
        k += 1;
        assert(prefix_sum(lines, k as int) == cumulative);
        let enough = match wanted {
            Some(w) => cumulative >= w,
            None => false,
        };
        assert(enough <==> cumulative as int * threshold.den >= total * threshold.num);
        if enough {
            assert(is_cut(lines, total as int, threshold, k as int));
            return active;
        }
    }
    assert(is_cut(lines, total as int, threshold, k as int));
    active
}

/// The names in a stable order are all different, and the lines in that order
/// never grow.
proof fn lemma_in_order(
    agg: Map<(Oid, Seq<char>), u64>,
    commit: Oid,
    head: Seq<(String, u64)>,
    order: Seq<usize>,
)
    requires
        head.len() <= usize::MAX,
        lists_head(agg, commit, head),
        is_stable_order(descending(head), order),
    ensures
        names_in_order(head, order, head.len() as int).no_duplicates(),
        names_in_order(head, order, head.len() as int).to_set() == commit_authors(agg, commit),
        forall|i: int|
            0 <= i < head.len() ==> lines_in_order(head, order)[i] == count_in(
                agg,
                (commit, #[trigger] names_in_order(head, order, head.len() as int)[i]),
            ),
        forall|i: int, j: int|
            0 <= i < j < head.len() ==> #[trigger] lines_in_order(head, order)[i]
                >= #[trigger] lines_in_order(head, order)[j],
{
    let keys = descending(head);
    let names = names_in_order(head, order, head.len() as int);
    let lines = lines_in_order(head, order);
    assert forall|i: int, j: int| 0 <= i < j < names.len() implies names[i] != names[j] by {
        assert(goes_before(keys, order[i] as int, order[j] as int));
        let p = order[i] as int;
        let q = order[j] as int;
        assert(p != q);
        assert(head[p].0@ != head[q].0@);
    }
    assert forall|i: int, j: int| 0 <= i < j < head.len() implies lines[i] >= lines[j] by {
        assert(goes_before(keys, order[i] as int, order[j] as int));
    }
    assert forall|a: Seq<char>| names.to_set().contains(a) == commit_authors(agg, commit).contains(
        a,
    ) by {
        if names.to_set().contains(a) {
            let i = choose|i: int| 0 <= i < names.len() && names[i] == a;
            assert(agg.contains_key((commit, head[order[i] as int].0@)));
        }
        if agg.contains_key((commit, a)) {
            let k = choose|k: int| 0 <= k < head.len() && (#[trigger] head[k]).0@ == a;
            assert(order.contains(k as usize));
            let i = choose|i: int| 0 <= i < order.len() && order[i] == k as usize;
            assert(names[i] == a);
        }
    }
    assert(names.to_set() =~= commit_authors(agg, commit));
    assert forall|i: int| 0 <= i < head.len() implies lines[i] == count_in(
        agg,
        (commit, #[trigger] names[i]),
    ) by {
        assert(agg.contains_key((commit, head[order[i] as int].0@)));
    }
}

/// The lines of the first `n` authors of a list.
proof fn lemma_prefix_is_lines_by(
    agg: Map<(Oid, Seq<char>), u64>,
    commit: Oid,
    names: Seq<Seq<char>>,
    lines: Seq<u64>,
    n: int,
)
    requires
        0 <= n <= names.len(),
        names.len() == lines.len(),
        names.no_duplicates(),
        forall|i: int|
            0 <= i < names.len() ==> lines[i] == count_in(agg, (commit, #[trigger] names[i])),
    ensures
        names.take(n).to_set().finite(),
        prefix_sum(lines, n) == lines_by(agg, commit, names.take(n).to_set()),
    decreases n,
{
    if n == 0 {
        assert(names.take(0).to_set() =~= Set::empty());
    } else {
        lemma_prefix_is_lines_by(agg, commit, names, lines, n - 1);
        let fewer = names.take(n - 1).to_set();
        let a = names[n - 1];
        assert(!fewer.contains(a)) by {
            if fewer.contains(a) {
                let i = choose|i: int| 0 <= i < n - 1 && #[trigger] names.take(n - 1)[i] == a;
                assert(names[i] == a);
            }
        }
        assert forall|x: Seq<char>| names.take(n).to_set().contains(x) == fewer.insert(a).contains(
            x,
        ) by {
            if names.take(n).to_set().contains(x) {
                let i = choose|i: int| 0 <= i < n && #[trigger] names.take(n)[i] == x;
                if i < n - 1 {
                    assert(names.take(n - 1)[i] == x);
                }
            }
            if fewer.contains(x) {
                let i = choose|i: int| 0 <= i < n - 1 && #[trigger] names.take(n - 1)[i] == x;
                assert(names.take(n)[i] == x);
            }
            assert(names.take(n)[n - 1] == a);
        }
        assert(names.take(n).to_set() =~= fewer.insert(a));
        lemma_lines_by_insert(agg, commit, fewer, a);
    }
}

/// The first authors of a stable order, cut where they cover the wanted share,
/// are those to be named.
proof fn lemma_are_named(
    agg: Map<(Oid, Seq<char>), u64>,
    commit: Oid,
    threshold: Threshold,
    head: Seq<(String, u64)>,
    order: Seq<usize>,
    n: int,
)
    requires
        commit_authors(agg, commit).finite(),
        head.len() <= usize::MAX,
        lists_head(agg, commit, head),
        is_stable_order(descending(head), order),
        is_cut(
            lines_in_order(head, order),
            lines_by(agg, commit, commit_authors(agg, commit)),
            threshold,
            n,
        ),
    ensures
        are_named(agg, commit, threshold, names_in_order(head, order, n)),
{
    lemma_in_order(agg, commit, head, order);
    let all = commit_authors(agg, commit);
    let names = names_in_order(head, order, head.len() as int);
    let lines = lines_in_order(head, order);
    let active = names_in_order(head, order, n);
    assert(active =~= names.take(n));
    assert forall|i: int| 0 <= i < active.len() implies all.contains(#[trigger] active[i]) by {
        assert(names.to_set().contains(names[i]));
    }
    assert forall|i: int, j: int| 0 <= i < j < active.len() implies count_in(
        agg,
        (commit, #[trigger] active[i]),
    ) >= count_in(agg, (commit, #[trigger] active[j])) by {
        assert(lines[i] >= lines[j]);
        assert(names[i] == active[i] && names[j] == active[j]);
    }
    assert forall|i: int, a: Seq<char>|
        0 <= i < active.len() && #[trigger] all.contains(a) && !active.contains(a) implies count_in(
        agg,
        (commit, #[trigger] active[i]),
    ) >= count_in(agg, (commit, a)) by {
        assert(names.to_set().contains(a));
        let j = choose|j: int| 0 <= j < names.len() && names[j] == a;
        if j < n {
            assert(active[j] == a);
        }
        assert(lines[i] >= lines[j]);
        assert(names[i] == active[i]);
    }
    if has_member(all) {
        let a = choose|a: Seq<char>| all.contains(a);
        assert(names.to_set().contains(a));
        assert(lines.len() > 0);
    }
    lemma_prefix_is_lines_by(agg, commit, names, lines, n);
    if n == lines.len() {
        assert(active =~= names);
    }
    assert forall|k: int| 0 < k < active.len() implies !covers(
        agg,
        commit,
        threshold,
        #[trigger] active.take(k).to_set(),
    ) by {
        lemma_prefix_is_lines_by(agg, commit, names, lines, k);
        assert(active.take(k) =~= names.take(k));
        assert(prefix_sum(lines, k) * threshold.den < lines_by(agg, commit, all) * threshold.num);
    }
}

/// The authors to be named, by their lines at the last sampled commit; whether
/// that commit has other authors too; and, if it has, the lines of the authors
/// who are not named, at every commit.
pub open spec fn is_selection(
    agg: Map<(Oid, Seq<char>), u64>,
    sampled: Seq<(Oid, i64)>,
    threshold: Threshold,
    active: Seq<Seq<char>>,
    has_other: bool,
    commit_other: Map<Oid, u64>,
) -> bool {
    &&& sampled.len() == 0 ==> active.len() == 0 && !has_other
    &&& sampled.len() > 0 ==> are_named(agg, sampled.last().0, threshold, active)
    &&& sampled.len() > 0 ==> has_other == has_member(
        authors_outside(agg, sampled.last().0, active.to_set()),
    )
    &&& has_other ==> sums_outside(commit_other, agg, active.to_set())
    &&& !has_other ==> commit_other == Map::<Oid, u64>::empty()
}

/// Selects the authors to be named.
pub fn select_authors(
    author_agg: &AuthorAgg,
    sampled: &Vec<(Oid, i64)>,
    threshold: Threshold,
) -> (r: (Vec<String>, bool, FxHashMap<Oid, u64>))
    requires
        authors_fit(map_of(author_agg)),
    ensures
        is_selection(
            map_of(author_agg),
            sampled@,
            threshold,
            texts(r.0@),
            r.1,
            map_of(&r.2),
        ),
{
    let none: FxHashMap<Oid, u64> = map_new();
    if sampled.len() == 0 {
        return (Vec::new(), false, none);
    }
    let ghost agg = map_of(author_agg);
    let last = sampled[sampled.len() - 1].0;
    let (head, total) = head_counts(author_agg, last);
    let active = name_authors(&head, total, threshold);
    assert(head.len() == head@.len());
    proof {
        let order = choose|order: Seq<usize>| #[trigger]
            is_stable_order(descending(head@), order) && is_cut(
                lines_in_order(head@, order),
                total as int,
                threshold,
                active@.len() as int,
            ) && texts(active@) == names_in_order(head@, order, active@.len() as int);
        lemma_are_named(agg, last, threshold, head@, order, active@.len() as int);
    }
    let ghost named = texts(active@).to_set();
    let mut active_set: FxHashSet<String> = set_new();
    let mut i: usize = 0;
    assert(texts(active@).take(0).to_set() =~= Set::empty());
    while i < active.len()
        invariant
            i <= active@.len(),
            set_of(&active_set) == texts(active@).take(i as int).to_set(),
        decreases active@.len() - i,
    {
        set_insert(&mut active_set, active[i].clone());
        assert(texts(active@).take(i + 1) =~= texts(active@).take(i as int).push(active@[i as int]@));
        assert(texts(active@).take(i as int).push(active@[i as int]@).to_set() =~= texts(
            active@,
        ).take(i as int).to_set().insert(active@[i as int]@)) by {
            broadcast use vstd::seq_lib::group_seq_properties;

        }
        i += 1;
    }
    assert(texts(active@).take(i as int) =~= texts(active@));
    assert(outside_fits(agg, named));
    let commit_other = lines_outside(author_agg, &active_set).unwrap();
    let has_other = map_get(&commit_other, &last).is_some();
    assert(has_other == has_member(authors_outside(agg, last, named))) by {
        assert(map_of(&commit_other).contains_key(last) || !map_of(&commit_other).contains_key(last));
    }
    if has_other {
        (active, true, commit_other)
    } else {
        (active, false, none)
    }
}

/// As many authors as `some` has, each with at least the lines of those of
/// `some` who are not among them, have at least the lines of `some`.
proof fn lemma_top_have_most(
    agg: Map<(Oid, Seq<char>), u64>,
    commit: Oid,
    top: Set<Seq<char>>,
    some: Set<Seq<char>>,
)
    requires
        top.finite(),
        some.finite(),
        some.len() <= top.len(),
        forall|t: Seq<char>, a: Seq<char>| #[trigger]
            top.contains(t) && #[trigger] some.contains(a) && !top.contains(a) ==> count_in(
                agg,
                (commit, t),
            ) >= count_in(agg, (commit, a)),
    ensures
        lines_by(agg, commit, some) <= lines_by(agg, commit, top),
    decreases some.len(),
{
    if some.len() == 0 {
        lemma_lines_by_subset(agg, commit, Set::empty(), top);
    } else {
        let a = some.choose();
        if top.contains(a) {
            lemma_lines_by_remove(agg, commit, top, a);
            lemma_lines_by_remove(agg, commit, some, a);
            lemma_top_have_most(agg, commit, top.remove(a), some.remove(a));
        } else {
            assert(has_member(top.difference(some))) by {
                if !has_member(top.difference(some)) {
                    assert forall|t: Seq<char>| top.contains(t) implies some.remove(a).contains(
                        t,
                    ) by {
                        assert(!top.difference(some).contains(t));
                    }
                    vstd::set_lib::lemma_len_subset(top, some.remove(a));
                }
            }
            let t = choose|t: Seq<char>| top.difference(some).contains(t);
            assert(top.contains(t) && some.contains(a));
            lemma_lines_by_remove(agg, commit, top, t);
            lemma_lines_by_remove(agg, commit, some, a);
            lemma_top_have_most(agg, commit, top.remove(t), some.remove(a));
        }
    }
}

/// The named authors are as few as can be: every set of authors of the commit
/// that has a member and the wanted share of the lines has at least as many.
pub proof fn law_fewest_named(
    agg: Map<(Oid, Seq<char>), u64>,
    commit: Oid,
    threshold: Threshold,
    active: Seq<Seq<char>>,
    rival: Set<Seq<char>>,
)
    requires
        are_named(agg, commit, threshold, active),
        has_member(rival),
        rival.subset_of(commit_authors(agg, commit)),
        covers(agg, commit, threshold, rival),
    ensures
        active.len() <= rival.len(),
{
    let all = commit_authors(agg, commit);
    vstd::set_lib::lemma_set_subset_finite(all, rival);
    let m = rival.len() as int;
    assert(m > 0) by {
        let a = choose|a: Seq<char>| rival.contains(a);
        if m == 0 {
            assert(rival =~= Set::empty());
        }
    }
    if m < active.len() {
        let top = active.take(m).to_set();
        assert(!covers(agg, commit, threshold, top));
        active.take(m).unique_seq_to_set();
        assert forall|t: Seq<char>, a: Seq<char>| #[trigger]
            top.contains(t) && #[trigger] rival.contains(a) && !top.contains(a) implies count_in(
            agg,
            (commit, t),
        ) >= count_in(agg, (commit, a)) by {
            let i = choose|i: int| 0 <= i < m && #[trigger] active.take(m)[i] == t;
            assert(active[i] == t);
            assert(all.contains(a));
            if active.contains(a) {
                let j = choose|j: int| 0 <= j < active.len() && active[j] == a;
                if j < m {
                    assert(active.take(m)[j] == a);
                }
                assert(active[i] == t && active[j] == a);
            }
        }
        lemma_top_have_most(agg, commit, top, rival);
        let x = lines_by(agg, commit, rival);
        let y = lines_by(agg, commit, top);
        let den = threshold.den as int;
        assert(x * den <= y * den) by (nonlinear_arith)
            requires
                x <= y,
                den >= 0,
        ;
    }
}

/// Where the wanted share is at most the whole, the named authors have it.
pub proof fn law_share_is_covered(
    agg: Map<(Oid, Seq<char>), u64>,
    commit: Oid,
    threshold: Threshold,
    active: Seq<Seq<char>>,
)
    requires
        are_named(agg, commit, threshold, active),
        threshold.num <= threshold.den,
    ensures
        covers(agg, commit, threshold, active.to_set()),
{
    let all = commit_authors(agg, commit);
    lemma_lines_by_subset(agg, commit, all, all);
    let x = lines_by(agg, commit, all);
    let num = threshold.num as int;
    let den = threshold.den as int;
    assert(x * num <= x * den) by (nonlinear_arith)
        requires
            x >= 0,
            0 <= num <= den,
    ;
}

/// The named authors and the rest have all the lines of a commit between them.
pub proof fn law_no_line_lost(
    agg: Map<(Oid, Seq<char>), u64>,
    commit: Oid,
    named: Set<Seq<char>>,
)
    requires
        commit_authors(agg, commit).finite(),
    ensures
        lines_by(agg, commit, commit_authors(agg, commit)) == lines_by(
            agg,
            commit,
            commit_authors(agg, commit).intersect(named),
        ) + lines_by(agg, commit, authors_outside(agg, commit, named)),
{
    let all = commit_authors(agg, commit);
    lemma_lines_by_split(agg, commit, all, named);
}

proof fn lemma_lines_by_split(
    agg: Map<(Oid, Seq<char>), u64>,
    commit: Oid,
    all: Set<Seq<char>>,
    named: Set<Seq<char>>,
)
    requires
        all.finite(),
    ensures
        lines_by(agg, commit, all) == lines_by(agg, commit, all.intersect(named)) + lines_by(
            agg,
            commit,
            all.difference(named),
        ),
    decreases all.len(),
{
    if all.len() == 0 {
        assert(all.intersect(named) =~= all);
        assert(all.difference(named) =~= all);
    } else {
        let a = all.choose();
        lemma_lines_by_split(agg, commit, all.remove(a), named);
        if named.contains(a) {
            lemma_lines_by_remove(agg, commit, all.intersect(named), a);
            assert(all.intersect(named).remove(a) =~= all.remove(a).intersect(named));
            assert(all.difference(named) =~= all.remove(a).difference(named));
        } else {
            lemma_lines_by_remove(agg, commit, all.difference(named), a);
            assert(all.difference(named).remove(a) =~= all.remove(a).difference(named));
            assert(all.intersect(named) =~= all.remove(a).intersect(named));
        }
    }
}

/// The lines of one author, as the table has them.
pub open spec fn lines_of_author(
    agg: Map<(Oid, Seq<char>), u64>,
    commit: Oid,
    author: Seq<char>,
) -> int {
    if agg.contains_key((commit, author)) {
        agg[(commit, author)] as int
    } else {
        0
    }
}

/// The lines of the authors of a list, one after the other.
pub open spec fn lines_of_authors(
    agg: Map<(Oid, Seq<char>), u64>,
    commit: Oid,
    authors: Seq<Seq<char>>,
) -> int {
    authors.fold_left(0int, |sum: int, a: Seq<char>| sum + lines_of_author(agg, commit, a))
}

proof fn lemma_lines_of_authors(
    agg: Map<(Oid, Seq<char>), u64>,
    commit: Oid,
    authors: Seq<Seq<char>>,
)
    requires
        authors.no_duplicates(),
    ensures
        authors.to_set().finite(),
        lines_of_authors(agg, commit, authors) == lines_by(agg, commit, authors.to_set()),
    decreases authors.len(),
{
    reveal_with_fuel(Seq::fold_left, 2);
    vstd::seq_lib::seq_to_set_is_finite(authors);
    if authors.len() == 0 {
        assert(authors.to_set() =~= Set::empty());
    } else {
        let fewer = authors.drop_last();
        let a = authors.last();
        lemma_lines_of_authors(agg, commit, fewer);
        assert(!fewer.to_set().contains(a)) by {
            if fewer.to_set().contains(a) {
                let i = choose|i: int| 0 <= i < fewer.len() && fewer[i] == a;
                assert(authors[i] == authors[authors.len() - 1]);
            }
        }
        assert forall|x: Seq<char>| authors.to_set().contains(x) == fewer.to_set().insert(
            a,
        ).contains(x) by {
            if authors.contains(x) && x != a {
                let i = choose|i: int| 0 <= i < authors.len() && authors[i] == x;
                assert(fewer[i] == x);
            }
            if fewer.contains(x) {
                let i = choose|i: int| 0 <= i < fewer.len() && fewer[i] == x;
                assert(authors[i] == x);
            }
            assert(authors[authors.len() - 1] == a);
        }
        assert(authors.to_set() =~= fewer.to_set().insert(a));
        lemma_lines_by_insert(agg, commit, fewer.to_set(), a);
    }
}

/// The authors that are named are different authors of the last sampled commit, none
/// with fewer lines there than one behind them or one who is not named. Together
/// they have the wanted share of the commit's lines, or are all its authors; one
/// fewer of them would not have it; and there is one, if the commit has one.
/// `everyone` lists all the authors of the commit.
pub proof fn law_who_is_named(
    agg: Map<(Oid, Seq<char>), u64>,
    sampled: Seq<(Oid, i64)>,
    threshold: Threshold,
    active: Seq<Seq<char>>,
    has_other: bool,
    commit_other: Map<Oid, u64>,
    everyone: Seq<Seq<char>>,
    i: int,
    a: Seq<char>,
)
    requires
        is_selection(agg, sampled, threshold, active, has_other, commit_other),
        sampled.len() > 0,
        everyone.no_duplicates(),
        forall|x: Seq<char>| #[trigger]
            everyone.contains(x) <==> agg.contains_key((sampled.last().0, x)),
    ensures
        ({
            let commit = sampled.last().0;
            let wanted = lines_of_authors(agg, commit, everyone) * threshold.num;
            &&& active.no_duplicates()
            &&& active.contains(a) ==> everyone.contains(a)
            &&& 0 <= i < active.len() && everyone.contains(a) && (forall|k: int|
                0 <= k < i ==> #[trigger] active[k] != a) ==> lines_of_author(agg, commit, active[i])
                >= lines_of_author(agg, commit, a)
            &&& everyone.len() > 0 ==> active.len() > 0
            &&& lines_of_authors(agg, commit, active) * threshold.den >= wanted || forall|x: Seq<char>|
                #[trigger] everyone.contains(x) ==> active.contains(x)
            &&& 0 < i < active.len() ==> lines_of_authors(agg, commit, active.take(i))
                * threshold.den < wanted
            &&& has_other <==> exists|x: Seq<char>| #[trigger]
                everyone.contains(x) && !active.contains(x)
        }),
{
    let commit = sampled.last().0;
    let all = commit_authors(agg, commit);
    assert forall|x: Seq<char>| everyone.to_set().contains(x) == all.contains(x) by {
        assert(everyone.contains(x) <==> agg.contains_key((commit, x)));
    }
    assert(everyone.to_set() =~= all);
    lemma_lines_of_authors(agg, commit, everyone);
    lemma_lines_of_authors(agg, commit, active);
    if active.contains(a) {
        let k = choose|k: int| 0 <= k < active.len() && active[k] == a;
        assert(all.contains(active[k]));
    }
    if 0 <= i < active.len() && everyone.contains(a) && forall|k: int|
        0 <= k < i ==> #[trigger] active[k] != a {
        assert(all.contains(a));
        if active.contains(a) {
            let k = choose|k: int| 0 <= k < active.len() && active[k] == a;
            if k > i {
                assert(count_in(agg, (commit, active[i])) >= count_in(agg, (commit, active[k])));
            }
        }
    }
    if everyone.len() > 0 {
        assert(everyone.contains(everyone[0]));
        assert(all.contains(everyone[0]));
    }
    if active.to_set() == all {
        assert forall|x: Seq<char>| #[trigger] everyone.contains(x) implies active.contains(x) by {
            assert(all.contains(x));
            assert(active.to_set().contains(x));
        }
    }
    if 0 < i < active.len() {
        assert(active.take(i).no_duplicates());
        lemma_lines_of_authors(agg, commit, active.take(i));
        assert(!covers(agg, commit, threshold, active.take(i).to_set()));
    }
    let outside = authors_outside(agg, commit, active.to_set());
    if has_other {
        let x = choose|x: Seq<char>| outside.contains(x);
        assert(outside.contains(x));
        assert(everyone.contains(x));
        assert(!active.contains(x));
    }
    if exists|x: Seq<char>| #[trigger] everyone.contains(x) && !active.contains(x) {
        let x = choose|x: Seq<char>| #[trigger] everyone.contains(x) && !active.contains(x);
        assert(outside.contains(x));
    }
}

/// The lines of the others at a commit are those of its authors who are not named:
/// `others` lists them. Where nobody is left out at the last commit, nothing is
/// said of others at all; and without commits nobody is named.
pub proof fn law_lines_of_the_others(
    agg: Map<(Oid, Seq<char>), u64>,
    sampled: Seq<(Oid, i64)>,
    threshold: Threshold,
    active: Seq<Seq<char>>,
    has_other: bool,
    commit_other: Map<Oid, u64>,
    commit: Oid,
    others: Seq<Seq<char>>,
)
    requires
        is_selection(agg, sampled, threshold, active, has_other, commit_other),
        others.no_duplicates(),
        forall|x: Seq<char>| #[trigger]
            others.contains(x) <==> agg.contains_key((commit, x)) && !active.contains(x),
    ensures
        has_other ==> (commit_other.contains_key(commit) <==> others.len() > 0),
        has_other && others.len() > 0 ==> commit_other[commit] == lines_of_authors(
            agg,
            commit,
            others,
        ),
        !has_other ==> !commit_other.contains_key(commit),
        sampled.len() == 0 ==> active.len() == 0 && !has_other,
{
    let outside = authors_outside(agg, commit, active.to_set());
    assert forall|x: Seq<char>| others.to_set().contains(x) == outside.contains(x) by {
        assert(others.contains(x) <==> agg.contains_key((commit, x)) && !active.contains(x));
    }
    assert(others.to_set() =~= outside);
    lemma_lines_of_authors(agg, commit, others);
    if others.len() > 0 {
        assert(others.contains(others[0]));
        assert(outside.contains(others[0]));
    }
    if has_other {
        assert(commit_other.contains_key(commit) <==> has_member(outside));
        if others.len() > 0 {
            let held: u64 = commit_other[commit];
            assert(held == lines_by(agg, commit, outside));
        }
        if has_member(outside) {
            let x = choose|x: Seq<char>| outside.contains(x);
            assert(others.to_set().contains(x));
        }
    }
}

/// The lines of all authors fit if and only if at no commit their sum is above the
/// largest `u64`. `everyone` lists all the authors of a commit.
pub proof fn law_when_authors_fit(
    agg: Map<(Oid, Seq<char>), u64>,
    everyone: spec_fn(Oid) -> Seq<Seq<char>>,
)
    requires
        forall|commit: Oid| (#[trigger] everyone(commit)).no_duplicates(),
        forall|commit: Oid, x: Seq<char>| #[trigger]
            everyone(commit).contains(x) <==> agg.contains_key((commit, x)),
    ensures
        authors_fit(agg) <==> forall|commit: Oid|
            lines_of_authors(agg, commit, #[trigger] everyone(commit)) <= 0xffff_ffff_ffff_ffff,
{
    let none = Set::<Seq<char>>::empty();
    assert forall|commit: Oid|
        lines_of_authors(agg, commit, #[trigger] everyone(commit)) == lines_by(
            agg,
            commit,
            authors_outside(agg, commit, none),
        ) by {
        let outside = authors_outside(agg, commit, none);
        assert forall|x: Seq<char>| everyone(commit).to_set().contains(x) == outside.contains(x) by {
            assert(everyone(commit).contains(x) <==> agg.contains_key((commit, x)));
        }
        assert(everyone(commit).to_set() =~= outside);
        lemma_lines_of_authors(agg, commit, everyone(commit));
    }
    if authors_fit(agg) {
        assert forall|commit: Oid|
            lines_of_authors(agg, commit, #[trigger] everyone(commit)) <= 0xffff_ffff_ffff_ffff by {
            let outside = authors_outside(agg, commit, none);
            assert(lines_by(agg, commit, outside) <= u64::MAX);
        }
    }
    if forall|commit: Oid|
        lines_of_authors(agg, commit, #[trigger] everyone(commit)) <= 0xffff_ffff_ffff_ffff {
        assert forall|commit: Oid|
            #![trigger authors_outside(agg, commit, none)]
            lines_by(agg, commit, authors_outside(agg, commit, none)) <= u64::MAX by {
            assert(lines_of_authors(agg, commit, everyone(commit)) <= 0xffff_ffff_ffff_ffff);
        }
    }
}

/// At each commit the lines of those who are not among the given names are added
/// up, where there is somebody who is not. `others` lists them.
pub proof fn law_lines_outside(
    author_agg: &AuthorAgg,
    named: &FxHashSet<String>,
    r: Option<FxHashMap<Oid, u64>>,
    commit: Oid,
    others: Seq<Seq<char>>,
)
    requires
        call_ensures(lines_outside, (author_agg, named), r),
        others.no_duplicates(),
        forall|x: Seq<char>| #[trigger]
            others.contains(x) <==> map_of(author_agg).contains_key((commit, x)) && !set_of(
                named,
            ).contains(x),
    ensures
        lines_of_authors(map_of(author_agg), commit, others) > 0xffff_ffff_ffff_ffff ==> r is None,
        r matches Some(m) ==> (map_of(&m).contains_key(commit) <==> others.len() > 0),
        r matches Some(m) ==> others.len() > 0 ==> map_of(&m)[commit] == lines_of_authors(
            map_of(author_agg),
            commit,
            others,
        ),
{
    let agg = map_of(author_agg);
    let outside = authors_outside(agg, commit, set_of(named));
    assert forall|x: Seq<char>| others.to_set().contains(x) == outside.contains(x) by {
        assert(others.contains(x) <==> agg.contains_key((commit, x)) && !set_of(named).contains(x));
    }
    assert(others.to_set() =~= outside);
    lemma_lines_of_authors(agg, commit, others);
    if others.len() > 0 {
        assert(others.contains(others[0]));
        assert(outside.contains(others[0]));
    }
    if has_member(outside) {
        let x = choose|x: Seq<char>| outside.contains(x);
        assert(others.to_set().contains(x));
    }
    if let Some(m) = r {
        assert(map_of(&m).contains_key(commit) <==> has_member(outside));
        if others.len() > 0 {
            let held: u64 = map_of(&m)[commit];
            assert(held == lines_by(agg, commit, outside));
        }
    }
}

/// The names are those of different places of the list, those with more lines
/// first; they are as few as reach the wanted share of the total, and at least one.
pub proof fn law_name_authors(
    head: &Vec<(String, u64)>,
    total: u64,
    threshold: Threshold,
    r: Vec<String>,
) -> (places: Seq<usize>)
    requires
        call_ensures(name_authors, (head, total, threshold), r),
    ensures
        places.len() == r@.len() <= head@.len(),
        places.no_duplicates(),
        forall|i: int|
            0 <= i < r@.len() ==> places[i] < head@.len() && (#[trigger] r@[i])@
                == head@[places[i] as int].0@,
        forall|i: int, j: int|
            0 <= i < j < r@.len() ==> head@[#[trigger] places[i] as int].1 >= head@[
                #[trigger] places[j] as int].1,
        forall|i: int, k: usize|
            0 <= i < r@.len() && k < head@.len() && !#[trigger] places.contains(k) ==> head@[
                #[trigger] places[i] as int].1 >= head@[k as int].1,
        head@.len() > 0 ==> r@.len() > 0,
        ({
            let lines = Seq::new(places.len(), |i: int| head@[places[i] as int].1);
            &&& r@.len() == head@.len() || prefix_sum(lines, lines.len() as int) * threshold.den
                >= total * threshold.num
            &&& forall|k: int|
                0 < k < lines.len() ==> #[trigger] prefix_sum(lines, k) * threshold.den < total
                    * threshold.num
        }),
{
    let n = r@.len() as int;
    let order = choose|order: Seq<usize>| #[trigger]
        is_stable_order(descending(head@), order) && is_cut(
            lines_in_order(head@, order),
            total as int,
            threshold,
            n,
        ) && texts(r@) == names_in_order(head@, order, n);
    let keys = descending(head@);
    law_stable_order(keys, order);
    let places = order.take(n);
    let lines = Seq::new(places.len(), |i: int| head@[places[i] as int].1);
    assert forall|i: int| 0 <= i < n implies places[i] < head@.len() && (#[trigger] r@[i])@
        == head@[places[i] as int].0@ by {
        assert(texts(r@)[i] == r@[i]@);
        assert(order[i] < keys.len());
    }
    assert forall|i: int, j: int| 0 <= i < j < n implies head@[#[trigger] places[i] as int].1
        >= head@[#[trigger] places[j] as int].1 by {
        assert(keys[order[i] as int] <= keys[order[j] as int]);
    }
    assert forall|i: int, k: usize|
        0 <= i < n && k < head@.len() && !#[trigger] places.contains(k) implies head@[
        #[trigger] places[i] as int].1 >= head@[k as int].1 by {
        assert(order.contains(k as usize));
        let j = choose|j: int| 0 <= j < order.len() && order[j] == k;
        if j < n {
            assert(places[j] == k);
        }
        assert(keys[order[i] as int] <= keys[order[j] as int]);
    }
    assert forall|k: int| 0 <= k <= n implies #[trigger] prefix_sum(lines, k) == prefix_sum(
        lines_in_order(head@, order),
        k,
    ) by {
        lemma_same_prefix_sum(lines, lines_in_order(head@, order), k);
    }
    places
}

proof fn lemma_same_prefix_sum(a: Seq<u64>, b: Seq<u64>, k: int)
    requires
        k <= a.len() <= b.len(),
        forall|i: int| 0 <= i < a.len() ==> a[i] == b[i],
    ensures
        prefix_sum(a, k) == prefix_sum(b, k),
    decreases k,
{
    if k > 0 {
        lemma_same_prefix_sum(a, b, k - 1);
    }
}

} // verus!
