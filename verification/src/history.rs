//! The commits of a history, in the order of time, without those whose trees
//! hold something else than the project.

use crate::fx::{
    map_get, map_insert, map_len, map_new, map_of, set_contains, set_insert, set_new, set_of,
};
use crate::sort::{
    goes_before, is_stable_order, law_order_is_a_rearrangement, law_stable_order, stable_order,
};
use crate::text::{chars_of, has_prefix, starts_with};
use crate::types::Oid;
use rustc_hash::{FxHashMap, FxHashSet};
use vstd::prelude::*;

verus! {

/// A commit as the walk over the history meets it: its time, its first parent,
/// and its message where that is readable.
pub struct CommitRecord {
    pub oid: Oid,
    pub ts: i64,
    pub first_parent: Option<Oid>,
    pub message: Option<String>,
}

/// Why there is no list of commits.
#[derive(Clone, Copy)]
pub enum HistoryError {
    /// The walk met no commit.
    NoCommits,
    /// A first parent that the walk did not meet.
    MissingCommit(Oid),
    /// First parents that lead round in a circle.
    EndlessChain,
}

/// The first parents of the commits of a history.
pub type FirstParents = FxHashMap<Oid, Option<Oid>>;

/// The commit that `n` steps from first parent to first parent lead to.
pub open spec fn ancestor(parents: Map<Oid, Option<Oid>>, oid: Oid, n: nat) -> Option<Oid>
    decreases n,
{
    if n == 0 {
        Some(oid)
    } else {
        match ancestor(parents, oid, (n - 1) as nat) {
            Some(a) => if parents.contains_key(a) {
                parents[a]
            } else {
                None
            },
            None => None,
        }
    }
}

/// Whether the chain of first parents ends after `n` steps: with a root commit,
/// or with a commit that the history does not hold.
pub open spec fn ends_after(parents: Map<Oid, Option<Oid>>, oid: Oid, n: nat) -> bool {
    match ancestor(parents, oid, n) {
        Some(a) => !parents.contains_key(a) || parents[a] is None,
        None => false,
    }
}

/// Where a chain of first parents leads.
pub enum ChainEnd {
    Root(Oid),
    Missing(Oid),
    Endless,
}

/// Where the chain of first parents leads.
pub open spec fn chain_end(parents: Map<Oid, Option<Oid>>, oid: Oid) -> ChainEnd {
    if exists|n: nat| ends_after(parents, oid, n) {
        let a = ancestor(parents, oid, choose|n: nat| ends_after(parents, oid, n))->0;
        if parents.contains_key(a) {
            ChainEnd::Root(a)
        } else {
            ChainEnd::Missing(a)
        }
    } else {
        ChainEnd::Endless
    }
}

/// One step less from the first parent.
proof fn lemma_ancestor_of_parent(parents: Map<Oid, Option<Oid>>, oid: Oid, p: Oid, n: nat)
    requires
        parents.contains_key(oid),
        parents[oid] == Some(p),
    ensures
        ancestor(parents, oid, n + 1) == ancestor(parents, p, n),
    decreases n,
{
    reveal_with_fuel(ancestor, 2);
    if n > 0 {
        lemma_ancestor_of_parent(parents, oid, p, (n - 1) as nat);
    }
}

/// A chain that has ended does not go on.
proof fn lemma_ended(parents: Map<Oid, Option<Oid>>, oid: Oid, m: nat, n: nat)
    requires
        ends_after(parents, oid, m),
        m < n,
    ensures
        ancestor(parents, oid, n) is None,
    decreases n,
{
    if n > m + 1 {
        lemma_ended(parents, oid, m, (n - 1) as nat);
    }
}

/// A chain ends in one place.
proof fn lemma_one_end(parents: Map<Oid, Option<Oid>>, oid: Oid, n: nat)
    requires
        ends_after(parents, oid, n),
    ensures
        chain_end(parents, oid) == (if parents.contains_key(ancestor(parents, oid, n)->0) {
            ChainEnd::Root(ancestor(parents, oid, n)->0)
        } else {
            ChainEnd::Missing(ancestor(parents, oid, n)->0)
        }),
{
    let m = choose|m: nat| ends_after(parents, oid, m);
    if m < n {
        lemma_ended(parents, oid, m, n);
    } else if n < m {
        lemma_ended(parents, oid, n, m);
    }
}

/// A chain leads where the chain of the first parent leads.
proof fn lemma_chain_step(parents: Map<Oid, Option<Oid>>, oid: Oid)
    ensures
        !parents.contains_key(oid) ==> chain_end(parents, oid) == ChainEnd::Missing(oid),
        parents.contains_key(oid) && parents[oid] is None ==> chain_end(parents, oid)
            == ChainEnd::Root(oid),
        parents.contains_key(oid) ==> (parents[oid] matches Some(p) ==> chain_end(parents, oid)
            == chain_end(parents, p)),
{
    assert(ancestor(parents, oid, 0) == Some(oid));
    if !parents.contains_key(oid) || parents[oid] is None {
        assert(ends_after(parents, oid, 0));
        lemma_one_end(parents, oid, 0);
    } else {
        let p = parents[oid]->0;
        if exists|n: nat| ends_after(parents, p, n) {
            let n = choose|n: nat| ends_after(parents, p, n);
            lemma_ancestor_of_parent(parents, oid, p, n);
            assert(ends_after(parents, oid, n + 1));
            lemma_one_end(parents, oid, n + 1);
            lemma_one_end(parents, p, n);
        } else if exists|n: nat| ends_after(parents, oid, n) {
            let n = choose|n: nat| ends_after(parents, oid, n);
            assert(n > 0);
            lemma_ancestor_of_parent(parents, oid, p, (n - 1) as nat);
            assert(ends_after(parents, p, (n - 1) as nat));
        }
    }
}

/// The commits that the chain passes in its first `n` steps.
spec fn chain_of(parents: Map<Oid, Option<Oid>>, oid: Oid, n: nat) -> Seq<Oid> {
    Seq::new(n, |i: int| ancestor(parents, oid, i as nat)->0)
}

/// A chain that comes back to a commit goes on as it did from there before.
proof fn lemma_goes_round(
    parents: Map<Oid, Option<Oid>>,
    oid: Oid,
    i: nat,
    j: nat,
    n: nat,
)
    requires
        ancestor(parents, oid, i) == ancestor(parents, oid, j),
    ensures
        ancestor(parents, oid, i + n) == ancestor(parents, oid, j + n),
    decreases n,
{
    if n > 0 {
        lemma_goes_round(parents, oid, i, j, (n - 1) as nat);
    }
}

/// A chain with more steps than the history has commits comes back to a commit.
proof fn lemma_comes_back(parents: Map<Oid, Option<Oid>>, oid: Oid, n: nat) -> (r: (nat, nat))
    requires
        parents.dom().finite(),
        n > parents.dom().len(),
        forall|k: nat| k < n ==> #[trigger] ancestor(parents, oid, k) is Some && parents.contains_key(
            ancestor(parents, oid, k)->0,
        ),
    ensures
        r.0 < r.1 < n,
        ancestor(parents, oid, r.0) == ancestor(parents, oid, r.1),
        ancestor(parents, oid, r.1) is Some,
{
    let chain = chain_of(parents, oid, n);
    if chain.no_duplicates() {
        chain.unique_seq_to_set();
        assert forall|c: Oid| chain.to_set().contains(c) implies parents.dom().contains(c) by {
            let k = choose|k: int| 0 <= k < chain.len() && chain[k] == c;
            assert(ancestor(parents, oid, k as nat) is Some);
        }
        vstd::set_lib::lemma_len_subset(chain.to_set(), parents.dom());
    }
    let (a, b) = choose|a: int, b: int|
        0 <= a < chain.len() && 0 <= b < chain.len() && a != b && #[trigger] chain[a]
            == #[trigger] chain[b];
    let i = (if a < b { a } else { b }) as nat;
    let j = (if a < b { b } else { a }) as nat;
    assert(ancestor(parents, oid, i) is Some && ancestor(parents, oid, j) is Some);
    (i, j)
}

/// A chain with more steps than the history has commits never ends.
proof fn lemma_endless(parents: Map<Oid, Option<Oid>>, oid: Oid, n: nat)
    requires
        parents.dom().finite(),
        n > parents.dom().len(),
        forall|k: nat| k < n ==> #[trigger] ancestor(parents, oid, k) is Some && parents.contains_key(
            ancestor(parents, oid, k)->0,
        ),
    ensures
        chain_end(parents, oid) == ChainEnd::Endless,
{
    let (i, j) = lemma_comes_back(parents, oid, n);
    assert forall|k: nat| !ends_after(parents, oid, k) by {
        lemma_round_never_ends(parents, oid, i, j, k);
    }
}

/// A chain that has come back to a commit meets none that it has not met.
proof fn lemma_nothing_new(
    parents: Map<Oid, Option<Oid>>,
    oid: Oid,
    i: nat,
    j: nat,
    m: nat,
) -> (k: nat)
    requires
        i < j,
        ancestor(parents, oid, i) == ancestor(parents, oid, j),
    ensures
        k < j,
        ancestor(parents, oid, k) == ancestor(parents, oid, m),
    decreases m,
{
    if m < j {
        m
    } else {
        lemma_goes_round(parents, oid, i, j, (m - j) as nat);
        lemma_nothing_new(parents, oid, i, j, (i + (m - j)) as nat)
    }
}

/// A chain that comes back to a commit does not end.
proof fn lemma_round_never_ends(
    parents: Map<Oid, Option<Oid>>,
    oid: Oid,
    i: nat,
    j: nat,
    k: nat,
)
    requires
        i < j,
        ancestor(parents, oid, i) == ancestor(parents, oid, j),
        ancestor(parents, oid, j) is Some,
    ensures
        !ends_after(parents, oid, k),
{
    if ends_after(parents, oid, k) {
        if k < j {
            lemma_ended(parents, oid, k, j);
        } else {
            let n = (k - i) as nat;
            lemma_goes_round(parents, oid, i, j, n);
            lemma_ended(parents, oid, k, (j + n) as nat);
        }
    }
}

/// The root commit that the first parents of `head` lead to.
pub fn find_first_parent_root(parents: &FirstParents, head: Oid) -> (r: Result<Oid, HistoryError>)
    ensures
        match chain_end(map_of(parents), head) {
            ChainEnd::Root(root) => r == Ok::<Oid, HistoryError>(root),
            ChainEnd::Missing(oid) => r == Err::<Oid, HistoryError>(
                HistoryError::MissingCommit(oid),
            ),
            ChainEnd::Endless => r == Err::<Oid, HistoryError>(HistoryError::EndlessChain),
        },
{
    let ghost table = map_of(parents);
    let limit = map_len(parents);
    let mut current = head;
    let mut steps: usize = 0;
    loop
        invariant
            table == map_of(parents),
            table.dom().finite(),
            limit == table.dom().len(),
            steps <= limit,
            ancestor(table, head, steps as nat) == Some(current),
            forall|k: nat|
                k < steps ==> #[trigger] ancestor(table, head, k) is Some && table.contains_key(
                    ancestor(table, head, k)->0,
                ),
            chain_end(table, head) == chain_end(table, current),
        decreases limit - steps,
    {
        proof {
            lemma_chain_step(table, current);
        }
        match map_get(parents, &current) {
            None => {
                return Err(HistoryError::MissingCommit(current));
            },
            Some(None) => {
                return Ok(current);
            },
            Some(Some(parent)) => {
                if steps == limit {
                    proof {
                        lemma_endless(table, head, (steps + 1) as nat);
                    }
                    return Err(HistoryError::EndlessChain);
                }
                current = *parent;
                steps += 1;
            },
        }
    }
}

/// Why a chain that does not lead to a root makes an error.
pub open spec fn chain_error(end: ChainEnd) -> Option<HistoryError> {
    match end {
        ChainEnd::Root(_) => None,
        ChainEnd::Missing(oid) => Some(HistoryError::MissingCommit(oid)),
        ChainEnd::Endless => Some(HistoryError::EndlessChain),
    }
}

/// Whether a commit lies on the first-parent chain of another.
pub open spec fn is_on_chain(parents: Map<Oid, Option<Oid>>, oid: Oid, c: Oid) -> bool {
    exists|n: nat| #[trigger] ancestor(parents, oid, n) == Some(c)
}

/// What lies on a chain is its first commit, or lies on the chain of the first
/// parent.
proof fn lemma_on_chain_step(parents: Map<Oid, Option<Oid>>, oid: Oid, c: Oid)
    ensures
        is_on_chain(parents, oid, c) <==> oid == c || (parents.contains_key(oid) && (
        parents[oid] matches Some(p) && is_on_chain(parents, p, c))),
{
    assert(ancestor(parents, oid, 0) == Some(oid));
    if is_on_chain(parents, oid, c) && oid != c {
        let n = choose|n: nat| #[trigger] ancestor(parents, oid, n) == Some(c);
        if !parents.contains_key(oid) || parents[oid] is None {
            assert(ends_after(parents, oid, 0));
            lemma_ended(parents, oid, 0, n);
        }
        lemma_ancestor_of_parent(parents, oid, parents[oid]->0, (n - 1) as nat);
    }
    if parents.contains_key(oid) && parents[oid] is Some {
        let p = parents[oid]->0;
        if is_on_chain(parents, p, c) {
            let n = choose|n: nat| #[trigger] ancestor(parents, p, n) == Some(c);
            lemma_ancestor_of_parent(parents, oid, p, n);
        }
    }
}

/// The error that a commit makes: its chain neither passes the main root nor leads
/// to a root.
pub open spec fn commit_error(
    parents: Map<Oid, Option<Oid>>,
    main_root: Oid,
    oid: Oid,
) -> Option<HistoryError> {
    if is_on_chain(parents, oid, main_root) {
        None
    } else {
        chain_error(chain_end(parents, oid))
    }
}

/// The error of the first commit that makes one.
pub open spec fn first_error(
    parents: Map<Oid, Option<Oid>>,
    main_root: Oid,
    commits: Seq<(Oid, i64)>,
) -> Option<HistoryError>
    decreases commits.len(),
{
    if commits.len() == 0 {
        None
    } else {
        match first_error(parents, main_root, commits.drop_last()) {
            Some(e) => Some(e),
            None => commit_error(parents, main_root, commits.last().0),
        }
    }
}

/// Whether the first parents of a commit lead to a root without passing the main
/// one.
pub open spec fn is_foreign(parents: Map<Oid, Option<Oid>>, main_root: Oid, oid: Oid) -> bool {
    chain_end(parents, oid) is Root && !is_on_chain(parents, oid, main_root)
}

/// Whether a commit lies on the first-parent chain of a foreign one among the
/// commits.
pub open spec fn is_on_foreign_chain(
    parents: Map<Oid, Option<Oid>>,
    main_root: Oid,
    commits: Seq<(Oid, i64)>,
    c: Oid,
) -> bool {
    exists|i: int|
        0 <= i < commits.len() && is_foreign(parents, main_root, (#[trigger] commits[i]).0)
            && is_on_chain(parents, commits[i].0, c)
}

/// Whether all that the table says of commits is so.
spec fn memo_is_right(
    memo: Map<Oid, bool>,
    parents: Map<Oid, Option<Oid>>,
    main_root: Oid,
) -> bool {
    forall|c: Oid| #[trigger]
        memo.contains_key(c) ==> if memo[c] {
            is_foreign(parents, main_root, c)
        } else {
            is_on_chain(parents, c, main_root)
        }
}

/// Whether the table calls the first parent of every foreign commit foreign too.
spec fn memo_is_closed(memo: Map<Oid, bool>, parents: Map<Oid, Option<Oid>>) -> bool {
    forall|c: Oid| #[trigger]
        memo.contains_key(c) && memo[c] ==> (parents[c] matches Some(p) ==> memo.contains_key(p)
            && memo[p])
}

/// Whether every commit that the table calls foreign lies on the chain of a
/// foreign one among the first `n` commits.
spec fn memo_is_reached(
    memo: Map<Oid, bool>,
    parents: Map<Oid, Option<Oid>>,
    main_root: Oid,
    commits: Seq<(Oid, i64)>,
    n: int,
) -> bool {
    forall|c: Oid| #[trigger]
        memo.contains_key(c) && memo[c] ==> is_on_foreign_chain(
            parents,
            main_root,
            commits.take(n),
            c,
        )
}

/// A table that calls a commit and all first parents foreign does so with the
/// whole chain.
proof fn lemma_closed_holds_chain(
    memo: Map<Oid, bool>,
    parents: Map<Oid, Option<Oid>>,
    oid: Oid,
    n: nat,
)
    requires
        memo_is_closed(memo, parents),
        memo.contains_key(oid),
        memo[oid],
    ensures
        ancestor(parents, oid, n) matches Some(c) ==> memo.contains_key(c) && memo[c],
    decreases n,
{
    if n > 0 {
        lemma_closed_holds_chain(memo, parents, oid, (n - 1) as nat);
    }
}

/// What lies on a chain of the first commits lies on a chain of more of them.
proof fn lemma_reached_by_more(
    parents: Map<Oid, Option<Oid>>,
    main_root: Oid,
    commits: Seq<(Oid, i64)>,
    n: int,
    c: Oid,
)
    requires
        0 <= n < commits.len(),
        is_on_foreign_chain(parents, main_root, commits.take(n), c),
    ensures
        is_on_foreign_chain(parents, main_root, commits.take(n + 1), c),
{
    let less = commits.take(n);
    let more = commits.take(n + 1);
    let i = choose|i: int|
        0 <= i < less.len() && is_foreign(parents, main_root, (#[trigger] less[i]).0)
            && is_on_chain(parents, less[i].0, c);
    assert(more[i] == less[i]);
}

/// What is noted of a chain keeps the table closed and reached.
proof fn lemma_settled(
    before: Map<Oid, bool>,
    after: Map<Oid, bool>,
    parents: Map<Oid, Option<Oid>>,
    main_root: Oid,
    commits: Seq<(Oid, i64)>,
    n: int,
    chain: Seq<Oid>,
    found: bool,
)
    requires
        0 <= n < commits.len(),
        memo_is_closed(before, parents),
        memo_is_reached(before, parents, main_root, commits, n + 1),
        found ==> is_foreign(parents, main_root, commits[n].0),
        forall|c: Oid| #[trigger]
            after.contains_key(c) <==> before.contains_key(c) || chain.contains(c),
        forall|c: Oid| #[trigger]
            after.contains_key(c) ==> after[c] == (if chain.contains(c) {
                found
            } else {
                before[c]
            }),
        forall|k: int| 0 <= k < chain.len() ==> !before.contains_key(#[trigger] chain[k]),
        forall|k: int|
            0 <= k < chain.len() ==> ancestor(parents, commits[n].0, k as nat) == Some(
                #[trigger] chain[k],
            ),
        forall|k: int| 0 <= k < chain.len() ==> parents.contains_key(#[trigger] chain[k]),
        found && chain.len() > 0 ==> (parents[chain.last()] matches Some(p) ==> before.contains_key(
            p,
        ) && before[p]),
    ensures
        memo_is_closed(after, parents),
        memo_is_reached(after, parents, main_root, commits, n + 1),
{
    let oid = commits[n].0;
    let more = commits.take(n + 1);
    assert forall|c: Oid| #[trigger] after.contains_key(c) && after[c] implies (
    parents[c] matches Some(p) ==> after.contains_key(p) && after[p]) by {
        if chain.contains(c) {
            let k = choose|k: int| 0 <= k < chain.len() && chain[k] == c;
            assert(parents.contains_key(chain[k]));
            if k < chain.len() - 1 {
                assert(ancestor(parents, oid, (k + 1) as nat) == Some(chain[k + 1]));
                assert(ancestor(parents, oid, k as nat) == Some(chain[k]));
                assert(chain.contains(chain[k + 1]));
            } else {
                assert(c == chain.last());
            }
        } else {
            assert(before.contains_key(c) && before[c]);
        }
        if parents[c] is Some {
            let p = parents[c]->0;
            if before.contains_key(p) && chain.contains(p) {
                let k = choose|k: int| 0 <= k < chain.len() && chain[k] == p;
                assert(!before.contains_key(chain[k]));
            }
            assert(after.contains_key(p));
        }
    }
    assert forall|c: Oid| #[trigger] after.contains_key(c) && after[c] implies is_on_foreign_chain(
        parents,
        main_root,
        more,
        c,
    ) by {
        if chain.contains(c) {
            let k = choose|k: int| 0 <= k < chain.len() && chain[k] == c;
            assert(ancestor(parents, oid, k as nat) == Some(chain[k]));
            assert(more[n] == commits[n]);
            assert(is_on_chain(parents, more[n].0, c));
        } else {
            assert(before.contains_key(c) && before[c]);
        }
    }
}

/// Whether the set has all commits that the table calls foreign, and no other.
spec fn set_is_right(foreign: Set<Oid>, memo: Map<Oid, bool>) -> bool {
    forall|c: Oid| #[trigger] foreign.contains(c) <==> memo.contains_key(c) && memo[c]
}

proof fn lemma_no_error_before(
    parents: Map<Oid, Option<Oid>>,
    main_root: Oid,
    commits: Seq<(Oid, i64)>,
    n: int,
)
    requires
        0 <= n < commits.len(),
        first_error(parents, main_root, commits.take(n)) is None,
    ensures
        first_error(parents, main_root, commits.take(n + 1)) == commit_error(
            parents,
            main_root,
            commits[n].0,
        ),
{
    assert(commits.take(n + 1).drop_last() =~= commits.take(n));
}

proof fn lemma_first_error_stays(
    parents: Map<Oid, Option<Oid>>,
    main_root: Oid,
    commits: Seq<(Oid, i64)>,
    n: int,
)
    requires
        0 <= n <= commits.len(),
        first_error(parents, main_root, commits.take(n)) is Some,
    ensures
        first_error(parents, main_root, commits) == first_error(
            parents,
            main_root,
            commits.take(n),
        ),
    decreases commits.len(),
{
    if n == commits.len() {
        assert(commits.take(n) =~= commits);
    } else {
        assert(commits.drop_last().take(n) =~= commits.take(n));
        lemma_first_error_stays(parents, main_root, commits.drop_last(), n);
    }
}

/// Notes what is now known of all the commits of a chain.
fn settle(
    memo: &mut FxHashMap<Oid, bool>,
    foreign: &mut FxHashSet<Oid>,
    chain: &Vec<Oid>,
    is_foreign: bool,
)
    requires
        set_is_right(set_of(old(foreign)), map_of(old(memo))),
        forall|k: int|
            0 <= k < chain@.len() ==> !map_of(old(memo)).contains_key(#[trigger] chain@[k]),
    ensures
        set_is_right(set_of(final(foreign)), map_of(final(memo))),
        forall|c: Oid| #[trigger]
            map_of(final(memo)).contains_key(c) <==> map_of(old(memo)).contains_key(c)
                || chain@.contains(c),
        forall|c: Oid| #[trigger]
            map_of(final(memo)).contains_key(c) ==> map_of(final(memo))[c] == (if chain@.contains(
                c,
            ) {
                is_foreign
            } else {
                map_of(old(memo))[c]
            }),
{
    let mut k: usize = 0;
    let ghost before = map_of(memo);
    while k < chain.len()
        invariant
            k <= chain@.len(),
            before == map_of(old(memo)),
            forall|i: int| 0 <= i < chain@.len() ==> !before.contains_key(#[trigger] chain@[i]),
            set_is_right(set_of(foreign), map_of(memo)),
            forall|c: Oid| #[trigger]
                map_of(memo).contains_key(c) <==> before.contains_key(c) || chain@.take(
                    k as int,
                ).contains(c),
            forall|c: Oid| #[trigger]
                map_of(memo).contains_key(c) ==> map_of(memo)[c] == (if chain@.take(
                    k as int,
                ).contains(c) {
                    is_foreign
                } else {
                    before[c]
                }),
        decreases chain@.len() - k,
    {
        let c = chain[k];
        let ghost done = chain@.take(k as int);
        let ghost now = map_of(memo);
        let ghost held = set_of(foreign);
        proof {
            assert(chain@.take(k + 1) =~= done.push(c));
            assert forall|x: Oid| #[trigger] chain@.take(k + 1).contains(x) <==> done.contains(x)
                || x == c by {
                if done.contains(x) {
                    let i = choose|i: int| 0 <= i < done.len() && done[i] == x;
                    assert(chain@.take(k + 1)[i] == x);
                }
                assert(chain@.take(k + 1)[k as int] == c);
            }
            assert(now.contains_key(c) ==> now[c] == is_foreign) by {
                assert(!before.contains_key(chain@[k as int]));
            }
        }
        map_insert(memo, c, is_foreign);
        if is_foreign {
            set_insert(foreign, c);
        }
        proof {
            assert forall|x: Oid| #[trigger] set_of(foreign).contains(x) <==> map_of(
                memo,
            ).contains_key(x) && map_of(memo)[x] by {
                assert(held.contains(x) <==> now.contains_key(x) && now[x]);
            }
        }
        k += 1;
    }
    assert(chain@.take(k as int) =~= chain@);
}

/// The commits whose first parents do not lead to `main_root`: those of
/// histories of their own that were merged in. The set has those among `commits`
/// with their whole first-parent chains, and no others.
pub fn find_foreign_oids(
    parents: &FirstParents,
    commits: &Vec<(Oid, i64)>,
    main_root: Oid,
) -> (r: Result<FxHashSet<Oid>, HistoryError>)
    ensures
        first_error(map_of(parents), main_root, commits@) matches Some(e) ==> r == Err::<
            FxHashSet<Oid>,
            HistoryError,
        >(e),
        first_error(map_of(parents), main_root, commits@) is None ==> r is Ok,
        r matches Ok(foreign) ==> forall|i: int|
            0 <= i < commits@.len() ==> set_of(&foreign).contains((#[trigger] commits@[i]).0)
                == is_foreign(map_of(parents), main_root, commits@[i].0),
        r matches Ok(foreign) ==> forall|c: Oid| #[trigger]
            set_of(&foreign).contains(c) <==> is_on_foreign_chain(
                map_of(parents),
                main_root,
                commits@,
                c,
            ),
        r matches Ok(foreign) ==> forall|c: Oid| #[trigger]
            set_of(&foreign).contains(c) ==> is_foreign(map_of(parents), main_root, c),
{
    let ghost table = map_of(parents);
    let limit = map_len(parents);
    let mut memo: FxHashMap<Oid, bool> = map_new();
    map_insert(&mut memo, main_root, false);
    let mut foreign: FxHashSet<Oid> = set_new();
    proof {
        lemma_on_chain_step(table, main_root, main_root);
    }
    let mut i: usize = 0;
    while i < commits.len()
        invariant
            i <= commits@.len(),
            table == map_of(parents),
            table.dom().finite(),
            limit == table.dom().len(),
            memo_is_right(map_of(&memo), table, main_root),
            set_is_right(set_of(&foreign), map_of(&memo)),
            map_of(&memo).contains_key(main_root),
            memo_is_closed(map_of(&memo), table),
            memo_is_reached(map_of(&memo), table, main_root, commits@, i as int),
            forall|k: int| 0 <= k < i ==> map_of(&memo).contains_key((#[trigger] commits@[k]).0),
            first_error(table, main_root, commits@.take(i as int)) is None,
        decreases commits@.len() - i,
    {
        let oid = commits[i].0;
        let mut chain: Vec<Oid> = Vec::new();
        let mut current = oid;
        let mut known = false;
        let ghost before = map_of(&memo);
        proof {
            lemma_no_error_before(table, main_root, commits@, i as int);
            assert forall|c: Oid| #[trigger]
                before.contains_key(c) && before[c] implies is_on_foreign_chain(
                table,
                main_root,
                commits@.take(i + 1),
                c,
            ) by {
                lemma_reached_by_more(table, main_root, commits@, i as int, c);
            }
        }
        while !known
            invariant
                table == map_of(parents),
                table.dom().finite(),
                limit == table.dom().len(),
                0 <= i < commits@.len(),
                oid == commits@[i as int].0,
                first_error(table, main_root, commits@.take(i + 1)) == commit_error(
                    table,
                    main_root,
                    oid,
                ),
                memo_is_right(map_of(&memo), table, main_root),
                set_is_right(set_of(&foreign), map_of(&memo)),
                forall|c: Oid| #[trigger]
                    before.contains_key(c) ==> map_of(&memo).contains_key(c),
                before.contains_key(main_root),
                memo_is_closed(map_of(&memo), table),
                memo_is_reached(map_of(&memo), table, main_root, commits@, i + 1),
                !known ==> forall|k: int|
                    0 <= k < chain@.len() ==> ancestor(table, oid, k as nat) == Some(
                        #[trigger] chain@[k],
                    ) && table.contains_key(chain@[k]),
                !known ==> (chain@.len() > 0 ==> table[chain@.last()] == Some(current)),
                known ==> map_of(&memo).contains_key(oid),
                !known ==> chain@.len() <= limit,
                !known ==> ancestor(table, oid, chain@.len()) == Some(current),
                !known ==> chain_end(table, oid) == chain_end(table, current),
                !known ==> is_on_chain(table, oid, main_root) == is_on_chain(
                    table,
                    current,
                    main_root,
                ),
                !known ==> (chain@.len() == 0 ==> current == oid),
                !known ==> (chain@.len() > 0 ==> chain@[0] == oid),
                !known ==> forall|k: int|
                    0 <= k < chain@.len() ==> !map_of(&memo).contains_key(#[trigger] chain@[k])
                        && chain_end(table, chain@[k]) == chain_end(table, oid) && is_on_chain(
                        table,
                        chain@[k],
                        main_root,
                    ) == is_on_chain(table, oid, main_root),
                !known ==> forall|k: nat|
                    k < chain@.len() ==> #[trigger] ancestor(table, oid, k) is Some
                        && table.contains_key(ancestor(table, oid, k)->0),
            decreases
                if known {
                    0
                } else {
                    limit + 2 - chain@.len()
                },
        {
            proof {
                lemma_chain_step(table, current);
                lemma_on_chain_step(table, current, main_root);
            }
            let noted: Option<bool> = match map_get(&memo, &current) {
                Some(f) => Some(*f),
                None => None,
            };
            let ghost noted_before = map_of(&memo);
            if let Some(f) = noted {
                settle(&mut memo, &mut foreign, &chain, f);
                known = true;
                proof {
                    lemma_settled(
                        noted_before,
                        map_of(&memo),
                        table,
                        main_root,
                        commits@,
                        i as int,
                        chain@,
                        f,
                    );
                    if chain@.len() > 0 {
                        assert(chain@.contains(chain@[0]));
                    }
                }
            } else {
                let ghost shorter = chain@;
                chain.push(current);
                assert(current != main_root);
                match map_get(parents, &current) {
                    None => {
                        proof {
                            lemma_first_error_stays(table, main_root, commits@, i + 1);
                        }
                        return Err(HistoryError::MissingCommit(current));
                    },
                    Some(None) => {
                        assert(chain@[0] == oid);
                        settle(&mut memo, &mut foreign, &chain, true);
                        known = true;
                        assert(chain@.contains(chain@[0]));
                        proof {
                            lemma_settled(
                                noted_before,
                                map_of(&memo),
                                table,
                                main_root,
                                commits@,
                                i as int,
                                chain@,
                                true,
                            );
                        }
                    },
                    Some(Some(parent)) => {
                        if chain.len() > limit {
                            proof {
                                assert forall|k: nat| k < chain@.len() implies #[trigger] ancestor(
                                    table,
                                    oid,
                                    k,
                                ) is Some && table.contains_key(ancestor(table, oid, k)->0) by {
                                    if k == shorter.len() {
                                        assert(ancestor(table, oid, shorter.len()) == Some(current));
                                    }
                                }
                                lemma_endless(table, oid, chain@.len());
                                if is_on_chain(table, oid, main_root) {
                                    let m = choose|m: nat| #[trigger]
                                        ancestor(table, oid, m) == Some(main_root);
                                    let (a, b) = lemma_comes_back(table, oid, chain@.len());
                                    let k = lemma_nothing_new(table, oid, a, b, m);
                                    assert(ancestor(table, oid, k) == Some(chain@[k as int]));
                                }
                                lemma_first_error_stays(table, main_root, commits@, i + 1);
                            }
                            return Err(HistoryError::EndlessChain);
                        }
                        proof {
                            assert(ancestor(table, oid, shorter.len()) == Some(current));
                            assert(ancestor(table, oid, (shorter.len() + 1) as nat) == Some(
                                *parent,
                            ));
                        }
                        current = *parent;
                    },
                }
            }
        }
        assert(commit_error(table, main_root, oid) is None);
        i += 1;
    }
    assert(commits@.take(i as int) =~= commits@);
    proof {
        assert forall|c: Oid| is_on_foreign_chain(
            table,
            main_root,
            commits@,
            c,
        ) implies #[trigger] set_of(&foreign).contains(c) by {
            let k = choose|k: int|
                0 <= k < commits@.len() && is_foreign(table, main_root, (#[trigger] commits@[k]).0)
                    && is_on_chain(table, commits@[k].0, c);
            let n = choose|n: nat| #[trigger] ancestor(table, commits@[k].0, n) == Some(c);
            assert(map_of(&memo).contains_key(commits@[k].0));
            lemma_closed_holds_chain(map_of(&memo), table, commits@[k].0, n);
        }
    }
    Ok(foreign)
}

/// The first parents of the commits that a walk met.
pub open spec fn parents_of(records: Seq<CommitRecord>) -> Map<Oid, Option<Oid>>
    decreases records.len(),
{
    if records.len() == 0 {
        Map::empty()
    } else {
        parents_of(records.drop_last()).insert(records.last().oid, records.last().first_parent)
    }
}

/// The commits that a walk met, with their times.
pub open spec fn walked(records: Seq<CommitRecord>) -> Seq<(Oid, i64)> {
    records.map_values(|c: CommitRecord| (c.oid, c.ts))
}

/// Whether a commit brings in a squashed subtree: its tree holds only the files
/// of the subtree.
pub open spec fn is_squash(c: CommitRecord) -> bool {
    c.message matches Some(m) && starts_with(m@, "Squashed '"@)
}

/// The commits whose trees hold the project: no squashed subtrees, and, where
/// the main root is known, none whose first parents lead to another root.
pub open spec fn kept(
    records: Seq<CommitRecord>,
    parents: Map<Oid, Option<Oid>>,
    main_root: Option<Oid>,
) -> Seq<(Oid, i64)>
    decreases records.len(),
{
    if records.len() == 0 {
        seq![]
    } else {
        let rest = kept(records.drop_last(), parents, main_root);
        let c = records.last();
        if is_squash(c) || (main_root matches Some(root) && is_foreign(parents, root, c.oid)) {
            rest
        } else {
            rest.push((c.oid, c.ts))
        }
    }
}

/// The commits of a history, in the order of the walk. A walk along first
/// parents alone keeps them all. A walk over the whole graph leaves out those
/// that do not hold the project; where there is no head to tell the main root
/// from others, only squashed subtrees are left out.
pub open spec fn commits_of(
    records: Seq<CommitRecord>,
    head: Option<Oid>,
    first_parent: bool,
) -> Result<Seq<(Oid, i64)>, HistoryError> {
    let parents = parents_of(records);
    if records.len() == 0 {
        Err(HistoryError::NoCommits)
    } else if first_parent {
        Ok(walked(records))
    } else {
        match head {
            None => Ok(kept(records, parents, None)),
            Some(h) => match chain_end(parents, h) {
                ChainEnd::Root(root) => match first_error(parents, root, walked(records)) {
                    Some(e) => Err(e),
                    None => Ok(kept(records, parents, Some(root))),
                },
                ChainEnd::Missing(oid) => Err(HistoryError::MissingCommit(oid)),
                ChainEnd::Endless => Err(HistoryError::EndlessChain),
            },
        }
    }
}

/// The times of the commits.
pub open spec fn times(commits: Seq<(Oid, i64)>) -> Seq<i128> {
    commits.map_values(|c: (Oid, i64)| c.1 as i128)
}

/// The commits ordered by time, those of the same time as they stood.
pub open spec fn in_time_order(r: Seq<(Oid, i64)>, commits: Seq<(Oid, i64)>) -> bool {
    exists|order: Seq<usize>| #[trigger]
        is_stable_order(times(commits), order) && r == Seq::new(
            order.len(),
            |i: int| commits[order[i] as int],
        )
}

/// The table of first parents of a walk.
pub fn first_parents(records: &Vec<CommitRecord>) -> (r: FirstParents)
    ensures
        map_of(&r) == parents_of(records@),
{
    let mut table: FirstParents = map_new();
    let mut i: usize = 0;
    assert(parents_of(records@.take(0)) =~= map_of(&table));
    while i < records.len()
        invariant
            i <= records@.len(),
            map_of(&table) == parents_of(records@.take(i as int)),
        decreases records@.len() - i,
    {
        map_insert(&mut table, records[i].oid, records[i].first_parent);
        assert(records@.take(i + 1).drop_last() =~= records@.take(i as int));
        i += 1;
    }
    assert(records@.take(i as int) =~= records@);
    table
}

/// The commits ordered by time.
fn sort_by_time(commits: &Vec<(Oid, i64)>) -> (r: Vec<(Oid, i64)>)
    ensures
        in_time_order(r@, commits@),
{
    let mut keys: Vec<i128> = Vec::new();
    let mut i: usize = 0;
    while i < commits.len()
        invariant
            i <= commits@.len(),
            keys@ == times(commits@).take(i as int),
        decreases commits@.len() - i,
    {
        keys.push(commits[i].1 as i128);
        assert(times(commits@).take(i + 1) =~= times(commits@).take(i as int).push(
            times(commits@)[i as int],
        ));
        i += 1;
    }
    assert(times(commits@).take(i as int) =~= times(commits@));
    let order = stable_order(&keys);
    let mut r: Vec<(Oid, i64)> = Vec::new();
    let mut k: usize = 0;
    while k < order.len()
        invariant
            k <= order@.len(),
            is_stable_order(times(commits@), order@),
            r@.len() == k,
            forall|a: int| 0 <= a < k ==> #[trigger] r@[a] == commits@[order@[a] as int],
        decreases order@.len() - k,
    {
        r.push(commits[order[k]]);
        k += 1;
    }
    assert(r@ =~= Seq::new(order@.len(), |i: int| commits@[order@[i] as int]));
    r
}

/// Whether the commit brings in a squashed subtree.
fn squashes(c: &CommitRecord) -> (r: bool)
    ensures
        r == is_squash(*c),
{
    match &c.message {
        Some(m) => has_prefix(&chars_of(m.as_str()), "Squashed '"),
        None => false,
    }
}

/// The commits of a history, ordered by time, oldest first. `records` is what
/// the walk met, `head` the commit that HEAD points to, if it points to one,
/// and `first_parent` says that the walk followed first parents alone.
pub fn get_commit_list(
    records: &Vec<CommitRecord>,
    head: Option<Oid>,
    first_parent: bool,
) -> (r: Result<Vec<(Oid, i64)>, HistoryError>)
    ensures
        match commits_of(records@, head, first_parent) {
            Ok(commits) => r matches Ok(list) && in_time_order(list@, commits),
            Err(e) => r == Err::<Vec<(Oid, i64)>, HistoryError>(e),
        },
{
    if records.len() == 0 {
        return Err(HistoryError::NoCommits);
    }
    let mut all: Vec<(Oid, i64)> = Vec::new();
    let mut i: usize = 0;
    while i < records.len()
        invariant
            i <= records@.len(),
            all@ == walked(records@).take(i as int),
        decreases records@.len() - i,
    {
        all.push((records[i].oid, records[i].ts));
        assert(walked(records@).take(i + 1) =~= walked(records@).take(i as int).push(
            walked(records@)[i as int],
        ));
        i += 1;
    }
    assert(walked(records@).take(i as int) =~= walked(records@));
    if first_parent {
        return Ok(sort_by_time(&all));
    }
    let table = first_parents(records);
    let ghost parents = map_of(&table);
    let mut main_root: Option<Oid> = None;
    let mut foreign: FxHashSet<Oid> = set_new();
    if let Some(h) = head {
        match find_first_parent_root(&table, h) {
            Ok(root) => {
                match find_foreign_oids(&table, &all, root) {
                    Ok(found) => {
                        main_root = Some(root);
                        foreign = found;
                    },
                    Err(e) => {
                        return Err(e);
                    },
                }
            },
            Err(e) => {
                return Err(e);
            },
        }
    }
    let mut commits: Vec<(Oid, i64)> = Vec::new();
    let mut k: usize = 0;
    while k < records.len()
        invariant
            k <= records@.len(),
            all@ == walked(records@),
            main_root matches Some(root) ==> forall|i: int|
                0 <= i < all@.len() ==> set_of(&foreign).contains((#[trigger] all@[i]).0)
                    == is_foreign(parents, root, all@[i].0),
            main_root is None ==> set_of(&foreign) == Set::<Oid>::empty(),
            commits@ == kept(records@.take(k as int), parents, main_root),
        decreases records@.len() - k,
    {
        let c = &records[k];
        assert(records@.take(k + 1).drop_last() =~= records@.take(k as int));
        assert(all@[k as int].0 == c.oid);
        if !set_contains(&foreign, &c.oid) && !squashes(c) {
            commits.push((c.oid, c.ts));
        }
        k += 1;
    }
    assert(records@.take(k as int) =~= records@);
    Ok(sort_by_time(&commits))
}

/// The list of commits runs from the oldest to the newest.
pub proof fn law_oldest_first(r: Seq<(Oid, i64)>, commits: Seq<(Oid, i64)>)
    requires
        in_time_order(r, commits),
    ensures
        r.len() == commits.len(),
        forall|i: int, j: int| 0 <= i < j < r.len() ==> (#[trigger] r[i]).1 <= (#[trigger] r[j]).1,
{
    let order = choose|order: Seq<usize>| #[trigger]
        is_stable_order(times(commits), order) && r == Seq::new(
            order.len(),
            |i: int| commits[order[i] as int],
        );
    assert forall|i: int, j: int| 0 <= i < j < r.len() implies (#[trigger] r[i]).1 <= (
    #[trigger] r[j]).1 by {
        assert(goes_before(times(commits), order[i] as int, order[j] as int));
    }
}

/// A commit on the first-parent line of the head is never taken for one of
/// another history.
pub proof fn law_mainline_is_never_foreign(
    parents: Map<Oid, Option<Oid>>,
    head: Oid,
    root: Oid,
    n: nat,
    oid: Oid,
)
    requires
        chain_end(parents, head) == ChainEnd::Root(root),
        ancestor(parents, head, n) == Some(oid),
    ensures
        !is_foreign(parents, root, oid),
    decreases n,
{
    lemma_chain_step(parents, head);
    let m = choose|m: nat| ends_after(parents, head, m);
    assert(ends_after(parents, head, m));
    if n == 0 {
        assert(ancestor(parents, head, m) == Some(root));
    } else {
        if !parents.contains_key(head) || parents[head] is None {
            assert(ends_after(parents, head, 0));
            lemma_ended(parents, head, 0, n);
        }
        let p = parents[head]->0;
        lemma_ancestor_of_parent(parents, head, p, (n - 1) as nat);
        law_mainline_is_never_foreign(parents, p, root, (n - 1) as nat, oid);
    }
}

/// A commit is foreign to a root if and only if its first parents lead to another
/// root.
pub proof fn law_foreign_leads_to_another_root(
    parents: Map<Oid, Option<Oid>>,
    main_root: Oid,
    oid: Oid,
)
    requires
        parents.contains_key(main_root),
        parents[main_root] is None,
    ensures
        is_foreign(parents, main_root, oid) <==> (chain_end(parents, oid) matches ChainEnd::Root(
            root,
        ) && root != main_root),
{
    if is_on_chain(parents, oid, main_root) {
        let n = choose|n: nat| #[trigger] ancestor(parents, oid, n) == Some(main_root);
        assert(ends_after(parents, oid, n));
        lemma_one_end(parents, oid, n);
    }
    if chain_end(parents, oid) == ChainEnd::Root(main_root) {
        let n = choose|n: nat| ends_after(parents, oid, n);
        assert(ancestor(parents, oid, n) == Some(main_root));
    }
}

/// The commits on the chains of the foreign commits of a list are the foreign ones
/// on any chain of the list.
pub proof fn law_foreign_chains(
    parents: Map<Oid, Option<Oid>>,
    main_root: Oid,
    commits: Seq<(Oid, i64)>,
    c: Oid,
)
    requires
        parents.contains_key(main_root),
        parents[main_root] is None,
    ensures
        is_on_foreign_chain(parents, main_root, commits, c) <==> is_foreign(parents, main_root, c)
            && exists|i: int|
            0 <= i < commits.len() && is_on_chain(parents, (#[trigger] commits[i]).0, c),
{
    assert forall|i: int|
        0 <= i < commits.len() && is_on_chain(parents, (#[trigger] commits[i]).0, c) implies (
    is_foreign(parents, main_root, commits[i].0) <==> is_foreign(parents, main_root, c)) by {
        let oid = commits[i].0;
        let n = choose|n: nat| #[trigger] ancestor(parents, oid, n) == Some(c);
        lemma_same_end(parents, oid, n, c);
        law_foreign_leads_to_another_root(parents, main_root, oid);
        law_foreign_leads_to_another_root(parents, main_root, c);
    }
}

/// A commit on another's chain leads where that one leads.
proof fn lemma_same_end(parents: Map<Oid, Option<Oid>>, oid: Oid, n: nat, c: Oid)
    requires
        ancestor(parents, oid, n) == Some(c),
    ensures
        chain_end(parents, oid) == chain_end(parents, c),
    decreases n,
{
    if n > 0 {
        let b = ancestor(parents, oid, (n - 1) as nat)->0;
        lemma_same_end(parents, oid, (n - 1) as nat, b);
        lemma_chain_step(parents, b);
    }
}

/// Whether a list of commits runs from one to the next first parent.
pub open spec fn is_line(parents: Map<Oid, Option<Oid>>, line: Seq<Oid>) -> bool {
    &&& line.len() > 0
    &&& forall|k: int|
        0 <= k < line.len() - 1 ==> parents.contains_key(#[trigger] line[k]) && parents[line[k]]
            == Some(line[k + 1])
}

/// A commit lies on another's chain if and only if a line of first parents leads
/// from the one to the other.
pub proof fn law_chains_are_lines(parents: Map<Oid, Option<Oid>>, oid: Oid, c: Oid)
    ensures
        is_on_chain(parents, oid, c) <==> exists|line: Seq<Oid>| #[trigger]
            is_line(parents, line) && line[0] == oid && line.last() == c,
{
    if is_on_chain(parents, oid, c) {
        let n = choose|n: nat| #[trigger] ancestor(parents, oid, n) == Some(c);
        let line = lemma_line_of(parents, oid, n);
        assert(is_line(parents, line));
    }
    if exists|line: Seq<Oid>| #[trigger]
        is_line(parents, line) && line[0] == oid && line.last() == c {
        let line = choose|line: Seq<Oid>| #[trigger]
            is_line(parents, line) && line[0] == oid && line.last() == c;
        lemma_along_line(parents, line, (line.len() - 1) as nat);
    }
}

proof fn lemma_line_of(parents: Map<Oid, Option<Oid>>, oid: Oid, n: nat) -> (line: Seq<Oid>)
    requires
        ancestor(parents, oid, n) is Some,
    ensures
        is_line(parents, line),
        line[0] == oid,
        line.last() == ancestor(parents, oid, n)->0,
    decreases n,
{
    if n == 0 {
        seq![oid]
    } else {
        let line = lemma_line_of(parents, oid, (n - 1) as nat);
        let more = line.push(ancestor(parents, oid, n)->0);
        assert forall|k: int| 0 <= k < more.len() - 1 implies parents.contains_key(
            #[trigger] more[k],
        ) && parents[more[k]] == Some(more[k + 1]) by {
            assert(more[k] == line[k]);
            if k < line.len() - 1 {
                assert(more[k + 1] == line[k + 1]);
            }
        }
        more
    }
}

proof fn lemma_along_line(parents: Map<Oid, Option<Oid>>, line: Seq<Oid>, n: nat)
    requires
        is_line(parents, line),
        n < line.len(),
    ensures
        ancestor(parents, line[0], n) == Some(line[n as int]),
    decreases n,
{
    if n > 0 {
        lemma_along_line(parents, line, (n - 1) as nat);
        assert(parents.contains_key(line[n - 1]));
    }
}

/// A chain leads to the root or to the missing commit that lies on it, and to
/// neither if and only if none does.
pub proof fn law_where_chains_lead(parents: Map<Oid, Option<Oid>>, oid: Oid)
    ensures
        forall|c: Oid|
            chain_end(parents, oid) == ChainEnd::Root(c) <==> #[trigger] is_on_chain(parents, oid, c)
                && parents.contains_key(c) && parents[c] is None,
        forall|c: Oid|
            chain_end(parents, oid) == ChainEnd::Missing(c) <==> #[trigger] is_on_chain(
                parents,
                oid,
                c,
            ) && !parents.contains_key(c),
{
    assert forall|c: Oid| #[trigger] is_on_chain(parents, oid, c) && (!parents.contains_key(c)
        || parents[c] is None) implies chain_end(parents, oid) == (if parents.contains_key(c) {
        ChainEnd::Root(c)
    } else {
        ChainEnd::Missing(c)
    }) by {
        let n = choose|n: nat| #[trigger] ancestor(parents, oid, n) == Some(c);
        assert(ends_after(parents, oid, n));
        lemma_one_end(parents, oid, n);
    }
    if chain_end(parents, oid) !is Endless {
        let n = choose|n: nat| ends_after(parents, oid, n);
        assert(ancestor(parents, oid, n) is Some);
    }
}

/// The first parent of a commit is the one that the walk met with it, if the walk
/// met each commit once.
pub proof fn law_first_parents(records: Seq<CommitRecord>, oid: Oid)
    requires
        forall|i: int, j: int|
            0 <= i < j < records.len() ==> (#[trigger] records[i]).oid != (#[trigger] records[j]).oid,
    ensures
        parents_of(records).contains_key(oid) <==> exists|i: int|
            0 <= i < records.len() && (#[trigger] records[i]).oid == oid,
        forall|i: int|
            0 <= i < records.len() ==> parents_of(records)[(#[trigger] records[i]).oid]
                == records[i].first_parent,
    decreases records.len(),
{
    if records.len() > 0 {
        let fewer = records.drop_last();
        let n = records.len() - 1;
        assert forall|i: int, j: int| 0 <= i < j < fewer.len() implies (#[trigger] fewer[i]).oid != (
        #[trigger] fewer[j]).oid by {
            assert(records[i].oid != records[j].oid);
        }
        law_first_parents(fewer, oid);
        assert forall|i: int| 0 <= i < records.len() implies parents_of(records)[(
        #[trigger] records[i]).oid] == records[i].first_parent by {
            if i < n {
                assert(fewer[i] == records[i]);
                assert(records[i].oid != records[n].oid);
            }
        }
        if parents_of(fewer).contains_key(oid) {
            let i = choose|i: int| 0 <= i < fewer.len() && (#[trigger] fewer[i]).oid == oid;
            assert(records[i].oid == oid);
        }
        if exists|i: int| 0 <= i < records.len() && (#[trigger] records[i]).oid == oid {
            let i = choose|i: int| 0 <= i < records.len() && (#[trigger] records[i]).oid == oid;
            if i < n {
                assert(fewer[i].oid == oid);
            }
        }
        assert(records[n] == records.last());
    }
}

/// Whether a message begins with the word that git writes for a squashed subtree,
/// and the quotation mark behind it.
pub open spec fn says_squashed(message: Option<String>) -> bool {
    message matches Some(m) && m@.len() >= 10 && m@[0] == 'S' && m@[1] == 'q' && m@[2] == 'u'
        && m@[3] == 'a' && m@[4] == 's' && m@[5] == 'h' && m@[6] == 'e' && m@[7] == 'd' && m@[8]
        == ' ' && m@[9] == '\''
}

proof fn lemma_squash(c: CommitRecord)
    ensures
        is_squash(c) == says_squashed(c.message),
{
    reveal_strlit("Squashed '");
    if let Some(m) = c.message {
        let mark = "Squashed '"@;
        if starts_with(m@, mark) {
            let start = m@.take(10);
            assert(start == mark);
            assert(start[0] == 'S' && start[1] == 'q' && start[2] == 'u' && start[3] == 'a'
                && start[4] == 's' && start[5] == 'h' && start[6] == 'e' && start[7] == 'd'
                && start[8] == ' ' && start[9] == '\'');
        }
        if says_squashed(c.message) {
            assert(m@.take(10) =~= mark);
        }
    }
}

/// A commit's name and time.
pub open spec fn listed_as(c: CommitRecord) -> (Oid, i64) {
    (c.oid, c.ts)
}

proof fn lemma_kept(
    records: Seq<CommitRecord>,
    parents: Map<Oid, Option<Oid>>,
    main_root: Option<Oid>,
    wanted: spec_fn(CommitRecord) -> bool,
)
    requires
        forall|i: int|
            0 <= i < records.len() ==> wanted(#[trigger] records[i]) == !(is_squash(records[i]) || (
            main_root matches Some(root) && is_foreign(parents, root, records[i].oid))),
    ensures
        kept(records, parents, main_root) == walked(records.filter(wanted)),
    decreases records.len(),
{
    reveal(Seq::filter);
    if records.len() == 0 {
        assert(walked(records.filter(wanted)) =~= seq![]);
    } else {
        let fewer = records.drop_last();
        assert forall|i: int| 0 <= i < fewer.len() implies wanted(#[trigger] fewer[i]) == !(
        is_squash(fewer[i]) || (main_root matches Some(root) && is_foreign(
            parents,
            root,
            fewer[i].oid,
        ))) by {
            assert(fewer[i] == records[i]);
        }
        lemma_kept(fewer, parents, main_root, wanted);
        assert(records[records.len() - 1] == records.last());
        assert(walked(fewer.filter(wanted).push(records.last())) =~= walked(
            fewer.filter(wanted),
        ).push((records.last().oid, records.last().ts)));
    }
}

/// Where the list of commits is had: there is a commit, and, unless the walk
/// followed first parents alone or there is no head, the chain of the head leads to
/// a root, and that of every commit to some root or through that one.
pub proof fn law_when_there_are_commits(
    records: Seq<CommitRecord>,
    head: Option<Oid>,
    first_parent: bool,
)
    ensures
        commits_of(records, head, first_parent) is Ok <==> records.len() > 0 && (first_parent
            || head is None || (chain_end(parents_of(records), head->0) matches ChainEnd::Root(root)
            && forall|i: int|
            0 <= i < records.len() ==> is_on_chain(
                parents_of(records),
                (#[trigger] records[i]).oid,
                root,
            ) || chain_end(parents_of(records), records[i].oid) is Root)),
        records.len() == 0 ==> commits_of(records, head, first_parent) == Err::<
            Seq<(Oid, i64)>,
            HistoryError,
        >(HistoryError::NoCommits),
{
    if records.len() > 0 && !first_parent && head is Some {
        let parents = parents_of(records);
        if let ChainEnd::Root(root) = chain_end(parents, head->0) {
            lemma_no_first_error(parents, root, walked(records));
            if first_error(parents, root, walked(records)) is None {
                assert forall|i: int| 0 <= i < records.len() implies is_on_chain(
                    parents,
                    (#[trigger] records[i]).oid,
                    root,
                ) || chain_end(parents, records[i].oid) is Root by {
                    assert(walked(records)[i].0 == records[i].oid);
                    assert(commit_error(parents, root, walked(records)[i].0) is None);
                }
            }
            if forall|i: int|
                0 <= i < records.len() ==> is_on_chain(parents, (#[trigger] records[i]).oid, root)
                    || chain_end(parents, records[i].oid) is Root {
                assert forall|i: int| 0 <= i < walked(records).len() implies commit_error(
                    parents,
                    root,
                    (#[trigger] walked(records)[i]).0,
                ) is None by {
                    assert(walked(records)[i].0 == records[i].oid);
                }
            }
        }
    }
}

proof fn lemma_no_first_error(
    parents: Map<Oid, Option<Oid>>,
    main_root: Oid,
    commits: Seq<(Oid, i64)>,
)
    ensures
        first_error(parents, main_root, commits) is None <==> forall|i: int|
            0 <= i < commits.len() ==> commit_error(parents, main_root, (#[trigger] commits[i]).0)
                is None,
    decreases commits.len(),
{
    if commits.len() > 0 {
        let fewer = commits.drop_last();
        lemma_no_first_error(parents, main_root, fewer);
        let n = commits.len() - 1;
        assert(commits[n] == commits.last());
        if first_error(parents, main_root, commits) is None {
            assert forall|i: int| 0 <= i < commits.len() implies commit_error(
                parents,
                main_root,
                (#[trigger] commits[i]).0,
            ) is None by {
                if i < n {
                    assert(fewer[i] == commits[i]);
                }
            }
        }
        if forall|i: int|
            0 <= i < commits.len() ==> commit_error(parents, main_root, (#[trigger] commits[i]).0)
                is None {
            assert forall|i: int| 0 <= i < fewer.len() implies commit_error(
                parents,
                main_root,
                (#[trigger] fewer[i]).0,
            ) is None by {
                assert(fewer[i] == commits[i]);
            }
            assert(commit_error(parents, main_root, commits[n].0) is None);
        }
    }
}

/// The list of commits has, in the order of time, every commit that the walk met
/// and no other, each as often as it was met; but where the walk went over the
/// whole graph, none whose message begins with the word for a squashed subtree,
/// and none whose first parents do not lead to the root that those of the head
/// lead to.
pub proof fn law_which_commits_are_listed(
    records: Seq<CommitRecord>,
    head: Option<Oid>,
    first_parent: bool,
    list: Seq<(Oid, i64)>,
)
    requires
        commits_of(records, head, first_parent) matches Ok(commits) && in_time_order(list, commits),
    ensures
        list.to_multiset() == records.filter(
            |c: CommitRecord|
                first_parent || (!says_squashed(c.message) && (head matches Some(h) ==> (chain_end(
                    parents_of(records),
                    h,
                ) matches ChainEnd::Root(root) && is_on_chain(parents_of(records), c.oid, root)))),
        ).map_values(|c: CommitRecord| listed_as(c)).to_multiset(),
        forall|i: int, j: int|
            0 <= i < j < list.len() ==> (#[trigger] list[i]).1 <= (#[trigger] list[j]).1,
{
    let wanted = |c: CommitRecord|
        first_parent || (!says_squashed(c.message) && (head matches Some(h) ==> (chain_end(
            parents_of(records),
            h,
        ) matches ChainEnd::Root(root) && is_on_chain(parents_of(records), c.oid, root))));
    let parents = parents_of(records);
    let commits = commits_of(records, head, first_parent)->Ok_0;
    law_oldest_first(list, commits);
    lemma_reordered_alike(list, commits);
    law_when_there_are_commits(records, head, first_parent);
    let some = records.filter(wanted);
    assert(some.map_values(|c: CommitRecord| listed_as(c)) =~= walked(some));
    if first_parent {
        lemma_filter_all(records, wanted);
    } else {
        let main_root = match head {
            Some(h) => match chain_end(parents, h) {
                ChainEnd::Root(root) => Some(root),
                _ => None,
            },
            None => None,
        };
        assert forall|i: int| 0 <= i < records.len() implies wanted(#[trigger] records[i]) == !(
        is_squash(records[i]) || (main_root matches Some(root) && is_foreign(
            parents,
            root,
            records[i].oid,
        ))) by {
            lemma_squash(records[i]);
        }
        lemma_kept(records, parents, main_root, wanted);
    }
}

proof fn lemma_filter_all(records: Seq<CommitRecord>, wanted: spec_fn(CommitRecord) -> bool)
    requires
        forall|c: CommitRecord| #[trigger] wanted(c),
    ensures
        records.filter(wanted) == records,
    decreases records.len(),
{
    reveal(Seq::filter);
    if records.len() > 0 {
        lemma_filter_all(records.drop_last(), wanted);
        assert(records.drop_last().push(records.last()) =~= records);
    }
}

proof fn lemma_reordered_alike(list: Seq<(Oid, i64)>, commits: Seq<(Oid, i64)>)
    requires
        in_time_order(list, commits),
    ensures
        list.to_multiset() == commits.to_multiset(),
{
    let order = choose|order: Seq<usize>| #[trigger]
        is_stable_order(times(commits), order) && list == Seq::new(
            order.len(),
            |i: int| commits[order[i] as int],
        );
    law_order_is_a_rearrangement(times(commits), order, commits);
    assert(list =~= Seq::new(order.len(), |i: int| commits[order[i] as int]));
}

/// Commits of the same time stay in the order in which the walk met them.
pub proof fn law_same_time_same_order(list: Seq<(Oid, i64)>, commits: Seq<(Oid, i64)>, i: int, j: int)
    requires
        in_time_order(list, commits),
        0 <= i < j < list.len(),
        list[i].1 == list[j].1,
    ensures
        exists|a: int, b: int|
            0 <= a < b < commits.len() && #[trigger] commits[a] == list[i] && #[trigger] commits[b]
                == list[j],
{
    let order = choose|order: Seq<usize>| #[trigger]
        is_stable_order(times(commits), order) && list == Seq::new(
            order.len(),
            |i: int| commits[order[i] as int],
        );
    let a = order[i] as int;
    let b = order[j] as int;
    law_stable_order(times(commits), order);
    assert(commits[a] == list[i] && commits[b] == list[j]);
}

/// Where the chain of the head leads to a missing commit or round and round, that is
/// the error; and where it leads to a root, the error is that of the first commit
/// whose chain passes no such root and leads to none.
pub proof fn law_why_there_are_no_commits(records: Seq<CommitRecord>, head: Oid, i: int)
    requires
        0 <= i < records.len(),
    ensures
        ({
            let parents = parents_of(records);
            let r = commits_of(records, Some(head), false);
            match chain_end(parents, head) {
                ChainEnd::Missing(oid) => r == Err::<Seq<(Oid, i64)>, HistoryError>(
                    HistoryError::MissingCommit(oid),
                ),
                ChainEnd::Endless => r == Err::<Seq<(Oid, i64)>, HistoryError>(
                    HistoryError::EndlessChain,
                ),
                ChainEnd::Root(root) => !is_on_chain(parents, records[i].oid, root) && (forall|k: int|
                    0 <= k < i ==> is_on_chain(parents, (#[trigger] records[k]).oid, root)
                        || chain_end(parents, records[k].oid) is Root) ==> match chain_end(
                    parents,
                    records[i].oid,
                ) {
                    ChainEnd::Missing(oid) => r == Err::<Seq<(Oid, i64)>, HistoryError>(
                        HistoryError::MissingCommit(oid),
                    ),
                    ChainEnd::Endless => r == Err::<Seq<(Oid, i64)>, HistoryError>(
                        HistoryError::EndlessChain,
                    ),
                    ChainEnd::Root(_) => true,
                },
            }
        }),
{
    let parents = parents_of(records);
    if let ChainEnd::Root(root) = chain_end(parents, head) {
        let all = walked(records);
        if !is_on_chain(parents, records[i].oid, root) && chain_end(parents, records[i].oid)
            !is Root && forall|k: int|
            0 <= k < i ==> is_on_chain(parents, (#[trigger] records[k]).oid, root) || chain_end(
                parents,
                records[k].oid,
            ) is Root {
            let before = all.take(i);
            assert forall|k: int| 0 <= k < before.len() implies commit_error(
                parents,
                root,
                (#[trigger] before[k]).0,
            ) is None by {
                assert(before[k].0 == records[k].oid);
            }
            lemma_no_first_error(parents, root, before);
            lemma_no_error_before(parents, root, all, i);
            lemma_first_error_stays(parents, root, all, i + 1);
        }
    }
}

/// A commit is foreign if and only if its chain leads to a root and the main one does
/// not lie on it; and all is well with a list of commits if and only if the chain of
/// each passes the main root or leads to some root.
pub proof fn law_foreign_commits(
    parents: Map<Oid, Option<Oid>>,
    main_root: Oid,
    oid: Oid,
    commits: Seq<(Oid, i64)>,
)
    ensures
        is_foreign(parents, main_root, oid) <==> !is_on_chain(parents, oid, main_root)
            && exists|root: Oid| #[trigger]
            is_on_chain(parents, oid, root) && parents.contains_key(root) && parents[root] is None,
        first_error(parents, main_root, commits) is None <==> forall|i: int|
            0 <= i < commits.len() ==> is_on_chain(parents, (#[trigger] commits[i]).0, main_root)
                || chain_end(parents, commits[i].0) is Root,
        is_on_foreign_chain(parents, main_root, commits, oid) <==> exists|i: int|
            0 <= i < commits.len() && is_foreign(parents, main_root, (#[trigger] commits[i]).0)
                && is_on_chain(parents, commits[i].0, oid),
{
    law_where_chains_lead(parents, oid);
    lemma_no_first_error(parents, main_root, commits);
    if let ChainEnd::Root(root) = chain_end(parents, oid) {
        assert(is_on_chain(parents, oid, root));
    }
    if first_error(parents, main_root, commits) is None {
        assert forall|i: int| 0 <= i < commits.len() implies is_on_chain(
            parents,
            (#[trigger] commits[i]).0,
            main_root,
        ) || chain_end(parents, commits[i].0) is Root by {
            assert(commit_error(parents, main_root, commits[i].0) is None);
        }
    }
    if forall|i: int|
        0 <= i < commits.len() ==> is_on_chain(parents, (#[trigger] commits[i]).0, main_root)
            || chain_end(parents, commits[i].0) is Root {
        assert forall|i: int| 0 <= i < commits.len() implies commit_error(
            parents,
            main_root,
            (#[trigger] commits[i]).0,
        ) is None by {
            assert(is_on_chain(parents, commits[i].0, main_root) || chain_end(
                parents,
                commits[i].0,
            ) is Root);
        }
    }
}

/// One more commit comes into the table with its first parent, and changes nothing
/// of the others.
pub proof fn law_one_more_record(records: Seq<CommitRecord>, c: CommitRecord, oid: Oid)
    ensures
        !parents_of(Seq::<CommitRecord>::empty()).contains_key(oid),
        parents_of(records.push(c)).contains_key(c.oid),
        parents_of(records.push(c))[c.oid] == c.first_parent,
        oid != c.oid ==> (parents_of(records.push(c)).contains_key(oid) <==> parents_of(
            records,
        ).contains_key(oid)) && (parents_of(records).contains_key(oid) ==> parents_of(
            records.push(c),
        )[oid] == parents_of(records)[oid]),
{
    assert(records.push(c).drop_last() =~= records);
}

} // verus!
