//! The commits to look at: so many of a history, evenly spaced.

use crate::types::Oid;
use vstd::prelude::*;

verus! {

/// The place in a history of `len` commits of the sample at `i`, of `n`.
pub open spec fn sample_place(len: int, n: int, i: int) -> int {
    i * (len - 1) / (n - 1)
}

/// The commits that a sample of `n` takes: all of them for 0 or where there are
/// no more, the middle one for 1, and else the first, the last and those at
/// even steps between them.
pub open spec fn sampled(commits: Seq<(Oid, i64)>, n: int) -> Seq<(Oid, i64)> {
    let len = commits.len() as int;
    if n == 0 || len <= n {
        commits
    } else if n == 1 {
        seq![commits[len / 2]]
    } else {
        Seq::new(n as nat, |i: int| commits[sample_place(len, n, i)])
    }
}

/// Places stay inside the history.
proof fn lemma_place_bounds(len: int, n: int, i: int)
    requires
        2 <= n < len,
        0 <= i < n,
    ensures
        0 <= i * (len - 1) <= (n - 1) * (len - 1),
        0 <= sample_place(len, n, i) < len,
{
    assert(0 <= i * (len - 1) <= (n - 1) * (len - 1)) by (nonlinear_arith)
        requires
            0 <= i <= n - 1,
            len > 1,
    ;
    assert(0 <= (i * (len - 1)) / (n - 1) <= len - 1) by (nonlinear_arith)
        requires
            0 <= i * (len - 1) <= (n - 1) * (len - 1),
            n - 1 > 0,
    ;
}

/// Takes a sample of `n` commits of a history.
pub fn sample_commits(commits: Vec<(Oid, i64)>, n: usize) -> (r: Vec<(Oid, i64)>)
    ensures
        r@ == sampled(commits@, n as int),
{
    let len = commits.len();
    if n == 0 || len <= n {
        return commits;
    }
    let mut r: Vec<(Oid, i64)> = Vec::new();
    if n == 1 {
        r.push(commits[len / 2]);
        assert(r@ =~= sampled(commits@, n as int));
        return r;
    }
    let mut i: usize = 0;
    while i < n
        invariant
            2 <= n < len == commits@.len(),
            i <= n,
            r@ == sampled(commits@, n as int).take(i as int),
        decreases n - i,
    {
        proof {
            lemma_place_bounds(len as int, n as int, i as int);
            assert((n - 1) * (len - 1) <= u128::MAX) by (nonlinear_arith)
                requires
                    1 <= n <= 0xffff_ffff_ffff_ffff,
                    1 <= len <= 0xffff_ffff_ffff_ffff,
            ;
        }
        let place = (i as u128 * (len - 1) as u128 / (n - 1) as u128) as usize;
        r.push(commits[place]);
        assert(sampled(commits@, n as int).take(i + 1) =~= sampled(commits@, n as int).take(
            i as int,
        ).push(sampled(commits@, n as int)[i as int]));
        i += 1;
    }
    assert(sampled(commits@, n as int).take(i as int) =~= sampled(commits@, n as int));
    r
}

/// A sample has as many commits as were asked for, where the history has more.
pub proof fn law_sample_size(commits: Seq<(Oid, i64)>, n: int)
    requires
        0 < n < commits.len(),
    ensures
        sampled(commits, n).len() == n,
{
}

/// A sample of two or more keeps the first and the last commit of the history.
pub proof fn law_sample_keeps_ends(commits: Seq<(Oid, i64)>, n: int)
    requires
        commits.len() > 0,
        n == 0 || n >= 2,
    ensures
        sampled(commits, n).len() > 0,
        sampled(commits, n)[0] == commits[0],
        sampled(commits, n).last() == commits.last(),
{
    let len = commits.len() as int;
    if 2 <= n < len {
        assert(0 * (len - 1) / (n - 1) == 0) by (nonlinear_arith)
            requires
                n > 1,
        ;
        assert((n - 1) * (len - 1) / (n - 1) == len - 1) by (nonlinear_arith)
            requires
                n > 1,
        ;
    }
}

/// Two neighbours of a sample are as far apart in the history as any other
/// two, but for one commit: the whole way divided by the number of steps,
/// rounded down or up. So no commit is taken twice, and their order stays.
pub proof fn law_sample_evenly_spaced(len: int, n: int, i: int)
    requires
        2 <= n < len,
        0 <= i < n - 1,
    ensures
        ({
            let gap = sample_place(len, n, i + 1) - sample_place(len, n, i);
            let step = (len - 1) / (n - 1);
            gap >= 1 && (gap == step || gap == step + 1)
        }),
{
    let a = i * (len - 1);
    let b = (i + 1) * (len - 1);
    let m = n - 1;
    assert(b == a + (len - 1)) by (nonlinear_arith)
        requires
            a == i * (len - 1),
            b == (i + 1) * (len - 1),
    ;
    let l = len - 1;
    assert(l / m >= 1) by (nonlinear_arith)
        requires
            l >= m,
            m > 0,
    ;
    assert((a + l) / m - a / m == l / m || (a + l) / m - a / m == l / m + 1) by (nonlinear_arith)
        requires
            m > 0,
    ;
}

/// A sample of a history that runs from the oldest commit to the newest does so
/// too.
pub proof fn law_sample_keeps_order(commits: Seq<(Oid, i64)>, n: int, i: int, j: int)
    requires
        n >= 0,
        forall|a: int, b: int|
            0 <= a < b < commits.len() ==> (#[trigger] commits[a]).1 <= (#[trigger] commits[b]).1,
        0 <= i < j < sampled(commits, n).len(),
    ensures
        sampled(commits, n)[i].1 <= sampled(commits, n)[j].1,
{
    let len = commits.len() as int;
    if 2 <= n < len {
        lemma_place_bounds(len, n, i);
        lemma_place_bounds(len, n, j);
        let a = sample_place(len, n, i);
        let b = sample_place(len, n, j);
        assert(i * (len - 1) / (n - 1) <= j * (len - 1) / (n - 1)) by (nonlinear_arith)
            requires
                0 <= i < j,
                len > 1,
                n > 1,
        ;
        if a < b {
            assert(commits[a].1 <= commits[b].1);
        }
    }
}

/// The sample at `i` of `n` stands as far into the history as `i` steps of `n - 1`
/// lead, rounded down to a commit; a sample of one is the commit in the middle;
/// and a sample of none, or of as many as there are, is the whole history.
pub proof fn law_where_samples_stand(commits: Seq<(Oid, i64)>, n: int, i: int)
    requires
        0 <= n,
    ensures
        n == 0 || n >= commits.len() ==> sampled(commits, n) == commits,
        n == 1 && commits.len() > 1 ==> sampled(commits, n).len() == 1 && exists|p: int|
            0 <= p < commits.len() && sampled(commits, n)[0] == #[trigger] commits[p] && 2 * p
                <= commits.len() < 2 * (p + 1),
        2 <= n < commits.len() && 0 <= i < n ==> exists|p: int|
            0 <= p < commits.len() && sampled(commits, n)[i] == #[trigger] commits[p] && p * (n - 1)
                <= i * (commits.len() - 1) < (p + 1) * (n - 1),
{
    let len = commits.len() as int;
    if n == 1 && len > 1 {
        let p = len / 2;
        assert(sampled(commits, n)[0] == commits[p]);
    }
    if 2 <= n < len && 0 <= i < n {
        lemma_place_bounds(len, n, i);
        let p = sample_place(len, n, i);
        let a = i * (len - 1);
        let m = n - 1;
        assert(p * m <= a < (p + 1) * m) by (nonlinear_arith)
            requires
                m > 0,
                p == a / m,
        ;
        assert(sampled(commits, n)[i] == commits[p]);
    }
}

} // verus!
