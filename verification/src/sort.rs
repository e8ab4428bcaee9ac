//! Sorting: a stable order of integer keys, and lists of strings.

use crate::text::{chars_of, text_le, texts};
use vstd::prelude::*;

verus! {

/// Whether the item at `i` goes before the item at `j`: by its key, and by
/// place where the keys are equal.
pub open spec fn goes_before(keys: Seq<i128>, i: int, j: int) -> bool {
    keys[i] < keys[j] || (keys[i] == keys[j] && i < j)
}

/// `order` lists the places `lo..hi`, each once, with equal keys in the order
/// in which they stand.
pub open spec fn is_order_of(keys: Seq<i128>, lo: int, hi: int, order: Seq<usize>) -> bool {
    &&& order.len() == hi - lo
    &&& forall|a: int| 0 <= a < order.len() ==> lo <= #[trigger] order[a] < hi
    &&& forall|k: usize| lo <= k < hi ==> #[trigger] order.contains(k)
    &&& forall|a: int, b: int|
        0 <= a < b < order.len() ==> goes_before(
            keys,
            #[trigger] order[a] as int,
            #[trigger] order[b] as int,
        )
}

/// The stable order of all the keys.
pub open spec fn is_stable_order(keys: Seq<i128>, order: Seq<usize>) -> bool {
    is_order_of(keys, 0, keys.len() as int, order)
}

/// Merges the orders of two neighbouring ranges.
fn merge(
    keys: &Vec<i128>,
    lo: usize,
    mid: usize,
    hi: usize,
    left: &Vec<usize>,
    right: &Vec<usize>,
) -> (r: Vec<usize>)
    requires
        lo <= mid <= hi <= keys@.len(),
        is_order_of(keys@, lo as int, mid as int, left@),
        is_order_of(keys@, mid as int, hi as int, right@),
    ensures
        is_order_of(keys@, lo as int, hi as int, r@),
{
    let mut r: Vec<usize> = Vec::new();
    let mut i: usize = 0;
    let mut j: usize = 0;
    while i < left.len() || j < right.len()
        invariant
            lo <= mid <= hi <= keys@.len(),
            is_order_of(keys@, lo as int, mid as int, left@),
            is_order_of(keys@, mid as int, hi as int, right@),
            i <= left@.len(),
            j <= right@.len(),
            r@.len() == i + j,
            forall|a: int| 0 <= a < r@.len() ==> lo <= #[trigger] r@[a] < hi,
            forall|a: int| 0 <= a < i ==> r@.contains(#[trigger] left@[a]),
            forall|b: int| 0 <= b < j ==> r@.contains(#[trigger] right@[b]),
            forall|a: int, b: int|
                0 <= a < b < r@.len() ==> goes_before(
                    keys@,
                    #[trigger] r@[a] as int,
                    #[trigger] r@[b] as int,
                ),
            forall|a: int, b: int|
                0 <= a < r@.len() && i <= b < left@.len() ==> goes_before(
                    keys@,
                    #[trigger] r@[a] as int,
                    #[trigger] left@[b] as int,
                ),
            forall|a: int, b: int|
                0 <= a < r@.len() && j <= b < right@.len() ==> goes_before(
                    keys@,
                    #[trigger] r@[a] as int,
                    #[trigger] right@[b] as int,
                ),
        decreases left@.len() - i + right@.len() - j,
    {
        let ghost before = r@;
        let take_left = j == right.len() || (i < left.len() && keys[left[i]] <= keys[right[j]]);
        let ghost x: usize;
        if take_left {
            let l = left[i];
            r.push(l);
            i += 1;
            proof {
                x = l;
            }
        } else {
            let l = right[j];
            r.push(l);
            j += 1;
            proof {
                x = l;
            }
        }
        proof {
            assert(r@ =~= before.push(x));
            assert(r@[before.len() as int] == x);
            assert forall|y: usize| before.contains(y) implies #[trigger] r@.contains(y) by {
                let k = choose|k: int| 0 <= k < before.len() && before[k] == y;
                assert(r@[k] == y);
            }
            assert(r@.contains(x));
        }
    }
    proof {
        assert forall|k: usize| lo <= k < hi implies #[trigger] r@.contains(k) by {
            if k < mid {
                assert(left@.contains(k));
                let a = choose|a: int| 0 <= a < left@.len() && left@[a] == k;
                assert(r@.contains(left@[a]));
            } else {
                assert(right@.contains(k));
                let a = choose|a: int| 0 <= a < right@.len() && right@[a] == k;
                assert(r@.contains(right@[a]));
            }
        }
    }
    r
}

fn order_range(keys: &Vec<i128>, lo: usize, hi: usize) -> (r: Vec<usize>)
    requires
        lo <= hi <= keys@.len(),
    ensures
        is_order_of(keys@, lo as int, hi as int, r@),
    decreases hi - lo,
{
    if hi - lo <= 1 {
        let mut r: Vec<usize> = Vec::new();
        if lo < hi {
            r.push(lo);
            assert(r@[0] == lo);
        }
        return r;
    }
    let mid = lo + (hi - lo) / 2;
    let left = order_range(keys, lo, mid);
    let right = order_range(keys, mid, hi);
    merge(keys, lo, mid, hi, &left, &right)
}

/// The stable order of `keys`, smallest first.
pub fn stable_order(keys: &Vec<i128>) -> (r: Vec<usize>)
    ensures
        is_stable_order(keys@, r@),
{
    order_range(keys, 0, keys.len())
}

pub proof fn lemma_text_le_total(a: Seq<char>, b: Seq<char>)
    ensures
        text_le(a, b) || text_le(b, a),
    decreases a.len(),
{
    if a.len() > 0 && b.len() > 0 {
        if a[0] == b[0] {
            lemma_text_le_total(a.drop_first(), b.drop_first());
        }
    }
}

pub proof fn lemma_text_le_transitive(a: Seq<char>, b: Seq<char>, c: Seq<char>)
    requires
        text_le(a, b),
        text_le(b, c),
    ensures
        text_le(a, c),
    decreases a.len(),
{
    if a.len() > 0 && a[0] == b[0] && b[0] == c[0] {
        lemma_text_le_transitive(a.drop_first(), b.drop_first(), c.drop_first());
    }
}

pub open spec fn is_sorted(s: Seq<Seq<char>>) -> bool {
    forall|i: int, j: int| 0 <= i < j < s.len() ==> text_le(#[trigger] s[i], #[trigger] s[j])
}

/// Whether `a` comes before `b` or is the same.
pub fn text_before(a: &str, b: &str) -> (r: bool)
    ensures
        r == text_le(a@, b@),
{
    let x = chars_of(a);
    let y = chars_of(b);
    let mut i: usize = 0;
    assert(x@.skip(0) =~= a@);
    assert(y@.skip(0) =~= b@);
    loop
        invariant
            i <= x@.len(),
            i <= y@.len(),
            text_le(a@, b@) == text_le(x@.skip(i as int), y@.skip(i as int)),
        decreases x@.len() - i,
    {
        if i == x.len() {
            return true;
        }
        if i == y.len() {
            return false;
        }
        let c = x[i];
        let d = y[i];
        if c != d {
            return c < d;
        }
        assert(x@.skip(i as int).drop_first() =~= x@.skip(i + 1));
        assert(y@.skip(i as int).drop_first() =~= y@.skip(i + 1));
        i += 1;
    }
}

proof fn lemma_insert_multiset(s: Seq<Seq<char>>, i: int, x: Seq<char>)
    requires
        0 <= i <= s.len(),
    ensures
        s.insert(i, x).to_multiset() == s.to_multiset().insert(x),
{
    broadcast use vstd::seq_lib::group_to_multiset_ensures;

    let t = s.insert(i, x);
    assert(t.remove(i) =~= s);
    assert(t[i] == x);
    assert(t.contains(x));
    assert(t.to_multiset().count(x) > 0);
    assert(t.to_multiset() =~= t.to_multiset().remove(x).insert(x));
}

/// Puts `x` into a sorted list, at a place where the list stays sorted.
fn insert_sorted(v: &mut Vec<String>, x: String)
    requires
        is_sorted(texts(old(v)@)),
    ensures
        is_sorted(texts(final(v)@)),
        texts(final(v)@).to_multiset() == texts(old(v)@).to_multiset().insert(x@),
{
    let ghost s = texts(v@);
    let mut i: usize = v.len();
    while i > 0 && !text_before(v[i - 1].as_str(), x.as_str())
        invariant
            i <= v@.len(),
            s == texts(v@),
            is_sorted(s),
            forall|k: int| i <= k < s.len() ==> text_le(x@, #[trigger] s[k]),
        decreases i,
    {
        i -= 1;
        proof {
            lemma_text_le_total(s[i as int], x@);
        }
    }
    proof {
        assert forall|k: int| 0 <= k < i implies text_le(#[trigger] s[k], x@) by {
            if k < i - 1 {
                lemma_text_le_transitive(s[k], s[i - 1], x@);
            }
        }
        lemma_insert_multiset(s, i as int, x@);
    }
    v.insert(i, x);
    assert(texts(v@) =~= s.insert(i as int, x@));
}

/// The strings in order.
pub fn sort_texts(v: Vec<String>) -> (r: Vec<String>)
    ensures
        is_sorted(texts(r@)),
        texts(r@).to_multiset() == texts(v@).to_multiset(),
{
    let mut r: Vec<String> = Vec::new();
    let mut i: usize = 0;
    assert(texts(r@) =~= texts(v@).take(0));
    while i < v.len()
        invariant
            i <= v@.len(),
            is_sorted(texts(r@)),
            texts(r@).to_multiset() == texts(v@).take(i as int).to_multiset(),
        decreases v@.len() - i,
    {
        insert_sorted(&mut r, v[i].clone());
        proof {
            broadcast use vstd::seq_lib::group_to_multiset_ensures;

            assert(texts(v@).take(i + 1) =~= texts(v@).take(i as int).push(texts(v@)[i as int]));
        }
        i += 1;
    }
    assert(texts(v@).take(i as int) =~= texts(v@));
    r
}

/// A stable order has every place once. The keys in that order never fall, and
/// equal keys stay in the order in which they stood.
pub proof fn law_stable_order(keys: Seq<i128>, order: Seq<usize>)
    requires
        is_stable_order(keys, order),
    ensures
        order.len() == keys.len(),
        order.no_duplicates(),
        forall|k: int|
            0 <= k < keys.len() && k <= usize::MAX ==> #[trigger] order.contains(k as usize),
        forall|a: int| 0 <= a < order.len() ==> (#[trigger] order[a]) < keys.len(),
        forall|a: int, b: int|
            0 <= a < b < order.len() ==> keys[#[trigger] order[a] as int] <= keys[
                #[trigger] order[b] as int] && (keys[order[a] as int] == keys[order[b] as int]
                ==> order[a] < order[b]),
{
    assert forall|a: int, b: int| 0 <= a < b < order.len() implies keys[#[trigger] order[a] as int]
        <= keys[#[trigger] order[b] as int] && (keys[order[a] as int] == keys[order[b] as int]
        ==> order[a] < order[b]) by {
        assert(goes_before(keys, order[a] as int, order[b] as int));
    }
    assert forall|a: int, b: int| 0 <= a < b < order.len() implies order[a] != order[b] by {
        assert(goes_before(keys, order[a] as int, order[b] as int));
    }
}

/// Items in a stable order are the same items, each as often.
pub proof fn law_order_is_a_rearrangement<T>(keys: Seq<i128>, order: Seq<usize>, items: Seq<T>)
    requires
        is_stable_order(keys, order),
        items.len() == keys.len(),
    ensures
        Seq::new(order.len(), |i: int| items[order[i] as int]).to_multiset() == items.to_multiset(),
{
    law_stable_order(keys, order);
    lemma_rearranged(order, items);
}

/// A list that names every place of another once has the same items.
proof fn lemma_rearranged<T>(order: Seq<usize>, items: Seq<T>)
    requires
        order.len() == items.len(),
        order.no_duplicates(),
        forall|a: int| 0 <= a < order.len() ==> (#[trigger] order[a]) < items.len(),
    ensures
        Seq::new(order.len(), |i: int| items[order[i] as int]).to_multiset() == items.to_multiset(),
    decreases items.len(),
{
    broadcast use vstd::seq_lib::group_to_multiset_ensures;

    let all = Seq::new(order.len(), |i: int| items[order[i] as int]);
    if items.len() == 0 {
        assert(all =~= items);
    } else {
        let n = items.len() - 1;
        let last = n as usize;
        let a = lemma_has_every_place(order, n);
        let fewer = items.drop_last();
        let rest = order.remove(a);
        assert forall|b: int| 0 <= b < rest.len() implies (#[trigger] rest[b]) < fewer.len() by {
            let c = if b < a {
                b
            } else {
                b + 1
            };
            assert(rest[b] == order[c]);
            assert(order[c] != order[a]);
        }
        assert(rest.no_duplicates()) by {
            assert forall|b: int, c: int| 0 <= b < c < rest.len() implies rest[b] != rest[c] by {
                let x = if b < a {
                    b
                } else {
                    b + 1
                };
                let y = if c < a {
                    c
                } else {
                    c + 1
                };
                assert(rest[b] == order[x] && rest[c] == order[y]);
            }
        }
        lemma_rearranged(rest, fewer);
        let some = Seq::new(rest.len(), |i: int| fewer[rest[i] as int]);
        assert(all.remove(a) =~= some);
        assert(all[a] == items[n]);
        assert(items =~= fewer.push(items[n]));
        assert(all =~= some.insert(a, items[n]));
        assert(all.contains(items[n]));
        assert(all.to_multiset() =~= all.to_multiset().remove(items[n]).insert(items[n]));
    }
}

/// Different numbers below `n + 1`, as many as that, have `n` among them.
proof fn lemma_has_every_place(order: Seq<usize>, n: int) -> (a: int)
    requires
        order.no_duplicates(),
        order.len() == n + 1,
        n >= 0,
        forall|a: int| 0 <= a < order.len() ==> (#[trigger] order[a]) <= n,
    ensures
        0 <= a < order.len(),
        order[a] == n,
{
    let places = order.map_values(|k: usize| k as int);
    if !places.contains(n) {
        assert(places.no_duplicates());
        places.unique_seq_to_set();
        let below = vstd::set_lib::set_int_range(0, n);
        vstd::set_lib::lemma_int_range(0, n);
        assert forall|k: int| places.to_set().contains(k) implies below.contains(k) by {
            let b = choose|b: int| 0 <= b < places.len() && places[b] == k;
            assert(order[b] <= n);
        }
        vstd::set_lib::lemma_len_subset(places.to_set(), below);
    }
    choose|a: int| 0 <= a < places.len() && places[a] == n
}

} // verus!
