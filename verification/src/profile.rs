//! The written forms of a profile: its stacks on one line each, and the
//! functions that it met most often.

use crate::blame::{text_of_bytes, utf8_text};
use crate::fx::{map_entries, map_new, map_of, FxKey};
use crate::sort::{goes_before, is_stable_order, stable_order};
use crate::tally::{add_count, count_in, occurrences};
use crate::text::{
    decimal, decimal_digits, law_split_at_first, push_digits, push_text, split_on, texts,
};
use rustc_hash::FxHashMap;
use vstd::prelude::*;

verus! {

/// The name of a symbol; one without a readable name is unknown.
pub open spec fn symbol_text(name: Option<Seq<u8>>) -> Seq<char> {
    match name {
        Some(bytes) => match utf8_text(bytes) {
            Some(text) => text,
            None => "<unknown>"@,
        },
        None => "<unknown>"@,
    }
}

/// The symbols as plain values.
pub open spec fn symbol_views(symbols: Seq<Option<Vec<u8>>>) -> Seq<Option<Seq<u8>>> {
    symbols.map_values(
        |s: Option<Vec<u8>>|
            match s {
                Some(bytes) => Some(bytes@),
                None => None,
            },
    )
}

/// The names of the symbols, the last one first.
pub open spec fn stack_of(symbols: Seq<Option<Seq<u8>>>) -> Seq<Seq<char>> {
    Seq::new(symbols.len(), |i: int| symbol_text(symbols[symbols.len() - 1 - i]))
}

/// The names of a stack from the outermost function on. `symbols` holds them
/// from the innermost on.
pub fn stack_names(symbols: &Vec<Option<Vec<u8>>>) -> (r: Vec<String>)
    ensures
        texts(r@) == stack_of(symbol_views(symbols@)),
{
    let ghost views = symbol_views(symbols@);
    let mut r: Vec<String> = Vec::new();
    let n = symbols.len();
    let mut i: usize = 0;
    assert(texts(r@) =~= stack_of(views).take(0));
    while i < n
        invariant
            i <= n,
            n == symbols@.len(),
            views == symbol_views(symbols@),
            texts(r@) == stack_of(views).take(i as int),
        decreases n - i,
    {
        let ghost before = r@;
        let name: String = match &symbols[n - 1 - i] {
            Some(bytes) => match text_of_bytes(bytes.as_slice()) {
                Some(text) => text.to_owned(),
                None => "<unknown>".to_owned(),
            },
            None => "<unknown>".to_owned(),
        };
        assert(name@ == symbol_text(views[n - 1 - i]));
        r.push(name);
        assert(texts(r@) =~= texts(before).push(stack_of(views)[i as int]));
        assert(stack_of(views).take(i + 1) =~= stack_of(views).take(i as int).push(
            stack_of(views)[i as int],
        ));
        i += 1;
    }
    assert(stack_of(views).take(i as int) =~= stack_of(views));
    r
}

/// The names with semicolons between them.
pub open spec fn joined(names: Seq<Seq<char>>) -> Seq<char>
    decreases names.len(),
{
    if names.len() == 0 {
        seq![]
    } else if names.len() == 1 {
        names[0]
    } else {
        joined(names.drop_last()).push(';') + names.last()
    }
}

/// A stack and how often it was met, on one line.
pub fn folded_line(stack: &Vec<String>, count: u64) -> (r: String)
    ensures
        r@ == joined(texts(stack@)).push(' ') + decimal_digits(count as int),
{
    let mut r = String::new();
    let mut i: usize = 0;
    assert(joined(texts(stack@).take(0)) =~= r@);
    while i < stack.len()
        invariant
            i <= stack@.len(),
            r@ == joined(texts(stack@).take(i as int)),
        decreases stack@.len() - i,
    {
        let ghost more = texts(stack@).take(i + 1);
        if i > 0 {
            r.push(';');
        }
        push_text(&mut r, stack[i].as_str());
        proof {
            assert(more.drop_last() =~= texts(stack@).take(i as int));
            assert(more.last() == stack@[i as int]@);
            if i == 0 {
                assert(r@ =~= more[0]);
            }
        }
        i += 1;
    }
    assert(texts(stack@).take(i as int) =~= texts(stack@));
    r.push(' ');
    push_digits(&mut r, count);
    r
}

/// A sample: a stack, and how often it was met.
pub open spec fn sample_views(samples: Seq<(Vec<String>, u64)>) -> Seq<(Seq<Seq<char>>, u64)> {
    samples.map_values(|s: (Vec<String>, u64)| (texts(s.0@), s.1))
}

/// How often a function was met in the samples: for each stack as often as the
/// stack was met, and for each time that the function stands in it.
pub open spec fn times_met(samples: Seq<(Seq<Seq<char>>, u64)>, name: Seq<char>) -> int
    decreases samples.len(),
{
    if samples.len() == 0 {
        0
    } else {
        times_met(samples.drop_last(), name) + occurrences(samples.last().0, name)
            * samples.last().1
    }
}

/// Whether a function stands in one of the stacks.
pub open spec fn is_met(samples: Seq<(Seq<Seq<char>>, u64)>, name: Seq<char>) -> bool {
    exists|i: int| 0 <= i < samples.len() && (#[trigger] samples[i]).0.contains(name)
}

/// How often a function was met in the first `i` samples and the first `j`
/// functions of the next.
spec fn met_so_far(
    samples: Seq<(Seq<Seq<char>>, u64)>,
    i: int,
    j: int,
    name: Seq<char>,
) -> int {
    times_met(samples.take(i), name) + occurrences(samples[i].0.take(j), name) * samples[i].1
}

/// Whether a function stands in one of the first `i` stacks or among the first
/// `j` functions of the next.
spec fn seen_so_far(
    samples: Seq<(Seq<Seq<char>>, u64)>,
    i: int,
    j: int,
    name: Seq<char>,
) -> bool {
    is_met(samples.take(i), name) || samples[i].0.take(j).contains(name)
}

/// What one more function of a stack does.
proof fn lemma_met_step(
    samples: Seq<(Seq<Seq<char>>, u64)>,
    i: int,
    j: int,
    name: Seq<char>,
)
    requires
        0 <= i < samples.len(),
        0 <= j < samples[i].0.len(),
    ensures
        met_so_far(samples, i, j + 1, name) == met_so_far(samples, i, j, name) + (if name
            == samples[i].0[j] {
            samples[i].1 as int
        } else {
            0
        }),
        seen_so_far(samples, i, j + 1, name) <==> seen_so_far(samples, i, j, name) || name
            == samples[i].0[j],
{
    let stack = samples[i].0;
    let less = stack.take(j);
    let more = stack.take(j + 1);
    let count = samples[i].1 as int;
    assert(more.drop_last() =~= less);
    let n = occurrences(less, name);
    assert((n + 1) * count == n * count + count) by (nonlinear_arith);
    assert(more.contains(name) <==> less.contains(name) || name == stack[j]) by {
        if less.contains(name) {
            let k = choose|k: int| 0 <= k < less.len() && less[k] == name;
            assert(more[k] == name);
        }
        assert(more[j] == stack[j]);
        if more.contains(name) {
            let k = choose|k: int| 0 <= k < more.len() && more[k] == name;
            if k < j {
                assert(less[k] == name);
            }
        }
    }
}

/// A whole stack is one more sample.
proof fn lemma_met_whole(samples: Seq<(Seq<Seq<char>>, u64)>, i: int, name: Seq<char>)
    requires
        0 <= i < samples.len(),
    ensures
        met_so_far(samples, i, samples[i].0.len() as int, name) == times_met(
            samples.take(i + 1),
            name,
        ),
        seen_so_far(samples, i, samples[i].0.len() as int, name) <==> is_met(
            samples.take(i + 1),
            name,
        ),
{
    let stack = samples[i].0;
    let more = samples.take(i + 1);
    assert(stack.take(stack.len() as int) =~= stack);
    assert(more.drop_last() =~= samples.take(i));
    if is_met(samples.take(i), name) {
        let k = choose|k: int|
            0 <= k < samples.take(i).len() && (#[trigger] samples.take(i)[k]).0.contains(name);
        assert(more[k].0.contains(name));
    }
    if stack.contains(name) {
        assert(more[i].0.contains(name));
    }
    if is_met(more, name) {
        let k = choose|k: int| 0 <= k < more.len() && (#[trigger] more[k]).0.contains(name);
        if k < i {
            assert(samples.take(i)[k].0.contains(name));
        }
    }
}

proof fn lemma_met_grows(
    samples: Seq<(Seq<Seq<char>>, u64)>,
    i: int,
    j: int,
    name: Seq<char>,
)
    requires
        0 <= i < samples.len(),
        0 <= j <= samples[i].0.len(),
    ensures
        met_so_far(samples, i, j, name) <= times_met(samples, name),
    decreases samples.len() - i, samples[i].0.len() - j,
{
    if j < samples[i].0.len() {
        lemma_met_step(samples, i, j, name);
        lemma_met_grows(samples, i, j + 1, name);
    } else {
        lemma_met_whole(samples, i, name);
        if i + 1 < samples.len() {
            assert(samples[i + 1].0.take(0) =~= seq![]);
            assert(0 * samples[i + 1].1 as int == 0);
            assert(met_so_far(samples, i + 1, 0, name) == times_met(samples.take(i + 1), name));
            lemma_met_grows(samples, i + 1, 0, name);
        } else {
            assert(samples.take(i + 1) =~= samples);
        }
    }
}

/// The table holds every function that was met, with how often it was.
pub open spec fn counts_functions(
    m: Map<Seq<char>, u64>,
    samples: Seq<(Seq<Seq<char>>, u64)>,
) -> bool {
    &&& forall|name: Seq<char>| #[trigger] m.contains_key(name) <==> is_met(samples, name)
    &&& forall|name: Seq<char>| #[trigger]
        m.contains_key(name) ==> m[name] == times_met(samples, name)
}

/// How often every function was met fits a `u64`.
pub open spec fn profile_fits(samples: Seq<(Seq<Seq<char>>, u64)>) -> bool {
    forall|name: Seq<char>| #[trigger] times_met(samples, name) <= u64::MAX
}

proof fn lemma_unmet(samples: Seq<(Seq<Seq<char>>, u64)>, name: Seq<char>)
    requires
        !is_met(samples, name),
    ensures
        times_met(samples, name) == 0,
    decreases samples.len(),
{
    if samples.len() > 0 {
        let fewer = samples.drop_last();
        let stack = samples.last().0;
        assert(!stack.contains(name)) by {
            assert(samples[samples.len() - 1].0 == stack);
        }
        assert(!is_met(fewer, name)) by {
            if is_met(fewer, name) {
                let k = choose|k: int| 0 <= k < fewer.len() && (#[trigger] fewer[k]).0.contains(name);
                assert(samples[k].0.contains(name));
            }
        }
        lemma_unmet(fewer, name);
        lemma_no_occurrence(stack, name);
        assert(0 * samples.last().1 as int == 0);
    }
}

proof fn lemma_no_occurrence(s: Seq<Seq<char>>, name: Seq<char>)
    requires
        !s.contains(name),
    ensures
        occurrences(s, name) == 0,
    decreases s.len(),
{
    if s.len() > 0 {
        assert(s[s.len() - 1] == s.last());
        assert(!s.drop_last().contains(name)) by {
            if s.drop_last().contains(name) {
                let k = choose|k: int| 0 <= k < s.len() - 1 && s.drop_last()[k] == name;
                assert(s[k] == name);
            }
        }
        lemma_no_occurrence(s.drop_last(), name);
    }
}

/// The functions of the samples with how often each was met, if that fits.
pub fn count_functions(samples: &Vec<(Vec<String>, u64)>) -> (r: Option<FxHashMap<String, u64>>)
    ensures
        r is Some <==> profile_fits(sample_views(samples@)),
        r matches Some(m) ==> counts_functions(map_of(&m), sample_views(samples@)),
{
    let ghost views = sample_views(samples@);
    let mut m: FxHashMap<String, u64> = map_new();
    let mut i: usize = 0;
    assert(views.take(0) =~= seq![]);
    while i < samples.len()
        invariant
            i <= samples@.len(),
            views == sample_views(samples@),
            counts_functions(map_of(&m), views.take(i as int)),
        decreases samples@.len() - i,
    {
        let (stack, count) = &samples[i];
        let mut j: usize = 0;
        assert(views[i as int] == (texts(stack@), *count));
        proof {
            assert(views[i as int].0.take(0) =~= seq![]);
            assert(0 * *count as int == 0);
        }
        while j < stack.len()
            invariant
                i < samples@.len(),
                j <= stack@.len(),
                views == sample_views(samples@),
                views[i as int] == (texts(stack@), *count),
                forall|name: Seq<char>| #[trigger]
                    map_of(&m).contains_key(name) <==> seen_so_far(views, i as int, j as int, name),
                forall|name: Seq<char>| #[trigger]
                    map_of(&m).contains_key(name) ==> map_of(&m)[name] == met_so_far(
                        views,
                        i as int,
                        j as int,
                        name,
                    ),
            decreases stack@.len() - j,
        {
            let ghost before = map_of(&m);
            let ghost name = stack@[j as int]@;
            proof {
                assert(views[i as int].0[j as int] == name);
                lemma_met_step(views, i as int, j as int, name);
                assert(count_in(before, name) == met_so_far(views, i as int, j as int, name)) by {
                    if !before.contains_key(name) {
                        assert(!seen_so_far(views, i as int, j as int, name));
                        lemma_unmet(views.take(i as int), name);
                        lemma_no_occurrence(views[i as int].0.take(j as int), name);
                        assert(0 * *count as int == 0);
                    }
                }
            }
            if !add_count(&mut m, stack[j].clone(), *count) {
                proof {
                    lemma_met_grows(views, i as int, j + 1, name);
                    assert(times_met(views, name) > u64::MAX);
                }
                return None;
            }
            proof {
                let now = map_of(&m);
                assert forall|other: Seq<char>| #[trigger] now.contains_key(other) <==> seen_so_far(
                    views,
                    i as int,
                    j + 1,
                    other,
                ) by {
                    lemma_met_step(views, i as int, j as int, other);
                    assert(before.contains_key(other) || !before.contains_key(other));
                }
                assert forall|other: Seq<char>| #[trigger] now.contains_key(other) implies now[other]
                    == met_so_far(views, i as int, j + 1, other) by {
                    lemma_met_step(views, i as int, j as int, other);
                    assert(before.contains_key(other) || !before.contains_key(other));
                }
            }
            j += 1;
        }
        proof {
            assert forall|name: Seq<char>| #[trigger] map_of(&m).contains_key(name) <==> is_met(
                views.take(i + 1),
                name,
            ) by {
                lemma_met_whole(views, i as int, name);
            }
            assert forall|name: Seq<char>| #[trigger] map_of(&m).contains_key(
                name,
            ) implies map_of(&m)[name] == times_met(views.take(i + 1), name) by {
                lemma_met_whole(views, i as int, name);
            }
        }
        i += 1;
    }
    assert(views.take(i as int) =~= views);
    proof {
        assert forall|name: Seq<char>| #[trigger] times_met(views, name) <= u64::MAX by {
            if map_of(&m).contains_key(name) {
                let held: u64 = map_of(&m)[name];
                assert(held == times_met(views, name));
            } else {
                lemma_unmet(views, name);
            }
        }
    }
    Some(m)
}

/// The list holds the entries of the table, each once, largest count first. Of
/// entries with equal counts either may come first.
pub open spec fn is_ranking(r: Seq<(String, u64)>, m: Map<Seq<char>, u64>) -> bool {
    &&& forall|i: int|
        0 <= i < r.len() ==> m.contains_key((#[trigger] r[i]).0@) && m[r[i].0@] == r[i].1
    &&& forall|i: int, j: int|
        0 <= i < j < r.len() ==> (#[trigger] r[i]).0@ != (#[trigger] r[j]).0@
    &&& forall|name: Seq<char>| #[trigger]
        m.contains_key(name) ==> exists|i: int| 0 <= i < r.len() && (#[trigger] r[i]).0@ == name
    &&& forall|i: int, j: int| 0 <= i < j < r.len() ==> (#[trigger] r[i]).1 >= (#[trigger] r[j]).1
}

/// The entries of a table of counts, largest count first.
pub fn rank(m: &FxHashMap<String, u64>) -> (r: Vec<(String, u64)>)
    ensures
        is_ranking(r@, map_of(m)),
{
    let entries = map_entries(m);
    let mut keys: Vec<i128> = Vec::new();
    let mut i: usize = 0;
    while i < entries.len()
        invariant
            i <= entries@.len(),
            keys@.len() == i,
            forall|k: int| 0 <= k < i ==> #[trigger] keys@[k] == -(entries@[k].1 as int),
        decreases entries@.len() - i,
    {
        keys.push(-(entries[i].1 as i128));
        i += 1;
    }
    let order = stable_order(&keys);
    let mut r: Vec<(String, u64)> = Vec::new();
    let mut k: usize = 0;
    while k < order.len()
        invariant
            k <= order@.len(),
            entries@.len() == keys@.len(),
            is_stable_order(keys@, order@),
            r@.len() == k,
            forall|a: int|
                0 <= a < k ==> (#[trigger] r@[a]).0@ == entries@[order@[a] as int].0@ && r@[a].1
                    == entries@[order@[a] as int].1,
        decreases order@.len() - k,
    {
        let (name, count) = entries[order[k]];
        r.push((name.clone(), count));
        k += 1;
    }
    proof {
        assert forall|a: int| 0 <= a < r@.len() implies map_of(m).contains_key(
            (#[trigger] r@[a]).0@,
        ) && map_of(m)[r@[a].0@] == r@[a].1 by {
            let p = order@[a] as int;
            assert(map_of(m).contains_key(entries@[p].0.model()));
        }
        assert forall|a: int, b: int| 0 <= a < b < r@.len() implies (#[trigger] r@[a]).0@ != (
        #[trigger] r@[b]).0@ && r@[a].1 >= r@[b].1 by {
            let p = order@[a] as int;
            let q = order@[b] as int;
            assert(goes_before(keys@, p, q));
            assert(keys@[p] == -(entries@[p].1 as int));
            assert(keys@[q] == -(entries@[q].1 as int));
            assert(entries@[p].0.model() != entries@[q].0.model());
        }
        assert forall|name: Seq<char>| #[trigger] map_of(m).contains_key(
            name,
        ) implies exists|a: int| 0 <= a < r@.len() && (#[trigger] r@[a]).0@ == name by {
            let p = choose|p: int|
                0 <= p < entries@.len() && (#[trigger] entries@[p]).0.model() == name;
            assert(order@.contains(p as usize));
            let a = choose|a: int| 0 <= a < order@.len() && order@[a] == p as usize;
            assert(r@[a].0@ == name);
        }
    }
    r
}

/// So many times the same character.
pub open spec fn repeated(c: char, n: int) -> Seq<char> {
    Seq::new(
        if n > 0 {
            n as nat
        } else {
            0
        },
        |i: int| c,
    )
}

/// A row of the summary: the count, set to the right in 8 columns, and the name.
pub open spec fn row_text(count: u64, name: Seq<char>) -> Seq<char> {
    let digits = decimal_digits(count as int);
    repeated(' ', 8 - digits.len()) + digits + "  "@ + name
}

/// The lines of the summary of a ranking: a head, a rule, and a row for each of
/// the first 20.
pub open spec fn summary_text(ranked: Seq<(String, u64)>) -> Seq<Seq<char>> {
    seq![" samples  function"@, repeated('-', 72)] + Seq::new(
        if ranked.len() < 20 {
            ranked.len()
        } else {
            20
        },
        |i: int| row_text(ranked[i].1, ranked[i].0@),
    )
}

fn push_repeated(s: &mut String, c: char, n: usize)
    ensures
        final(s)@ == old(s)@ + repeated(c, n as int),
{
    let mut i: usize = 0;
    assert(s@ + repeated(c, 0) =~= s@);
    while i < n
        invariant
            i <= n,
            s@ == old(s)@ + repeated(c, i as int),
        decreases n - i,
    {
        s.push(c);
        assert(repeated(c, i as int).push(c) =~= repeated(c, i + 1));
        assert(s@ =~= old(s)@ + repeated(c, i + 1));
        i += 1;
    }
}

/// A row of the summary.
fn summary_row(count: u64, name: &str) -> (r: String)
    ensures
        r@ == row_text(count, name@),
{
    let mut digits = String::new();
    push_digits(&mut digits, count);
    assert(digits@ =~= decimal_digits(count as int));
    let n = digits.as_str().unicode_len();
    let mut r = String::new();
    if n < 8 {
        push_repeated(&mut r, ' ', 8 - n);
    }
    assert(r@ =~= repeated(' ', 8 - digits@.len()));
    push_text(&mut r, digits.as_str());
    push_text(&mut r, "  ");
    push_text(&mut r, name);
    r
}

/// The lines of the summary of a ranking.
pub fn summary_lines(ranked: &Vec<(String, u64)>) -> (r: Vec<String>)
    ensures
        texts(r@) == summary_text(ranked@),
{
    let mut r: Vec<String> = Vec::new();
    let mut rule = String::new();
    push_repeated(&mut rule, '-', 72);
    assert(rule@ =~= repeated('-', 72));
    r.push(" samples  function".to_owned());
    r.push(rule);
    let mut i: usize = 0;
    assert(texts(r@) =~= summary_text(ranked@).take(2));
    while i < ranked.len() && i < 20
        invariant
            i <= ranked@.len(),
            i <= 20,
            texts(r@) == summary_text(ranked@).take(i + 2),
        decreases 20 - i,
    {
        let ghost before = r@;
        let row = summary_row(ranked[i].1, ranked[i].0.as_str());
        r.push(row);
        assert(texts(r@) =~= texts(before).push(row@));
        assert(summary_text(ranked@).take(i + 3) =~= summary_text(ranked@).take(i + 2).push(
            summary_text(ranked@)[i + 2],
        ));
        i += 1;
    }
    assert(summary_text(ranked@).take(i + 2) =~= summary_text(ranked@));
    r
}

/// A stack is written from the outermost function on: the last symbol first. A
/// symbol has the name that its bytes write, and "<unknown>" where they write none.
pub proof fn law_stack_from_the_outermost(symbols: Seq<Option<Seq<u8>>>, i: int, name: Seq<char>)
    requires
        0 <= i < symbols.len(),
    ensures
        stack_of(symbols).len() == symbols.len(),
        symbols[i] == Some(vstd::utf8::encode_utf8(name)) ==> stack_of(symbols)[symbols.len() - 1
            - i] == name,
        symbols[i] is None || !vstd::utf8::valid_utf8(symbols[i]->0) ==> stack_of(symbols)[
            symbols.len() - 1 - i] == "<unknown>"@,
{
    vstd::utf8::encode_utf8_valid_utf8(name);
    vstd::utf8::encode_utf8_decode_utf8(name);
}

/// The names of a stack can be told apart again at the semicolons between them.
pub proof fn law_names_between_semicolons(names: Seq<Seq<char>>)
    requires
        names.len() > 0,
        forall|i: int| 0 <= i < names.len() ==> !(#[trigger] names[i]).contains(';'),
    ensures
        split_on(joined(names), ';') == names,
    decreases names.len(),
{
    assert(!names[0].contains(';'));
    if names.len() == 1 {
        law_split_at_first(names[0], seq![], ';');
        assert(seq![names[0]] =~= names);
    } else {
        let rest = names.drop_first();
        assert forall|i: int| 0 <= i < rest.len() implies !(#[trigger] rest[i]).contains(';') by {
            assert(rest[i] == names[i + 1]);
        }
        law_names_between_semicolons(rest);
        lemma_joined_first(names);
        law_split_at_first(names[0], joined(rest), ';');
        assert(seq![names[0]] + rest =~= names);
    }
}

proof fn lemma_joined_first(names: Seq<Seq<char>>)
    requires
        names.len() > 1,
    ensures
        joined(names) == names[0].push(';') + joined(names.drop_first()),
    decreases names.len(),
{
    reveal_with_fuel(joined, 2);
    let rest = names.drop_first();
    if names.len() == 2 {
        assert(names.drop_last()[0] == names[0]);
        assert(joined(names) =~= names[0].push(';') + joined(rest));
    } else {
        lemma_joined_first(names.drop_last());
        assert(names.drop_last().drop_first() =~= rest.drop_last());
        assert(joined(names) =~= names[0].push(';') + joined(rest));
    }
}

/// Every time that a function stands in a stack counts as often as the stack was
/// met.
pub proof fn law_times_met(
    samples: Seq<(Seq<Seq<char>>, u64)>,
    stack: Seq<Seq<char>>,
    count: u64,
    name: Seq<char>,
)
    ensures
        times_met(Seq::<(Seq<Seq<char>>, u64)>::empty(), name) == 0,
        times_met(samples.push((stack, count)), name) == times_met(samples, name) + stack.filter(
            |s: Seq<char>| s == name,
        ).len() * count,
{
    let more = samples.push((stack, count));
    assert(more.drop_last() =~= samples);
    lemma_occurrences_are_filtered(stack, name, |s: Seq<char>| s == name);
}

proof fn lemma_occurrences_are_filtered(
    stack: Seq<Seq<char>>,
    name: Seq<char>,
    is_name: spec_fn(Seq<char>) -> bool,
)
    requires
        is_name == (|s: Seq<char>| s == name),
    ensures
        occurrences(stack, name) == stack.filter(is_name).len(),
    decreases stack.len(),
{
    reveal(Seq::filter);
    if stack.len() > 0 {
        lemma_occurrences_are_filtered(stack.drop_last(), name, is_name);
    }
}

/// The table has every function that stands in a stack, and no other, each with
/// the number of times that it was met.
pub proof fn law_functions_are_counted(
    m: Map<Seq<char>, u64>,
    samples: Seq<(Seq<Seq<char>>, u64)>,
    name: Seq<char>,
)
    requires
        counts_functions(m, samples),
    ensures
        m.contains_key(name) <==> exists|i: int, j: int|
            0 <= i < samples.len() && 0 <= j < samples[i].0.len() && #[trigger] samples[i].0[j] == name,
        m.contains_key(name) ==> m[name] == times_met(samples, name),
{
    if m.contains_key(name) {
        let i = choose|i: int| 0 <= i < samples.len() && (#[trigger] samples[i]).0.contains(name);
        let j = choose|j: int| 0 <= j < samples[i].0.len() && samples[i].0[j] == name;
        assert(samples[i].0[j] == name);
    }
    if exists|i: int, j: int|
        0 <= i < samples.len() && 0 <= j < samples[i].0.len() && #[trigger] samples[i].0[j] == name {
        let (i, j) = choose|i: int, j: int|
            0 <= i < samples.len() && 0 <= j < samples[i].0.len() && #[trigger] samples[i].0[j]
                == name;
        assert(samples[i].0.contains(name));
    }
}

/// The ranking has every entry of the table once, and no count is larger than one
/// before it.
pub proof fn law_ranking(r: Seq<(String, u64)>, m: Map<Seq<char>, u64>, i: int, j: int)
    requires
        is_ranking(r, m),
    ensures
        0 <= i < j < r.len() ==> r[i].1 >= r[j].1 && r[i].0@ != r[j].0@,
        0 <= i < r.len() ==> m.contains_key(r[i].0@) && m[r[i].0@] == r[i].1,
        forall|name: Seq<char>| #[trigger]
            m.contains_key(name) ==> exists|k: int| 0 <= k < r.len() && (#[trigger] r[k]).0@ == name,
{
}

/// The summary has a head, a rule of 72 dashes, and a row for each of the first
/// twenty entries, in their order: the count, set to the right in eight columns,
/// two blanks, and the name.
pub proof fn law_summary_rows(ranked: Seq<(String, u64)>, i: int)
    requires
        0 <= i < ranked.len(),
        i < 20,
    ensures
        ({
            let lines = summary_text(ranked);
            let row = lines[i + 2];
            let digits = decimal(ranked[i].1 as int);
            let name = ranked[i].0@;
            &&& lines.len() == 2 + (if ranked.len() < 20 {
                ranked.len() as int
            } else {
                20
            })
            &&& lines[0] == " samples  function"@
            &&& lines[1].len() == 72 && forall|k: int| 0 <= k < 72 ==> #[trigger] lines[1][k] == '-'
            &&& row.skip(row.len() - name.len()) == name
            &&& digits.len() <= 8 ==> row.len() == 10 + name.len() && row.subrange(
                8 - digits.len(),
                8,
            ) == digits && forall|k: int| 0 <= k < 8 - digits.len() ==> #[trigger] row[k] == ' '
            &&& digits.len() > 8 ==> row == digits + "  "@ + name
            &&& row[row.len() - name.len() - 1] == ' ' && row[row.len() - name.len() - 2] == ' '
        }),
{
    reveal_strlit("  ");
    let lines = summary_text(ranked);
    let row = lines[i + 2];
    let digits = decimal(ranked[i].1 as int);
    let name = ranked[i].0@;
    assert(row == row_text(ranked[i].1, name));
    assert(row.skip(row.len() - name.len()) =~= name);
    if digits.len() <= 8 {
        assert(row.subrange(8 - digits.len(), 8) =~= digits);
    } else {
        assert(repeated(' ', 8 - digits.len()) + digits =~= digits);
    }
}

/// A profile fits if and only if no function was met more often than the largest
/// `u64`.
pub proof fn law_when_profiles_fit(samples: Seq<(Seq<Seq<char>>, u64)>)
    ensures
        profile_fits(samples) <==> forall|name: Seq<char>| #[trigger]
            times_met(samples, name) <= 0xffff_ffff_ffff_ffff,
{
}

/// One more name comes behind a semicolon, whatever it is; the first stands alone,
/// and without names there is nothing.
pub proof fn law_one_more_name(names: Seq<Seq<char>>, name: Seq<char>)
    ensures
        joined(Seq::<Seq<char>>::empty()).len() == 0,
        joined(seq![name]) == name,
        names.len() > 0 ==> joined(names.push(name)) == joined(names) + seq![';'] + name,
{
    if names.len() > 0 {
        assert(names.push(name).drop_last() =~= names);
        assert(joined(names).push(';') + name =~= joined(names) + seq![';'] + name);
    }
}

/// Where nothing was counted the summary is its heading and its rule.
pub proof fn law_summary_of_nothing(ranked: &Vec<(String, u64)>, r: Vec<String>)
    requires
        call_ensures(summary_lines, (ranked,), r),
        ranked@.len() == 0,
    ensures
        r@.len() == 2,
        r@[0]@ == " samples  function"@,
        r@[1]@.len() == 72,
        forall|k: int| 0 <= k < 72 ==> #[trigger] r@[1]@[k] == '-',
{
    let lines = texts(r@);
    assert(lines.len() == r@.len());
    assert(lines[0] == r@[0]@ && lines[1] == r@[1]@);
}

} // verus!
