//! The version tags of a repository, and how far each stands out in time.

use crate::blame::{text_of_bytes, utf8_text};
use crate::sort::{goes_before, is_stable_order, law_order_is_a_rearrangement, stable_order};
use crate::text::{
    ascii_lower, chars_of, is_digit, law_ascii_lower, law_prefixes_come_off, stands_at,
    string_of_range, without_prefixes,
};
use crate::types::Tag;
use vstd::prelude::*;

verus! {

/// The pattern of the full name of a version tag: "refs/tags/", a "v" that may
/// be missing, and three numbers with dots between them.
pub open spec fn version_pattern() -> Seq<char> {
    "(?i)^refs/tags/v?(\\d+)\\.(\\d+)\\.(\\d+)"@
}

/// The number of digits at the start of a text.
pub open spec fn digit_run(s: Seq<char>) -> int
    decreases s.len(),
{
    if s.len() > 0 && is_digit(s[0]) {
        1 + digit_run(s.skip(1))
    } else {
        0
    }
}

/// Whether a text starts with `n` numbers, with dots between them.
pub open spec fn starts_with_numbers(s: Seq<char>, n: nat) -> bool
    decreases n,
{
    let d = digit_run(s);
    n > 0 ==> d > 0 && (n > 1 ==> d < s.len() && s[d] == '.' && starts_with_numbers(
        s.skip(d + 1),
        (n - 1) as nat,
    ))
}

/// Whether an ASCII text is the full name of a version tag: "refs/tags/" without
/// regard to case, a "v" that may be missing, and three numbers with dots between
/// them. Anything may follow.
pub open spec fn is_version_name(text: Seq<char>) -> bool {
    let n = "refs/tags/"@.len() as int;
    let rest = text.skip(n);
    let version = if rest.len() > 0 && ascii_lower(rest[0]) == 'v' {
        rest.skip(1)
    } else {
        rest
    };
    &&& text.len() >= n
    &&& text.take(n).map_values(|c: char| ascii_lower(c)) == "refs/tags/"@
    &&& starts_with_numbers(version, 3)
}

/// Whether a text holds ASCII characters only.
pub open spec fn is_ascii_text(text: Seq<char>) -> bool {
    forall|i: int| 0 <= i < text.len() ==> (#[trigger] text[i] as int) < 128
}

/// What `regex::Regex::new` and `Regex::is_match` say of a pattern and a text:
/// whether the pattern is found in the text, and nothing where the pattern is
/// refused.
pub uninterp spec fn pattern_found(pattern: Seq<char>, text: Seq<char>) -> Option<bool>;

/// `regex::Regex::new` of the pattern, and `Regex::is_match` of the text with
/// what it returns: the result is `pattern_found` of the two, and of an ASCII text
/// whether it is the full name of a version tag. Other texts have the digits and
/// the letter cases of Unicode. All this is claimed of the one pattern that the
/// crate uses; of others the limit on the size of a compiled pattern could decide.
#[verifier::external_body]
fn find_pattern(pattern: &str, text: &str) -> (r: Option<bool>)
    requires
        pattern@ == version_pattern(),
    ensures
        r == pattern_found(pattern@, text@),
        is_ascii_text(text@) ==> r == Some(is_version_name(text@)),
{
    regex::Regex::new(pattern).ok().map(|re| re.is_match(text))
}

/// A tag as the repository lists it: the bytes of its full name, and the time of
/// the commit that it leads to, if it leads to one.
pub struct TagRef {
    pub name: Vec<u8>,
    pub ts: Option<i64>,
}

/// A name and a time.
pub open spec fn named_times(v: Seq<(String, i64)>) -> Seq<(Seq<char>, i64)> {
    v.map_values(|t: (String, i64)| (t.0@, t.1))
}

/// The tag that a reference is: its name without "refs/tags/", and the time of its
/// commit. It is one where the pattern of version tags was found in its name, as
/// `found` says, and it leads to a commit.
pub open spec fn tag_of(full: Seq<char>, found: Option<bool>, ts: Option<i64>) -> Option<
    (Seq<char>, i64),
> {
    match (found, ts) {
        (Some(true), Some(t)) => Some((without_prefixes(full, "refs/tags/"@), t)),
        _ => None,
    }
}

/// Whether the pattern of version tags is found in a full name.
pub open spec fn version_answer(full: Seq<char>) -> Option<bool> {
    if is_ascii_text(full) {
        Some(is_version_name(full))
    } else {
        pattern_found(version_pattern(), full)
    }
}

/// The version tags among the first `n` references.
pub open spec fn version_tags(refs: Seq<TagRef>, n: int) -> Seq<(Seq<char>, i64)>
    decreases n,
{
    if n <= 0 {
        seq![]
    } else {
        let rest = version_tags(refs, n - 1);
        match utf8_text(refs[n - 1].name@) {
            Some(name) => match tag_of(name, version_answer(name), refs[n - 1].ts) {
                Some(tag) => rest.push(tag),
                None => rest,
            },
            None => rest,
        }
    }
}

/// The name without "refs/tags/" at its start.
fn short_name(full: &str) -> (r: String)
    ensures
        r@ == without_prefixes(full@, "refs/tags/"@),
{
    let chars = chars_of(full);
    let prefix = chars_of("refs/tags/");
    let n = chars.len();
    let mut at: usize = 0;
    proof {
        reveal_strlit("refs/tags/");
        assert(chars@.skip(0) =~= full@);
    }
    while stands_at(&chars, at, &prefix)
        invariant
            at <= chars@.len(),
            n == chars@.len(),
            chars@ == full@,
            prefix@ == "refs/tags/"@,
            prefix@.len() > 0,
            without_prefixes(chars@.skip(at as int), prefix@) == without_prefixes(full@, prefix@),
        decreases chars@.len() - at,
    {
        assert(chars@.skip(at as int).skip(prefix@.len() as int) =~= chars@.skip(
            at + prefix@.len(),
        ));
        at = at + prefix.len();
    }
    assert(chars@.subrange(at as int, chars@.len() as int) =~= chars@.skip(at as int));
    string_of_range(&chars, at, chars.len())
}

/// The tag that a reference is, given whether the pattern of version tags was
/// found in its full name.
pub fn version_tag(full: &str, found: Option<bool>, ts: Option<i64>) -> (r: Option<(String, i64)>)
    ensures
        match tag_of(full@, found, ts) {
            Some(tag) => r matches Some(t) && t.0@ == tag.0 && t.1 == tag.1,
            None => r is None,
        },
{
    match (found, ts) {
        (Some(true), Some(t)) => Some((short_name(full), t)),
        _ => None,
    }
}

/// The version tags among the references.
fn collect_version_tags(refs: &Vec<TagRef>) -> (r: Vec<(String, i64)>)
    ensures
        named_times(r@) == version_tags(refs@, refs@.len() as int),
{
    let mut r: Vec<(String, i64)> = Vec::new();
    let mut i: usize = 0;
    assert(named_times(r@) =~= seq![]);
    while i < refs.len()
        invariant
            i <= refs@.len(),
            named_times(r@) == version_tags(refs@, i as int),
        decreases refs@.len() - i,
    {
        let ghost before = r@;
        if let Some(full) = text_of_bytes(refs[i].name.as_slice()) {
            let found = find_pattern("(?i)^refs/tags/v?(\\d+)\\.(\\d+)\\.(\\d+)", full);
            if let Some(tag) = version_tag(full, found, refs[i].ts) {
                r.push(tag);
                assert(named_times(r@) =~= named_times(before).push((tag.0@, tag.1)));
            }
        }
        i += 1;
    }
    r
}

/// The times of the tags.
pub open spec fn tag_times(tags: Seq<(Seq<char>, i64)>) -> Seq<i128> {
    tags.map_values(|t: (Seq<char>, i64)| t.1 as i128)
}

/// The tags in the given order.
pub open spec fn reordered(tags: Seq<(Seq<char>, i64)>, order: Seq<usize>) -> Seq<
    (Seq<char>, i64),
> {
    Seq::new(order.len(), |i: int| tags[order[i] as int])
}

/// The time from the tag before to the tag at `i`.
pub open spec fn gap_before(tags: Seq<(Seq<char>, i64)>, i: int) -> int {
    tags[i].1 - tags[i - 1].1
}

/// The time from the tag at `i` to its nearest neighbour. A tag without any
/// neighbour counts as far away.
pub open spec fn spacing_at(tags: Seq<(Seq<char>, i64)>, i: int) -> int {
    if tags.len() <= 1 {
        i64::MAX as int
    } else if i <= 0 {
        gap_before(tags, 1)
    } else if i + 1 >= tags.len() {
        gap_before(tags, i)
    } else if gap_before(tags, i) < gap_before(tags, i + 1) {
        gap_before(tags, i)
    } else {
        gap_before(tags, i + 1)
    }
}

/// The largest spacing among the first `n` tags, and at least 1.
pub open spec fn widest(tags: Seq<(Seq<char>, i64)>, n: int) -> int
    decreases n,
{
    if n <= 0 {
        1
    } else if spacing_at(tags, n - 1) > widest(tags, n - 1) {
        spacing_at(tags, n - 1)
    } else {
        widest(tags, n - 1)
    }
}

/// The tags stand in the order of time.
pub open spec fn in_order(tags: Seq<(Seq<char>, i64)>) -> bool {
    forall|i: int, j: int| 0 <= i < j < tags.len() ==> (#[trigger] tags[i]).1 <= (
    #[trigger] tags[j]).1
}

/// A tag with its scores.
pub open spec fn is_scored(tag: Tag, tags: Seq<(Seq<char>, i64)>, i: int) -> bool {
    &&& tag.name@ == tags[i].0
    &&& tag.ts == tags[i].1
    &&& tag.spacing == spacing_at(tags, i)
    &&& tag.max_spacing == widest(tags, tags.len() as int)
}

/// The scored tags are those of the list, ordered by time, tags of the same
/// time as they stood.
pub open spec fn are_scored(r: Seq<Tag>, tags: Seq<(Seq<char>, i64)>) -> bool {
    exists|order: Seq<usize>| #[trigger]
        is_stable_order(tag_times(tags), order) && r.len() == tags.len() && forall|i: int|
            0 <= i < r.len() ==> is_scored(#[trigger] r[i], reordered(tags, order), i)
}

proof fn lemma_in_order(tags: Seq<(Seq<char>, i64)>, order: Seq<usize>)
    requires
        is_stable_order(tag_times(tags), order),
    ensures
        in_order(reordered(tags, order)),
{
    let s = reordered(tags, order);
    assert forall|i: int, j: int| 0 <= i < j < s.len() implies (#[trigger] s[i]).1 <= (
    #[trigger] s[j]).1 by {
        assert(goes_before(tag_times(tags), order[i] as int, order[j] as int));
    }
}

proof fn lemma_spacing_bounds(tags: Seq<(Seq<char>, i64)>, i: int)
    requires
        in_order(tags),
        0 <= i < tags.len(),
    ensures
        0 <= spacing_at(tags, i) <= u64::MAX,
{
    if i > 0 {
        assert(tags[i - 1].1 <= tags[i].1);
    }
    if i + 1 < tags.len() {
        assert(tags[i].1 <= tags[i + 1].1);
    }
}

proof fn lemma_widest(tags: Seq<(Seq<char>, i64)>, n: int, i: int)
    requires
        0 <= i < n,
    ensures
        spacing_at(tags, i) <= widest(tags, n),
    decreases n,
{
    if i < n - 1 {
        lemma_widest(tags, n - 1, i);
    }
}

proof fn lemma_widest_bounds(tags: Seq<(Seq<char>, i64)>, n: int)
    requires
        in_order(tags),
        n <= tags.len(),
    ensures
        1 <= widest(tags, n) <= u64::MAX,
    decreases n,
{
    if n > 0 {
        lemma_widest_bounds(tags, n - 1);
        lemma_spacing_bounds(tags, n - 1);
    }
}

/// The time from the tag at `i` of the sorted list to its nearest neighbour.
fn spacing_of(tags: &Vec<(String, i64)>, order: &Vec<usize>, i: usize) -> (r: u64)
    requires
        is_stable_order(tag_times(named_times(tags@)), order@),
        i < order@.len(),
    ensures
        r == spacing_at(reordered(named_times(tags@), order@), i as int),
{
    let ghost s = reordered(named_times(tags@), order@);
    proof {
        lemma_in_order(named_times(tags@), order@);
        lemma_spacing_bounds(s, i as int);
    }
    let here: i128 = tags[order[i]].1 as i128;
    let left: Option<i128> = if i > 0 {
        Some(here - tags[order[i - 1]].1 as i128)
    } else {
        None
    };
    let right: Option<i128> = if i < order.len() - 1 {
        Some(tags[order[i + 1]].1 as i128 - here)
    } else {
        None
    };
    match (left, right) {
        (Some(l), Some(r)) => {
            if l < r {
                l as u64
            } else {
                r as u64
            }
        },
        (Some(l), None) => l as u64,
        (None, Some(r)) => r as u64,
        (None, None) => 0x7fff_ffff_ffff_ffff,
    }
}

/// Scores tags by how far each stands from its nearest neighbour in time.
pub fn score_tags(tags: &Vec<(String, i64)>) -> (r: Vec<Tag>)
    ensures
        are_scored(r@, named_times(tags@)),
{
    let ghost all = named_times(tags@);
    let mut keys: Vec<i128> = Vec::new();
    let mut i: usize = 0;
    while i < tags.len()
        invariant
            i <= tags@.len(),
            all == named_times(tags@),
            keys@ == tag_times(all).take(i as int),
        decreases tags@.len() - i,
    {
        keys.push(tags[i].1 as i128);
        assert(tag_times(all).take(i + 1) =~= tag_times(all).take(i as int).push(
            tag_times(all)[i as int],
        ));
        i += 1;
    }
    assert(tag_times(all).take(i as int) =~= tag_times(all));
    let order = stable_order(&keys);
    let ghost s = reordered(all, order@);
    let mut spacings: Vec<u64> = Vec::new();
    let mut max_spacing: u64 = 1;
    let mut k: usize = 0;
    while k < order.len()
        invariant
            k <= order@.len(),
            all == named_times(tags@),
            is_stable_order(tag_times(all), order@),
            s == reordered(all, order@),
            spacings@.len() == k,
            forall|a: int| 0 <= a < k ==> #[trigger] spacings@[a] == spacing_at(s, a),
            max_spacing == widest(s, k as int),
        decreases order@.len() - k,
    {
        let spacing = spacing_of(tags, &order, k);
        if spacing > max_spacing {
            max_spacing = spacing;
        }
        spacings.push(spacing);
        k += 1;
    }
    let mut r: Vec<Tag> = Vec::new();
    let mut j: usize = 0;
    while j < order.len()
        invariant
            j <= order@.len(),
            all == named_times(tags@),
            is_stable_order(tag_times(all), order@),
            s == reordered(all, order@),
            spacings@.len() == order@.len(),
            forall|a: int| 0 <= a < order@.len() ==> #[trigger] spacings@[a] == spacing_at(s, a),
            max_spacing == widest(s, s.len() as int),
            r@.len() == j,
            forall|a: int| 0 <= a < j ==> is_scored(#[trigger] r@[a], s, a),
        decreases order@.len() - j,
    {
        let tag = &tags[order[j]];
        r.push(Tag { name: tag.0.clone(), ts: tag.1, spacing: spacings[j], max_spacing });
        j += 1;
    }
    r
}

/// The version tags of a repository, ordered by time, with their scores.
pub fn get_version_tags(refs: &Vec<TagRef>) -> (r: Vec<Tag>)
    ensures
        are_scored(r@, version_tags(refs@, refs@.len() as int)),
{
    score_tags(&collect_version_tags(refs))
}

/// A tag's importance is a share of the whole: between 0 and 1, with the same
/// whole for all tags.
pub proof fn law_importance_is_a_share(r: Seq<Tag>, tags: Seq<(Seq<char>, i64)>, i: int)
    requires
        are_scored(r, tags),
        0 <= i < r.len(),
    ensures
        r[i].spacing <= r[i].max_spacing,
        r[i].max_spacing >= 1,
        forall|j: int| 0 <= j < r.len() ==> (#[trigger] r[j]).max_spacing == r[i].max_spacing,
{
    let order = choose|order: Seq<usize>| #[trigger]
        is_stable_order(tag_times(tags), order) && r.len() == tags.len() && forall|i: int|
            0 <= i < r.len() ==> is_scored(#[trigger] r[i], reordered(tags, order), i);
    let s = reordered(tags, order);
    assert(is_scored(r[i], s, i));
    lemma_in_order(tags, order);
    lemma_widest(s, s.len() as int, i);
    lemma_widest_bounds(s, s.len() as int);
    assert forall|j: int| 0 <= j < r.len() implies (#[trigger] r[j]).max_spacing
        == r[i].max_spacing by {
        assert(is_scored(r[j], s, j));
    }
}

/// The tag that stands the farthest from its neighbours has importance 1, unless
/// every tag has a neighbour of the same time.
pub proof fn law_some_tag_is_most_important(r: Seq<Tag>, tags: Seq<(Seq<char>, i64)>, i: int)
    requires
        are_scored(r, tags),
        0 <= i < r.len(),
        r[i].spacing > 0,
    ensures
        exists|j: int| 0 <= j < r.len() && (#[trigger] r[j]).spacing == r[j].max_spacing,
{
    let order = choose|order: Seq<usize>| #[trigger]
        is_stable_order(tag_times(tags), order) && r.len() == tags.len() && forall|i: int|
            0 <= i < r.len() ==> is_scored(#[trigger] r[i], reordered(tags, order), i);
    let s = reordered(tags, order);
    assert(is_scored(r[i], s, i));
    lemma_widest(s, s.len() as int, i);
    let j = lemma_widest_is_reached(s, s.len() as int, i);
    assert(is_scored(r[j], s, j));
}

proof fn lemma_widest_is_reached(tags: Seq<(Seq<char>, i64)>, n: int, i: int) -> (j: int)
    requires
        0 <= i < n,
        spacing_at(tags, i) >= 1,
    ensures
        0 <= j < n,
        spacing_at(tags, j) == widest(tags, n),
    decreases n,
{
    if spacing_at(tags, n - 1) > widest(tags, n - 1) {
        n - 1
    } else if i < n - 1 {
        lemma_widest_is_reached(tags, n - 1, i)
    } else {
        if n == 1 {
            0
        } else {
            lemma_widest_at_most(tags, n - 1);
            if widest(tags, n - 1) == 1 {
                n - 1
            } else {
                lemma_widest_above_one(tags, n - 1)
            }
        }
    }
}

proof fn lemma_widest_at_most(tags: Seq<(Seq<char>, i64)>, n: int)
    ensures
        widest(tags, n) >= 1,
    decreases n,
{
    if n > 0 {
        lemma_widest_at_most(tags, n - 1);
    }
}

proof fn lemma_widest_above_one(tags: Seq<(Seq<char>, i64)>, n: int) -> (j: int)
    requires
        widest(tags, n) > 1,
    ensures
        0 <= j < n,
        spacing_at(tags, j) == widest(tags, n),
    decreases n,
{
    if spacing_at(tags, n - 1) > widest(tags, n - 1) {
        n - 1
    } else {
        lemma_widest_above_one(tags, n - 1)
    }
}

/// A tag's name and time.
pub open spec fn tag_as(t: Tag) -> (Seq<char>, i64) {
    (t.name@, t.ts)
}

/// The scored tags are the given ones, each as often, ordered by time.
pub proof fn law_tags_in_the_order_of_time(r: Seq<Tag>, tags: Seq<(Seq<char>, i64)>)
    requires
        are_scored(r, tags),
    ensures
        r.map_values(|t: Tag| tag_as(t)).to_multiset() == tags.to_multiset(),
        forall|i: int, j: int| 0 <= i < j < r.len() ==> (#[trigger] r[i]).ts <= (#[trigger] r[j]).ts,
{
    let order = choose|order: Seq<usize>| #[trigger]
        is_stable_order(tag_times(tags), order) && r.len() == tags.len() && forall|i: int|
            0 <= i < r.len() ==> is_scored(#[trigger] r[i], reordered(tags, order), i);
    let s = reordered(tags, order);
    lemma_in_order(tags, order);
    law_order_is_a_rearrangement(tag_times(tags), order, tags);
    let all = r.map_values(|t: Tag| tag_as(t));
    assert forall|i: int| 0 <= i < r.len() implies all[i] == s[i] by {
        assert(is_scored(r[i], s, i));
    }
    assert(all =~= s);
    assert(s =~= Seq::new(order.len(), |i: int| tags[order[i] as int]));
    assert forall|i: int, j: int| 0 <= i < j < r.len() implies (#[trigger] r[i]).ts <= (
    #[trigger] r[j]).ts by {
        assert(is_scored(r[i], s, i) && is_scored(r[j], s, j));
        assert(s[i].1 <= s[j].1);
    }
}

/// How far two times lie apart.
pub open spec fn apart(a: i64, b: i64) -> int {
    if a < b {
        b - a
    } else {
        a - b
    }
}

/// The spacing of a tag is how far it stands from the other tag that is nearest to
/// it in time. A tag without any other stands as far as can be.
pub proof fn law_spacing_is_to_the_nearest(r: Seq<Tag>, tags: Seq<(Seq<char>, i64)>, i: int)
    requires
        are_scored(r, tags),
        0 <= i < r.len(),
    ensures
        r.len() == 1 ==> r[i].spacing == i64::MAX,
        forall|j: int|
            0 <= j < r.len() && j != i ==> r[i].spacing <= apart(r[i].ts, (#[trigger] r[j]).ts),
        r.len() > 1 ==> exists|j: int|
            0 <= j < r.len() && j != i && r[i].spacing == apart(r[i].ts, (#[trigger] r[j]).ts),
{
    let order = choose|order: Seq<usize>| #[trigger]
        is_stable_order(tag_times(tags), order) && r.len() == tags.len() && forall|i: int|
            0 <= i < r.len() ==> is_scored(#[trigger] r[i], reordered(tags, order), i);
    let s = reordered(tags, order);
    lemma_in_order(tags, order);
    assert(is_scored(r[i], s, i));
    let n = r.len() as int;
    assert forall|j: int| 0 <= j < n && j != i implies r[i].spacing <= apart(
        r[i].ts,
        (#[trigger] r[j]).ts,
    ) by {
        assert(is_scored(r[j], s, j));
        if j < i {
            assert(s[j].1 <= s[i - 1].1) by {
                if j < i - 1 {
                    assert(s[j].1 <= s[i - 1].1);
                }
            }
            assert(s[i - 1].1 <= s[i].1);
        } else {
            assert(s[i + 1].1 <= s[j].1) by {
                if i + 1 < j {
                    assert(s[i + 1].1 <= s[j].1);
                }
            }
            assert(s[i].1 <= s[i + 1].1);
        }
    }
    if n > 1 {
        let j = if i == 0 {
            1int
        } else if i == n - 1 {
            i - 1
        } else if gap_before(s, i) < gap_before(s, i + 1) {
            i - 1
        } else {
            i + 1
        };
        assert(is_scored(r[j], s, j));
        if j < i {
            assert(s[j].1 <= s[i].1);
        } else {
            assert(s[i].1 <= s[j].1);
        }
        assert(r[i].spacing == apart(r[i].ts, r[j].ts));
    }
}

/// Where every tag has a neighbour of the same time, the whole that importance is
/// a share of is 1.
pub proof fn law_whole_is_at_least_one(r: Seq<Tag>, tags: Seq<(Seq<char>, i64)>, i: int)
    requires
        are_scored(r, tags),
        0 <= i < r.len(),
        forall|j: int| 0 <= j < r.len() ==> (#[trigger] r[j]).spacing == 0,
    ensures
        r[i].max_spacing == 1,
{
    let order = choose|order: Seq<usize>| #[trigger]
        is_stable_order(tag_times(tags), order) && r.len() == tags.len() && forall|i: int|
            0 <= i < r.len() ==> is_scored(#[trigger] r[i], reordered(tags, order), i);
    let s = reordered(tags, order);
    assert(is_scored(r[i], s, i));
    if widest(s, s.len() as int) > 1 {
        let j = lemma_widest_above_one(s, s.len() as int);
        assert(is_scored(r[j], s, j));
        assert(r[j].spacing == 0);
    }
    lemma_widest_at_most(s, s.len() as int);
}

/// A reference that the pattern was found in, and that leads to a commit, is a tag of
/// the commit's time, under its name without "refs/tags/"; no other is.
pub proof fn law_tag_of_a_reference(short: Seq<char>, found: Option<bool>, ts: Option<i64>)
    requires
        forall|rest: Seq<char>| short != #[trigger] ("refs/tags/"@ + rest),
    ensures
        tag_of("refs/tags/"@ + short, found, ts) == (if found == Some(true) && ts is Some {
            Some((short, ts->0))
        } else {
            None
        }),
        tag_of(short, found, ts) == tag_of("refs/tags/"@ + short, found, ts),
{
    law_prefixes_come_off(short, "refs/tags/"@);
}

/// One more reference is one more tag, if it is a version tag, and else changes
/// nothing: so the tags are in the order of the references.
pub proof fn law_one_more_reference(refs: Seq<TagRef>, r: TagRef, full: Seq<char>)
    requires
        r.name@ == vstd::utf8::encode_utf8(full),
    ensures
        version_tags(refs, 0) == Seq::<(Seq<char>, i64)>::empty(),
        version_tags(refs.push(r), refs.len() as int + 1) == (match tag_of(
            full,
            version_answer(full),
            r.ts,
        ) {
            Some(tag) => version_tags(refs, refs.len() as int).push(tag),
            None => version_tags(refs, refs.len() as int),
        }),
{
    let n = refs.len() as int;
    lemma_refs_before(refs, r, n);
    vstd::utf8::encode_utf8_valid_utf8(full);
    vstd::utf8::encode_utf8_decode_utf8(full);
    assert(refs.push(r)[n] == r);
}

proof fn lemma_refs_before(refs: Seq<TagRef>, r: TagRef, n: int)
    requires
        0 <= n <= refs.len(),
    ensures
        version_tags(refs.push(r), n) == version_tags(refs, n),
    decreases n,
{
    if n > 0 {
        lemma_refs_before(refs, r, n - 1);
    }
}

/// A reference whose name is no text is passed over.
pub proof fn law_unreadable_reference(refs: Seq<TagRef>, r: TagRef)
    requires
        !vstd::utf8::valid_utf8(r.name@),
    ensures
        version_tags(refs.push(r), refs.len() as int + 1) == version_tags(refs, refs.len() as int),
{
    lemma_refs_before(refs, r, refs.len() as int);
    assert(refs.push(r)[refs.len() as int] == r);
}

/// Whether a text is one digit or more, and nothing else.
pub open spec fn is_number(s: Seq<char>) -> bool {
    s.len() > 0 && forall|i: int| 0 <= i < s.len() ==> '0' <= #[trigger] s[i] <= '9'
}

proof fn lemma_digit_run(d: Seq<char>, rest: Seq<char>)
    requires
        forall|i: int| 0 <= i < d.len() ==> is_digit(#[trigger] d[i]),
        rest.len() > 0 ==> !is_digit(rest[0]),
    ensures
        digit_run(d + rest) == d.len(),
    decreases d.len(),
{
    let s = d + rest;
    if d.len() == 0 {
        assert(s =~= rest);
    } else {
        assert(s[0] == d[0]);
        assert(s.skip(1) =~= d.skip(1) + rest);
        assert forall|i: int| 0 <= i < d.skip(1).len() implies is_digit(#[trigger] d.skip(1)[i]) by {
            assert(d.skip(1)[i] == d[i + 1]);
        }
        lemma_digit_run(d.skip(1), rest);
    }
}

proof fn lemma_digit_run_grows(d: Seq<char>, rest: Seq<char>)
    requires
        d.len() > 0,
        is_digit(d[0]),
    ensures
        digit_run(d + rest) > 0,
{
    lemma_run_is_digits((d + rest).skip(1));
    assert((d + rest)[0] == d[0]);
}

proof fn lemma_run_is_digits(s: Seq<char>)
    ensures
        0 <= digit_run(s) <= s.len(),
        forall|i: int| 0 <= i < digit_run(s) ==> is_digit(#[trigger] s[i]),
    decreases s.len(),
{
    if s.len() > 0 && is_digit(s[0]) {
        let t = s.skip(1);
        lemma_run_is_digits(t);
        assert forall|i: int| 0 <= i < digit_run(s) implies is_digit(#[trigger] s[i]) by {
            if i > 0 {
                assert(s[i] == t[i - 1]);
            }
        }
    }
}

/// The name of a version tag is "refs/tags/", in letters of either case, a "v" of
/// either case or none, and three numbers with dots between them, whatever follows.
pub proof fn law_names_of_versions(
    start: Seq<char>,
    v: Seq<char>,
    major: Seq<char>,
    minor: Seq<char>,
    patch: Seq<char>,
    rest: Seq<char>,
)
    requires
        start.map_values(|c: char| ascii_lower(c)) == "refs/tags/"@,
        v == Seq::<char>::empty() || v == seq!['v'] || v == seq!['V'],
        is_number(major),
        is_number(minor),
        is_number(patch),
    ensures
        is_version_name(start + v + major + seq!['.'] + minor + seq!['.'] + patch + rest),
{
    reveal_strlit("refs/tags/");
    reveal_with_fuel(starts_with_numbers, 4);
    let text = start + v + major + seq!['.'] + minor + seq!['.'] + patch + rest;
    let n = "refs/tags/"@.len() as int;
    assert(start.map_values(|c: char| ascii_lower(c)).len() == start.len());
    assert(text.take(n) =~= start);
    let third = patch + rest;
    let second = minor + (seq!['.'] + third);
    let first = major + (seq!['.'] + second);
    assert(text.skip(n) =~= v + first);
    assert(first[0] == major[0]);
    law_ascii_lower(major[0]);
    if v.len() == 0 {
        assert(v + first =~= first);
    } else {
        assert((v + first).skip(1) =~= first);
        assert((v + first)[0] == v[0]);
        law_ascii_lower('v');
        law_ascii_lower('V');
    }
    assert forall|i: int| 0 <= i < major.len() implies is_digit(#[trigger] major[i]) by {}
    assert forall|i: int| 0 <= i < minor.len() implies is_digit(#[trigger] minor[i]) by {}
    lemma_digit_run(major, seq!['.'] + second);
    lemma_digit_run(minor, seq!['.'] + third);
    assert(is_digit(patch[0]));
    lemma_digit_run_grows(patch, rest);
    assert(first.skip(major.len() as int + 1) =~= second);
    assert(second.skip(minor.len() as int + 1) =~= third);
    assert(starts_with_numbers(third, 1));
    assert(starts_with_numbers(second, 2));
    assert(starts_with_numbers(first, 3));
}

proof fn lemma_put_together(a: Seq<char>, b: Seq<char>, c: Seq<char>)
    ensures
        a + (b + c) == a + b + c,
{
    assert(a + (b + c) =~= a + b + c);
}

proof fn lemma_number_first(s: Seq<char>, n: nat) -> (r: (Seq<char>, Seq<char>))
    requires
        starts_with_numbers(s, n),
        n > 0,
    ensures
        s == r.0 + r.1,
        is_number(r.0),
        n > 1 ==> r.1.len() > 0 && r.1 == seq!['.'] + r.1.skip(1) && starts_with_numbers(
            r.1.skip(1),
            (n - 1) as nat,
        ),
{
    lemma_run_is_digits(s);
    let d = digit_run(s);
    let digits = s.take(d);
    let rest = s.skip(d);
    assert forall|i: int| 0 <= i < digits.len() implies '0' <= #[trigger] digits[i] <= '9' by {
        assert(is_digit(s[i]));
    }
    assert(s =~= digits + rest);
    if n > 1 {
        assert(rest.skip(1) =~= s.skip(d + 1));
        assert(rest =~= seq!['.'] + rest.skip(1));
    }
    (digits, rest)
}

/// Every name of a version tag is of that form.
pub proof fn law_versions_have_such_names(text: Seq<char>) -> (parts: (
    (Seq<char>, Seq<char>),
    (Seq<char>, Seq<char>, Seq<char>, Seq<char>),
))
    requires
        is_version_name(text),
    ensures
        ({
            let ((start, v), (major, minor, patch, rest)) = parts;
            &&& text == start + v + major + seq!['.'] + minor + seq!['.'] + patch + rest
            &&& start.map_values(|c: char| ascii_lower(c)) == "refs/tags/"@
            &&& v == Seq::<char>::empty() || v == seq!['v'] || v == seq!['V']
            &&& is_number(major) && is_number(minor) && is_number(patch)
        }),
{
    let n = "refs/tags/"@.len() as int;
    let start = text.take(n);
    let tail = text.skip(n);
    let with_v = tail.len() > 0 && ascii_lower(tail[0]) == 'v';
    let v = if with_v {
        tail.take(1)
    } else {
        Seq::<char>::empty()
    };
    let first = if with_v {
        tail.skip(1)
    } else {
        tail
    };
    if with_v {
        law_ascii_lower(tail[0]);
        assert(v =~= seq!['v'] || v =~= seq!['V']);
    }
    assert(tail =~= v + first);
    let (major, second) = lemma_number_first(first, 3);
    let (minor, third) = lemma_number_first(second.skip(1), 2);
    let (patch, rest) = lemma_number_first(third.skip(1), 1);
    let dot = seq!['.'];
    let one = second.skip(1);
    let two = third.skip(1);
    assert(text =~= start + tail);
    lemma_put_together(start, v, first);
    lemma_put_together(start + v, major, second);
    lemma_put_together(start + v + major, dot, one);
    lemma_put_together(start + v + major + dot, minor, third);
    lemma_put_together(start + v + major + dot + minor, dot, two);
    lemma_put_together(start + v + major + dot + minor + dot, patch, rest);
    ((start, v), (major, minor, patch, rest))
}

/// Names and times are kept as they are given.
pub proof fn law_named_times(tags: Seq<(String, i64)>, i: int)
    ensures
        named_times(tags).len() == tags.len(),
        0 <= i < tags.len() ==> named_times(tags)[i] == (tags[i].0@, tags[i].1),
{
}

proof fn lemma_ascii(c: char)
    ensures
        c as int <= 127 <==> '\0' <= c <= '\u{7f}',
{
}

/// The answer for a name of ASCII characters is whether it is that of a version;
/// for any other it is what the pattern finds.
pub proof fn law_answer_for_a_name(full: Seq<char>)
    ensures
        vstd::utf8::is_ascii_chars(full) ==> version_answer(full) == Some(is_version_name(full)),
        !vstd::utf8::is_ascii_chars(full) ==> version_answer(full) == pattern_found(
            "(?i)^refs/tags/v?(\\d+)\\.(\\d+)\\.(\\d+)"@,
            full,
        ),
{
    if vstd::utf8::is_ascii_chars(full) {
        assert(is_ascii_text(full));
    }
    if is_ascii_text(full) {
        assert forall|i: int| 0 <= i < full.len() implies '\0' <= #[trigger] full[i] <= '\u{7f}' by {
            lemma_ascii(full[i]);
        }
    }
}

} // verus!
