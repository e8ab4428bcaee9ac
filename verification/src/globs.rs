//! Sets of glob patterns that paths are matched against.

use crate::text::{
    is_blank, is_trimmed, law_split_at_first, law_trim, split_on, split_text, texts, trim, trim_text,
};
use globset::{GlobSet, GlobSetBuilder};
use vstd::prelude::*;

verus! {

/// A set of patterns, ready to match paths.
#[verifier::external_type_specification]
#[verifier::external_body]
pub struct ExGlobSet(globset::GlobSet);

/// A set of patterns that is being put together.
#[verifier::external_type_specification]
#[verifier::external_body]
pub struct ExGlobSetBuilder(globset::GlobSetBuilder);

/// Why a pattern or a set of patterns is refused.
#[verifier::external_type_specification]
#[verifier::external_body]
pub struct ExGlobsetError(globset::Error);

/// The patterns of a set.
pub uninterp spec fn set_patterns(set: &globset::GlobSet) -> Seq<Seq<char>>;

/// The patterns that have been added to a set so far.
pub uninterp spec fn builder_patterns(builder: &globset::GlobSetBuilder) -> Seq<Seq<char>>;

/// Whether `globset::Glob::new` accepts a pattern.
pub uninterp spec fn glob_is_valid(pattern: Seq<char>) -> bool;

/// Whether a path matches a single pattern: what `globset::GlobSet::is_match`
/// returns for a set of that pattern alone.
pub uninterp spec fn glob_matches(pattern: Seq<char>, path: Seq<char>) -> bool;

/// Whether a path matches one of the patterns or more.
pub open spec fn any_matches(patterns: Seq<Seq<char>>, path: Seq<char>) -> bool {
    exists|i: int| 0 <= i < patterns.len() && #[trigger] glob_matches(patterns[i], path)
}

/// `GlobSetBuilder::new`: a set without patterns.
#[verifier::external_body]
fn new_builder() -> (r: GlobSetBuilder)
    ensures
        builder_patterns(&r) == Seq::<Seq<char>>::empty(),
{
    GlobSetBuilder::new()
}

/// `GlobSetBuilder::add` of what `Glob::new` makes of the pattern: it is now the
/// last of the patterns, unless `Glob::new` refused it.
#[verifier::external_body]
fn add_pattern(builder: &mut GlobSetBuilder, pattern: &str) -> (r: Result<(), globset::Error>)
    ensures
        r is Ok <==> glob_is_valid(pattern@),
        r is Ok ==> builder_patterns(final(builder)) == builder_patterns(old(builder)).push(
            pattern@,
        ),
        r is Err ==> builder_patterns(final(builder)) == builder_patterns(old(builder)),
{
    globset::Glob::new(pattern).map(|glob| {
        builder.add(glob);
    })
}

/// `GlobSetBuilder::build`: a set of the patterns that were added. That it is
/// made is claimed only where there are none: a set that is too large once
/// compiled is refused, and how large it is depends on the machine.
#[verifier::external_body]
fn build_set(builder: &GlobSetBuilder) -> (r: Result<GlobSet, globset::Error>)
    ensures
        r matches Ok(set) ==> set_patterns(&set) == builder_patterns(builder),
        builder_patterns(builder).len() == 0 ==> r is Ok,
{
    builder.build()
}

/// `GlobSet::is_match`: whether the path matches any pattern of the set.
#[verifier::external_body]
pub(crate) fn set_is_match(set: &GlobSet, path: &str) -> (r: bool)
    ensures
        r == (exists|i: int|
            0 <= i < set_patterns(set).len() && #[trigger] glob_matches(
                set_patterns(set)[i],
                path@,
            )),
{
    set.is_match(path)
}

/// Why there is no set of patterns.
pub enum GlobError {
    /// A pattern is not well formed.
    Pattern(globset::Error),
    /// The patterns together are refused.
    Compile(globset::Error),
}

/// The patterns among the first `n` parts of a list: each without the white
/// space around it, and none that is empty.
pub open spec fn patterns_in(parts: Seq<Seq<char>>, n: int) -> Seq<Seq<char>>
    decreases n,
{
    if n <= 0 {
        seq![]
    } else {
        let rest = patterns_in(parts, n - 1);
        let p = trim(parts[n - 1]);
        if p.len() == 0 {
            rest
        } else {
            rest.push(p)
        }
    }
}

/// The patterns that a list with commas holds.
pub open spec fn glob_list(raw: Seq<char>) -> Seq<Seq<char>> {
    let parts = split_on(raw, ',');
    patterns_in(parts, parts.len() as int)
}

/// The patterns that a list with commas holds.
pub fn split_patterns(raw: &str) -> (r: Vec<String>)
    ensures
        texts(r@) == glob_list(raw@),
{
    let parts = split_text(raw, ',');
    let mut r: Vec<String> = Vec::new();
    let mut i: usize = 0;
    assert(texts(r@) =~= seq![]);
    while i < parts.len()
        invariant
            i <= parts@.len(),
            texts(parts@) == split_on(raw@, ','),
            texts(r@) == patterns_in(texts(parts@), i as int),
        decreases parts@.len() - i,
    {
        let p = trim_text(parts[i].as_str());
        let ghost before = r@;
        assert(texts(parts@)[i as int] == parts@[i as int]@);
        if p.as_str().unicode_len() > 0 {
            r.push(p);
            assert(texts(r@) =~= texts(before).push(p@));
        }
        i += 1;
    }
    r
}

/// Whether all the patterns are well formed.
pub open spec fn all_valid(patterns: Seq<Seq<char>>) -> bool {
    forall|i: int| 0 <= i < patterns.len() ==> glob_is_valid(#[trigger] patterns[i])
}

/// The set of the given patterns.
pub fn compile_patterns(list: &Vec<String>) -> (r: Result<GlobSet, GlobError>)
    ensures
        r matches Ok(set) ==> set_patterns(&set) == texts(list@),
        r matches Err(GlobError::Pattern(_)) <==> !all_valid(texts(list@)),
        r matches Err(GlobError::Compile(_)) ==> list@.len() > 0,
{
    let mut builder = new_builder();
    let mut i: usize = 0;
    assert(texts(list@).take(0) =~= seq![]);
    while i < list.len()
        invariant
            i <= list@.len(),
            builder_patterns(&builder) == texts(list@).take(i as int),
            all_valid(texts(list@).take(i as int)),
        decreases list@.len() - i,
    {
        let ghost done = texts(list@).take(i as int);
        assert(texts(list@)[i as int] == list@[i as int]@);
        match add_pattern(&mut builder, list[i].as_str()) {
            Ok(_) => {},
            Err(e) => {
                assert(!all_valid(texts(list@)));
                return Err(GlobError::Pattern(e));
            },
        }
        assert(texts(list@).take(i + 1) =~= done.push(list@[i as int]@));
        i += 1;
    }
    assert(texts(list@).take(i as int) =~= texts(list@));
    match build_set(&builder) {
        Ok(set) => Ok(set),
        Err(e) => Err(GlobError::Compile(e)),
    }
}

/// The set of the patterns that a list with commas holds, or none where there is
/// no list.
pub fn build_glob_set(patterns: Option<String>) -> (r: Result<Option<GlobSet>, GlobError>)
    ensures
        patterns is None ==> r matches Ok(None),
        patterns matches Some(raw) ==> (r is Ok ==> (r->Ok_0 matches Some(set) && set_patterns(&set)
            == glob_list(raw@))),
        patterns matches Some(raw) ==> (r matches Err(GlobError::Pattern(_)) <==> !all_valid(
            glob_list(raw@),
        )),
        patterns matches Some(raw) ==> (r matches Err(GlobError::Compile(_)) ==> glob_list(
            raw@,
        ).len() > 0),
{
    match patterns {
        None => Ok(None),
        Some(raw) => match compile_patterns(&split_patterns(raw.as_str())) {
            Ok(set) => Ok(Some(set)),
            Err(e) => Err(e),
        },
    }
}

/// More patterns match more paths, never fewer.
pub proof fn law_more_patterns_match_more(
    patterns: Seq<Seq<char>>,
    pattern: Seq<char>,
    path: Seq<char>,
)
    ensures
        any_matches(patterns.push(pattern), path) <==> any_matches(patterns, path) || glob_matches(
            pattern,
            path,
        ),
{
    let more = patterns.push(pattern);
    if any_matches(patterns, path) {
        let i = choose|i: int|
            0 <= i < patterns.len() && #[trigger] glob_matches(patterns[i], path);
        assert(more[i] == patterns[i]);
    }
    if glob_matches(pattern, path) {
        assert(more[patterns.len() as int] == pattern);
    }
    if any_matches(more, path) {
        let i = choose|i: int| 0 <= i < more.len() && #[trigger] glob_matches(more[i], path);
        if i < patterns.len() {
            assert(more[i] == patterns[i]);
        }
    }
}

/// The patterns of a list stand between its commas, without the white space around
/// them, and what is empty is none.
pub proof fn law_patterns_between_commas(
    a: Seq<char>,
    one: Seq<char>,
    b: Seq<char>,
    rest: Seq<char>,
)
    requires
        is_blank(a),
        is_blank(b),
        is_trimmed(one),
        !(a + one + b).contains(','),
    ensures
        glob_list(a + one + b) == (if one.len() == 0 {
            Seq::<Seq<char>>::empty()
        } else {
            seq![one]
        }),
        glob_list((a + one + b).push(',') + rest) == (if one.len() == 0 {
            glob_list(rest)
        } else {
            seq![one] + glob_list(rest)
        }),
{
    reveal_with_fuel(patterns_in, 2);
    let part = a + one + b;
    let parts = split_on(rest, ',');
    law_trim(a, one, b);
    law_split_at_first(part, rest, ',');
    lemma_one_pattern_first(part, parts, parts.len() as int);
    assert(glob_list(part) =~= (if one.len() == 0 {
        Seq::<Seq<char>>::empty()
    } else {
        seq![one]
    }));
    assert((seq![part] + parts).len() == parts.len() + 1);
}

proof fn lemma_one_pattern_first(part: Seq<char>, parts: Seq<Seq<char>>, n: int)
    requires
        0 <= n <= parts.len(),
    ensures
        patterns_in(seq![part] + parts, n + 1) == (if trim(part).len() == 0 {
            patterns_in(parts, n)
        } else {
            seq![trim(part)] + patterns_in(parts, n)
        }),
    decreases n,
{
    reveal_with_fuel(patterns_in, 2);
    let all = seq![part] + parts;
    assert(all[0] == part);
    if n > 0 {
        lemma_one_pattern_first(part, parts, n - 1);
        assert(all[n] == parts[n - 1]);
        let p = trim(parts[n - 1]);
        assert(seq![trim(part)] + patterns_in(parts, n - 1).push(p) =~= (seq![trim(part)]
            + patterns_in(parts, n - 1)).push(p));
    } else {
        assert(patterns_in(all, 1) =~= (if trim(part).len() == 0 {
            Seq::<Seq<char>>::empty()
        } else {
            seq![trim(part)]
        }));
    }
}

/// No patterns match nothing.
pub proof fn law_no_patterns_match_nothing(path: Seq<char>)
    ensures
        !any_matches(Seq::<Seq<char>>::empty(), path),
        all_valid(Seq::<Seq<char>>::empty()),
{
}

} // verus!
