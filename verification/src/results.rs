//! What the functions of the library give back: how the results of one call, or of
//! several, stand to what was handed in.
use globset::GlobSet;
use rustc_hash::{FxHashMap, FxHashSet};
use vstd::prelude::*;

use crate::blame::{
    blame_args, blame_of, law_views_of_lines, law_what_git_is_asked, line_views, parse_blame_output,
};
use crate::cache::{
    blamed_histograms, blamed_lines, cached_histograms, cached_lines, fresh_lines, maybe_lines,
};
use crate::files::{
    all_entries, collect_work_items, counts, entry_views, extension_list, file_views,
    find_extension, has_extension, items_of, keep_files, law_blamed_where_it_is_first,
    law_extension_of_a_file, law_extensions_between_commas, law_files_that_are_kept,
    law_views_of_files, law_which_files_count, path_passes,
};
use crate::fx::{map_of, set_of};
use crate::globs::{
    all_valid, any_matches, build_glob_set, compile_patterns, glob_is_valid, glob_list,
    law_patterns_between_commas, set_patterns, split_patterns, GlobError,
};
use crate::history::{
    chain_end, commits_of, find_first_parent_root, find_foreign_oids, first_error, first_parents,
    get_commit_list, is_foreign, is_on_chain, law_first_parents, law_foreign_commits,
    law_when_there_are_commits, law_where_chains_lead, law_which_commits_are_listed,
    law_why_there_are_no_commits, listed_as, parents_of, says_squashed, walked, ChainEnd, CommitRecord,
    FirstParents, HistoryError,
};
use crate::period::period_of;
use crate::porcelain::{as_bytes, is_printed, law_blame_is_read_back, output_lines, Hunk};
use crate::tags::{
    apart, get_version_tags, is_version_name, law_answer_for_a_name, law_one_more_reference,
    law_spacing_is_to_the_nearest, law_tag_of_a_reference, law_tags_in_the_order_of_time,
    law_unreadable_reference, named_times, score_tags, tag_as, version_answer, version_tag,
    version_tags, TagRef,
};
use crate::tally::{blob_histograms, law_histograms_count_lines};
use crate::text::{decimal, is_blank, is_trimmed, texts};
use crate::tree::{
    as_files, can_be_written, is_mode, is_word, kind_of, law_entry_is_read_back,
    law_every_entry_is_met, law_header_is_read_back, law_missing_tree_is_empty, law_modes,
    law_views_of_entries, leading_files, leads_to, object_header, parse_tree, tree_bytes,
    tree_entries, EntryKind, PendingView, TreeEntry, TreeWalk, WrittenEntry,
};
use crate::types::{bytes_hex, Oid, Tag, WorkItem};

verus! {

/// Of what git prints for a file `parse_blame_output` makes one pair for each line
/// of the file, in order; and a line of a commit has the time and the author that
/// were said of that commit, at this line or at an earlier one, whichever commits
/// came between.
pub proof fn law_parse_blame_output(
    stdout: &[u8],
    r: Vec<(i64, String)>,
    hunks: Seq<Hunk>,
    i: int,
    j: int,
)
    requires
        call_ensures(parse_blame_output, (stdout,), r),
        stdout@ == as_bytes(output_lines(hunks)),
        forall|k: int| 0 <= k < hunks.len() ==> is_printed(#[trigger] hunks[k]),
        0 <= j <= i < hunks.len(),
        hunks[j].commit == hunks[i].commit,
        hunks[j].said is Some,
        forall|k: int|
            j <= k <= i && (#[trigger] hunks[k]).commit == hunks[i].commit && hunks[k].said is Some
                ==> hunks[k].said == hunks[j].said,
    ensures
        r@.len() == hunks.len(),
        hunks[j].said matches Some((name, ts)) && r@[i].0 == ts && r@[i].1@ == name,
{
    law_blame_is_read_back(hunks, i, j);
    law_views_of_lines(r@, i);
}

/// git is asked to blame the file at the commit, in the repository, with the
/// revisions to be passed over where a file lists them.
pub proof fn law_blame_args(
    repo_path: &str,
    commit: Oid,
    file_path: &str,
    ignore_revs: Option<&str>,
    r: Vec<String>,
)
    requires
        call_ensures(blame_args, (repo_path, commit, file_path, ignore_revs), r),
    ensures
        ({
            let n = r@.len() as int;
            &&& n == (if ignore_revs is Some {
                9int
            } else {
                8
            })
            &&& r@[0]@ == "-C"@ && r@[1]@ == repo_path@
            &&& r@[2]@ == "blame"@ && r@[3]@ == "--porcelain"@ && r@[4]@ == "-w"@
            &&& ignore_revs matches Some(path) ==> r@[5]@ == "--ignore-revs-file="@ + path@
            &&& r@[n - 3]@ == bytes_hex(commit@) && r@[n - 2]@ == "--"@ && r@[n - 1]@ == file_path@
        }),
{
    let ignored = match ignore_revs {
        Some(path) => Some(path@),
        None => None,
    };
    law_what_git_is_asked(repo_path@, commit, file_path@, ignored);
    let args = texts(r@);
    let n = args.len() as int;
    assert(args.len() == r@.len());
    assert(forall|k: int| 0 <= k < n ==> #[trigger] args[k] == r@[k]@);
    assert forall|k: int| 0 <= k < 5 implies args[k] == #[trigger] args.take(5)[k] by {}
    assert forall|k: int| 0 <= k < 3 implies args[n - 3 + k] == #[trigger] args.skip(n - 3)[k] by {}
    assert(args.skip(n - 3)[0] == bytes_hex(commit@));
    assert(args.skip(n - 3)[1] == "--"@);
    assert(args.skip(n - 3)[2] == file_path@);
    assert(args.take(5)[0] == "-C"@);
    assert(args.take(5)[1] == repo_path@);
    assert(args.take(5)[2] == "blame"@);
    assert(args.take(5)[3] == "--porcelain"@);
    assert(args.take(5)[4] == "-w"@);
}

/// What is put into the cache after a blame gives back the lines of that blame,
/// unless the cache is not to be used; and without an entry there are no lines.
pub proof fn law_cache_gives_back_lines(
    stdout: Option<Vec<u8>>,
    fresh: (Vec<(i64, String)>, Vec<u8>),
    no_cache: bool,
    entry: Vec<u8>,
    r: Option<Vec<(i64, String)>>,
    without: Option<Vec<(i64, String)>>,
)
    requires
        call_ensures(fresh_lines, (stdout,), fresh),
        entry@ == fresh.1@,
        call_ensures(cached_lines, (no_cache, Some(entry)), r),
        call_ensures(cached_lines, (no_cache, None), without),
    ensures
        stdout matches Some(out) ==> line_views(fresh.0@) == blame_of(out@),
        stdout is None ==> fresh.0@.len() == 0,
        no_cache ==> r is None,
        !no_cache ==> (r matches Some(lines) && line_views(lines@) == line_views(fresh.0@)),
        without is None,
{
    assert(line_views(fresh.0@).len() == fresh.0@.len());
    assert(maybe_lines(r) is Some <==> r is Some);
}

/// The histograms of a blob count its lines by period and by author, whether the
/// lines were just blamed or come from the cache.
pub proof fn law_histograms_of_blamed_lines(
    stdout: Vec<u8>,
    yearly: bool,
    r: ((FxHashMap<i32, u64>, FxHashMap<String, u64>), Vec<u8>),
    entry: Vec<u8>,
    cached: Option<(FxHashMap<i32, u64>, FxHashMap<String, u64>)>,
    p: i32,
    a: Seq<char>,
)
    requires
        call_ensures(blamed_histograms, (Some(stdout), yearly), r),
        entry@ == r.1@,
        call_ensures(cached_histograms, (false, Some(entry), yearly), cached),
    ensures
        ({
            let n = blame_of(stdout@).filter(
                |l: (i64, Seq<char>)| period_of(l.0 as int, yearly) == p,
            ).len();
            if map_of(&r.0.0).contains_key(p) {
                map_of(&r.0.0)[p] == n && n > 0
            } else {
                n == 0
            }
        }),
        ({
            let n = blame_of(stdout@).filter(|l: (i64, Seq<char>)| l.1 == a).len();
            if map_of(&r.0.1).contains_key(a) {
                map_of(&r.0.1)[a] == n && n > 0
            } else {
                n == 0
            }
        }),
        cached matches Some(c) && (map_of(&c.0).contains_key(p) <==> map_of(&r.0.0).contains_key(p))
            && (map_of(&c.1).contains_key(a) <==> map_of(&r.0.1).contains_key(a)) && (map_of(
            &c.0,
        ).contains_key(p) ==> map_of(&c.0)[p] == map_of(&r.0.0)[p]) && (map_of(&c.1).contains_key(a)
            ==> map_of(&c.1)[a] == map_of(&r.0.1)[a]),
{
    let lines = blamed_lines(Some(stdout));
    law_histograms_count_lines(lines, yearly, map_of(&r.0.0), map_of(&r.0.1), p, a);
    let c = cached->0;
    law_histograms_count_lines(lines, yearly, map_of(&c.0), map_of(&c.1), p, a);
}

/// Nothing comes out of the cache that is not to be used, or that has no entry.
pub proof fn law_no_histograms_without_cache(
    entry: Option<Vec<u8>>,
    yearly: bool,
    unused: Option<(FxHashMap<i32, u64>, FxHashMap<String, u64>)>,
    without: Option<(FxHashMap<i32, u64>, FxHashMap<String, u64>)>,
)
    requires
        call_ensures(cached_histograms, (true, entry, yearly), unused),
        call_ensures(cached_histograms, (false, None, yearly), without),
    ensures
        unused is None,
        without is None,
{
}

/// The histograms of lines count, for each period and each author, the lines of it.
pub proof fn law_blob_histograms(
    lines: &Vec<(i64, String)>,
    yearly: bool,
    r: (FxHashMap<i32, u64>, FxHashMap<String, u64>),
    p: i32,
    a: Seq<char>,
)
    requires
        call_ensures(blob_histograms, (lines, yearly), r),
    ensures
        ({
            let n = line_views(lines@).filter(
                |l: (i64, Seq<char>)| period_of(l.0 as int, yearly) == p,
            ).len();
            if map_of(&r.0).contains_key(p) {
                map_of(&r.0)[p] == n && n > 0
            } else {
                n == 0
            }
        }),
        ({
            let n = line_views(lines@).filter(|l: (i64, Seq<char>)| l.1 == a).len();
            if map_of(&r.1).contains_key(a) {
                map_of(&r.1)[a] == n && n > 0
            } else {
                n == 0
            }
        }),
{
    law_histograms_count_lines(line_views(lines@), yearly, map_of(&r.0), map_of(&r.1), p, a);
}

/// The extension of a file stands behind the last dot of its name.
pub proof fn law_find_extension(
    path: &str,
    r: Option<String>,
    dir: Seq<char>,
    stem: Seq<char>,
    extension: Seq<char>,
)
    requires
        call_ensures(find_extension, (path,), r),
        !stem.contains('/'),
        !extension.contains('/'),
        !extension.contains('.'),
        stem.len() > 0,
        extension.len() > 0,
    ensures
        path@ == dir.push('/') + (stem.push('.') + extension) || path@ == stem.push('.') + extension
            ==> (r matches Some(e) && e@ == extension),
        path@ == dir.push('/') + extension || path@ == extension || path@ == seq!['.'] + extension
            ==> r is None,
{
    law_extension_of_a_file(dir, stem, extension);
}

/// A path passes that has a wanted extension, where only some are wanted, that was
/// not left out by what it is to match, and that is not to be passed over.
pub proof fn law_path_passes(
    path: &str,
    extensions: &Option<Vec<String>>,
    included: Option<bool>,
    excluded: Option<bool>,
    r: bool,
)
    requires
        call_ensures(path_passes, (path, extensions, included, excluded), r),
    ensures
        r <==> (extensions matches Some(list) ==> has_extension(path@, texts(list@))) && included
            != Some(false) && excluded != Some(true),
{
}

/// Of the files of a commit those are kept, in order, that have a wanted extension,
/// match what is to be matched and do not match what is to be passed over; each
/// with its blob, the commit and its path.
pub proof fn law_keep_files(
    commit: Oid,
    files: &Vec<(Oid, String)>,
    extensions: &Option<Vec<String>>,
    include_set: &Option<GlobSet>,
    exclude_set: &Option<GlobSet>,
    r: Vec<(Oid, Oid, String)>,
)
    requires
        call_ensures(keep_files, (commit, files, extensions, include_set, exclude_set), r),
    ensures
        entry_views(r@) == file_views(files@).filter(
            |f: (Oid, Seq<char>)|
                (extensions matches Some(list) ==> has_extension(f.1, texts(list@))) && (
                include_set matches Some(set) ==> any_matches(set_patterns(&set), f.1)) && (
                exclude_set matches Some(set) ==> !any_matches(set_patterns(&set), f.1)),
        ).map_values(|f: (Oid, Seq<char>)| (f.0, commit, f.1)),
{
    let wanted = match *extensions {
        Some(list) => Some(texts(list@)),
        None => None,
    };
    law_files_that_are_kept(file_views(files@), commit, wanted, *include_set, *exclude_set);
    let kept = |f: (Oid, Seq<char>)| counts(f.1, wanted, *include_set, *exclude_set);
    let stated = |f: (Oid, Seq<char>)|
        (extensions matches Some(list) ==> has_extension(f.1, texts(list@))) && (
        include_set matches Some(set) ==> any_matches(set_patterns(&set), f.1)) && (
        exclude_set matches Some(set) ==> !any_matches(set_patterns(&set), f.1));
    assert forall|f: (Oid, Seq<char>)| #[trigger] kept(f) == stated(f) by {
        law_which_files_count(f.1, wanted, *include_set, *exclude_set);
    }
    assert(kept =~= stated);
}

proof fn lemma_entry_of_commit(per_commit: Seq<Vec<(Oid, Oid, String)>>, n: int, k: int, m: int)
    requires
        0 <= n < m <= per_commit.len(),
        0 <= k < per_commit[n]@.len(),
    ensures
        ({
            let at = all_entries(per_commit, n).len() + k;
            let (blob, commit, path) = per_commit[n]@[k];
            &&& at < all_entries(per_commit, m).len()
            &&& all_entries(per_commit, m)[at as int] == (blob, commit, path@)
        }),
    decreases m,
{
    if n < m - 1 {
        lemma_entry_of_commit(per_commit, n, k, m - 1);
    }
}

/// Every file of every commit becomes an item of work, those of one commit behind
/// those of the one before; and a blob is blamed at the commit and the path of the
/// first file that has it.
pub proof fn law_collect_work_items(
    per_commit: &Vec<Vec<(Oid, Oid, String)>>,
    r: (Vec<WorkItem>, FxHashMap<Oid, (Oid, String)>),
    n: int,
    k: int,
)
    requires
        call_ensures(collect_work_items, (per_commit,), r),
        0 <= n < per_commit@.len(),
        0 <= k < per_commit@[n]@.len(),
    ensures
        ({
            let at = all_entries(per_commit@, n).len() + k;
            let (blob, commit, path) = per_commit@[n]@[k];
            &&& r.0@.len() == all_entries(per_commit@, per_commit@.len() as int).len()
            &&& r.0@[at as int].commit_oid == commit && r.0@[at as int].blob_oid == blob
            &&& (forall|i: int| 0 <= i < at ==> (#[trigger] r.0@[i]).blob_oid != blob) ==> map_of(
                &r.1,
            ).contains_key(blob) && map_of(&r.1)[blob].0 == commit && map_of(&r.1)[blob].1@ == path@
        }),
{
    let all = all_entries(per_commit@, per_commit@.len() as int);
    let at = all_entries(per_commit@, n).len() + k;
    lemma_entry_of_commit(per_commit@, n, k, per_commit@.len() as int);
    assert(forall|i: int|
        0 <= i < all.len() ==> (#[trigger] items_of(all)[i]).blob_oid == all[i].0);
    if forall|i: int| 0 <= i < at ==> (#[trigger] r.0@[i]).blob_oid != all[at as int].0 {
        assert forall|i: int| 0 <= i < at implies (#[trigger] all[i]).0 != all[at as int].0 by {
            assert(r.0@[i].blob_oid == all[i].0);
        }
        law_blamed_where_it_is_first(map_of(&r.1), all, at as int);
    }
}

/// The extensions of a list stand between commas, without the white space around
/// them.
pub proof fn law_extension_list(
    raw: &str,
    r: Vec<String>,
    a: Seq<char>,
    one: Seq<char>,
    b: Seq<char>,
    rest: &str,
    others: Vec<String>,
)
    requires
        call_ensures(extension_list, (raw,), r),
        call_ensures(extension_list, (rest,), others),
        is_blank(a),
        is_blank(b),
        is_trimmed(one),
        !(a + one + b).contains(','),
    ensures
        raw@ == a + one + b ==> texts(r@) == seq![one],
        raw@ == (a + one + b).push(',') + rest@ ==> texts(r@) == seq![one] + texts(others@),
{
    law_extensions_between_commas(a, one, b, rest@);
}

/// The patterns of a list stand between commas, without the white space around
/// them, and those of which nothing is left are none.
pub proof fn law_split_patterns(
    raw: &str,
    r: Vec<String>,
    a: Seq<char>,
    one: Seq<char>,
    b: Seq<char>,
    rest: &str,
    others: Vec<String>,
)
    requires
        call_ensures(split_patterns, (raw,), r),
        call_ensures(split_patterns, (rest,), others),
        is_blank(a),
        is_blank(b),
        is_trimmed(one),
        !(a + one + b).contains(','),
    ensures
        one.len() > 0 && raw@ == a + one + b ==> texts(r@) == seq![one],
        one.len() == 0 && raw@ == a + one + b ==> r@.len() == 0,
        one.len() > 0 && raw@ == (a + one + b).push(',') + rest@ ==> texts(r@) == seq![one] + texts(
            others@,
        ),
        one.len() == 0 && raw@ == (a + one + b).push(',') + rest@ ==> texts(r@) == texts(others@),
{
    law_patterns_between_commas(a, one, b, rest@);
    assert(texts(r@).len() == r@.len());
}

/// A set that was built has exactly the patterns of the list; a list with a wrong
/// pattern is refused for that; and where no patterns are given there is no set.
pub proof fn law_build_glob_set(
    patterns: Option<String>,
    r: Result<Option<GlobSet>, GlobError>,
    raw: &str,
    list: Vec<String>,
)
    requires
        call_ensures(build_glob_set, (patterns,), r),
        patterns matches Some(given) ==> given@ == raw@,
        call_ensures(split_patterns, (raw,), list),
    ensures
        patterns is None ==> r matches Ok(None),
        patterns is Some && r is Ok ==> (r->Ok_0 matches Some(set) && set_patterns(&set) == texts(
            list@,
        )),
        patterns is Some ==> (r matches Err(GlobError::Pattern(_)) <==> exists|i: int|
            0 <= i < list@.len() && !glob_is_valid(#[trigger] list@[i]@)),
        patterns is Some && list@.len() == 0 ==> r is Ok,
{
    assert(texts(list@).len() == list@.len());
    assert(forall|i: int| 0 <= i < list@.len() ==> #[trigger] texts(list@)[i] == list@[i]@);
    if patterns is Some {
        if !all_valid(glob_list(raw@)) {
            let i = choose|i: int|
                0 <= i < glob_list(raw@).len() && !glob_is_valid(#[trigger] glob_list(raw@)[i]);
            assert(list@[i]@ == glob_list(raw@)[i]);
        } else {
            assert forall|i: int| 0 <= i < list@.len() implies glob_is_valid(#[trigger] list@[i]@) by {
                assert(texts(list@)[i] == list@[i]@);
            }
        }
    }
}

/// Patterns are compiled into a set of exactly these, and refused where one of them
/// is wrong.
pub proof fn law_compile_patterns(list: &Vec<String>, r: Result<GlobSet, GlobError>)
    requires
        call_ensures(compile_patterns, (list,), r),
    ensures
        r matches Ok(set) ==> set_patterns(&set) == texts(list@),
        r matches Err(GlobError::Pattern(_)) <==> exists|i: int|
            0 <= i < list@.len() && !glob_is_valid(#[trigger] list@[i]@),
        list@.len() == 0 ==> r is Ok,
{
    assert(texts(list@).len() == list@.len());
    assert(forall|i: int| 0 <= i < list@.len() ==> #[trigger] texts(list@)[i] == list@[i]@);
    if !all_valid(texts(list@)) {
        let i = choose|i: int|
            0 <= i < texts(list@).len() && !glob_is_valid(#[trigger] texts(list@)[i]);
        assert(!glob_is_valid(list@[i]@));
    } else {
        assert forall|i: int| 0 <= i < list@.len() implies glob_is_valid(#[trigger] list@[i]@) by {
            assert(texts(list@)[i] == list@[i]@);
        }
    }
}

/// The first parents of a commit lead to its root, the commit on them that has no
/// first parent, unless they lead to a commit that is not known.
pub proof fn law_find_first_parent_root(
    parents: &FirstParents,
    head: Oid,
    r: Result<Oid, HistoryError>,
    c: Oid,
)
    requires
        call_ensures(find_first_parent_root, (parents, head), r),
    ensures
        ({
            let known = map_of(parents);
            &&& r == Ok::<Oid, HistoryError>(c) <==> is_on_chain(known, head, c)
                && known.contains_key(c) && known[c] is None
            &&& r == Err::<Oid, HistoryError>(HistoryError::MissingCommit(c)) <==> is_on_chain(
                known,
                head,
                c,
            ) && !known.contains_key(c)
            &&& r != Err::<Oid, HistoryError>(HistoryError::NoCommits)
        }),
{
    law_where_chains_lead(map_of(parents), head);
}

/// The commits whose first parents lead to another root than that of the main line
/// are found, with all that their first parents lead through, and no others.
pub proof fn law_find_foreign_oids(
    parents: &FirstParents,
    commits: &Vec<(Oid, i64)>,
    main_root: Oid,
    r: Result<FxHashSet<Oid>, HistoryError>,
    c: Oid,
)
    requires
        call_ensures(find_foreign_oids, (parents, commits, main_root), r),
    ensures
        ({
            let known = map_of(parents);
            &&& r is Ok <==> forall|i: int|
                0 <= i < commits@.len() ==> is_on_chain(known, (#[trigger] commits@[i]).0, main_root)
                    || chain_end(known, commits@[i].0) is Root
            &&& r matches Ok(found) ==> (set_of(&found).contains(c) <==> exists|i: int|
                0 <= i < commits@.len() && !is_on_chain(known, (#[trigger] commits@[i]).0, main_root)
                    && chain_end(known, commits@[i].0) is Root && is_on_chain(
                    known,
                    commits@[i].0,
                    c,
                ))
        }),
{
    let known = map_of(parents);
    law_foreign_commits(known, main_root, c, commits@);
    assert forall|i: int| 0 <= i < commits@.len() implies is_foreign(
        known,
        main_root,
        (#[trigger] commits@[i]).0,
    ) == (!is_on_chain(known, commits@[i].0, main_root) && chain_end(known, commits@[i].0) is Root) by {
        law_foreign_commits(known, main_root, commits@[i].0, commits@);
        law_where_chains_lead(known, commits@[i].0);
    }
}

/// The table of first parents has each commit that was met, with its first parent.
pub proof fn law_table_of_first_parents(records: &Vec<CommitRecord>, r: FirstParents, oid: Oid)
    requires
        call_ensures(first_parents, (records,), r),
        forall|i: int, j: int|
            0 <= i < j < records@.len() ==> (#[trigger] records@[i]).oid != (
            #[trigger] records@[j]).oid,
    ensures
        map_of(&r).contains_key(oid) <==> exists|i: int|
            0 <= i < records@.len() && (#[trigger] records@[i]).oid == oid,
        forall|i: int|
            0 <= i < records@.len() ==> map_of(&r)[(#[trigger] records@[i]).oid]
                == records@[i].first_parent,
{
    law_first_parents(records@, oid);
}

/// The list of commits has those that were met, each once with its time, the oldest
/// first: all of them, where only first parents were followed; else those that do
/// not say that they are squashed and, where there is a head, whose first parents
/// lead to the root of the head.
pub proof fn law_get_commit_list(
    records: &Vec<CommitRecord>,
    head: Option<Oid>,
    first_parent: bool,
    r: Result<Vec<(Oid, i64)>, HistoryError>,
)
    requires
        call_ensures(get_commit_list, (records, head, first_parent), r),
    ensures
        r == Err::<Vec<(Oid, i64)>, HistoryError>(HistoryError::NoCommits) <==> records@.len() == 0,
        records@.len() > 0 && (first_parent || head is None) ==> r is Ok,
        r matches Ok(list) ==> list@.to_multiset() == records@.filter(
            |c: CommitRecord|
                first_parent || (!says_squashed(c.message) && (head matches Some(h) ==> (chain_end(
                    parents_of(records@),
                    h,
                ) matches ChainEnd::Root(root) && is_on_chain(parents_of(records@), c.oid, root)))),
        ).map_values(|c: CommitRecord| listed_as(c)).to_multiset(),
        r matches Ok(list) ==> forall|i: int, j: int|
            0 <= i < j < list@.len() ==> (#[trigger] list@[i]).1 <= (#[trigger] list@[j]).1,
{
    law_when_there_are_commits(records@, head, first_parent);
    if let Ok(list) = r {
        law_which_commits_are_listed(records@, head, first_parent, list@);
    }
    if records@.len() > 0 && !first_parent && head is Some {
        law_why_there_are_no_commits(records@, head->0, 0);
        lemma_errors_of_commits(records@, head, first_parent);
    }
}

proof fn lemma_errors_of_commits(
    records: Seq<CommitRecord>,
    head: Option<Oid>,
    first_parent: bool,
)
    requires
        records.len() > 0,
    ensures
        commits_of(records, head, first_parent) != Err::<
            Seq<(Oid, i64)>,
            HistoryError,
        >(HistoryError::NoCommits),
{
    if !first_parent && head is Some {
        let parents = parents_of(records);
        if let ChainEnd::Root(root) = chain_end(parents, head->0) {
            lemma_first_error(parents, root, walked(records));
        }
    }
}

proof fn lemma_first_error(parents: Map<Oid, Option<Oid>>, root: Oid, commits: Seq<(Oid, i64)>)
    ensures
        first_error(parents, root, commits) != Some(HistoryError::NoCommits),
    decreases commits.len(),
{
    if commits.len() > 0 {
        lemma_first_error(parents, root, commits.drop_first());
        lemma_first_error(parents, root, commits.drop_last());
    }
}

/// A reference is a tag where its name is that of a version and it leads to a
/// commit; the tag has what stands behind "refs/tags/", and the commit's time.
pub proof fn law_version_tag(
    full: &str,
    found: Option<bool>,
    ts: Option<i64>,
    r: Option<(String, i64)>,
    short: Seq<char>,
)
    requires
        call_ensures(version_tag, (full, found, ts), r),
        full@ == "refs/tags/"@ + short || full@ == short,
        forall|rest: Seq<char>| short != #[trigger] ("refs/tags/"@ + rest),
    ensures
        r is Some <==> found == Some(true) && ts is Some,
        r matches Some(tag) ==> tag.0@ == short && Some(tag.1) == ts,
{
    law_tag_of_a_reference(short, found, ts);
}

/// Tags come in the order of time, none is lost and none is added, and each has the
/// distance to its nearest.
pub proof fn law_score_tags(tags: &Vec<(String, i64)>, r: Vec<Tag>, i: int)
    requires
        call_ensures(score_tags, (tags,), r),
    ensures
        r@.map_values(|t: Tag| tag_as(t)).to_multiset() == tags@.map_values(
            |t: (String, i64)| (t.0@, t.1),
        ).to_multiset(),
        forall|a: int, b: int| 0 <= a < b < r@.len() ==> (#[trigger] r@[a]).ts <= (#[trigger] r@[b]).ts,
        0 <= i < r@.len() ==> forall|j: int|
            0 <= j < r@.len() && j != i ==> r@[i].spacing <= apart(
                r@[i].ts,
                (#[trigger] r@[j]).ts,
            ),
        0 <= i < r@.len() && r@.len() > 1 ==> exists|j: int|
            0 <= j < r@.len() && j != i && r@[i].spacing == apart(
                r@[i].ts,
                (#[trigger] r@[j]).ts,
            ),
{
    let named = named_times(tags@);
    law_tags_in_the_order_of_time(r@, named);
    assert(named =~= tags@.map_values(|t: (String, i64)| (t.0@, t.1)));
    if 0 <= i < r@.len() {
        law_spacing_is_to_the_nearest(r@, named, i);
    }
}

/// One more reference gives one more tag, where it has the name of a version and
/// leads to a commit, and otherwise none.
pub proof fn law_get_version_tags(
    refs: &Vec<TagRef>,
    r: Vec<Tag>,
    one: TagRef,
    more: &Vec<TagRef>,
    with_one: Vec<Tag>,
    short: Seq<char>,
)
    requires
        call_ensures(get_version_tags, (refs,), r),
        more@ == refs@.push(one),
        call_ensures(get_version_tags, (more,), with_one),
        one.name@ == vstd::utf8::encode_utf8("refs/tags/"@ + short),
        vstd::utf8::is_ascii_chars("refs/tags/"@ + short),
        forall|rest: Seq<char>| short != #[trigger] ("refs/tags/"@ + rest),
    ensures
        ({
            let tags = r@.map_values(|t: Tag| tag_as(t)).to_multiset();
            with_one@.map_values(|t: Tag| tag_as(t)).to_multiset() == (if is_version_name(
                "refs/tags/"@ + short,
            ) && one.ts is Some {
                tags.insert((short, one.ts->0))
            } else {
                tags
            })
        }),
{
    let full = "refs/tags/"@ + short;
    let before = version_tags(refs@, refs@.len() as int);
    law_tags_in_the_order_of_time(r@, before);
    law_tags_in_the_order_of_time(
        with_one@,
        version_tags(more@, more@.len() as int),
    );
    law_one_more_reference(refs@, one, full);
    law_answer_for_a_name(full);
    law_tag_of_a_reference(short, version_answer(full), one.ts);
    if is_version_name(full) && one.ts is Some {
        before.to_multiset_ensures();
    }
}

/// A reference whose name is no text gives no tag.
pub proof fn law_no_tag_without_a_name(
    refs: &Vec<TagRef>,
    r: Vec<Tag>,
    one: TagRef,
    more: &Vec<TagRef>,
    with_one: Vec<Tag>,
)
    requires
        call_ensures(get_version_tags, (refs,), r),
        more@ == refs@.push(one),
        call_ensures(get_version_tags, (more,), with_one),
        !vstd::utf8::valid_utf8(one.name@),
    ensures
        with_one@.map_values(|t: Tag| tag_as(t)).to_multiset() == r@.map_values(
            |t: Tag| tag_as(t),
        ).to_multiset(),
{
    law_tags_in_the_order_of_time(r@, version_tags(refs@, refs@.len() as int));
    law_tags_in_the_order_of_time(
        with_one@,
        version_tags(more@, more@.len() as int),
    );
    law_unreadable_reference(refs@, one);
}

/// The header of an object says whether it is a tree, and how many bytes it has.
pub proof fn law_object_header(
    line: &[u8],
    r: Option<(bool, usize)>,
    name: Seq<char>,
    kind: Seq<char>,
    size: usize,
    rest: Seq<char>,
)
    requires
        call_ensures(object_header, (line,), r),
        is_word(name),
        is_word(kind),
        rest.len() > 0 ==> rest[0] == ' ' || rest[0] == '\n',
    ensures
        line@ == vstd::utf8::encode_utf8(
            name + seq![' '] + kind + seq![' '] + decimal(size as int) + rest,
        ) ==> r == Some((kind == seq!['t', 'r', 'e', 'e'], size)),
        !vstd::utf8::valid_utf8(line@) ==> r is None,
{
    let text = name + seq![' '] + kind + seq![' '] + decimal(size as int) + rest;
    law_header_is_read_back(name, kind, size, rest);
    vstd::utf8::encode_utf8_valid_utf8(text);
    vstd::utf8::encode_utf8_decode_utf8(text);
}

proof fn lemma_entry_of_tree(entries: Seq<WrittenEntry>, i: int)
    requires
        0 <= i < entries.len(),
        forall|k: int| 0 <= k < entries.len() ==> can_be_written(#[trigger] entries[k]),
    ensures
        tree_entries(tree_bytes(entries)).len() == entries.len(),
        ({
            let e = tree_entries(tree_bytes(entries))[i];
            e.name == entries[i].name && e.oid == entries[i].oid && e.kind == kind_of(
                entries[i].mode,
            )
        }),
    decreases entries.len(),
{
    let rest = entries.drop_first();
    law_every_entry_is_met(seq![], entries);
    assert(can_be_written(entries[0]));
    law_entry_is_read_back(entries[0].mode, entries[0].name, entries[0].oid, tree_bytes(rest));
    if i > 0 {
        assert forall|k: int| 0 <= k < rest.len() implies can_be_written(#[trigger] rest[k]) by {
            assert(rest[k] == entries[k + 1]);
        }
        lemma_entry_of_tree(rest, i - 1);
        assert(rest[i - 1] == entries[i]);
    }
}

/// All the entries of a tree are read, each with its name, its object and its kind.
pub proof fn law_parse_tree(
    data: &[u8],
    r: Vec<TreeEntry>,
    entries: Seq<WrittenEntry>,
    i: int,
)
    requires
        call_ensures(parse_tree, (data,), r),
        data@ == tree_bytes(entries),
        forall|k: int| 0 <= k < entries.len() ==> can_be_written(#[trigger] entries[k]),
        0 <= i < entries.len(),
    ensures
        r@.len() == entries.len(),
        r@[i].name@ == entries[i].name,
        r@[i].oid == entries[i].oid,
        r@[i].kind == EntryKind::Tree <==> is_mode(entries[i].mode, "40000"@) || is_mode(
            entries[i].mode,
            "040000"@,
        ),
        r@[i].kind == EntryKind::Link <==> is_mode(entries[i].mode, "160000"@),
{
    lemma_entry_of_tree(entries, i);
    law_views_of_entries(r@, i);
    law_modes(entries[i].mode);
}

/// A walk begins at its tree, with no file found.
pub proof fn law_walk_begins(tree_oid: Oid, walk: TreeWalk, files: Vec<(Oid, String)>)
    requires
        call_ensures(TreeWalk::new, (tree_oid,), walk),
        call_ensures(TreeWalk::into_files, (walk,), files),
    ensures
        walk.left().len() == 1,
        walk.left()[0].is_tree && walk.left()[0].oid == tree_oid && walk.left()[0].path.len() == 0,
        files@.len() == 0,
{
    assert(file_views(files@).len() == files@.len());
}

proof fn lemma_leading_files(ps: Seq<PendingView>)
    ensures
        0 <= leading_files(ps) <= ps.len(),
        forall|i: int| 0 <= i < leading_files(ps) ==> !(#[trigger] ps[i]).is_tree,
        leading_files(ps) < ps.len() ==> ps[leading_files(ps)].is_tree,
    decreases ps.len(),
{
    if ps.len() > 0 && !ps[0].is_tree {
        let rest = ps.drop_first();
        lemma_leading_files(rest);
        assert forall|i: int| 0 <= i < leading_files(ps) implies !(#[trigger] ps[i]).is_tree by {
            if i > 0 {
                assert(!rest[i - 1].is_tree);
            }
        }
    }
}

/// The walk asks for the first tree that is left. The files before it, all of them
/// and nothing else, are found now, with their objects and their paths; and there
/// is nothing to ask for where no tree is left.
pub proof fn law_next_tree(walk: &mut TreeWalk, r: Option<Oid>, n: int)
    requires
        call_ensures(TreeWalk::next_tree, (walk,), r),
        0 <= n <= old(walk).left().len(),
        forall|i: int| 0 <= i < n ==> !(#[trigger] old(walk).left()[i]).is_tree,
        n < old(walk).left().len() ==> old(walk).left()[n].is_tree,
    ensures
        r == (if n < old(walk).left().len() {
            Some(old(walk).left()[n].oid)
        } else {
            None
        }),
        final(walk).left() == old(walk).left().skip(n),
        final(walk).files().len() == old(walk).files().len() + n,
        final(walk).files().take(old(walk).files().len() as int) == old(walk).files(),
        forall|i: int|
            0 <= i < n ==> final(walk).files()[old(walk).files().len() + i] == (
                (#[trigger] old(walk).left()[i]).oid,
                old(walk).left()[i].path,
            ),
{
    let left = old(walk).left();
    lemma_leading_files(left);
    let m = leading_files(left);
    assert(m == n) by {
        if m < n {
            assert(left[m].is_tree);
        }
        if n < m {
            assert(!left[n].is_tree);
        }
    }
    let now = as_files(left.take(n));
    assert forall|i: int| 0 <= i < n implies now[i] == ((#[trigger] left[i]).oid, left[i].path) by {
        assert(left.take(n)[i] == left[i]);
    }
}

/// A tree that was asked for puts what its entries lead to, whatever they are
/// called, in the place of itself; one that cannot be had leads to nothing.
pub proof fn law_take_tree(
    walk: &mut TreeWalk,
    data: Option<Vec<u8>>,
    entries: Seq<WrittenEntry>,
)
    requires
        call_ensures(TreeWalk::take_tree, (walk, data), ()),
        data matches Some(bytes) ==> bytes@ == tree_bytes(entries),
        forall|i: int| 0 <= i < entries.len() ==> can_be_written(#[trigger] entries[i]),
    ensures
        final(walk).files() == old(walk).files(),
        ({
            let path = old(walk).left()[0].path;
            final(walk).left() == (if data is Some {
                entries.filter(|e: WrittenEntry| !is_mode(e.mode, "160000"@)).map_values(
                    |e: WrittenEntry| leads_to(path, e),
                ) + old(walk).left().drop_first()
            } else {
                old(walk).left().drop_first()
            })
        }),
{
    law_every_entry_is_met(old(walk).left()[0].path, entries);
    law_missing_tree_is_empty(old(walk).left()[0].path);
}

/// What comes out of a walk are the files that it found.
pub proof fn law_into_files(walk: TreeWalk, r: Vec<(Oid, String)>, i: int)
    requires
        call_ensures(TreeWalk::into_files, (walk,), r),
    ensures
        r@.len() == walk.files().len(),
        0 <= i < r@.len() ==> (r@[i].0, r@[i].1@) == walk.files()[i],
{
    law_views_of_files(r@, seq![], i);
}

} // verus!
