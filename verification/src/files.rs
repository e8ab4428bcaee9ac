//! The files of the sampled commits: which of them count, and what there is to
//! do for them.

use crate::fx::{map_get, map_insert, map_new, map_of};
use crate::globs::{any_matches, set_is_match, set_patterns};
use crate::text::{
    after_last, chars_of, is_blank, is_trimmed, law_split_at_first, law_trim, lemma_after_last,
    lemma_position_bounds, position, same_chars, split_on, split_text, string_of_range, texts, trim, trim_text,
};
use crate::types::{Oid, WorkItem};
use globset::GlobSet;
use rustc_hash::FxHashMap;
use vstd::prelude::*;

verus! {

/// The last part of a path that names something: not counting empty parts and
/// those that are a single dot.
pub open spec fn last_part(parts: Seq<Seq<char>>, n: int) -> Option<Seq<char>>
    decreases n,
{
    if n <= 0 {
        None
    } else {
        let p = parts[n - 1];
        if p.len() == 0 || p == seq!['.'] {
            last_part(parts, n - 1)
        } else {
            Some(p)
        }
    }
}

/// The file name at the end of a path; none where the path ends in "..".
pub open spec fn file_name(path: Seq<char>) -> Option<Seq<char>> {
    let parts = split_on(path, '/');
    match last_part(parts, parts.len() as int) {
        Some(p) => if p == seq!['.', '.'] {
            None
        } else {
            Some(p)
        },
        None => None,
    }
}

/// What stands behind the last dot of a file name, where a dot stands anywhere
/// but at its start.
pub open spec fn extension_of(name: Seq<char>) -> Option<Seq<char>> {
    let at = after_last(name, '.');
    if at > 1 {
        Some(name.skip(at))
    } else {
        None
    }
}

/// The extension of the file that a path leads to.
pub open spec fn path_extension(path: Seq<char>) -> Option<Seq<char>> {
    match file_name(path) {
        Some(name) => extension_of(name),
        None => None,
    }
}

/// Whether the characters are the given ones.
fn is_chars(chars: &Vec<char>, from: usize, to: usize, what: &Vec<char>) -> (r: bool)
    requires
        from <= to <= chars@.len(),
    ensures
        r == (chars@.subrange(from as int, to as int) == what@),
{
    if to - from != what.len() {
        return false;
    }
    let ghost s = chars@.subrange(from as int, to as int);
    let mut i: usize = 0;
    while i < what.len()
        invariant
            from <= to <= chars.len(),
            to - from == what@.len(),
            i <= what@.len(),
            s == chars@.subrange(from as int, to as int),
            forall|k: int| 0 <= k < i ==> s[k] == what@[k],
        decreases what@.len() - i,
    {
        if chars[from + i] != what[i] {
            assert(s[i as int] != what@[i as int]);
            return false;
        }
        i += 1;
    }
    assert(s =~= what@);
    true
}

/// The file name at the end of a path.
fn find_file_name(path: &str) -> (r: Option<String>)
    ensures
        match file_name(path@) {
            Some(name) => r matches Some(s) && s@ == name,
            None => r is None,
        },
{
    let parts = split_text(path, '/');
    let ghost views = split_on(path@, '/');
    let dot: Vec<char> = vec!['.'];
    let dots: Vec<char> = vec!['.', '.'];
    assert(dot@ =~= seq!['.']);
    assert(dots@ =~= seq!['.', '.']);
    let mut n: usize = parts.len();
    while n > 0
        invariant
            n <= parts@.len(),
            texts(parts@) == views,
            views == split_on(path@, '/'),
            dot@ == seq!['.'],
            dots@ == seq!['.', '.'],
            last_part(views, views.len() as int) == last_part(views, n as int),
        decreases n,
    {
        let chars = chars_of(parts[n - 1].as_str());
        assert(texts(parts@)[n - 1] == parts@[n - 1]@);
        if chars.len() > 0 && !same_chars(&chars, &dot) {
            if same_chars(&chars, &dots) {
                return None;
            }
            return Some(parts[n - 1].clone());
        }
        n -= 1;
    }
    None
}

/// The extension of the file that a path leads to.
pub fn find_extension(path: &str) -> (r: Option<String>)
    ensures
        match path_extension(path@) {
            Some(e) => r matches Some(s) && s@ == e,
            None => r is None,
        },
{
    let name = match find_file_name(path) {
        Some(name) => name,
        None => {
            return None;
        },
    };
    let chars = chars_of(name.as_str());
    let mut at: usize = chars.len();
    while at > 0 && chars[at - 1] != '.'
        invariant
            at <= chars@.len(),
            forall|k: int| at <= k < chars@.len() ==> #[trigger] chars@[k] != '.',
        decreases at,
    {
        at -= 1;
    }
    proof {
        lemma_after_last(chars@, '.', at as int);
        assert(chars@.subrange(at as int, chars@.len() as int) =~= chars@.skip(at as int));
    }
    if at > 1 {
        Some(string_of_range(&chars, at, chars.len()))
    } else {
        None
    }
}

/// `s` without the dots at its start.
pub open spec fn without_dots(s: Seq<char>) -> Seq<char>
    decreases s.len(),
{
    if s.len() > 0 && s[0] == '.' {
        without_dots(s.drop_first())
    } else {
        s
    }
}

/// Whether a path has one of the wanted extensions. A wanted extension may be
/// written with a dot or without; a file without extension has an empty one.
pub open spec fn has_extension(path: Seq<char>, wanted: Seq<Seq<char>>) -> bool {
    let extension = match path_extension(path) {
        Some(e) => e,
        None => seq![],
    };
    exists|i: int| 0 <= i < wanted.len() && without_dots(#[trigger] wanted[i]) == extension
}

/// The wanted extensions, where only some are wanted.
pub open spec fn maybe_texts(v: Option<Vec<String>>) -> Option<Seq<Seq<char>>> {
    match v {
        Some(list) => Some(texts(list@)),
        None => None,
    }
}

/// Whether a path passes the filters: it has a wanted extension, where only some
/// are wanted; it matches, where something is to match; it does not match what
/// is to be left out.
pub open spec fn passes(
    path: Seq<char>,
    extensions: Option<Seq<Seq<char>>>,
    included: Option<bool>,
    excluded: Option<bool>,
) -> bool {
    &&& extensions matches Some(wanted) ==> has_extension(path, wanted)
    &&& included != Some(false)
    &&& excluded != Some(true)
}

/// Whether a path has one of the wanted extensions.
fn check_extension(path: &str, wanted: &Vec<String>) -> (r: bool)
    ensures
        r == has_extension(path@, texts(wanted@)),
{
    let extension: Vec<char> = match find_extension(path) {
        Some(e) => chars_of(e.as_str()),
        None => Vec::new(),
    };
    let ghost ext = match path_extension(path@) {
        Some(e) => e,
        None => Seq::<char>::empty(),
    };
    assert(extension@ =~= ext);
    let mut i: usize = 0;
    while i < wanted.len()
        invariant
            i <= wanted@.len(),
            extension@ == ext,
            ext == (match path_extension(path@) {
                Some(e) => e,
                None => Seq::<char>::empty(),
            }),
            forall|k: int| 0 <= k < i ==> without_dots(#[trigger] texts(wanted@)[k]) != ext,
        decreases wanted@.len() - i,
    {
        let chars = chars_of(wanted[i].as_str());
        let mut from: usize = 0;
        assert(chars@.skip(0) =~= chars@);
        while from < chars.len() && chars[from] == '.'
            invariant
                from <= chars@.len(),
                without_dots(chars@.skip(from as int)) == without_dots(chars@),
            decreases chars@.len() - from,
        {
            assert(chars@.skip(from as int).drop_first() =~= chars@.skip(from + 1));
            from += 1;
        }
        assert(chars@.subrange(from as int, chars@.len() as int) =~= chars@.skip(from as int));
        assert(texts(wanted@)[i as int] == wanted@[i as int]@);
        if is_chars(&chars, from, chars.len(), &extension) {
            return true;
        }
        i += 1;
    }
    false
}

/// Whether a path passes the filters, given what the sets of patterns say of it.
pub fn path_passes(
    path: &str,
    extensions: &Option<Vec<String>>,
    included: Option<bool>,
    excluded: Option<bool>,
) -> (r: bool)
    ensures
        r == passes(path@, maybe_texts(*extensions), included, excluded),
{
    if let Some(wanted) = extensions {
        if !check_extension(path, wanted) {
            return false;
        }
    }
    if let Some(false) = included {
        return false;
    }
    if let Some(true) = excluded {
        return false;
    }
    true
}

/// What a set of patterns, if there is one, says of a path.
pub open spec fn verdict(set: Option<GlobSet>, path: Seq<char>) -> Option<bool> {
    match set {
        Some(s) => Some(any_matches(set_patterns(&s), path)),
        None => None,
    }
}

fn ask_set(set: &Option<GlobSet>, path: &str) -> (r: Option<bool>)
    ensures
        r == verdict(*set, path@),
{
    match set {
        Some(s) => Some(set_is_match(s, path)),
        None => None,
    }
}

/// Whether a file counts.
pub open spec fn counts(
    path: Seq<char>,
    extensions: Option<Seq<Seq<char>>>,
    include_set: Option<GlobSet>,
    exclude_set: Option<GlobSet>,
) -> bool {
    passes(path, extensions, verdict(include_set, path), verdict(exclude_set, path))
}

/// The files as plain values.
pub open spec fn file_views(files: Seq<(Oid, String)>) -> Seq<(Oid, Seq<char>)> {
    files.map_values(|f: (Oid, String)| (f.0, f.1@))
}

/// The entries as plain values: blob, commit and path.
pub open spec fn entry_views(entries: Seq<(Oid, Oid, String)>) -> Seq<(Oid, Oid, Seq<char>)> {
    entries.map_values(|e: (Oid, Oid, String)| (e.0, e.1, e.2@))
}

/// The files of a commit that count, among the first `n`.
pub open spec fn counted_files(
    files: Seq<(Oid, Seq<char>)>,
    n: int,
    commit: Oid,
    extensions: Option<Seq<Seq<char>>>,
    include_set: Option<GlobSet>,
    exclude_set: Option<GlobSet>,
) -> Seq<(Oid, Oid, Seq<char>)>
    decreases n,
{
    if n <= 0 {
        seq![]
    } else {
        let rest = counted_files(files, n - 1, commit, extensions, include_set, exclude_set);
        let f = files[n - 1];
        if counts(f.1, extensions, include_set, exclude_set) {
            rest.push((f.0, commit, f.1))
        } else {
            rest
        }
    }
}

/// The files of a commit that count, in the order of the tree.
pub fn keep_files(
    commit_oid: Oid,
    files: &Vec<(Oid, String)>,
    extensions: &Option<Vec<String>>,
    include_set: &Option<GlobSet>,
    exclude_set: &Option<GlobSet>,
) -> (r: Vec<(Oid, Oid, String)>)
    ensures
        entry_views(r@) == counted_files(
            file_views(files@),
            files@.len() as int,
            commit_oid,
            maybe_texts(*extensions),
            *include_set,
            *exclude_set,
        ),
{
    let mut r: Vec<(Oid, Oid, String)> = Vec::new();
    let mut i: usize = 0;
    assert(entry_views(r@) =~= seq![]);
    while i < files.len()
        invariant
            i <= files@.len(),
            entry_views(r@) == counted_files(
                file_views(files@),
                i as int,
                commit_oid,
                maybe_texts(*extensions),
                *include_set,
                *exclude_set,
            ),
        decreases files@.len() - i,
    {
        let path = files[i].1.as_str();
        let included = ask_set(include_set, path);
        let excluded = ask_set(exclude_set, path);
        let ghost before = r@;
        if path_passes(path, extensions, included, excluded) {
            r.push((files[i].0, commit_oid, files[i].1.clone()));
            assert(entry_views(r@) =~= entry_views(before).push((files@[i as int].0, commit_oid, path@)));
        }
        i += 1;
    }
    r
}

/// All the entries of all the commits, one commit after the other.
pub open spec fn all_entries(per_commit: Seq<Vec<(Oid, Oid, String)>>, n: int) -> Seq<
    (Oid, Oid, Seq<char>),
>
    decreases n,
{
    if n <= 0 {
        seq![]
    } else {
        all_entries(per_commit, n - 1) + entry_views(per_commit[n - 1]@)
    }
}

/// The work items of the entries.
pub open spec fn items_of(entries: Seq<(Oid, Oid, Seq<char>)>) -> Seq<WorkItem> {
    entries.map_values(
        |e: (Oid, Oid, Seq<char>)| WorkItem { commit_oid: e.1, blob_oid: e.0 },
    )
}

/// The place of the first entry of a blob, or the number of entries.
pub open spec fn first_of(entries: Seq<(Oid, Oid, Seq<char>)>, blob: Oid) -> int
    decreases entries.len(),
{
    if entries.len() == 0 || entries[0].0 == blob {
        0
    } else {
        1 + first_of(entries.drop_first(), blob)
    }
}

/// The table holds every blob of the entries once, with the commit and the path
/// of its first entry.
pub open spec fn looks_up(m: Map<Oid, (Oid, String)>, entries: Seq<(Oid, Oid, Seq<char>)>) -> bool {
    &&& forall|blob: Oid| #[trigger]
        m.contains_key(blob) <==> 0 <= first_of(entries, blob) < entries.len()
    &&& forall|blob: Oid| #[trigger]
        m.contains_key(blob) ==> m[blob].0 == entries[first_of(entries, blob)].1 && m[blob].1@
            == entries[first_of(entries, blob)].2
}

proof fn lemma_first_of(entries: Seq<(Oid, Oid, Seq<char>)>, blob: Oid)
    ensures
        0 <= first_of(entries, blob) <= entries.len(),
        first_of(entries, blob) < entries.len() ==> entries[first_of(entries, blob)].0 == blob,
        forall|k: int| 0 <= k < first_of(entries, blob) ==> (#[trigger] entries[k]).0 != blob,
    decreases entries.len(),
{
    if entries.len() > 0 && entries[0].0 != blob {
        let t = entries.drop_first();
        lemma_first_of(t, blob);
        assert forall|k: int| 0 <= k < first_of(entries, blob) implies (#[trigger] entries[k]).0
            != blob by {
            if k > 0 {
                assert(entries[k] == t[k - 1]);
            }
        }
    }
}

proof fn lemma_first_of_push(
    entries: Seq<(Oid, Oid, Seq<char>)>,
    e: (Oid, Oid, Seq<char>),
    blob: Oid,
)
    ensures
        first_of(entries.push(e), blob) == (if first_of(entries, blob) < entries.len() || e.0
            == blob {
            first_of(entries, blob)
        } else {
            entries.len() as int + 1
        }),
    decreases entries.len(),
{
    reveal_with_fuel(first_of, 2);
    let more = entries.push(e);
    if entries.len() == 0 {
        assert(more.drop_first() =~= seq![]);
    } else if entries[0].0 != blob {
        assert(more.drop_first() =~= entries.drop_first().push(e));
        lemma_first_of_push(entries.drop_first(), e, blob);
    }
}

/// The work of all the commits, and for each blob that occurs one commit and
/// path to blame it at: those at which it occurs first.
pub fn collect_work_items(per_commit: &Vec<Vec<(Oid, Oid, String)>>) -> (r: (
    Vec<WorkItem>,
    FxHashMap<Oid, (Oid, String)>,
))
    ensures
        r.0@ == items_of(all_entries(per_commit@, per_commit@.len() as int)),
        looks_up(map_of(&r.1), all_entries(per_commit@, per_commit@.len() as int)),
{
    let mut items: Vec<WorkItem> = Vec::new();
    let mut blame_lookup: FxHashMap<Oid, (Oid, String)> = map_new();
    let mut i: usize = 0;
    assert(items@ =~= items_of(all_entries(per_commit@, 0)));
    while i < per_commit.len()
        invariant
            i <= per_commit@.len(),
            items@ == items_of(all_entries(per_commit@, i as int)),
            looks_up(map_of(&blame_lookup), all_entries(per_commit@, i as int)),
        decreases per_commit@.len() - i,
    {
        let entries = &per_commit[i];
        let ghost done = all_entries(per_commit@, i as int);
        let ghost views = entry_views(entries@);
        let mut k: usize = 0;
        assert(done + views.take(0) =~= done);
        while k < entries.len()
            invariant
                k <= entries@.len(),
                views == entry_views(entries@),
                items@ == items_of(done + views.take(k as int)),
                looks_up(map_of(&blame_lookup), done + views.take(k as int)),
            decreases entries@.len() - k,
        {
            let (blob_oid, commit_oid, path) = &entries[k];
            let ghost seen = done + views.take(k as int);
            let ghost e = (*blob_oid, *commit_oid, path@);
            let ghost table = map_of(&blame_lookup);
            assert(views[k as int] == e);
            assert(done + views.take(k + 1) =~= seen.push(e));
            items.push(WorkItem { commit_oid: *commit_oid, blob_oid: *blob_oid });
            assert(items@ =~= items_of(seen.push(e)));
            let known = map_get(&blame_lookup, blob_oid).is_some();
            if !known {
                map_insert(&mut blame_lookup, *blob_oid, (*commit_oid, path.clone()));
            }
            proof {
                let now = map_of(&blame_lookup);
                lemma_first_of(seen, e.0);
                assert(known <==> table.contains_key(e.0));
                assert forall|blob: Oid| #[trigger] now.contains_key(blob) <==> 0 <= first_of(
                    seen.push(e),
                    blob,
                ) < seen.push(e).len() by {
                    lemma_first_of(seen, blob);
                    lemma_first_of_push(seen, e, blob);
                    assert(table.contains_key(blob) || !table.contains_key(blob));
                }
                assert forall|blob: Oid| #[trigger] now.contains_key(blob) implies now[blob].0
                    == seen.push(e)[first_of(seen.push(e), blob)].1 && now[blob].1@ == seen.push(
                    e,
                )[first_of(seen.push(e), blob)].2 by {
                    lemma_first_of(seen, blob);
                    lemma_first_of_push(seen, e, blob);
                    assert(table.contains_key(blob) || !table.contains_key(blob));
                }
            }
            k += 1;
        }
        assert(views.take(k as int) =~= views);
        i += 1;
    }
    (items, blame_lookup)
}

/// Every file has its blob in the table, and the table has no other blobs: each
/// blob is blamed, and only once, however many files and commits have it. It is
/// blamed at a file that has it.
pub proof fn law_each_blob_once(
    m: Map<Oid, (Oid, String)>,
    entries: Seq<(Oid, Oid, Seq<char>)>,
    blob: Oid,
)
    requires
        looks_up(m, entries),
    ensures
        m.contains_key(blob) <==> exists|i: int|
            0 <= i < entries.len() && (#[trigger] items_of(entries)[i]).blob_oid == blob,
        m.contains_key(blob) ==> exists|i: int|
            0 <= i < entries.len() && #[trigger] entries[i] == (blob, m[blob].0, m[blob].1@),
{
    lemma_first_of(entries, blob);
    let at = first_of(entries, blob);
    if m.contains_key(blob) {
        assert(items_of(entries)[at].blob_oid == blob);
        assert(entries[at] == (blob, m[blob].0, m[blob].1@));
    }
    if exists|i: int| 0 <= i < entries.len() && (#[trigger] items_of(entries)[i]).blob_oid == blob {
        let i = choose|i: int|
            0 <= i < entries.len() && (#[trigger] items_of(entries)[i]).blob_oid == blob;
        assert(entries[i].0 == blob);
        assert(at < entries.len());
    }
}

/// The extensions that a list with commas holds.
pub open spec fn extension_texts(raw: Seq<char>) -> Seq<Seq<char>> {
    split_on(raw, ',').map_values(|p: Seq<char>| trim(p))
}

/// The extensions that a list with commas holds, without the white space around
/// them.
pub fn extension_list(raw: &str) -> (r: Vec<String>)
    ensures
        texts(r@) == extension_texts(raw@),
{
    let parts = split_text(raw, ',');
    let mut r: Vec<String> = Vec::new();
    let mut i: usize = 0;
    assert(texts(r@) =~= extension_texts(raw@).take(0));
    while i < parts.len()
        invariant
            i <= parts@.len(),
            texts(parts@) == split_on(raw@, ','),
            texts(r@) == extension_texts(raw@).take(i as int),
        decreases parts@.len() - i,
    {
        let ghost before = r@;
        let p = trim_text(parts[i].as_str());
        assert(texts(parts@)[i as int] == parts@[i as int]@);
        r.push(p);
        assert(texts(r@) =~= texts(before).push(p@));
        assert(extension_texts(raw@).take(i + 1) =~= extension_texts(raw@).take(i as int).push(p@));
        i += 1;
    }
    assert(texts(parts@).len() == parts@.len());
    assert(extension_texts(raw@).take(i as int) =~= extension_texts(raw@));
    r
}

proof fn lemma_split_behind_slash(dir: Seq<char>, name: Seq<char>)
    requires
        !name.contains('/'),
    ensures
        split_on(dir.push('/') + name, '/') == split_on(dir, '/').push(name),
    decreases dir.len(),
{
    let i = position(dir, '/');
    lemma_position_bounds(dir, '/');
    if i < dir.len() {
        let a = dir.take(i);
        let b = dir.skip(i + 1);
        assert(!a.contains('/')) by {
            if a.contains('/') {
                let k = choose|k: int| 0 <= k < a.len() && a[k] == '/';
                assert(dir[k] == '/');
            }
        }
        lemma_split_behind_slash(b, name);
        law_split_at_first(a, b, '/');
        law_split_at_first(a, b.push('/') + name, '/');
        assert(a.push('/') + b =~= dir);
        assert(a.push('/') + (b.push('/') + name) =~= dir.push('/') + name);
        assert(seq![a] + split_on(b, '/').push(name) =~= (seq![a] + split_on(b, '/')).push(name));
    } else {
        assert(!dir.contains('/')) by {
            if dir.contains('/') {
                let k = choose|k: int| 0 <= k < dir.len() && dir[k] == '/';
                assert(dir[k] != '/');
            }
        }
        law_split_at_first(dir, name, '/');
        law_split_at_first(name, seq![], '/');
        assert(seq![dir] + seq![name] =~= seq![dir].push(name));
    }
}

/// The file name of a path is what stands behind the last slash, or all of it; but
/// neither one dot nor two are a name.
pub proof fn law_file_in_a_directory(dir: Seq<char>, name: Seq<char>)
    requires
        !name.contains('/'),
        name.len() > 0,
        name != seq!['.'],
        name != seq!['.', '.'],
    ensures
        file_name(dir.push('/') + name) == Some(name),
        file_name(name) == Some(name),
{
    lemma_split_behind_slash(dir, name);
    law_split_at_first(name, seq![], '/');
    let parts = split_on(dir.push('/') + name, '/');
    assert(parts.last() == name);
    assert(last_part(parts, parts.len() as int) == Some(name));
    assert(last_part(seq![name], 1) == Some(name));
}

/// The extension of a file is what stands behind the last dot of its name, in
/// whatever directory it is. A name without a dot, or with a dot at its start only,
/// has none.
pub proof fn law_extension_of_a_file(dir: Seq<char>, stem: Seq<char>, extension: Seq<char>)
    requires
        !stem.contains('/'),
        !extension.contains('/'),
        !extension.contains('.'),
        stem.len() > 0,
        extension.len() > 0,
    ensures
        path_extension(dir.push('/') + (stem.push('.') + extension)) == Some(extension),
        path_extension(stem.push('.') + extension) == Some(extension),
        path_extension(dir.push('/') + extension) is None,
        path_extension(extension) is None,
        path_extension(seq!['.'] + extension) is None,
{
    let name = stem.push('.') + extension;
    let n = stem.len() as int;
    assert(!name.contains('/')) by {
        if name.contains('/') {
            let k = choose|k: int| 0 <= k < name.len() && name[k] == '/';
            if k < n {
                assert(stem[k] == '/');
            } else {
                assert(extension[k - n - 1] == '/');
            }
        }
    }
    assert(name.last() == extension.last());
    assert(extension.contains(extension.last())) by {
        assert(extension[extension.len() - 1] == extension.last());
    }
    law_file_in_a_directory(dir, name);
    assert forall|k: int| n + 1 <= k < name.len() implies #[trigger] name[k] != '.' by {
        assert(name[k] == extension[k - n - 1]);
        assert(extension.contains(extension[k - n - 1]));
    }
    lemma_after_last(name, '.', n + 1);
    assert(name.skip(n + 1) =~= extension);
    assert forall|k: int| 0 <= k < extension.len() implies #[trigger] extension[k] != '.' by {
        assert(extension.contains(extension[k]));
    }
    assert(extension[0] != '.');
    law_file_in_a_directory(dir, extension);
    lemma_after_last(extension, '.', 0);
    let hidden = seq!['.'] + extension;
    assert(!hidden.contains('/')) by {
        if hidden.contains('/') {
            let k = choose|k: int| 0 <= k < hidden.len() && hidden[k] == '/';
            assert(extension[k - 1] == '/');
        }
    }
    assert(hidden[1] == extension[0]);
    assert forall|k: int| 1 <= k < hidden.len() implies #[trigger] hidden[k] != '.' by {
        assert(hidden[k] == extension[k - 1]);
    }
    law_file_in_a_directory(dir, hidden);
    lemma_after_last(hidden, '.', 1);
}

/// Dots before a wanted extension make no difference.
pub proof fn law_dots_before_an_extension(s: Seq<char>)
    ensures
        without_dots(seq!['.'] + s) == without_dots(s),
        s.len() > 0 && s[0] != '.' ==> without_dots(s) == s,
        without_dots(Seq::<char>::empty()) == Seq::<char>::empty(),
{
    assert((seq!['.'] + s).drop_first() =~= s);
}

/// A file has a wanted extension if one more wanted extension is its own, written
/// without dots at its start, or if it had one of the others. A file without an
/// extension has an empty one.
pub proof fn law_wanted_extensions(path: Seq<char>, wanted: Seq<Seq<char>>, one: Seq<char>)
    requires
        one.len() > 0 ==> one[0] != '.',
    ensures
        !has_extension(path, Seq::<Seq<char>>::empty()),
        has_extension(path, wanted.push(one)) <==> has_extension(path, wanted) || path_extension(path)
            == Some(one) || (path_extension(path) is None && one.len() == 0),
{
    let more = wanted.push(one);
    let extension = match path_extension(path) {
        Some(e) => e,
        None => seq![],
    };
    assert(without_dots(one) == one);
    assert(more[wanted.len() as int] == one);
    if has_extension(path, wanted) {
        let i = choose|i: int|
            0 <= i < wanted.len() && without_dots(#[trigger] wanted[i]) == extension;
        assert(more[i] == wanted[i]);
    }
    if has_extension(path, more) {
        let i = choose|i: int| 0 <= i < more.len() && without_dots(#[trigger] more[i]) == extension;
        if i < wanted.len() {
            assert(more[i] == wanted[i]);
        }
    }
    if one.len() == 0 {
        assert(one =~= seq![]);
    }
}

/// A file counts if and only if nothing speaks against it: it has a wanted
/// extension, where only some are wanted; it matches one of the patterns to take,
/// where there are such; and it matches none of those to leave out, where there are
/// such.
pub proof fn law_which_files_count(
    path: Seq<char>,
    extensions: Option<Seq<Seq<char>>>,
    include_set: Option<GlobSet>,
    exclude_set: Option<GlobSet>,
)
    ensures
        counts(path, extensions, include_set, exclude_set) <==> (extensions is None || has_extension(
            path,
            extensions->0,
        )) && (include_set is None || any_matches(set_patterns(&include_set->0), path)) && (
        exclude_set is None || !any_matches(set_patterns(&exclude_set->0), path)),
{
}

/// Of the files of a commit those that count are kept, in the order of the tree,
/// each with its blob, the commit and its path.
pub proof fn law_files_that_are_kept(
    files: Seq<(Oid, Seq<char>)>,
    commit: Oid,
    extensions: Option<Seq<Seq<char>>>,
    include_set: Option<GlobSet>,
    exclude_set: Option<GlobSet>,
)
    ensures
        counted_files(
            files,
            files.len() as int,
            commit,
            extensions,
            include_set,
            exclude_set,
        ) == files.filter(
            |f: (Oid, Seq<char>)| counts(f.1, extensions, include_set, exclude_set),
        ).map_values(|f: (Oid, Seq<char>)| (f.0, commit, f.1)),
{
    lemma_files_kept(
        files,
        files.len() as int,
        commit,
        extensions,
        include_set,
        exclude_set,
        |f: (Oid, Seq<char>)| counts(f.1, extensions, include_set, exclude_set),
    );
    assert(files.take(files.len() as int) =~= files);
}

proof fn lemma_files_kept(
    files: Seq<(Oid, Seq<char>)>,
    n: int,
    commit: Oid,
    extensions: Option<Seq<Seq<char>>>,
    include_set: Option<GlobSet>,
    exclude_set: Option<GlobSet>,
    wanted: spec_fn((Oid, Seq<char>)) -> bool,
)
    requires
        0 <= n <= files.len(),
        wanted == (|f: (Oid, Seq<char>)| counts(f.1, extensions, include_set, exclude_set)),
    ensures
        counted_files(files, n, commit, extensions, include_set, exclude_set) == files.take(
            n,
        ).filter(wanted).map_values(|f: (Oid, Seq<char>)| (f.0, commit, f.1)),
    decreases n,
{
    reveal(Seq::filter);
    let named = |f: (Oid, Seq<char>)| (f.0, commit, f.1);
    if n > 0 {
        lemma_files_kept(files, n - 1, commit, extensions, include_set, exclude_set, wanted);
        let before = files.take(n - 1).filter(wanted);
        assert(files.take(n).drop_last() =~= files.take(n - 1));
        assert(before.push(files[n - 1]).map_values(named) =~= before.map_values(named).push(
            named(files[n - 1]),
        ));
    } else {
        assert(files.take(n).filter(wanted).map_values(named) =~= seq![]);
    }
}

/// The work is one item for each file that is kept, commit after commit, and each
/// item names the commit and the blob of its file.
pub proof fn law_work_of_all_commits(per_commit: Seq<Vec<(Oid, Oid, String)>>, n: int, k: int)
    requires
        0 <= n < per_commit.len(),
        0 <= k < per_commit[n]@.len(),
    ensures
        all_entries(per_commit, n + 1).len() == all_entries(per_commit, n).len()
            + per_commit[n]@.len(),
        all_entries(per_commit, 0).len() == 0,
        ({
            let at = all_entries(per_commit, n).len() + k;
            let (blob, commit, path) = per_commit[n]@[k];
            &&& all_entries(per_commit, n + 1)[at] == (blob, commit, path@)
            &&& items_of(all_entries(per_commit, n + 1))[at].commit_oid == commit
            &&& items_of(all_entries(per_commit, n + 1))[at].blob_oid == blob
            &&& items_of(all_entries(per_commit, n + 1)).len() == all_entries(
                per_commit,
                n + 1,
            ).len()
        }),
        forall|i: int|
            0 <= i < all_entries(per_commit, n).len() ==> #[trigger] all_entries(per_commit, n + 1)[i]
                == all_entries(per_commit, n)[i],
{
}

/// A blob is blamed at the first file that has it.
pub proof fn law_blamed_where_it_is_first(
    m: Map<Oid, (Oid, String)>,
    entries: Seq<(Oid, Oid, Seq<char>)>,
    i: int,
)
    requires
        looks_up(m, entries),
        0 <= i < entries.len(),
        forall|k: int| 0 <= k < i ==> (#[trigger] entries[k]).0 != entries[i].0,
    ensures
        m.contains_key(entries[i].0),
        m[entries[i].0].0 == entries[i].1,
        m[entries[i].0].1@ == entries[i].2,
{
    let blob = entries[i].0;
    lemma_first_of(entries, blob);
    let at = first_of(entries, blob);
    if at < i {
        assert(entries[at].0 != blob);
    } else if at > i {
        assert(entries[i].0 != blob);
    }
}

/// The extensions of a list stand between its commas, without the white space
/// around them.
pub proof fn law_extensions_between_commas(
    a: Seq<char>,
    one: Seq<char>,
    b: Seq<char>,
    rest: Seq<char>,
)
    requires
        is_blank(a),
        is_blank(b),
        is_trimmed(one),
        !(a + one + b).contains(','),
    ensures
        extension_texts(a + one + b) == seq![one],
        extension_texts((a + one + b).push(',') + rest) == seq![one] + extension_texts(rest),
{
    let part = a + one + b;
    law_trim(a, one, b);
    law_split_at_first(part, rest, ',');
    assert(extension_texts(part) =~= seq![one]);
    assert(extension_texts(part.push(',') + rest) =~= seq![one] + extension_texts(rest));
}

/// A slash at the end of a path, or one dot behind it, makes no other file name; two
/// dots behind it have none, and neither has nothing at all.
pub proof fn law_ends_of_paths(path: Seq<char>)
    ensures
        file_name(path.push('/')) == file_name(path),
        file_name(path.push('/') + seq!['.']) == file_name(path),
        file_name(path.push('/') + seq!['.', '.']) is None,
        file_name(Seq::<char>::empty()) is None,
        file_name(seq!['.']) is None,
        file_name(seq!['.', '.']) is None,
{
    let parts = split_on(path, '/');
    let none = Seq::<char>::empty();
    let dot = seq!['.'];
    let dots = seq!['.', '.'];
    lemma_split_behind_slash(path, none);
    lemma_split_behind_slash(path, dot);
    lemma_split_behind_slash(path, dots);
    assert(path.push('/') + none =~= path.push('/'));
    lemma_last_part_before(parts, none, parts.len() as int);
    lemma_last_part_before(parts, dot, parts.len() as int);
    assert(dots.len() != dot.len());
    law_split_at_first(none, seq![], '/');
    law_split_at_first(dot, seq![], '/');
    law_split_at_first(dots, seq![], '/');
    reveal_with_fuel(last_part, 2);
}

proof fn lemma_last_part_before(parts: Seq<Seq<char>>, part: Seq<char>, n: int)
    requires
        0 <= n <= parts.len(),
    ensures
        last_part(parts.push(part), n) == last_part(parts, n),
    decreases n,
{
    if n > 0 {
        lemma_last_part_before(parts, part, n - 1);
    }
}

/// A name that ends with a dot has an empty extension.
pub proof fn law_dot_at_the_end(dir: Seq<char>, stem: Seq<char>)
    requires
        !stem.contains('/'),
        stem.len() > 0,
        stem != seq!['.'],
    ensures
        path_extension(dir.push('/') + stem.push('.')) == Some(Seq::<char>::empty()),
        path_extension(stem.push('.')) == Some(Seq::<char>::empty()),
{
    let name = stem.push('.');
    let n = stem.len() as int;
    assert(!name.contains('/')) by {
        if name.contains('/') {
            let k = choose|k: int| 0 <= k < name.len() && name[k] == '/';
            assert(stem[k] == '/');
        }
    }
    assert(name != seq!['.', '.']) by {
        if name == seq!['.', '.'] {
            assert(stem =~= seq!['.']);
        }
    }
    assert(name.len() >= 2);
    law_file_in_a_directory(dir, name);
    lemma_after_last(name, '.', n + 1);
    assert(name.skip(n + 1) =~= seq![]);
}

/// Files and entries keep what they have: blob, commit and path.
pub proof fn law_views_of_files(files: Seq<(Oid, String)>, entries: Seq<(Oid, Oid, String)>, i: int)
    ensures
        file_views(files).len() == files.len(),
        entry_views(entries).len() == entries.len(),
        0 <= i < files.len() ==> file_views(files)[i] == (files[i].0, files[i].1@),
        0 <= i < entries.len() ==> entry_views(entries)[i] == (
            entries[i].0,
            entries[i].1,
            entries[i].2@,
        ),
{
}

} // verus!
