//! Where a repository is: its name, the directory of its clone, and the steps
//! that lead to a copy of it on disk.

use crate::text::{
    after_last, chars_of, ends_with, has_prefix, hex_digits, law_hex_digits, law_starts_with,
    lemma_after_last, push_hex, starts_with, string_of_range, without_suffixes,
};
use vstd::prelude::*;

verus! {

/// One step of the hash.
pub open spec fn fnv_step(h: u32, b: u8) -> u32 {
    (((h ^ (b as u32)) as int * 16777619) % 0x1_0000_0000) as u32
}

/// The 32-bit FNV-1a hash of a sequence of bytes.
pub open spec fn fnv1a(bytes: Seq<u8>) -> u32
    decreases bytes.len(),
{
    if bytes.len() == 0 {
        2166136261
    } else {
        fnv_step(fnv1a(bytes.drop_last()), bytes.last())
    }
}

/// The 32-bit FNV-1a hash of the UTF-8 form of `s`.
pub fn fnv1a_u32(s: &str) -> (r: u32)
    ensures
        r == fnv1a(vstd::utf8::encode_utf8(s@)),
{
    let bytes = s.as_bytes();
    let mut h: u32 = 2166136261;
    let mut i: usize = 0;
    assert(bytes@.take(0) =~= Seq::<u8>::empty());
    while i < bytes.len()
        invariant
            i <= bytes@.len(),
            h == fnv1a(bytes@.take(i as int)),
        decreases bytes@.len() - i,
    {
        h = (h ^ (bytes[i] as u32)).wrapping_mul(16777619);
        assert(bytes@.take(i + 1).drop_last() =~= bytes@.take(i as int));
        i += 1;
    }
    assert(bytes@.take(i as int) =~= bytes@);
    h
}

/// The name of the repository at a URL or path: the last part, without slashes
/// at its end and without the ending ".git".
pub open spec fn name_of(url: Seq<char>) -> Seq<char> {
    let s = without_suffixes(without_suffixes(url, seq!['/']), seq!['.', 'g', 'i', 't']);
    s.skip(after_last(s, '/'))
}

/// The length of `chars[..to]` without the endings that `suffix` writes.
fn strip_end(chars: &Vec<char>, to: usize, suffix: &Vec<char>) -> (r: usize)
    requires
        to <= chars@.len(),
        suffix@.len() > 0,
    ensures
        r <= to,
        chars@.take(r as int) == without_suffixes(chars@.take(to as int), suffix@),
{
    let n = suffix.len();
    let mut end: usize = to;
    loop
        invariant
            end <= to <= chars@.len(),
            n == suffix@.len(),
            n > 0,
            without_suffixes(chars@.take(end as int), suffix@) == without_suffixes(
                chars@.take(to as int),
                suffix@,
            ),
        decreases end,
    {
        if end < n {
            return end;
        }
        let ghost s = chars@.take(end as int);
        let ghost tail = s.skip(s.len() - n);
        let mut i: usize = 0;
        while i < n && chars[end - n + i] == suffix[i]
            invariant
                n <= end <= chars@.len(),
                n == suffix@.len(),
                i <= n,
                s == chars@.take(end as int),
                tail == s.skip(s.len() - n),
                forall|k: int| 0 <= k < i ==> tail[k] == suffix@[k],
            decreases n - i,
        {
            i += 1;
        }
        if i < n {
            assert(tail[i as int] != suffix@[i as int]);
            return end;
        }
        assert(tail =~= suffix@);
        assert(s.take(s.len() - n) =~= chars@.take(end - n));
        end = end - n;
    }
}

/// The name of the repository at a URL or path.
pub fn repo_name(url: &str) -> (r: String)
    ensures
        r@ == name_of(url@),
{
    let chars = chars_of(url);
    let slash: Vec<char> = vec!['/'];
    let dot_git: Vec<char> = vec!['.', 'g', 'i', 't'];
    assert(slash@ =~= seq!['/']);
    assert(dot_git@ =~= seq!['.', 'g', 'i', 't']);
    assert(chars@.take(chars@.len() as int) =~= url@);
    let end = strip_end(&chars, chars.len(), &slash);
    let end = strip_end(&chars, end, &dot_git);
    let ghost s = chars@.take(end as int);
    let mut start: usize = end;
    while start > 0 && chars[start - 1] != '/'
        invariant
            start <= end <= chars@.len(),
            s == chars@.take(end as int),
            forall|k: int| start <= k < end ==> #[trigger] s[k] != '/',
        decreases start,
    {
        start -= 1;
    }
    proof {
        lemma_after_last(s, '/', start as int);
        assert(chars@.subrange(start as int, end as int) =~= s.skip(start as int));
    }
    string_of_range(&chars, start, end)
}

/// The name of the directory that a clone goes to: the name of the repository
/// and a hash of its URL, so that repositories of the same name get their own.
pub open spec fn clone_dir(url: Seq<char>) -> Seq<char> {
    name_of(url) + seq!['-'] + hex_digits(fnv1a(vstd::utf8::encode_utf8(url)) as int, 8)
}

/// The name of the directory that a clone goes to.
pub fn clone_dir_name(url: &str) -> (r: String)
    ensures
        r@ == clone_dir(url@),
{
    let mut r = repo_name(url);
    r.push('-');
    push_hex(&mut r, fnv1a_u32(url) as u64, 8);
    assert(r@ =~= clone_dir(url@));
    r
}

/// Whether a URL is one for `git clone` itself.
pub open spec fn is_http(url: Seq<char>) -> bool {
    starts_with(url, "http://"@) || starts_with(url, "https://"@)
}

/// Whether a URL is one for `git clone` itself.
pub fn is_http_url(url: &str) -> (r: bool)
    ensures
        r == is_http(url@),
{
    let chars = chars_of(url);
    has_prefix(&chars, "http://") || has_prefix(&chars, "https://")
}

/// What is known on the way to a repository.
#[derive(Clone, Copy)]
pub enum RepoStage {
    /// Nothing yet.
    Start,
    /// Whether the URL is the path of a directory that opens as a repository.
    Local(bool),
    /// Whether the directory of the clone is there, and whether the repository
    /// in it is empty, as far as it opens and tells.
    Clone { exists: bool, empty: Option<bool> },
    /// The directory of the clone has been taken away.
    Removed,
}

/// What to do next on the way to a repository.
#[derive(Clone, Copy)]
pub enum RepoStep {
    /// See whether the URL is a local repository.
    LookLocal,
    /// Use the URL as the path of the repository.
    UseLocal,
    /// See whether there is a clone.
    LookForClone,
    /// Use the clone that is there.
    UseClone,
    /// Take the directory of the clone away.
    RemoveClone,
    /// Clone with the git program, which knows credential helpers.
    CloneWithGit,
    /// Clone with libgit2.
    CloneWithLibrary,
}

/// How to clone from a URL.
pub open spec fn clone_step(url: Seq<char>) -> RepoStep {
    if is_http(url) {
        RepoStep::CloneWithGit
    } else {
        RepoStep::CloneWithLibrary
    }
}

/// What to do at each stage.
pub open spec fn step_at(url: Seq<char>, stage: RepoStage) -> RepoStep {
    match stage {
        RepoStage::Start => RepoStep::LookLocal,
        RepoStage::Local(true) => RepoStep::UseLocal,
        RepoStage::Local(false) => RepoStep::LookForClone,
        RepoStage::Clone { exists: false, .. } => clone_step(url),
        RepoStage::Clone { exists: true, empty: Some(false) } => RepoStep::UseClone,
        RepoStage::Clone { exists: true, .. } => RepoStep::RemoveClone,
        RepoStage::Removed => clone_step(url),
    }
}

/// What to do next on the way to the repository at `url`.
pub fn next_repo_step(url: &str, stage: RepoStage) -> (r: RepoStep)
    ensures
        r == step_at(url@, stage),
{
    match stage {
        RepoStage::Start => RepoStep::LookLocal,
        RepoStage::Local(opens) => if opens {
            RepoStep::UseLocal
        } else {
            RepoStep::LookForClone
        },
        RepoStage::Clone { exists, empty } => {
            if !exists {
                if is_http_url(url) {
                    RepoStep::CloneWithGit
                } else {
                    RepoStep::CloneWithLibrary
                }
            } else {
                match empty {
                    Some(false) => RepoStep::UseClone,
                    _ => RepoStep::RemoveClone,
                }
            }
        },
        RepoStage::Removed => if is_http_url(url) {
            RepoStep::CloneWithGit
        } else {
            RepoStep::CloneWithLibrary
        },
    }
}

/// Whether a step fetches the repository anew.
pub open spec fn clones(step: RepoStep) -> bool {
    step is CloneWithGit || step is CloneWithLibrary
}

/// A local repository is used as it is, and a clone that holds something is
/// used again: neither is fetched or taken away.
pub proof fn law_nothing_is_fetched_twice(url: Seq<char>, stage: RepoStage)
    ensures
        clones(step_at(url, stage)) ==> stage is Removed || (stage matches RepoStage::Clone {
            exists,
            ..
        } && !exists),
        step_at(url, stage) is RemoveClone ==> (stage matches RepoStage::Clone { exists, empty }
            && exists && empty != Some(false)),
{
}

/// A name has no slash in it, so it names a file in one directory.
pub proof fn law_name_is_one_part(url: Seq<char>)
    ensures
        !name_of(url).contains('/'),
{
    let s = without_suffixes(without_suffixes(url, seq!['/']), seq!['.', 'g', 'i', 't']);
    lemma_none_after_last(s, '/');
    assert(!s.skip(after_last(s, '/')).contains('/')) by {
        if s.skip(after_last(s, '/')).contains('/') {
            let t = s.skip(after_last(s, '/'));
            let i = choose|i: int| 0 <= i < t.len() && t[i] == '/';
            assert(s[after_last(s, '/') + i] == '/');
        }
    }
}

proof fn lemma_none_after_last(s: Seq<char>, x: char)
    ensures
        0 <= after_last(s, x) <= s.len(),
        forall|k: int| after_last(s, x) <= k < s.len() ==> #[trigger] s[k] != x,
    decreases s.len(),
{
    if s.len() > 0 && s.last() != x {
        lemma_none_after_last(s.drop_last(), x);
        assert forall|k: int| after_last(s, x) <= k < s.len() implies #[trigger] s[k] != x by {
            if k < s.len() - 1 {
                assert(s.drop_last()[k] == s[k]);
            }
        }
    }
}

/// A slash at the end makes no other name.
pub proof fn law_name_ignores_slash(url: Seq<char>)
    ensures
        name_of(url.push('/')) == name_of(url),
{
    let longer = url.push('/');
    assert(longer.skip(longer.len() - 1) =~= seq!['/']);
    assert(longer.take(longer.len() - 1) =~= url);
    assert(ends_with(longer, seq!['/']));
}

/// The ending ".git" makes no other name, behind anything but a slash.
pub proof fn law_name_ignores_git_ending(url: Seq<char>)
    requires
        url.len() > 0 ==> url.last() != '/',
    ensures
        name_of(url + seq!['.', 'g', 'i', 't']) == name_of(url),
{
    let dot_git = seq!['.', 'g', 'i', 't'];
    let longer = url + dot_git;
    assert(longer.last() == 't');
    assert(!ends_with(longer, seq!['/'])) by {
        if ends_with(longer, seq!['/']) {
            assert(longer.skip(longer.len() - 1)[0] == longer.last());
        }
    }
    assert(!ends_with(url, seq!['/'])) by {
        if ends_with(url, seq!['/']) {
            assert(url.skip(url.len() - 1)[0] == url.last());
        }
    }
    assert(longer.skip(longer.len() - 4) =~= dot_git);
    assert(longer.take(longer.len() - 4) =~= url);
    assert(ends_with(longer, dot_git));
}

/// The name of a repository is what stands behind the last slash of its URL, or all
/// of it where there is none.
pub proof fn law_name_is_the_last_part(parent: Seq<char>, name: Seq<char>)
    requires
        name.len() > 0,
        !name.contains('/'),
        !ends_with(name, seq!['.', 'g', 'i', 't']),
    ensures
        name_of(parent.push('/') + name) == name,
        name_of(name) == name,
{
    let dot_git = seq!['.', 'g', 'i', 't'];
    let url = parent.push('/') + name;
    let n = parent.len() as int + 1;
    assert(name.last() == name[name.len() - 1]);
    assert(name.last() != '/') by {
        assert(name.contains(name.last()));
    }
    assert(url.last() == name.last());
    assert(!ends_with(url, seq!['/'])) by {
        if ends_with(url, seq!['/']) {
            assert(url.skip(url.len() - 1)[0] == url.last());
        }
    }
    assert(!ends_with(name, seq!['/'])) by {
        if ends_with(name, seq!['/']) {
            assert(name.skip(name.len() - 1)[0] == name.last());
        }
    }
    assert(!ends_with(url, dot_git)) by {
        if ends_with(url, dot_git) {
            let tail = url.skip(url.len() - 4);
            if name.len() >= 4 {
                assert(name.skip(name.len() - 4) =~= tail);
            } else {
                assert(tail[3 - name.len()] == '/');
            }
        }
    }
    assert forall|k: int| 0 <= k < name.len() implies #[trigger] name[k] != '/' by {
        assert(name.contains(name[k]));
    }
    lemma_after_last(name, '/', 0);
    assert forall|k: int| n <= k < url.len() implies #[trigger] url[k] != '/' by {
        assert(url[k] == name[k - n]);
    }
    lemma_after_last(url, '/', n);
    assert(url.skip(n) =~= name);
    assert(name.skip(0) =~= name);
}

/// The hash begins with the basis of FNV-1a, and each byte is mixed in before the
/// product with its prime, in 32 bits.
pub proof fn law_fnv1a(bytes: Seq<u8>, b: u8)
    ensures
        fnv1a(Seq::<u8>::empty()) == 0x811c9dc5,
        fnv1a(bytes.push(b)) as int == ((fnv1a(bytes) ^ (b as u32)) * 0x01000193) % 0x1_0000_0000,
{
    assert(bytes.push(b).drop_last() =~= bytes);
}

/// The directory of a clone is the repository's name, a dash and eight digits for
/// the hash of the whole URL.
pub proof fn law_directory_of_a_clone(url: Seq<char>)
    ensures
        clone_dir(url).len() == name_of(url).len() + 9,
        clone_dir(url).take(name_of(url).len() as int) == name_of(url),
        clone_dir(url)[name_of(url).len() as int] == '-',
        clone_dir(url).skip(name_of(url).len() as int + 1) == hex_digits(
            fnv1a(vstd::utf8::encode_utf8(url)) as int,
            8,
        ),
{
    let hash = fnv1a(vstd::utf8::encode_utf8(url)) as int;
    let n = name_of(url).len() as int;
    law_hex_digits(hash, 8);
    assert(clone_dir(url).take(n) =~= name_of(url));
    assert(clone_dir(url).skip(n + 1) =~= hex_digits(hash, 8));
}

/// A URL is one for the git program if and only if it begins with "http://" or
/// "https://".
pub proof fn law_http_urls(url: Seq<char>)
    ensures
        is_http(url) <==> exists|rest: Seq<char>|
            url == #[trigger] ("http://"@ + rest) || url == "https://"@ + rest,
{
    law_starts_with(url, "http://"@);
    law_starts_with(url, "https://"@);
    if exists|rest: Seq<char>| url == #[trigger] ("https://"@ + rest) {
        let rest = choose|rest: Seq<char>| url == #[trigger] ("https://"@ + rest);
        assert("http://"@ + rest == "http://"@ + rest);
    }
}

/// The way to a repository: a directory that opens as one is used; else a clone is
/// looked for; one that is there and holds something is used, one that is empty or
/// cannot be read is taken away; and where there is none, the repository is cloned,
/// over HTTP with the git program, and else with the library.
pub proof fn law_way_to_a_repository(url: Seq<char>, empty: Option<bool>)
    ensures
        step_at(url, RepoStage::Start) is LookLocal,
        step_at(url, RepoStage::Local(true)) is UseLocal,
        step_at(url, RepoStage::Local(false)) is LookForClone,
        step_at(url, RepoStage::Clone { exists: true, empty: Some(false) }) is UseClone,
        step_at(url, RepoStage::Clone { exists: true, empty: Some(true) }) is RemoveClone,
        step_at(url, RepoStage::Clone { exists: true, empty: None }) is RemoveClone,
        is_http(url) ==> step_at(url, RepoStage::Removed) is CloneWithGit && step_at(
            url,
            RepoStage::Clone { exists: false, empty },
        ) is CloneWithGit,
        !is_http(url) ==> step_at(url, RepoStage::Removed) is CloneWithLibrary && step_at(
            url,
            RepoStage::Clone { exists: false, empty },
        ) is CloneWithLibrary,
{
}

/// A path that ends with "/.git" has no name, and neither has an empty one.
pub proof fn law_no_name(parent: Seq<char>)
    ensures
        name_of(parent + seq!['/', '.', 'g', 'i', 't']).len() == 0,
        name_of(Seq::<char>::empty()).len() == 0,
{
    let dot_git = seq!['.', 'g', 'i', 't'];
    let url = parent + seq!['/', '.', 'g', 'i', 't'];
    let shorter = parent.push('/');
    assert(!ends_with(url, seq!['/'])) by {
        if ends_with(url, seq!['/']) {
            assert(url.skip(url.len() - 1)[0] == url.last());
        }
    }
    assert(url.skip(url.len() - 4) =~= dot_git);
    assert(url.take(url.len() - 4) =~= shorter);
    assert(!ends_with(shorter, dot_git)) by {
        if ends_with(shorter, dot_git) {
            assert(shorter.skip(shorter.len() - 4)[3] == shorter.last());
        }
    }
    assert(without_suffixes(url, dot_git) == without_suffixes(shorter, dot_git));
    assert(without_suffixes(shorter, dot_git) == shorter);
    lemma_after_last(shorter, '/', shorter.len() as int);
}

} // verus!
