//! What the functions that lead to a repository, and from its data to a reader, give
//! back: hosts, keys and credentials, clones, and the files that are served.
use vstd::prelude::*;

use crate::repo::{
    clone_dir_name, fnv1a_u32, is_http_url, law_directory_of_a_clone, law_fnv1a, law_http_urls,
    law_name_is_the_last_part, next_repo_step, repo_name, RepoStage, RepoStep,
};
use crate::serve::{
    data_file, data_file_name, law_content_types, law_data_file_names, law_log_levels,
    law_which_requests_are_answered, log_filter, serving_line,
};
use crate::ssh::{
    are_parts, config_text, discover_ssh_keys, host_matches, in_block, is_host, is_key_name,
    key_files, law_config_is_read_by_lines, law_empty_pattern, law_every_key_is_found,
    law_host_of_a_short_url, law_host_of_an_ssh_url, law_last_words, law_names_of_keys,
    law_no_host_elsewhere, law_one_byte_of_a_pattern, law_other_settings_change_nothing,
    law_star_stands_for_anything, law_what_a_setting_does, law_what_sets_nothing_does_nothing,
    same_but_for_case, sets_nothing, setting_line, spells, ssh_config_identity_files, ssh_glob,
    ssh_hostname, with_home, Allowed, Auth, AuthStep,
};
use crate::text::{
    decimal, ends_with, hex_digits, law_number_is_read_back, parse_i64, parse_usize, text_le,
    texts,
};

verus! {

/// The host of an SSH URL stands behind the user, where there is one, up to the path
/// or the port.
pub proof fn law_ssh_hostname(
    url: &str,
    r: Option<String>,
    user: Seq<char>,
    host: Seq<char>,
    rest: Seq<char>,
)
    requires
        call_ensures(ssh_hostname, (url,), r),
        is_host(host),
        !user.contains('@'),
        rest.len() > 0 ==> rest[0] == '/' || rest[0] == ':',
    ensures
        url@ == "ssh://"@ + user + seq!['@'] + host + rest ==> (r matches Some(h) && h@ == host),
        url@ == "ssh://"@ + host + rest && !host.contains('@') && !rest.contains('@') ==> (
        r matches Some(h) && h@ == host),
{
    law_host_of_an_ssh_url(user, host, rest);
}

/// The host of a short URL stands between the user and the colon.
pub proof fn law_ssh_hostname_of_a_short_url(
    url: &str,
    r: Option<String>,
    user: Seq<char>,
    host: Seq<char>,
    path: Seq<char>,
)
    requires
        call_ensures(ssh_hostname, (url,), r),
        !host.contains(':'),
        !user.contains('@'),
        forall|a: Seq<char>, b: Seq<char>|
            user + seq!['@'] + host + seq![':'] + path != #[trigger] (a + "://"@ + b),
        url@ == user + seq!['@'] + host + seq![':'] + path,
    ensures
        r matches Some(h) && h@ == host,
{
    law_host_of_a_short_url(user, host, path);
}

/// A URL of another kind, or a plain path, names no host for SSH.
pub proof fn law_no_ssh_hostname(url: &str, r: Option<String>)
    requires
        call_ensures(ssh_hostname, (url,), r),
        forall|rest: Seq<char>| url@ != #[trigger] ("ssh://"@ + rest),
        (exists|a: Seq<char>, b: Seq<char>| url@ == #[trigger] (a + "://"@ + b)) || !url@.contains(
            '@',
        ) || !url@.contains(':'),
    ensures
        r is None,
{
    law_no_host_elsewhere(url@);
}

/// A pattern of hosts is met byte by byte: a question mark by any byte, another one
/// by itself in upper or in lower case, and the empty one only by nothing.
pub proof fn law_ssh_glob(
    pat: &[u8],
    hay: &[u8],
    r: bool,
    first: u8,
    pat_rest: &[u8],
    hay_first: u8,
    hay_rest: &[u8],
    rest: bool,
)
    requires
        call_ensures(ssh_glob, (pat, hay), r),
        call_ensures(ssh_glob, (pat_rest, hay_rest), rest),
        first != '*' as u8,
    ensures
        pat@.len() == 0 ==> (r <==> hay@.len() == 0),
        pat@ == seq![first] + pat_rest@ && hay@.len() == 0 ==> !r,
        pat@ == seq![first] + pat_rest@ && hay@ == seq![hay_first] + hay_rest@ ==> (r <==> (first
            == '?' as u8 || same_but_for_case(first, hay_first)) && rest),
{
    law_empty_pattern(hay@);
    if pat@.len() == 0 {
        assert(pat@ =~= Seq::<u8>::empty());
    }
    law_one_byte_of_a_pattern(first, pat_rest@, hay@);
    if hay@ == seq![hay_first] + hay_rest@ {
        assert(hay@.skip(1) =~= hay_rest@);
    }
}

/// A star at the start of a pattern is met by anything, also by nothing.
pub proof fn law_ssh_glob_star(pat: &[u8], hay: &[u8], r: bool, pat_rest: Seq<u8>)
    requires
        call_ensures(ssh_glob, (pat, hay), r),
        pat@ == seq!['*' as u8] + pat_rest,
    ensures
        r <==> exists|i: int| 0 <= i <= hay@.len() && #[trigger] host_matches(pat_rest, hay@.skip(i)),
{
    assert(pat@[0] == 42);
    assert(pat@.skip(1) =~= pat_rest);
    law_star_stands_for_anything(pat@, hay@);
}

/// One more line of a configuration gives one more key where it is an `IdentityFile`
/// for a host that the last `Host` before it is for, and otherwise none.
pub proof fn law_one_more_setting(
    lines: Seq<Seq<char>>,
    a: Seq<char>,
    word: Seq<char>,
    b: Seq<char>,
    value: Seq<char>,
    c: Seq<char>,
    config: &str,
    more: &str,
    hostname: &str,
    home: &str,
    r: Vec<String>,
    r_more: Vec<String>,
)
    requires
        lines.len() > 0,
        are_parts(a, word, b, value, c),
        !setting_line(a, word, b, value, c).contains('\n'),
        forall|i: int| 0 <= i < lines.len() ==> !(#[trigger] lines[i]).contains('\n'),
        config@ == config_text(lines),
        more@ == config_text(lines.push(setting_line(a, word, b, value, c))),
        call_ensures(ssh_config_identity_files, (config, hostname, home), r),
        call_ensures(ssh_config_identity_files, (more, hostname, home), r_more),
    ensures
        texts(r_more@) == (if spells(
            word,
            seq!['i', 'd', 'e', 'n', 't', 'i', 't', 'y', 'f', 'i', 'l', 'e'],
        ) && in_block(lines, lines.len() as int, hostname@) {
            texts(r@).push(with_home(value, home@))
        } else {
            texts(r@)
        }),
{
    let line = setting_line(a, word, b, value, c);
    law_config_is_read_by_lines(lines, hostname@, home@);
    assert forall|i: int| 0 <= i < lines.push(line).len() implies !(#[trigger] lines.push(
        line,
    )[i]).contains('\n') by {
        if i < lines.len() {
            assert(lines.push(line)[i] == lines[i]);
        }
    }
    law_config_is_read_by_lines(lines.push(line), hostname@, home@);
    law_what_a_setting_does(lines, a, word, b, value, c, hostname@, home@);
}

/// A setting that is neither a `Host` nor an `IdentityFile`, as a `HostName` is not,
/// changes nothing, wherever it stands.
pub proof fn law_settings_that_do_not_count(
    before: Seq<Seq<char>>,
    a: Seq<char>,
    word: Seq<char>,
    b: Seq<char>,
    value: Seq<char>,
    c: Seq<char>,
    after: Seq<Seq<char>>,
    config: &str,
    more: &str,
    hostname: &str,
    home: &str,
    r: Vec<String>,
    r_more: Vec<String>,
)
    requires
        are_parts(a, word, b, value, c),
        !spells(word, seq!['h', 'o', 's', 't']),
        !spells(word, seq!['i', 'd', 'e', 'n', 't', 'i', 't', 'y', 'f', 'i', 'l', 'e']),
        !setting_line(a, word, b, value, c).contains('\n'),
        before.len() + after.len() > 0,
        forall|i: int| 0 <= i < before.len() ==> !(#[trigger] before[i]).contains('\n'),
        forall|i: int| 0 <= i < after.len() ==> !(#[trigger] after[i]).contains('\n'),
        config@ == config_text(before + after),
        more@ == config_text(before.push(setting_line(a, word, b, value, c)) + after),
        call_ensures(ssh_config_identity_files, (config, hostname, home), r),
        call_ensures(ssh_config_identity_files, (more, hostname, home), r_more),
    ensures
        texts(r_more@) == texts(r@),
{
    law_other_settings_change_nothing(before, a, word, b, value, c, after, hostname@, home@);
}

/// A line that sets nothing changes nothing.
pub proof fn law_lines_that_set_nothing(
    lines: Seq<Seq<char>>,
    line: Seq<char>,
    config: &str,
    more: &str,
    hostname: &str,
    home: &str,
    r: Vec<String>,
    r_more: Vec<String>,
)
    requires
        lines.len() > 0,
        sets_nothing(line),
        !line.contains('\n'),
        forall|i: int| 0 <= i < lines.len() ==> !(#[trigger] lines[i]).contains('\n'),
        config@ == config_text(lines),
        more@ == config_text(lines.push(line)),
        call_ensures(ssh_config_identity_files, (config, hostname, home), r),
        call_ensures(ssh_config_identity_files, (more, hostname, home), r_more),
    ensures
        texts(r_more@) == texts(r@),
{
    law_config_is_read_by_lines(lines, hostname@, home@);
    assert forall|i: int| 0 <= i < lines.push(line).len() implies !(#[trigger] lines.push(
        line,
    )[i]).contains('\n') by {
        if i < lines.len() {
            assert(lines.push(line)[i] == lines[i]);
        }
    }
    law_config_is_read_by_lines(lines.push(line), hostname@, home@);
    law_what_sets_nothing_does_nothing(lines, line, hostname@, home@);
}

/// The keys of a directory are the files whose names begin with "id_" and do not end
/// in ".pub", in order.
pub proof fn law_discover_ssh_keys(
    names: &Vec<String>,
    r: Vec<String>,
    i: int,
    j: int,
    name: Seq<char>,
)
    requires
        call_ensures(discover_ssh_keys, (names,), r),
        !name.contains('/'),
    ensures
        0 <= i < j < r@.len() ==> text_le(r@[i]@, r@[j]@),
        texts(r@).to_multiset() == texts(names@).filter(|s: Seq<char>| is_key_name(s)).to_multiset(),
        is_key_name(name) <==> name.len() >= 3 && name[0] == 'i' && name[1] == 'd' && name[2] == '_'
            && !(name[name.len() - 4] == '.' && name[name.len() - 3] == 'p' && name[name.len() - 2]
            == 'u' && name[name.len() - 1] == 'b'),
{
    law_every_key_is_found(texts(names@));
    assert(texts(names@).len() == names@.len());
    law_names_of_keys(name);
    if 0 <= i < j < r@.len() {
        assert(texts(r@)[i] == r@[i]@ && texts(r@)[j] == r@[j]@);
    }
}

/// A key that was asked for is the only one; otherwise those of the configuration
/// come before those that were found.
pub proof fn law_key_files<T>(explicit: Option<T>, configured: Vec<T>, found: Vec<T>, r: Vec<T>)
    requires
        call_ensures(key_files::<T>, (explicit, configured, found), r),
    ensures
        explicit matches Some(k) ==> r@.len() == 1 && r@[0] == k,
        explicit is None ==> r@ == configured@ + found@,
{
}

/// A search for credentials begins with nothing tried.
pub proof fn law_search_begins(remote_url: &str, explicit: bool, keys: usize, auth: Auth)
    requires
        call_ensures(Auth::new, (remote_url, explicit, keys), auth),
    ensures
        auth.is_https <==> exists|rest: Seq<char>|
            remote_url@ == #[trigger] ("http://"@ + rest) || remote_url@ == "https://"@ + rest,
        auth.explicit == explicit && auth.keys == keys,
        !auth.agent_tried && !auth.anonymous_tried && auth.next_key == 0,
{
    law_http_urls(remote_url@);
}

/// A server that takes keys is offered the agent first, unless a key was asked for,
/// and each key once, in order. One that takes others is offered the default
/// credentials, or once the user without a password. What was tried is remembered.
pub proof fn law_next_credential(auth: &mut Auth, allowed: Allowed, r: AuthStep)
    requires
        call_ensures(Auth::next, (auth, allowed), r),
        old(auth).next_key <= old(auth).keys,
    ensures
        r == AuthStep::Agent <==> allowed.ssh_key && !old(auth).explicit && !old(auth).agent_tried,
        r is Key <==> allowed.ssh_key && (old(auth).explicit || old(auth).agent_tried) && old(
            auth,
        ).next_key < old(auth).keys,
        r matches AuthStep::Key(k) ==> k == old(auth).next_key,
        r != AuthStep::Agent && !(r is Key) ==> r == (if allowed.default {
            AuthStep::Default
        } else if allowed.user_pass && !old(auth).anonymous_tried {
            AuthStep::Anonymous
        } else if allowed.user_pass {
            AuthStep::Refused
        } else {
            AuthStep::Exhausted
        }),
        final(auth).agent_tried <==> old(auth).agent_tried || r == AuthStep::Agent,
        final(auth).anonymous_tried <==> old(auth).anonymous_tried || r == AuthStep::Anonymous,
        final(auth).next_key == old(auth).next_key + (if r is Key {
            1int
        } else {
            0
        }),
        final(auth).is_https == old(auth).is_https && final(auth).explicit == old(auth).explicit
            && final(auth).keys == old(auth).keys,
{
}

/// What is said at the end tells a refused HTTP remote from others, and a key that
/// was asked for from those that were looked for.
pub proof fn law_message(auth: &Auth, refused: String, exhausted: String)
    requires
        call_ensures(Auth::message, (auth, true), refused),
        call_ensures(Auth::message, (auth, false), exhausted),
    ensures
        refused@ == "HTTPS authentication failed — use a credential helper or set GIT_ASKPASS"@,
        exhausted@ == "authentication exhausted — "@ + (if auth.is_https {
            refused@
        } else if auth.explicit {
            "check the key path and permissions"@
        } else {
            "use --key <path> to specify an SSH key, or load it into ssh-agent"@
        }),
{
    law_last_words(*auth);
}

/// A repository is called by the last part of its URL, and its clone is kept under
/// that name, with the hash of the URL behind it in eight digits.
pub proof fn law_names_of_a_repository(
    url: &str,
    name: String,
    dir: String,
    hash: u32,
    parent: Seq<char>,
    last: Seq<char>,
)
    requires
        call_ensures(repo_name, (url,), name),
        call_ensures(clone_dir_name, (url,), dir),
        call_ensures(fnv1a_u32, (url,), hash),
        last.len() > 0,
        !last.contains('/'),
        !ends_with(last, seq!['.', 'g', 'i', 't']),
    ensures
        url@ == parent.push('/') + last || url@ == last ==> name@ == last,
        dir@ == name@ + seq!['-'] + hex_digits(hash as int, 8),
{
    law_name_is_the_last_part(parent, last);
    law_directory_of_a_clone(url@);
    let n = name@.len() as int;
    assert(dir@ =~= dir@.take(n) + seq![dir@[n]] + dir@.skip(n + 1));
}

/// The hash of a text takes in one byte after the other.
pub proof fn law_fnv1a_u32(s: &str, hash: u32, more: &str, hash_more: u32, b: u8)
    requires
        call_ensures(fnv1a_u32, (s,), hash),
        call_ensures(fnv1a_u32, (more,), hash_more),
        vstd::utf8::encode_utf8(more@) == vstd::utf8::encode_utf8(s@).push(b),
    ensures
        s@.len() == 0 ==> hash == 0x811c9dc5,
        hash_more as int == ((hash ^ (b as u32)) * 0x01000193) % 0x1_0000_0000,
{
    law_fnv1a(vstd::utf8::encode_utf8(s@), b);
    if s@.len() == 0 {
        reveal_with_fuel(vstd::utf8::encode_utf8, 1);
        assert(vstd::utf8::encode_utf8(s@) =~= Seq::<u8>::empty());
    }
}

/// A URL that opens as a directory is used where it is; otherwise a clone that has
/// commits is used, an empty one is taken away, and a new one is made: with git for
/// an HTTP URL.
pub proof fn law_next_repo_step(url: &str, stage: RepoStage, r: RepoStep, http: bool)
    requires
        call_ensures(next_repo_step, (url, stage), r),
        call_ensures(is_http_url, (url,), http),
    ensures
        http <==> exists|rest: Seq<char>|
            url@ == #[trigger] ("http://"@ + rest) || url@ == "https://"@ + rest,
        stage is Start ==> r is LookLocal,
        stage == RepoStage::Local(true) ==> r is UseLocal,
        stage == RepoStage::Local(false) ==> r is LookForClone,
        stage matches RepoStage::Clone { exists, empty } ==> exists ==> (if empty == Some(false) {
            r is UseClone
        } else {
            r is RemoveClone
        }),
        stage is Removed || (stage matches RepoStage::Clone { exists, empty } && !exists) ==> (if http {
            r is CloneWithGit
        } else {
            r is CloneWithLibrary
        }),
{
    law_http_urls(url@);
}

/// A file is served where its name stays inside the directory, as what it is by its
/// ending.
pub proof fn law_data_file(file: &str, r: Option<String>)
    requires
        call_ensures(data_file, (file,), r),
    ensures
        r is Some <==> (forall|i: int| 0 <= i < file@.len() ==> #[trigger] file@[i] != '/') && !(
        exists|i: int| 0 <= i < file@.len() - 1 && #[trigger] file@[i] == '.' && file@[i + 1] == '.'),
        r matches Some(kind) ==> kind@ == (if exists|stem: Seq<char>|
            file@ == #[trigger] (stem + ".json"@) {
            "application/json"@
        } else {
            "application/octet-stream"@
        }),
{
    law_which_requests_are_answered(file@);
    law_content_types(file@);
}

/// The data of a repository are in a file of its name, the log has the level that was
/// asked for, and the line that tells where the server is ends with its port.
pub proof fn law_what_the_server_says(
    repo: &str,
    file: String,
    verbose: u8,
    filter: String,
    port: u16,
    line: String,
)
    requires
        call_ensures(data_file_name, (repo,), file),
        call_ensures(log_filter, (verbose,), filter),
        call_ensures(serving_line, (port,), line),
    ensures
        file@ == repo@ + seq!['.', 'm', 's', 'g', 'p', 'a', 'c', 'k'],
        filter@ == "strata="@ + (if verbose == 0 {
            "warn"@
        } else if verbose == 1 {
            "info"@
        } else if verbose == 2 {
            "debug"@
        } else {
            "trace"@
        }),
        line@ == "Serving at http://localhost:"@ + decimal(port as int),
{
    law_data_file_names(repo@);
    law_log_levels(verbose);
}

/// A number that is written in decimal is read as that number.
pub proof fn law_numbers_are_read(
    s: &str,
    n: i64,
    r: Option<i64>,
    size: usize,
    r_size: Option<usize>,
)
    requires
        call_ensures(parse_i64, (s,), r),
        call_ensures(parse_usize, (s,), r_size),
    ensures
        s@ == decimal(n as int) ==> r == Some(n),
        s@ == decimal(size as int) ==> r_size == Some(size),
{
    law_number_is_read_back(n as int, i64::MIN as int, i64::MAX as int);
    law_number_is_read_back(size as int, 0, usize::MAX as int);
}

} // verus!
