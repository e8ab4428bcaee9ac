//! Credentials for a remote: the host of a URL, the keys that the SSH
//! configuration names for it, and the order in which credentials are tried.

use crate::files::{find_extension, law_file_in_a_directory, path_extension};
use crate::repo::{is_http, is_http_url};
use crate::sort::{is_sorted, sort_texts};
use crate::text::{
    after_last, ascii_lower, char_is_white_space, chars_of, contains_part, find_char, has_char,
    has_part, has_prefix, is_blank, is_trimmed, is_white_space, law_ascii_lower, law_contains_part,
    law_split_at_first, law_starts_with, law_trim, lemma_after_last, lemma_after_last_bounds,
    lemma_position, lemma_position_bounds, lemma_word_len, position, same_chars, split_on,
    split_text, starts_with, string_of_range, texts, trim, trim_range, trim_text, word_len, words,
    words_of,
};
use vstd::prelude::*;

verus! {

/// `s` behind the first `x`; all of it where there is none.
pub open spec fn behind<T>(s: Seq<T>, x: T) -> Seq<T> {
    if position(s, x) < s.len() {
        s.skip(position(s, x) + 1)
    } else {
        s
    }
}

/// The host that an SSH URL names, in either of its two forms:
/// `ssh://user@host:port/path` and `user@host:path`.
pub open spec fn host_of(url: Seq<char>) -> Option<Seq<char>> {
    if starts_with(url, "ssh://"@) {
        let rest = behind(url.skip(6), '@');
        let slash = position(rest, '/');
        let colon = position(rest, ':');
        Some(rest.take(if slash < colon { slash } else { colon }))
    } else if url.contains('@') && url.contains(':') && !contains_part(url, "://"@) {
        let rest = behind(url, '@');
        Some(rest.take(position(rest, ':')))
    } else {
        None
    }
}

/// The host that an SSH URL names.
pub fn ssh_hostname(url: &str) -> (r: Option<String>)
    ensures
        match host_of(url@) {
            Some(host) => r matches Some(s) && s@ == host,
            None => r is None,
        },
{
    let chars = chars_of(url);
    let n = chars.len();
    if has_prefix(&chars, "ssh://") {
        proof {
            reveal_strlit("ssh://");
        }
        let at = find_char(&chars, 6, '@');
        let start = if at < n {
            at + 1
        } else {
            6
        };
        let ghost rest = chars@.skip(start as int);
        proof {
            if at < n {
                assert(chars@.skip(6).skip(at - 6 + 1) =~= chars@.skip(at + 1));
            }
        }
        assert(behind(url@.skip(6), '@') == rest);
        let slash = find_char(&chars, start, '/');
        let colon = find_char(&chars, start, ':');
        let end = if slash < colon {
            slash
        } else {
            colon
        };
        assert(chars@.subrange(start as int, end as int) =~= rest.take(end - start));
        Some(string_of_range(&chars, start, end))
    } else if has_char(&chars, '@') && has_char(&chars, ':') && !has_part(&chars, "://") {
        let at = find_char(&chars, 0, '@');
        proof {
            assert(chars@.skip(0) =~= chars@);
            lemma_position_bounds(chars@, '@');
            let k = choose|k: int| 0 <= k < chars@.len() && chars@[k] == '@';
            assert(chars@[k] == '@');
        }
        let ghost rest = chars@.skip(at + 1);
        let colon = find_char(&chars, at + 1, ':');
        assert(chars@.subrange(at + 1, colon as int) =~= rest.take(colon - at - 1));
        Some(string_of_range(&chars, at + 1, colon))
    } else {
        None
    }
}

/// The lower case of an ASCII letter, and anything else as it is.
pub open spec fn byte_lower(b: u8) -> u8 {
    if 65 <= b <= 90 {
        (b + 32) as u8
    } else {
        b
    }
}

/// Whether a host pattern matches: `*` stands for anything, `?` for any one
/// byte, and case does not count.
pub open spec fn host_matches(pat: Seq<u8>, hay: Seq<u8>) -> bool
    decreases pat.len() + hay.len(),
{
    if pat.len() == 0 {
        hay.len() == 0
    } else if pat[0] == 42 {
        host_matches(pat.skip(1), hay) || (hay.len() > 0 && host_matches(pat, hay.skip(1)))
    } else {
        &&& hay.len() > 0
        &&& pat[0] == 63 || byte_lower(pat[0]) == byte_lower(hay[0])
        &&& host_matches(pat.skip(1), hay.skip(1))
    }
}

fn lower(b: u8) -> (r: u8)
    ensures
        r == byte_lower(b),
{
    if 65 <= b && b <= 90 {
        b + 32
    } else {
        b
    }
}

fn glob_at(pat: &[u8], i: usize, hay: &[u8], j: usize) -> (r: bool)
    requires
        i <= pat@.len(),
        j <= hay@.len(),
    ensures
        r == host_matches(pat@.skip(i as int), hay@.skip(j as int)),
    decreases pat@.len() - i,
{
    let ghost p = pat@.skip(i as int);
    if i == pat.len() {
        return j == hay.len();
    }
    assert(p.skip(1) =~= pat@.skip(i + 1));
    if pat[i] == 42 {
        let mut k: usize = j;
        loop
            invariant
                i < pat.len(),
                j <= k <= hay@.len(),
                p == pat@.skip(i as int),
                p.skip(1) == pat@.skip(i + 1),
                p[0] == 42,
                host_matches(p, hay@.skip(j as int)) == host_matches(p, hay@.skip(k as int)),
            decreases hay@.len() - k,
        {
            if glob_at(pat, i + 1, hay, k) {
                return true;
            }
            if k == hay.len() {
                return false;
            }
            assert(hay@.skip(k as int).skip(1) =~= hay@.skip(k + 1));
            k += 1;
        }
    }
    if j == hay.len() {
        return false;
    }
    assert(hay@.skip(j as int).skip(1) =~= hay@.skip(j + 1));
    (pat[i] == 63 || lower(pat[i]) == lower(hay[j])) && glob_at(pat, i + 1, hay, j + 1)
}

/// Whether a host pattern matches.
pub fn ssh_glob(pat: &[u8], hay: &[u8]) -> (r: bool)
    ensures
        r == host_matches(pat@, hay@),
{
    assert(pat@.skip(0) =~= pat@);
    assert(hay@.skip(0) =~= hay@);
    glob_at(pat, 0, hay, 0)
}

/// A star stands for anything: for each number of bytes, from none to all.
pub proof fn law_star_stands_for_anything(pat: Seq<u8>, hay: Seq<u8>)
    requires
        pat.len() > 0,
        pat[0] == 42,
    ensures
        host_matches(pat, hay) <==> exists|i: int|
            0 <= i <= hay.len() && #[trigger] host_matches(pat.skip(1), hay.skip(i)),
    decreases hay.len(),
{
    let rest = pat.skip(1);
    assert(hay.skip(0) =~= hay);
    assert(host_matches(rest, hay.skip(0)) == host_matches(rest, hay));
    if hay.len() > 0 {
        law_star_stands_for_anything(pat, hay.skip(1));
        if host_matches(pat, hay.skip(1)) {
            let i = choose|i: int|
                0 <= i <= hay.skip(1).len() && #[trigger] host_matches(rest, hay.skip(1).skip(i));
            assert(hay.skip(1).skip(i) =~= hay.skip(i + 1));
            assert(host_matches(rest, hay.skip(i + 1)));
        }
        if exists|i: int| 0 <= i <= hay.len() && #[trigger] host_matches(rest, hay.skip(i)) {
            let i = choose|i: int| 0 <= i <= hay.len() && #[trigger] host_matches(rest, hay.skip(i));
            if i > 0 {
                assert(hay.skip(1).skip(i - 1) =~= hay.skip(i));
                assert(host_matches(rest, hay.skip(1).skip(i - 1)));
            }
        }
    } else {
        if exists|i: int| 0 <= i <= hay.len() && #[trigger] host_matches(rest, hay.skip(i)) {
            let i = choose|i: int| 0 <= i <= hay.len() && #[trigger] host_matches(rest, hay.skip(i));
            assert(hay.skip(i) =~= hay);
        }
    }
}

/// The bytes in lower case.
pub open spec fn lowered(s: Seq<u8>) -> Seq<u8> {
    s.map_values(|b: u8| byte_lower(b))
}

/// Case does not count, neither in the pattern nor in the host.
pub proof fn law_case_does_not_count(pat: Seq<u8>, hay: Seq<u8>)
    ensures
        host_matches(lowered(pat), lowered(hay)) == host_matches(pat, hay),
    decreases pat.len() + hay.len(),
{
    let p = lowered(pat);
    let h = lowered(hay);
    if pat.len() > 0 {
        assert(p.skip(1) =~= lowered(pat.skip(1)));
        if hay.len() > 0 {
            assert(h.skip(1) =~= lowered(hay.skip(1)));
        }
        if pat[0] == 42 {
            law_case_does_not_count(pat.skip(1), hay);
            if hay.len() > 0 {
                law_case_does_not_count(pat, hay.skip(1));
            }
        } else if hay.len() > 0 {
            law_case_does_not_count(pat.skip(1), hay.skip(1));
        }
    }
}

/// A pattern without wildcards matches its own name and no other, but for case.
pub proof fn law_plain_pattern_is_a_name(pat: Seq<u8>, hay: Seq<u8>)
    requires
        !pat.contains(42u8),
        !pat.contains(63u8),
    ensures
        host_matches(pat, hay) <==> lowered(pat) == lowered(hay),
    decreases pat.len(),
{
    if pat.len() == 0 {
        if lowered(pat) == lowered(hay) {
            assert(lowered(hay).len() == 0);
        } else {
            assert(hay.len() != 0) by {
                if hay.len() == 0 {
                    assert(lowered(pat) =~= lowered(hay));
                }
            }
        }
    } else {
        assert(pat.contains(pat[0]));
        let rest = pat.skip(1);
        assert forall|b: u8| rest.contains(b) implies pat.contains(b) by {
            let i = choose|i: int| 0 <= i < rest.len() && rest[i] == b;
            assert(pat[i + 1] == b);
        }
        if hay.len() > 0 {
            law_plain_pattern_is_a_name(rest, hay.skip(1));
            assert(lowered(pat).skip(1) =~= lowered(rest));
            assert(lowered(hay).skip(1) =~= lowered(hay.skip(1)));
            if byte_lower(pat[0]) == byte_lower(hay[0]) && lowered(rest) == lowered(hay.skip(1)) {
                assert(lowered(pat) =~= seq![byte_lower(pat[0])] + lowered(rest));
                assert(lowered(hay) =~= seq![byte_lower(hay[0])] + lowered(hay.skip(1)));
            }
            if lowered(pat) == lowered(hay) {
                assert(lowered(pat)[0] == lowered(hay)[0]);
            }
        } else {
            assert(lowered(pat).len() != lowered(hay).len());
        }
    }
}

/// A line of the configuration: the keyword, in lower case, and what it is set
/// to. Empty lines, comments and lines of one word say nothing.
pub open spec fn setting(line: Seq<char>) -> Option<(Seq<char>, Seq<char>)> {
    let t = trim(line);
    let n = word_len(t);
    if t.len() == 0 || t[0] == '#' || n >= t.len() {
        None
    } else {
        Some((t.take(n).map_values(|c: char| ascii_lower(c)), trim(t.skip(n + 1))))
    }
}

/// Whether one of the patterns matches the host.
pub open spec fn any_host(patterns: Seq<Seq<char>>, host: Seq<char>) -> bool {
    exists|i: int|
        0 <= i < patterns.len() && host_matches(
            vstd::utf8::encode_utf8(#[trigger] patterns[i]),
            vstd::utf8::encode_utf8(host),
        )
}

/// Whether the line behind the first `n` stands in a block for the host: the
/// last `Host` line before it has a pattern that matches.
pub open spec fn in_block(lines: Seq<Seq<char>>, n: int, host: Seq<char>) -> bool
    decreases n,
{
    if n <= 0 {
        false
    } else {
        match setting(lines[n - 1]) {
            Some((key, value)) => if key == "host"@ {
                any_host(words(value), host)
            } else {
                in_block(lines, n - 1, host)
            },
            None => in_block(lines, n - 1, host),
        }
    }
}

/// A path with the home directory in place of the first `~`.
pub open spec fn with_home(path: Seq<char>, home: Seq<char>) -> Seq<char> {
    let i = position(path, '~');
    if i < path.len() {
        path.take(i) + home + path.skip(i + 1)
    } else {
        path
    }
}

/// The key files that the first `n` lines name for a host.
pub open spec fn identities_in(
    lines: Seq<Seq<char>>,
    n: int,
    host: Seq<char>,
    home: Seq<char>,
) -> Seq<Seq<char>>
    decreases n,
{
    if n <= 0 {
        seq![]
    } else {
        let rest = identities_in(lines, n - 1, host, home);
        match setting(lines[n - 1]) {
            Some((key, value)) => if key == "identityfile"@ && in_block(lines, n - 1, host) {
                rest.push(with_home(value, home))
            } else {
                rest
            },
            None => rest,
        }
    }
}

/// The key files that a configuration names for a host.
pub open spec fn identity_files(config: Seq<char>, host: Seq<char>, home: Seq<char>) -> Seq<
    Seq<char>,
> {
    let lines = split_on(config, '\n');
    identities_in(lines, lines.len() as int, host, home)
}

/// The lower case of an ASCII letter.
fn lower_char(c: char) -> (r: char)
    ensures
        r == ascii_lower(c),
{
    if 'A' <= c && c <= 'Z' {
        ((c as u8) + 32) as char
    } else {
        c
    }
}

/// What a line of the configuration says.
fn read_setting(line: &str) -> (r: Option<(String, String)>)
    ensures
        match setting(line@) {
            Some((key, value)) => r matches Some(x) && x.0@ == key && x.1@ == value,
            None => r is None,
        },
{
    let text = trim_text(line);
    let chars = chars_of(text.as_str());
    let n = chars.len();
    if n == 0 || chars[0] == '#' {
        return None;
    }
    let ghost t = chars@;
    proof {
        lemma_word_len(t);
    }
    let mut key = String::new();
    let mut i: usize = 0;
    assert(key@ =~= t.take(0).map_values(|c: char| ascii_lower(c)));
    while i < n && !char_is_white_space(chars[i])
        invariant
            n == chars@.len(),
            t == chars@,
            i <= word_len(t) <= n,
            forall|k: int| 0 <= k < word_len(t) ==> !is_white_space(#[trigger] t[k]),
            word_len(t) < t.len() ==> is_white_space(t[word_len(t)]),
            key@ == t.take(i as int).map_values(|c: char| ascii_lower(c)),
        decreases n - i,
    {
        key.push(lower_char(chars[i]));
        assert(t.take(i + 1).map_values(|c: char| ascii_lower(c)) =~= t.take(i as int).map_values(
            |c: char| ascii_lower(c),
        ).push(ascii_lower(t[i as int])));
        i += 1;
    }
    assert(i == word_len(t));
    if i == n {
        return None;
    }
    let (from, to) = trim_range(&chars, i + 1, n);
    assert(chars@.subrange(i + 1, n as int) =~= t.skip(i + 1));
    Some((key, string_of_range(&chars, from, to)))
}

/// Whether one of the patterns matches the host.
fn matches_any(patterns: &Vec<String>, host: &str) -> (r: bool)
    ensures
        r == any_host(texts(patterns@), host@),
{
    let mut i: usize = 0;
    while i < patterns.len()
        invariant
            i <= patterns@.len(),
            forall|k: int|
                0 <= k < i ==> !host_matches(
                    vstd::utf8::encode_utf8(#[trigger] texts(patterns@)[k]),
                    vstd::utf8::encode_utf8(host@),
                ),
        decreases patterns@.len() - i,
    {
        assert(texts(patterns@)[i as int] == patterns@[i as int]@);
        if ssh_glob(patterns[i].as_str().as_bytes(), host.as_bytes()) {
            return true;
        }
        i += 1;
    }
    false
}

/// A path with the home directory in place of the first `~`.
fn put_home(path: &str, home: &str) -> (r: String)
    ensures
        r@ == with_home(path@, home@),
{
    let chars = chars_of(path);
    let n = chars.len();
    let i = find_char(&chars, 0, '~');
    assert(chars@.skip(0) =~= path@);
    if i == n {
        return path.to_owned();
    }
    let mut r = string_of_range(&chars, 0, i);
    r.append(home);
    r.append(string_of_range(&chars, i + 1, n).as_str());
    assert(chars@.subrange(0, i as int) =~= path@.take(i as int));
    assert(chars@.subrange(i + 1, n as int) =~= path@.skip(i + 1));
    r
}

/// The key files that the text of an SSH configuration names for a host: those
/// in blocks whose `Host` line has a pattern that matches.
pub fn ssh_config_identity_files(config: &str, hostname: &str, home: &str) -> (r: Vec<String>)
    ensures
        texts(r@) == identity_files(config@, hostname@, home@),
{
    let lines = split_text(config, '\n');
    let ghost views = split_on(config@, '\n');
    let mut r: Vec<String> = Vec::new();
    let mut in_match = false;
    let mut i: usize = 0;
    assert(texts(r@) =~= seq![]);
    while i < lines.len()
        invariant
            i <= lines@.len(),
            texts(lines@) == views,
            texts(r@) == identities_in(views, i as int, hostname@, home@),
            in_match == in_block(views, i as int, hostname@),
        decreases lines@.len() - i,
    {
        assert(texts(lines@)[i as int] == lines@[i as int]@);
        if let Some((key, value)) = read_setting(lines[i].as_str()) {
            let key_chars = chars_of(key.as_str());
            proof {
                reveal_strlit("host");
                reveal_strlit("identityfile");
                assert("host"@.len() != "identityfile"@.len());
            }
            if same_chars(&key_chars, &chars_of("host")) {
                in_match = matches_any(&words_of(value.as_str()), hostname);
            } else if in_match && same_chars(&key_chars, &chars_of("identityfile")) {
                let ghost before = r@;
                r.push(put_home(value.as_str(), home));
                assert(texts(r@) =~= texts(before).push(with_home(value@, home@)));
            }
        }
        i += 1;
    }
    assert(texts(lines@).len() == lines@.len());
    r
}

/// Whether a file name is that of a private key: `id_*`, but not `*.pub`.
pub open spec fn is_key_name(name: Seq<char>) -> bool {
    starts_with(name, "id_"@) && path_extension(name) != Some("pub"@)
}

/// The names that are those of private keys, among the first `n`.
pub open spec fn key_names(names: Seq<Seq<char>>, n: int) -> Seq<Seq<char>>
    decreases n,
{
    if n <= 0 {
        seq![]
    } else if is_key_name(names[n - 1]) {
        key_names(names, n - 1).push(names[n - 1])
    } else {
        key_names(names, n - 1)
    }
}

/// The private keys among the names of files in one directory, in order.
pub fn discover_ssh_keys(names: &Vec<String>) -> (r: Vec<String>)
    ensures
        is_sorted(texts(r@)),
        texts(r@).to_multiset() == key_names(texts(names@), names@.len() as int).to_multiset(),
{
    let mut keys: Vec<String> = Vec::new();
    let mut i: usize = 0;
    assert(texts(keys@) =~= seq![]);
    while i < names.len()
        invariant
            i <= names@.len(),
            texts(keys@) == key_names(texts(names@), i as int),
        decreases names@.len() - i,
    {
        let name = names[i].as_str();
        assert(texts(names@)[i as int] == name@);
        let public = match find_extension(name) {
            Some(e) => same_chars(&chars_of(e.as_str()), &chars_of("pub")),
            None => false,
        };
        if has_prefix(&chars_of(name), "id_") && !public {
            let ghost before = keys@;
            keys.push(names[i].clone());
            assert(texts(keys@) =~= texts(before).push(name@));
        }
        i += 1;
    }
    sort_texts(keys)
}

/// The key files to try, in order: the one that was asked for and no other, where
/// one was; else those that the configuration names for the host, and after them
/// those found in the directory.
pub fn key_files<T>(explicit: Option<T>, configured: Vec<T>, found: Vec<T>) -> (r: Vec<T>)
    ensures
        explicit matches Some(k) ==> r@ == seq![k],
        explicit is None ==> r@ == configured@ + found@,
{
    match explicit {
        Some(key) => {
            let mut r: Vec<T> = Vec::new();
            r.push(key);
            r
        },
        None => {
            let mut r = configured;
            let mut rest = found;
            r.append(&mut rest);
            r
        },
    }
}

/// The kinds of credentials that a server takes.
#[derive(Clone, Copy)]
pub struct Allowed {
    pub ssh_key: bool,
    pub default: bool,
    pub user_pass: bool,
}

/// What to try next.
#[derive(Clone, Copy, PartialEq, Eq, Structural, Debug)]
pub enum AuthStep {
    /// The SSH agent; if it has nothing, ask for the next step.
    Agent,
    /// The key at this place of the list; if it cannot be loaded, ask for the
    /// next step.
    Key(usize),
    /// The default credentials.
    Default,
    /// The user without a password.
    Anonymous,
    /// Nothing: the server refused what was tried over HTTPS.
    Refused,
    /// Nothing: all has been tried.
    Exhausted,
}

/// How far the search for credentials has come.
#[derive(Clone, Copy)]
pub struct Auth {
    /// The remote is an HTTP URL.
    pub is_https: bool,
    /// A key was asked for.
    pub explicit: bool,
    /// The number of keys to try.
    pub keys: usize,
    pub agent_tried: bool,
    pub next_key: usize,
    pub anonymous_tried: bool,
}

impl Auth {
    /// No more keys were tried than there are.
    pub open spec fn is_valid(&self) -> bool {
        self.next_key <= self.keys
    }

    /// What to try next.
    pub open spec fn step(&self, allowed: Allowed) -> AuthStep {
        if allowed.ssh_key && !self.explicit && !self.agent_tried {
            AuthStep::Agent
        } else if allowed.ssh_key && self.next_key < self.keys {
            AuthStep::Key(self.next_key)
        } else if allowed.default {
            AuthStep::Default
        } else if allowed.user_pass {
            if self.anonymous_tried {
                AuthStep::Refused
            } else {
                AuthStep::Anonymous
            }
        } else {
            AuthStep::Exhausted
        }
    }

    /// How far the search has come after a step.
    pub open spec fn after(&self, step: AuthStep) -> Auth {
        Auth {
            is_https: self.is_https,
            explicit: self.explicit,
            keys: self.keys,
            agent_tried: self.agent_tried || step is Agent,
            next_key: (self.next_key + (if step is Key {
                1int
            } else {
                0
            })) as usize,
            anonymous_tried: self.anonymous_tried || step is Anonymous,
        }
    }

    /// A search that has not begun.
    pub fn new(remote_url: &str, explicit: bool, keys: usize) -> (r: Auth)
        ensures
            r.is_valid(),
            r == (Auth {
                is_https: is_http(remote_url@),
                explicit,
                keys,
                agent_tried: false,
                next_key: 0,
                anonymous_tried: false,
            }),
    {
        Auth {
            is_https: is_http_url(remote_url),
            explicit,
            keys,
            agent_tried: false,
            next_key: 0,
            anonymous_tried: false,
        }
    }

    /// What to try next.
    pub fn next(&mut self, allowed: Allowed) -> (r: AuthStep)
        requires
            old(self).is_valid(),
        ensures
            r == old(self).step(allowed),
            *final(self) == old(self).after(r),
            final(self).is_valid(),
    {
        if allowed.ssh_key && !self.explicit && !self.agent_tried {
            self.agent_tried = true;
            AuthStep::Agent
        } else if allowed.ssh_key && self.next_key < self.keys {
            let place = self.next_key;
            self.next_key = place + 1;
            AuthStep::Key(place)
        } else if allowed.default {
            AuthStep::Default
        } else if allowed.user_pass {
            if self.anonymous_tried {
                AuthStep::Refused
            } else {
                self.anonymous_tried = true;
                AuthStep::Anonymous
            }
        } else {
            AuthStep::Exhausted
        }
    }

    /// What to say when nothing is left to try.
    pub open spec fn message_text(&self, refused: bool) -> Seq<char> {
        let https = "HTTPS authentication failed — use a credential helper or set GIT_ASKPASS"@;
        if refused {
            https
        } else {
            "authentication exhausted — "@ + (if self.is_https {
                https
            } else if self.explicit {
                "check the key path and permissions"@
            } else {
                "use --key <path> to specify an SSH key, or load it into ssh-agent"@
            })
        }
    }

    /// What to say when the server refused what was tried, or else when all has
    /// been tried.
    pub fn message(&self, refused: bool) -> (r: String)
        ensures
            r@ == self.message_text(refused),
    {
        if refused {
            return "HTTPS authentication failed — use a credential helper or set GIT_ASKPASS".to_owned();
        }
        let mut r = "authentication exhausted — ".to_owned();
        if self.is_https {
            r.append("HTTPS authentication failed — use a credential helper or set GIT_ASKPASS");
        } else if self.explicit {
            r.append("check the key path and permissions");
        } else {
            r.append("use --key <path> to specify an SSH key, or load it into ssh-agent");
        }
        r
    }

    /// How many credentials there still are to try, of those that are tried only
    /// once.
    pub open spec fn remaining(&self) -> int {
        (if self.explicit || self.agent_tried {
            0int
        } else {
            1
        }) + (self.keys - self.next_key) + (if self.anonymous_tried {
            0int
        } else {
            1
        })
    }
}

/// A run of the search: the states that it passes when asked time and again.
pub open spec fn auth_after(auth: Auth, asked: Seq<Allowed>) -> Auth
    decreases asked.len(),
{
    if asked.len() == 0 {
        auth
    } else {
        let before = auth_after(auth, asked.drop_last());
        before.after(before.step(asked.last()))
    }
}

/// The step that the question at `i` of a run is answered with.
pub open spec fn auth_step_at(auth: Auth, asked: Seq<Allowed>, i: int) -> AuthStep {
    auth_after(auth, asked.take(i)).step(asked[i])
}

proof fn lemma_auth_run(auth: Auth, asked: Seq<Allowed>, i: int, j: int)
    requires
        auth.is_valid(),
        0 <= i <= j <= asked.len(),
    ensures
        ({
            let a = auth_after(auth, asked.take(i));
            let b = auth_after(auth, asked.take(j));
            &&& a.is_valid()
            &&& b.is_valid()
            &&& a.keys == b.keys == auth.keys
            &&& a.explicit == auth.explicit
            &&& b.explicit == auth.explicit
            &&& a.agent_tried ==> b.agent_tried
            &&& a.next_key <= b.next_key
            &&& a.anonymous_tried ==> b.anonymous_tried
        }),
    decreases j,
{
    if j > 0 {
        assert(asked.take(j).drop_last() =~= asked.take(j - 1));
        if i < j {
            lemma_auth_run(auth, asked, i, j - 1);
        } else {
            lemma_auth_run(auth, asked, j - 1, j - 1);
        }
    }
}

/// The agent is tried at most once, and not at all where a key was asked for.
pub proof fn law_agent_at_most_once(auth: Auth, asked: Seq<Allowed>, i: int, j: int)
    requires
        auth.is_valid(),
        0 <= i < j < asked.len(),
    ensures
        auth.explicit ==> !(auth_step_at(auth, asked, i) is Agent),
        !(auth_step_at(auth, asked, i) is Agent && auth_step_at(auth, asked, j) is Agent),
{
    lemma_auth_run(auth, asked, i, i);
    lemma_auth_run(auth, asked, i + 1, j);
    assert(asked.take(i + 1).drop_last() =~= asked.take(i));
}

/// Each key is tried at most once, and the keys in their order.
pub proof fn law_keys_in_order(auth: Auth, asked: Seq<Allowed>, i: int, j: int)
    requires
        auth.is_valid(),
        0 <= i < j < asked.len(),
    ensures
        auth_step_at(auth, asked, i) matches AuthStep::Key(a) ==> a < auth.keys && (auth_step_at(
            auth,
            asked,
            j,
        ) matches AuthStep::Key(b) ==> a < b),
{
    lemma_auth_run(auth, asked, i, i);
    lemma_auth_run(auth, asked, i + 1, j);
    assert(asked.take(i + 1).drop_last() =~= asked.take(i));
}

/// No key is tried before the agent, unless a key was asked for.
pub proof fn law_agent_before_keys(auth: Auth, allowed: Allowed)
    requires
        auth.step(allowed) is Key,
    ensures
        auth.explicit || auth.agent_tried,
{
}

/// Nothing goes on for ever: every answer to try the agent, a key or the user
/// without a password leaves less to try.
pub proof fn law_search_comes_to_an_end(auth: Auth, allowed: Allowed)
    requires
        auth.is_valid(),
    ensures
        auth.remaining() >= 0,
        ({
            let step = auth.step(allowed);
            if step is Agent || step is Key || step is Anonymous {
                auth.after(step).remaining() < auth.remaining()
            } else {
                auth.after(step) == auth
            }
        }),
{
}

/// A server that takes SSH keys and nothing else.
pub open spec fn takes_keys_only(allowed: Allowed) -> bool {
    allowed.ssh_key && !allowed.default && !allowed.user_pass
}

proof fn lemma_after_key_questions(auth: Auth, asked: Seq<Allowed>)
    requires
        auth.is_valid(),
        !auth.agent_tried,
        auth.next_key == 0,
        forall|i: int| 0 <= i < asked.len() ==> takes_keys_only(#[trigger] asked[i]),
    ensures
        ({
            let first = if auth.explicit {
                0int
            } else {
                1
            };
            let after = auth_after(auth, asked);
            &&& after.explicit == auth.explicit
            &&& after.keys == auth.keys
            &&& after.agent_tried == (!auth.explicit && asked.len() > 0)
            &&& after.next_key == (if asked.len() <= first {
                0
            } else if asked.len() - first < auth.keys {
                asked.len() - first
            } else {
                auth.keys as int
            })
        }),
    decreases asked.len(),
{
    if asked.len() > 0 {
        let fewer = asked.drop_last();
        assert forall|i: int| 0 <= i < fewer.len() implies takes_keys_only(#[trigger] fewer[i]) by {
            assert(fewer[i] == asked[i]);
        }
        lemma_after_key_questions(auth, fewer);
        assert(takes_keys_only(asked[asked.len() - 1]));
    }
}

/// Asked time and again for an SSH key, the search answers with the agent once,
/// unless a key was asked for, then with each key file in order, and after that
/// with nothing.
pub proof fn law_order_of_credentials(auth: Auth, asked: Seq<Allowed>, i: int)
    requires
        auth.is_valid(),
        !auth.agent_tried,
        auth.next_key == 0,
        forall|k: int| 0 <= k < asked.len() ==> takes_keys_only(#[trigger] asked[k]),
        0 <= i < asked.len(),
    ensures
        auth_step_at(auth, asked, i) == ({
            let first = if auth.explicit {
                0int
            } else {
                1
            };
            if i < first {
                AuthStep::Agent
            } else if i - first < auth.keys {
                AuthStep::Key((i - first) as usize)
            } else {
                AuthStep::Exhausted
            }
        }),
{
    let before = asked.take(i);
    assert forall|k: int| 0 <= k < before.len() implies takes_keys_only(#[trigger] before[k]) by {
        assert(before[k] == asked[k]);
    }
    lemma_after_key_questions(auth, before);
    assert(takes_keys_only(asked[i]));
}

/// A pattern without anything matches nothing but an empty name.
pub proof fn law_empty_pattern(hay: Seq<u8>)
    ensures
        host_matches(Seq::<u8>::empty(), hay) <==> hay.len() == 0,
{
}

/// Whether two bytes are the same but for the case of an ASCII letter.
pub open spec fn same_but_for_case(a: u8, b: u8) -> bool {
    a == b || ('A' as u8 <= a <= 'Z' as u8 && b == a + 32) || ('A' as u8 <= b <= 'Z' as u8 && a == b
        + 32)
}

/// A question mark stands for any one byte, and any other byte but a star for
/// itself, in either case; the rest of the pattern is matched with the rest.
pub proof fn law_one_byte_of_a_pattern(first: u8, pat: Seq<u8>, hay: Seq<u8>)
    requires
        first != '*' as u8,
    ensures
        host_matches(seq![first] + pat, hay) <==> hay.len() > 0 && (first == '?' as u8
            || same_but_for_case(first, hay[0])) && host_matches(pat, hay.skip(1)),
{
    let whole = seq![first] + pat;
    assert(whole.skip(1) =~= pat);
    assert(whole[0] == first);
}

/// One more pattern matches what it matches itself, and no pattern matches nothing.
pub proof fn law_any_pattern_will_do(patterns: Seq<Seq<char>>, p: Seq<char>, host: Seq<char>)
    ensures
        !any_host(Seq::<Seq<char>>::empty(), host),
        any_host(patterns.push(p), host) <==> any_host(patterns, host) || host_matches(
            vstd::utf8::encode_utf8(p),
            vstd::utf8::encode_utf8(host),
        ),
{
    let more = patterns.push(p);
    if any_host(patterns, host) {
        let i = choose|i: int|
            0 <= i < patterns.len() && host_matches(
                vstd::utf8::encode_utf8(#[trigger] patterns[i]),
                vstd::utf8::encode_utf8(host),
            );
        assert(more[i] == patterns[i]);
    }
    if any_host(more, host) {
        let i = choose|i: int|
            0 <= i < more.len() && host_matches(
                vstd::utf8::encode_utf8(#[trigger] more[i]),
                vstd::utf8::encode_utf8(host),
            );
        if i < patterns.len() {
            assert(more[i] == patterns[i]);
        }
    }
    assert(more[patterns.len() as int] == p);
}

/// The home directory takes the place of the first tilde of a path; a path without
/// one is kept.
pub proof fn law_home_for_tilde(a: Seq<char>, b: Seq<char>, home: Seq<char>)
    requires
        !a.contains('~'),
    ensures
        with_home(a, home) == a,
        with_home(a.push('~') + b, home) == a + home + b,
{
    let path = a.push('~') + b;
    let n = a.len() as int;
    assert forall|k: int| 0 <= k < n implies #[trigger] a[k] != '~' by {
        assert(a.contains(a[k]));
    }
    lemma_position(a, '~', n);
    assert forall|k: int| 0 <= k < n implies #[trigger] path[k] != '~' by {
        assert(path[k] == a[k]);
    }
    lemma_position(path, '~', n);
    assert(path.take(n) =~= a);
    assert(path.skip(n + 1) =~= b);
}

/// A line of the configuration as it may be written: white space, a keyword, white
/// space, a value and white space.
pub open spec fn setting_line(
    a: Seq<char>,
    word: Seq<char>,
    b: Seq<char>,
    value: Seq<char>,
    c: Seq<char>,
) -> Seq<char> {
    a + word + b + value + c
}

/// Whether the parts of a line are what they are called: the keyword is no comment,
/// white space stands behind it, and the value has none at its ends.
pub open spec fn are_parts(
    a: Seq<char>,
    word: Seq<char>,
    b: Seq<char>,
    value: Seq<char>,
    c: Seq<char>,
) -> bool {
    &&& is_blank(a)
    &&& is_blank(b)
    &&& is_blank(c)
    &&& b.len() > 0
    &&& word.len() > 0
    &&& word[0] != '#'
    &&& forall|i: int| 0 <= i < word.len() ==> !is_white_space(#[trigger] word[i])
    &&& value.len() > 0
    &&& is_trimmed(value)
}

/// Whether a keyword is the given one, in letters of either case.
pub open spec fn spells(word: Seq<char>, keyword: Seq<char>) -> bool {
    word.len() == keyword.len() && forall|i: int|
        0 <= i < word.len() ==> #[trigger] word[i] == keyword[i] || ('A' <= word[i] <= 'Z'
            && keyword[i] as int == word[i] as int + 32)
}

proof fn lemma_setting(
    a: Seq<char>,
    word: Seq<char>,
    b: Seq<char>,
    value: Seq<char>,
    c: Seq<char>,
)
    requires
        are_parts(a, word, b, value, c),
    ensures
        setting(setting_line(a, word, b, value, c)) == Some(
            (word.map_values(|c: char| ascii_lower(c)), value),
        ),
{
    let line = setting_line(a, word, b, value, c);
    let t = word + b + value;
    assert(line =~= a + t + c);
    assert(t[0] == word[0]);
    assert(t.last() == value.last());
    assert(!is_white_space(word[0]));
    law_trim(a, t, c);
    lemma_word_len(t);
    let n = word_len(t);
    assert(n == word.len()) by {
        if n < word.len() {
            assert(t[n] == word[n]);
        } else if n > word.len() {
            assert(t[word.len() as int] == b[0]);
        }
    }
    assert(t.take(n) =~= word);
    let rest = b.skip(1);
    assert forall|i: int| 0 <= i < rest.len() implies is_white_space(#[trigger] rest[i]) by {
        assert(rest[i] == b[i + 1]);
    }
    assert(t.skip(n + 1) =~= rest + value + seq![]);
    law_trim(rest, value, seq![]);
}

proof fn lemma_spells(word: Seq<char>, keyword: Seq<char>)
    requires
        forall|i: int| 0 <= i < keyword.len() ==> 'a' <= #[trigger] keyword[i] <= 'z',
    ensures
        spells(word, keyword) <==> word.map_values(|c: char| ascii_lower(c)) == keyword,
{
    let low = word.map_values(|c: char| ascii_lower(c));
    if spells(word, keyword) {
        assert forall|i: int| 0 <= i < word.len() implies low[i] == keyword[i] by {
            assert(word[i] == keyword[i] || ('A' <= word[i] <= 'Z' && keyword[i] as int
                == word[i] as int + 32));
            law_ascii_lower(word[i]);
            assert('a' <= keyword[i] <= 'z');
        }
        assert(low =~= keyword);
    }
    if low == keyword {
        assert(low.len() == word.len());
        assert forall|i: int| 0 <= i < word.len() implies #[trigger] word[i] == keyword[i] || ('A'
            <= word[i] <= 'Z' && keyword[i] as int == word[i] as int + 32) by {
            law_ascii_lower(word[i]);
            assert(low[i] == keyword[i]);
        }
    }
}

/// What was read of the first lines does not depend on those that follow.
proof fn lemma_only_lines_before(
    lines: Seq<Seq<char>>,
    more: Seq<Seq<char>>,
    n: int,
    host: Seq<char>,
    home: Seq<char>,
)
    requires
        0 <= n <= lines.len(),
    ensures
        in_block(lines + more, n, host) == in_block(lines, n, host),
        identities_in(lines + more, n, host, home) == identities_in(lines, n, host, home),
    decreases n,
{
    if n > 0 {
        lemma_only_lines_before(lines, more, n - 1, host, home);
        assert((lines + more)[n - 1] == lines[n - 1]);
    }
}

/// What one more line does: a line that sets `Host`, in letters of either case,
/// begins a block for the hosts that one of its patterns matches. A line that sets
/// `IdentityFile` names a key file, if it stands in a block for the host. No other
/// keyword does anything, neither one that starts with these nor one that ends with
/// them.
pub proof fn law_what_a_setting_does(
    lines: Seq<Seq<char>>,
    a: Seq<char>,
    word: Seq<char>,
    b: Seq<char>,
    value: Seq<char>,
    c: Seq<char>,
    host: Seq<char>,
    home: Seq<char>,
)
    requires
        are_parts(a, word, b, value, c),
    ensures
        ({
            let n = lines.len() as int;
            let more = lines.push(setting_line(a, word, b, value, c));
            &&& in_block(more, n + 1, host) == (if spells(word, seq!['h', 'o', 's', 't']) {
                any_host(words(value), host)
            } else {
                in_block(lines, n, host)
            })
            &&& identities_in(more, n + 1, host, home) == (if spells(
                word,
                seq!['i', 'd', 'e', 'n', 't', 'i', 't', 'y', 'f', 'i', 'l', 'e'],
            ) && in_block(lines, n, host) {
                identities_in(lines, n, host, home).push(with_home(value, home))
            } else {
                identities_in(lines, n, host, home)
            })
        }),
{
    reveal_strlit("host");
    reveal_strlit("identityfile");
    let n = lines.len() as int;
    let line = setting_line(a, word, b, value, c);
    let more = lines.push(line);
    assert(more =~= lines + seq![line]);
    lemma_only_lines_before(lines, seq![line], n, host, home);
    lemma_setting(a, word, b, value, c);
    lemma_spells(word, seq!['h', 'o', 's', 't']);
    lemma_spells(word, seq!['i', 'd', 'e', 'n', 't', 'i', 't', 'y', 'f', 'i', 'l', 'e']);
    assert("host"@ =~= seq!['h', 'o', 's', 't']);
    assert("identityfile"@ =~= seq!['i', 'd', 'e', 'n', 't', 'i', 't', 'y', 'f', 'i', 'l', 'e']);
    assert(more[n] == line);
}

/// Whether a line sets nothing: it is blank, a comment, or a single word.
pub open spec fn sets_nothing(line: Seq<char>) -> bool {
    exists|a: Seq<char>, s: Seq<char>, c: Seq<char>| #[trigger]
        (a + s + c) == line && is_blank(a) && is_blank(c) && is_trimmed(s) && (s.len() == 0 || s[0]
            == '#' || forall|i: int| 0 <= i < s.len() ==> !is_white_space(#[trigger] s[i]))
}

/// A line that sets nothing does nothing. Before the first line there is no block
/// and no key file.
pub proof fn law_what_sets_nothing_does_nothing(
    lines: Seq<Seq<char>>,
    line: Seq<char>,
    host: Seq<char>,
    home: Seq<char>,
)
    requires
        sets_nothing(line),
    ensures
        ({
            let n = lines.len() as int;
            &&& in_block(lines.push(line), n + 1, host) == in_block(lines, n, host)
            &&& identities_in(lines.push(line), n + 1, host, home) == identities_in(
                lines,
                n,
                host,
                home,
            )
        }),
        !in_block(lines, 0, host),
        identities_in(lines, 0, host, home) == Seq::<Seq<char>>::empty(),
{
    let n = lines.len() as int;
    let (a, s, c) = choose|a: Seq<char>, s: Seq<char>, c: Seq<char>| #[trigger]
        (a + s + c) == line && is_blank(a) && is_blank(c) && is_trimmed(s) && (s.len() == 0 || s[0]
            == '#' || forall|i: int| 0 <= i < s.len() ==> !is_white_space(#[trigger] s[i]));
    law_trim(a, s, c);
    lemma_word_len(s);
    assert(setting(line) is None);
    assert(lines.push(line) =~= lines + seq![line]);
    lemma_only_lines_before(lines, seq![line], n, host, home);
    assert(lines.push(line)[n] == line);
}

/// The text of a configuration: its lines with line breaks between them.
pub open spec fn config_text(lines: Seq<Seq<char>>) -> Seq<char>
    decreases lines.len(),
{
    if lines.len() == 0 {
        seq![]
    } else if lines.len() == 1 {
        lines[0]
    } else {
        lines[0].push('\n') + config_text(lines.drop_first())
    }
}

/// The key files are those that the lines of the text name, from first to last.
pub proof fn law_config_is_read_by_lines(
    lines: Seq<Seq<char>>,
    host: Seq<char>,
    home: Seq<char>,
)
    requires
        lines.len() > 0,
        forall|i: int| 0 <= i < lines.len() ==> !(#[trigger] lines[i]).contains('\n'),
    ensures
        identity_files(config_text(lines), host, home) == identities_in(
            lines,
            lines.len() as int,
            host,
            home,
        ),
{
    lemma_config_lines(lines);
}

proof fn lemma_config_lines(lines: Seq<Seq<char>>)
    requires
        lines.len() > 0,
        forall|i: int| 0 <= i < lines.len() ==> !(#[trigger] lines[i]).contains('\n'),
    ensures
        split_on(config_text(lines), '\n') == lines,
    decreases lines.len(),
{
    assert(!lines[0].contains('\n'));
    if lines.len() == 1 {
        law_split_at_first(lines[0], seq![], '\n');
        assert(seq![lines[0]] =~= lines);
    } else {
        let rest = lines.drop_first();
        assert forall|i: int| 0 <= i < rest.len() implies !(#[trigger] rest[i]).contains('\n') by {
            assert(rest[i] == lines[i + 1]);
        }
        lemma_config_lines(rest);
        law_split_at_first(lines[0], config_text(rest), '\n');
        assert(seq![lines[0]] + rest =~= lines);
    }
}

/// A line whose keyword is neither `Host` nor `IdentityFile`, in letters of either
/// case, can be taken out of a configuration: the key files of every host stay the
/// same.
pub proof fn law_other_settings_change_nothing(
    before: Seq<Seq<char>>,
    a: Seq<char>,
    word: Seq<char>,
    b: Seq<char>,
    value: Seq<char>,
    c: Seq<char>,
    after: Seq<Seq<char>>,
    host: Seq<char>,
    home: Seq<char>,
)
    requires
        are_parts(a, word, b, value, c),
        !spells(word, seq!['h', 'o', 's', 't']),
        !spells(word, seq!['i', 'd', 'e', 'n', 't', 'i', 't', 'y', 'f', 'i', 'l', 'e']),
        !setting_line(a, word, b, value, c).contains('\n'),
        before.len() + after.len() > 0,
        forall|i: int| 0 <= i < before.len() ==> !(#[trigger] before[i]).contains('\n'),
        forall|i: int| 0 <= i < after.len() ==> !(#[trigger] after[i]).contains('\n'),
    ensures
        identity_files(
            config_text(before.push(setting_line(a, word, b, value, c)) + after),
            host,
            home,
        ) == identity_files(config_text(before + after), host, home),
{
    let line = setting_line(a, word, b, value, c);
    let some = before + after;
    let all = before.push(line) + after;
    assert forall|i: int| 0 <= i < some.len() implies !(#[trigger] some[i]).contains('\n') by {
        if i < before.len() {
            assert(some[i] == before[i]);
        } else {
            assert(some[i] == after[i - before.len()]);
        }
    }
    assert forall|i: int| 0 <= i < all.len() implies !(#[trigger] all[i]).contains('\n') by {
        if i < before.len() {
            assert(all[i] == before[i]);
        } else if i > before.len() {
            assert(all[i] == after[i - before.len() - 1]);
        } else {
            assert(all[i] == line);
        }
    }
    law_config_is_read_by_lines(some, host, home);
    law_config_is_read_by_lines(all, host, home);
    law_what_a_setting_does(before, a, word, b, value, c, host, home);
    lemma_only_lines_before(before.push(line), after, before.len() as int + 1, host, home);
    lemma_only_lines_before(before, after, before.len() as int, host, home);
    lemma_read_on(before.push(line), before, after, after.len() as int, host, home);
}

/// What is read on from two places that are alike is read alike.
proof fn lemma_read_on(
    x: Seq<Seq<char>>,
    y: Seq<Seq<char>>,
    after: Seq<Seq<char>>,
    n: int,
    host: Seq<char>,
    home: Seq<char>,
)
    requires
        0 <= n <= after.len(),
        in_block(x + after, x.len() as int, host) == in_block(y + after, y.len() as int, host),
        identities_in(x + after, x.len() as int, host, home) == identities_in(
            y + after,
            y.len() as int,
            host,
            home,
        ),
    ensures
        in_block(x + after, x.len() + n, host) == in_block(y + after, y.len() + n, host),
        identities_in(x + after, x.len() + n, host, home) == identities_in(
            y + after,
            y.len() + n,
            host,
            home,
        ),
    decreases n,
{
    if n > 0 {
        lemma_read_on(x, y, after, n - 1, host, home);
        assert((x + after)[x.len() + n - 1] == after[n - 1]);
        assert((y + after)[y.len() + n - 1] == after[n - 1]);
    }
}

/// A key file that is named anywhere in a block for the host is among those of the
/// host, whatever else stands in the block.
pub proof fn law_key_of_a_block_is_found(
    before: Seq<Seq<char>>,
    host_line: Seq<char>,
    between: Seq<Seq<char>>,
    a: Seq<char>,
    word: Seq<char>,
    b: Seq<char>,
    value: Seq<char>,
    c: Seq<char>,
    host: Seq<char>,
    home: Seq<char>,
)
    requires
        are_parts(a, word, b, value, c),
        spells(word, seq!['i', 'd', 'e', 'n', 't', 'i', 't', 'y', 'f', 'i', 'l', 'e']),
        in_block(before.push(host_line), before.len() as int + 1, host),
        forall|i: int|
            0 <= i < between.len() ==> sets_nothing(#[trigger] between[i]) || is_other_setting(
                between[i],
            ),
    ensures
        ({
            let lines = before.push(host_line) + between;
            identities_in(
                lines.push(setting_line(a, word, b, value, c)),
                lines.len() as int + 1,
                host,
                home,
            ) == identities_in(lines, lines.len() as int, host, home).push(with_home(value, home))
        }),
{
    let start = before.push(host_line);
    lemma_block_goes_on(start, between, host, home);
    law_what_a_setting_does(start + between, a, word, b, value, c, host, home);
}

/// Whether a line sets something other than `Host`.
pub open spec fn is_other_setting(line: Seq<char>) -> bool {
    exists|a: Seq<char>, word: Seq<char>, b: Seq<char>, value: Seq<char>, c: Seq<char>|
        line == #[trigger] setting_line(a, word, b, value, c) && are_parts(a, word, b, value, c)
            && !spells(word, seq!['h', 'o', 's', 't'])
}

proof fn lemma_block_goes_on(
    start: Seq<Seq<char>>,
    between: Seq<Seq<char>>,
    host: Seq<char>,
    home: Seq<char>,
)
    requires
        in_block(start, start.len() as int, host),
        forall|i: int|
            0 <= i < between.len() ==> sets_nothing(#[trigger] between[i]) || is_other_setting(
                between[i],
            ),
    ensures
        in_block(start + between, (start + between).len() as int, host),
    decreases between.len(),
{
    if between.len() == 0 {
        assert(start + between =~= start);
    } else {
        let fewer = between.drop_last();
        let line = between.last();
        assert forall|i: int| 0 <= i < fewer.len() implies sets_nothing(#[trigger] fewer[i])
            || is_other_setting(fewer[i]) by {
            assert(fewer[i] == between[i]);
        }
        lemma_block_goes_on(start, fewer, host, home);
        assert(between[between.len() - 1] == line);
        assert(start + between =~= (start + fewer).push(line));
        if sets_nothing(line) {
            law_what_sets_nothing_does_nothing(start + fewer, line, host, home);
        } else {
            let (a, word, b, value, c) = choose|
                a: Seq<char>,
                word: Seq<char>,
                b: Seq<char>,
                value: Seq<char>,
                c: Seq<char>,
            |
                line == #[trigger] setting_line(a, word, b, value, c) && are_parts(
                    a,
                    word,
                    b,
                    value,
                    c,
                ) && !spells(word, seq!['h', 'o', 's', 't']);
            law_what_a_setting_does(start + fewer, a, word, b, value, c, host, home);
        }
    }
}

/// Whether a text can be a host: none of the characters that end one.
pub open spec fn is_host(host: Seq<char>) -> bool {
    !host.contains('/') && !host.contains(':')
}

proof fn lemma_first_place<T>(a: Seq<T>, x: T, b: Seq<T>)
    requires
        !a.contains(x),
        b.len() > 0 ==> b[0] == x,
    ensures
        position(a + b, x) == a.len(),
{
    let s = a + b;
    assert forall|k: int| 0 <= k < a.len() implies #[trigger] s[k] != x by {
        assert(s[k] == a[k]);
        assert(a.contains(a[k]));
    }
    lemma_position(s, x, a.len() as int);
}

/// The host of `ssh://user@host`, with a port or a path behind it or without, is
/// read from it, and so is that of `ssh://host`.
pub proof fn law_host_of_an_ssh_url(user: Seq<char>, host: Seq<char>, rest: Seq<char>)
    requires
        is_host(host),
        !user.contains('@'),
        rest.len() > 0 ==> rest[0] == '/' || rest[0] == ':',
    ensures
        host_of("ssh://"@ + user + seq!['@'] + host + rest) == Some(host),
        !host.contains('@') && !rest.contains('@') ==> host_of("ssh://"@ + host + rest) == Some(
            host,
        ),
{
    reveal_strlit("ssh://");
    let start = "ssh://"@;
    let tail = host + rest;
    lemma_host_part(host, rest);
    let one = start + user + seq!['@'] + host + rest;
    law_starts_with(one, start);
    assert(one =~= start + (user + seq!['@'] + tail));
    assert(one.skip(6) =~= user + (seq!['@'] + tail));
    lemma_first_place(user, '@', seq!['@'] + tail);
    assert(one.skip(6).skip(user.len() as int + 1) =~= tail);
    if !host.contains('@') && !rest.contains('@') {
        let two = start + host + rest;
        law_starts_with(two, start);
        assert(two =~= start + tail);
        assert(two.skip(6) =~= tail);
        assert(!tail.contains('@')) by {
            if tail.contains('@') {
                let k = choose|k: int| 0 <= k < tail.len() && tail[k] == '@';
                if k < host.len() {
                    assert(host[k] == '@');
                } else {
                    assert(rest[k - host.len()] == '@');
                }
            }
        }
        lemma_first_place(tail, '@', seq![]);
        assert(tail + seq![] =~= tail);
    }
}

proof fn lemma_host_part(host: Seq<char>, rest: Seq<char>)
    requires
        is_host(host),
        rest.len() > 0 ==> rest[0] == '/' || rest[0] == ':',
    ensures
        ({
            let tail = host + rest;
            let slash = position(tail, '/');
            let colon = position(tail, ':');
            tail.take(
                if slash < colon {
                    slash
                } else {
                    colon
                },
            ) == host
        }),
{
    let tail = host + rest;
    let n = host.len() as int;
    assert forall|k: int| 0 <= k < n implies #[trigger] tail[k] != '/' && tail[k] != ':' by {
        assert(tail[k] == host[k]);
        assert(host.contains(host[k]));
    }
    lemma_position_bounds(tail, '/');
    lemma_position_bounds(tail, ':');
    let slash = position(tail, '/');
    let colon = position(tail, ':');
    if slash < n {
        assert(tail[slash] != '/');
    }
    if colon < n {
        assert(tail[colon] != ':');
    }
    if rest.len() > 0 {
        assert(tail[n] == rest[0]);
        if rest[0] == '/' {
            lemma_first_place(host, '/', rest);
        } else {
            lemma_first_place(host, ':', rest);
        }
    }
    assert(tail.take(n) =~= host);
}

/// The host of `user@host:path` is read from it, unless "://" stands in it. It goes
/// up to the first colon behind the `@`, or to the end.
pub proof fn law_host_of_a_short_url(user: Seq<char>, host: Seq<char>, path: Seq<char>)
    requires
        !host.contains(':'),
        !user.contains('@'),
        forall|a: Seq<char>, b: Seq<char>|
            user + seq!['@'] + host + seq![':'] + path != #[trigger] (a + "://"@ + b),
    ensures
        host_of(user + seq!['@'] + host + seq![':'] + path) == Some(host),
        user.contains(':') ==> host_of(user + seq!['@'] + host) == Some(host),
{
    reveal_strlit("ssh://");
    reveal_strlit("://");
    if user.contains(':') {
        lemma_short_url_without_path(user, host, path);
    }
    let url = user + seq!['@'] + host + seq![':'] + path;
    law_contains_part(url, "://"@);
    law_starts_with(url, "ssh://"@);
    if starts_with(url, "ssh://"@) {
        let rest = choose|rest: Seq<char>| url == #[trigger] ("ssh://"@ + rest);
        assert(url =~= seq!['s', 's', 'h'] + "://"@ + rest);
    }
    let tail = host + (seq![':'] + path);
    assert(url =~= user + (seq!['@'] + tail));
    lemma_first_place(user, '@', seq!['@'] + tail);
    assert(url.skip(user.len() as int + 1) =~= tail);
    lemma_first_place(host, ':', seq![':'] + path);
    assert(tail.take(host.len() as int) =~= host);
    assert(url[user.len() as int] == '@');
    assert(url[user.len() as int + 1 + host.len()] == ':');
}

proof fn lemma_short_url_without_path(user: Seq<char>, host: Seq<char>, path: Seq<char>)
    requires
        !host.contains(':'),
        !user.contains('@'),
        user.contains(':'),
        forall|a: Seq<char>, b: Seq<char>|
            user + seq!['@'] + host + seq![':'] + path != #[trigger] (a + "://"@ + b),
    ensures
        host_of(user + seq!['@'] + host) == Some(host),
{
    reveal_strlit("ssh://");
    reveal_strlit("://");
    let url = user + seq!['@'] + host;
    let longer = url + seq![':'] + path;
    law_contains_part(url, "://"@);
    law_starts_with(url, "ssh://"@);
    if contains_part(url, "://"@) {
        let (a, b) = choose|a: Seq<char>, b: Seq<char>| url == #[trigger] (a + "://"@ + b);
        assert(longer =~= a + "://"@ + (b + seq![':'] + path));
    }
    if starts_with(url, "ssh://"@) {
        let rest = choose|rest: Seq<char>| url == #[trigger] ("ssh://"@ + rest);
        assert(url =~= seq!['s', 's', 'h'] + "://"@ + rest);
    }
    assert(url =~= user + (seq!['@'] + host));
    lemma_first_place(user, '@', seq!['@'] + host);
    assert(url.skip(user.len() as int + 1) =~= host);
    lemma_first_place(host, ':', seq![]);
    assert(host + seq![] =~= host);
    assert(host.take(host.len() as int) =~= host);
    assert(url[user.len() as int] == '@');
    let k = choose|k: int| 0 <= k < user.len() && user[k] == ':';
    assert(url[k] == ':');
}

/// No host is read from a URL of another scheme, nor from what lacks the `@` or
/// the colon.
pub proof fn law_no_host_elsewhere(url: Seq<char>)
    requires
        forall|rest: Seq<char>| url != #[trigger] ("ssh://"@ + rest),
        (exists|a: Seq<char>, b: Seq<char>| url == #[trigger] (a + "://"@ + b)) || !url.contains('@')
            || !url.contains(':'),
    ensures
        host_of(url) is None,
{
    law_starts_with(url, "ssh://"@);
    law_contains_part(url, "://"@);
}

/// A file of the directory is a private key if and only if its name begins with
/// "id_" and does not end with ".pub".
pub proof fn law_names_of_keys(name: Seq<char>)
    requires
        !name.contains('/'),
    ensures
        is_key_name(name) <==> name.len() >= 3 && name[0] == 'i' && name[1] == 'd' && name[2] == '_'
            && !(name[name.len() - 4] == '.' && name[name.len() - 3] == 'p' && name[name.len() - 2]
            == 'u' && name[name.len() - 1] == 'b'),
{
    reveal_strlit("id_");
    reveal_strlit("pub");
    assert("pub"@ =~= seq!['p', 'u', 'b']);
    if starts_with(name, "id_"@) {
        let start = name.take(3);
        assert(start[0] == 'i' && start[1] == 'd' && start[2] == '_');
    }
    if name.len() >= 3 && name[0] == 'i' && name[1] == 'd' && name[2] == '_' {
        assert(name.take(3) =~= "id_"@);
        law_file_in_a_directory(seq![], name);
        let n = name.len() - 4;
        if name[n] == '.' && name[n + 1] == 'p' && name[n + 2] == 'u' && name[n + 3] == 'b' {
            assert(n >= 0) by {
                if n < 0 {
                    assert(name[2] == '_' && name[n + 3] == 'b');
                }
            }
            lemma_after_last(name, '.', n + 1);
            assert(name.skip(n + 1) =~= "pub"@);
        }
        if path_extension(name) == Some("pub"@) {
            let at = after_last(name, '.');
            lemma_after_last_bounds(name, '.');
            let ending = name.skip(at);
            assert(ending[0] == 'p' && ending[1] == 'u' && ending[2] == 'b');
            assert(name[at - 1] == '.' && name[at] == ending[0] && name[at + 1] == ending[1]);
        }
    }
}

/// The private keys are all the names that are those of keys, in their order.
pub proof fn law_every_key_is_found(names: Seq<Seq<char>>)
    ensures
        key_names(names, names.len() as int) == names.filter(|s: Seq<char>| is_key_name(s)),
{
    lemma_keys_found(names, names.len() as int, |s: Seq<char>| is_key_name(s));
    assert(names.take(names.len() as int) =~= names);
}

proof fn lemma_keys_found(names: Seq<Seq<char>>, n: int, wanted: spec_fn(Seq<char>) -> bool)
    requires
        0 <= n <= names.len(),
        wanted == (|s: Seq<char>| is_key_name(s)),
    ensures
        key_names(names, n) == names.take(n).filter(wanted),
    decreases n,
{
    reveal(Seq::filter);
    if n > 0 {
        lemma_keys_found(names, n - 1, wanted);
        assert(names.take(n).drop_last() =~= names.take(n - 1));
    } else {
        assert(names.take(n).filter(wanted) =~= seq![]);
    }
}

/// A server that takes a user with a password and nothing else.
pub open spec fn takes_passwords_only(allowed: Allowed) -> bool {
    allowed.user_pass && !allowed.ssh_key && !allowed.default
}

/// Asked for a password time and again, the search answers with the user alone
/// once, and after that it gives up; asked for nothing that it knows, it gives up
/// at once. A server that takes default credentials, and no keys, gets them every
/// time.
pub proof fn law_other_credentials(auth: Auth, allowed: Allowed)
    requires
        auth.is_valid(),
    ensures
        takes_passwords_only(allowed) && !auth.anonymous_tried ==> auth.step(allowed)
            == AuthStep::Anonymous && auth.after(AuthStep::Anonymous).step(allowed)
            == AuthStep::Refused,
        takes_passwords_only(allowed) && auth.anonymous_tried ==> auth.step(allowed)
            == AuthStep::Refused,
        !allowed.ssh_key && !allowed.default && !allowed.user_pass ==> auth.step(allowed)
            == AuthStep::Exhausted,
        !allowed.ssh_key && allowed.default ==> auth.step(allowed) == AuthStep::Default && auth.after(
            AuthStep::Default,
        ) == auth,
        allowed.ssh_key && auth.next_key < auth.keys ==> auth.step(allowed) == AuthStep::Agent
            || auth.step(allowed) == AuthStep::Key(auth.next_key),
        allowed.ssh_key && auth.next_key == auth.keys && (auth.explicit || auth.agent_tried)
            ==> auth.step(allowed) == auth.step(Allowed { ssh_key: false, ..allowed }),
{
}

/// A search over SSH begins with the agent, unless a key was asked for, whatever
/// else the server takes.
pub proof fn law_agent_comes_first(auth: Auth, allowed: Allowed)
    requires
        allowed.ssh_key,
        !auth.explicit,
        !auth.agent_tried,
    ensures
        auth.step(allowed) == AuthStep::Agent,
{
}

/// What is said at the end names HTTPS where the server refused or the URL is one
/// for HTTP, the key where one was asked for, and else how to give one.
pub proof fn law_last_words(auth: Auth)
    ensures
        auth.message_text(true)
            == "HTTPS authentication failed — use a credential helper or set GIT_ASKPASS"@,
        auth.is_https ==> auth.message_text(false) == "authentication exhausted — "@
            + auth.message_text(true),
        !auth.is_https && auth.explicit ==> auth.message_text(false)
            == "authentication exhausted — "@ + "check the key path and permissions"@,
        !auth.is_https && !auth.explicit ==> auth.message_text(false)
            == "authentication exhausted — "@
            + "use --key <path> to specify an SSH key, or load it into ssh-agent"@,
{
}

} // verus!
