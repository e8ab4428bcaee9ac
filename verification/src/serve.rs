//! What the server answers, and the settings of the program that are no more
//! than a choice of words.

use crate::text::{
    chars_of, contains_part, decimal, ends_with, has_char, has_part, law_ends_with, push_decimal,
    push_text, stands_at, starts_with,
};
use vstd::prelude::*;

verus! {

/// Whether a request may name a data file: it stays in the data directory.
pub open spec fn is_data_name(file: Seq<char>) -> bool {
    !contains_part(file, ".."@) && !file.contains('/')
}

/// The content type of a data file.
pub open spec fn content_type(file: Seq<char>) -> Seq<char> {
    if ends_with(file, ".json"@) {
        "application/json"@
    } else {
        "application/octet-stream"@
    }
}

/// Whether `chars` ends with `suffix`.
fn has_suffix(chars: &Vec<char>, suffix: &str) -> (r: bool)
    ensures
        r == ends_with(chars@, suffix@),
{
    let part = chars_of(suffix);
    if part.len() > chars.len() {
        return false;
    }
    let at = chars.len() - part.len();
    let ghost tail = chars@.skip(at as int);
    assert(tail.take(tail.len() as int) =~= tail);
    stands_at(chars, at, &part)
}

/// The content type to send a data file with; none where the request is to be
/// refused.
pub fn data_file(file: &str) -> (r: Option<String>)
    ensures
        r is Some <==> is_data_name(file@),
        r matches Some(t) ==> t@ == content_type(file@),
{
    let chars = chars_of(file);
    if has_part(&chars, "..") || has_char(&chars, '/') {
        return None;
    }
    if has_suffix(&chars, ".json") {
        Some("application/json".to_owned())
    } else {
        Some("application/octet-stream".to_owned())
    }
}

/// A request that is answered names a file in the data directory itself.
pub proof fn law_requests_stay_inside(file: Seq<char>)
    requires
        is_data_name(file),
    ensures
        !file.contains('/'),
        file != ".."@,
{
    if file == ".."@ {
        assert(file.skip(0) =~= file);
        assert(file.take(file.len() as int) =~= file);
        assert(starts_with(file.skip(0), ".."@));
    }
}

/// The name of the data file of a repository.
pub open spec fn data_file_of(repo: Seq<char>) -> Seq<char> {
    repo + ".msgpack"@
}

/// The name of the data file of a repository.
pub fn data_file_name(repo: &str) -> (r: String)
    ensures
        r@ == data_file_of(repo@),
{
    let mut r = repo.to_owned();
    push_text(&mut r, ".msgpack");
    r
}

/// The data file of a repository is served, if its name has no slash, no two
/// dots in a row and no dot at its end.
pub proof fn law_data_files_are_served(repo: Seq<char>)
    requires
        !repo.contains('/'),
        !contains_part(repo.push('.'), ".."@),
    ensures
        is_data_name(data_file_of(repo)),
{
    reveal_strlit(".msgpack");
    reveal_strlit("..");
    let file = data_file_of(repo);
    let n = repo.len() as int;
    assert(!file.contains('/')) by {
        if file.contains('/') {
            let i = choose|i: int| 0 <= i < file.len() && file[i] == '/';
            if i < n {
                assert(repo[i] == '/');
            } else {
                assert(file[i] == ".msgpack"@[i - n]);
            }
        }
    }
    assert(!contains_part(file, ".."@)) by {
        if contains_part(file, ".."@) {
            let i = choose|i: int| 0 <= i <= file.len() && #[trigger] starts_with(
                file.skip(i),
                ".."@,
            );
            let two = file.skip(i).take(2);
            assert(two[0] == '.' && two[1] == '.');
            assert(file[i] == '.' && file[i + 1] == '.');
            if i + 1 <= n {
                let dotted = repo.push('.');
                if i + 1 < n {
                    assert(dotted[i + 1] == file[i + 1]);
                } else {
                    assert(dotted[i + 1] == '.');
                }
                assert(dotted[i] == '.');
                assert(dotted.skip(i).take(2) =~= ".."@);
                assert(starts_with(dotted.skip(i), ".."@));
            } else {
                assert(file[i + 1] == ".msgpack"@[i + 1 - n]);
            }
        }
    }
}

/// The log level for the number of times that more output was asked for.
pub open spec fn level_text(verbose: u8) -> Seq<char> {
    if verbose == 0 {
        "warn"@
    } else if verbose == 1 {
        "info"@
    } else if verbose == 2 {
        "debug"@
    } else {
        "trace"@
    }
}

/// The filter of log messages for the number of times that more output was asked
/// for.
pub fn log_filter(verbose: u8) -> (r: String)
    ensures
        r@ == "strata="@ + level_text(verbose),
{
    let mut r = "strata=".to_owned();
    match verbose {
        0 => push_text(&mut r, "warn"),
        1 => push_text(&mut r, "info"),
        2 => push_text(&mut r, "debug"),
        _ => push_text(&mut r, "trace"),
    }
    r
}

/// The line that tells where the server is.
pub fn serving_line(port: u16) -> (r: String)
    ensures
        r@ == "Serving at http://localhost:"@ + decimal(port as int),
{
    let mut r = "Serving at http://localhost:".to_owned();
    push_decimal(&mut r, port as i64);
    r
}

/// A request is answered if and only if its name has no slash and no two dots in a
/// row.
pub proof fn law_which_requests_are_answered(file: Seq<char>)
    ensures
        is_data_name(file) <==> (forall|i: int| 0 <= i < file.len() ==> #[trigger] file[i] != '/')
            && !(exists|i: int|
            0 <= i < file.len() - 1 && #[trigger] file[i] == '.' && file[i + 1] == '.'),
{
    reveal_strlit("..");
    if forall|i: int| 0 <= i < file.len() ==> #[trigger] file[i] != '/' {
        assert(!file.contains('/')) by {
            if file.contains('/') {
                let i = choose|i: int| 0 <= i < file.len() && file[i] == '/';
                assert(file[i] != '/');
            }
        }
    }
    if !file.contains('/') {
        assert forall|i: int| 0 <= i < file.len() implies #[trigger] file[i] != '/' by {
            assert(file.contains(file[i]));
        }
    }
    if exists|i: int| 0 <= i < file.len() - 1 && #[trigger] file[i] == '.' && file[i + 1] == '.' {
        let i = choose|i: int|
            0 <= i < file.len() - 1 && #[trigger] file[i] == '.' && file[i + 1] == '.';
        assert(file.skip(i).take(2) =~= ".."@);
        assert(starts_with(file.skip(i), ".."@));
    }
    if contains_part(file, ".."@) {
        let i = choose|i: int| 0 <= i <= file.len() && #[trigger] starts_with(file.skip(i), ".."@);
        let two = file.skip(i).take(2);
        assert(two[0] == '.' && two[1] == '.');
        assert(file[i] == '.' && file[i + 1] == '.');
    }
}

/// A file whose name ends with ".json" is sent as JSON, and any other as bytes.
pub proof fn law_content_types(file: Seq<char>)
    ensures
        content_type(file) == (if exists|stem: Seq<char>| file == #[trigger] (stem + ".json"@) {
            "application/json"@
        } else {
            "application/octet-stream"@
        }),
{
    law_ends_with(file, ".json"@);
}

/// The data file of a repository is its name with ".msgpack" behind it.
pub proof fn law_data_file_names(repo: Seq<char>)
    ensures
        data_file_of(repo) == repo + seq!['.', 'm', 's', 'g', 'p', 'a', 'c', 'k'],
{
    reveal_strlit(".msgpack");
    assert(".msgpack"@ =~= seq!['.', 'm', 's', 'g', 'p', 'a', 'c', 'k']);
}

/// Warnings are logged unless more is asked for: once for information, twice for
/// what helps to find faults, and more often for everything.
pub proof fn law_log_levels(verbose: u8)
    ensures
        level_text(0) == "warn"@,
        level_text(1) == "info"@,
        level_text(2) == "debug"@,
        verbose > 2 ==> level_text(verbose) == "trace"@,
{
}

} // verus!
