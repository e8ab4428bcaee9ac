//! `git blame --porcelain`: what it is asked, and what it answers.

use crate::fx::{map_get, map_insert, map_new, map_of};
use crate::text::{
    lemma_position, parse_i64, parsed_number, push_text, split_on, starts_with, texts, trim,
    trim_text,
};
use crate::types::{bytes_hex, oid_hex, Oid};
use rustc_hash::FxHashMap;
use vstd::prelude::*;
use vstd::utf8::{decode_utf8, valid_utf8};

verus! {

/// The error of `std::str::from_utf8`.
#[verifier::external_type_specification]
#[verifier::external_body]
pub struct ExUtf8Error(std::str::Utf8Error);

/// `std::str::from_utf8` gives the string whose UTF-8 form the bytes are, and
/// an error where they are no valid UTF-8.
pub assume_specification[ std::str::from_utf8 ](v: &[u8]) -> (r: Result<&str, std::str::Utf8Error>)
    ensures
        r is Ok <==> valid_utf8(v@),
        r matches Ok(s) ==> vstd::utf8::encode_utf8(s@) == v@,
;

/// The string that bytes are the UTF-8 form of.
pub open spec fn utf8_text(bytes: Seq<u8>) -> Option<Seq<char>> {
    if valid_utf8(bytes) {
        Some(decode_utf8(bytes))
    } else {
        None
    }
}

/// The string that bytes are the UTF-8 form of.
pub fn text_of_bytes(bytes: &[u8]) -> (r: Option<&str>)
    ensures
        r is Some <==> utf8_text(bytes@) is Some,
        r matches Some(s) ==> utf8_text(bytes@) == Some(s@),
{
    match std::str::from_utf8(bytes) {
        Ok(s) => {
            proof {
                vstd::utf8::encode_utf8_decode_utf8(s@);
            }
            Some(s)
        },
        Err(_) => None,
    }
}

/// Blamed lines as plain values: for each the author's time and name.
pub open spec fn line_views(lines: Seq<(i64, String)>) -> Seq<(i64, Seq<char>)> {
    lines.map_values(|l: (i64, String)| (l.0, l.1@))
}

pub open spec fn is_hex_byte(b: u8) -> bool {
    (48 <= b <= 57) || (65 <= b <= 70) || (97 <= b <= 102)
}

/// Whether a line of the output starts a hunk: 40 hexadecimal digits and a
/// space.
pub open spec fn is_header(line: Seq<u8>) -> bool {
    &&& line.len() >= 41
    &&& line[40] == 32
    &&& forall|i: int| 0 <= i < 40 ==> is_hex_byte(#[trigger] line[i])
}

/// `author `
pub open spec fn author_mark() -> Seq<u8> {
    seq![97u8, 117u8, 116u8, 104u8, 111u8, 114u8, 32u8]
}

/// `author-time `
pub open spec fn time_mark() -> Seq<u8> {
    seq![97u8, 117u8, 116u8, 104u8, 111u8, 114u8, 45u8, 116u8, 105u8, 109u8, 101u8, 32u8]
}

/// The author that a line names, if it names one.
pub open spec fn named_author(line: Seq<u8>) -> Option<Seq<char>> {
    if !is_header(line) && starts_with(line, author_mark()) {
        match utf8_text(line.skip(7)) {
            Some(name) => Some(trim(name)),
            None => None,
        }
    } else {
        None
    }
}

/// The author's time that a line gives, if it gives one: 0 where what stands
/// behind the mark is no number.
pub open spec fn named_time(line: Seq<u8>) -> Option<int> {
    if !is_header(line) && starts_with(line, time_mark()) {
        match utf8_text(line.skip(12)) {
            Some(text) => match parsed_number(trim(text), i64::MIN as int, i64::MAX as int) {
                Some(v) => Some(v),
                None => Some(0),
            },
            None => Some(0),
        }
    } else {
        None
    }
}

/// Whether a line holds a line of the blamed file.
pub open spec fn is_content(line: Seq<u8>) -> bool {
    !is_header(line) && line.len() > 0 && line[0] == 9
}

/// The commit that the line at `j` belongs to: that of the last header before
/// it, and 40 zero bytes before the first.
pub open spec fn commit_at(lines: Seq<Seq<u8>>, j: int) -> Seq<u8>
    decreases j,
{
    if j <= 0 {
        Seq::new(40, |i: int| 0u8)
    } else if is_header(lines[j - 1]) {
        lines[j - 1].take(40)
    } else {
        commit_at(lines, j - 1)
    }
}

/// The time that the lines before `j` last give for a commit, or 0.
pub open spec fn time_before(lines: Seq<Seq<u8>>, j: int, commit: Seq<u8>) -> int
    decreases j,
{
    if j <= 0 {
        0
    } else {
        match named_time(lines[j - 1]) {
            Some(v) if commit_at(lines, j - 1) == commit => v,
            _ => time_before(lines, j - 1, commit),
        }
    }
}

/// The author that the lines before `j` last name for a commit, or no name.
pub open spec fn author_before(lines: Seq<Seq<u8>>, j: int, commit: Seq<u8>) -> Seq<char>
    decreases j,
{
    if j <= 0 {
        seq![]
    } else {
        match named_author(lines[j - 1]) {
            Some(v) if commit_at(lines, j - 1) == commit => v,
            _ => author_before(lines, j - 1, commit),
        }
    }
}

/// One pair for each line of the blamed file among the first `j` lines of the
/// output: the time and the author given for the commit it belongs to.
pub open spec fn blamed(lines: Seq<Seq<u8>>, j: int) -> Seq<(i64, Seq<char>)>
    decreases j,
{
    if j <= 0 {
        seq![]
    } else if is_content(lines[j - 1]) {
        let commit = commit_at(lines, j - 1);
        blamed(lines, j - 1).push(
            (time_before(lines, j - 1, commit) as i64, author_before(lines, j - 1, commit)),
        )
    } else {
        blamed(lines, j - 1)
    }
}

/// What `git blame --porcelain` says of a file.
pub open spec fn blame_of(stdout: Seq<u8>) -> Seq<(i64, Seq<char>)> {
    let lines = split_on(stdout, 10u8);
    blamed(lines, lines.len() as int)
}

/// Where the lines of `s` start and end.
fn line_ranges(s: &[u8]) -> (r: Vec<(usize, usize)>)
    ensures
        r@.len() == split_on(s@, 10u8).len(),
        forall|i: int|
            0 <= i < r@.len() ==> (#[trigger] r@[i]).0 <= r@[i].1 <= s@.len() && s@.subrange(
                r@[i].0 as int,
                r@[i].1 as int,
            ) == split_on(s@, 10u8)[i],
{
    let ghost lines = split_on(s@, 10u8);
    let n = s.len();
    let mut r: Vec<(usize, usize)> = Vec::new();
    let mut start: usize = 0;
    assert(s@.skip(0) =~= s@);
    assert(lines =~= lines.take(0) + split_on(s@, 10u8));
    loop
        invariant
            n == s@.len(),
            start <= n,
            lines == split_on(s@, 10u8),
            r@.len() <= lines.len(),
            lines == lines.take(r@.len() as int) + split_on(s@.skip(start as int), 10u8),
            forall|i: int|
                0 <= i < r@.len() ==> (#[trigger] r@[i]).0 <= r@[i].1 <= n && s@.subrange(
                    r@[i].0 as int,
                    r@[i].1 as int,
                ) == lines[i],
        decreases n - start,
    {
        let ghost rest = s@.skip(start as int);
        let ghost k = r@.len() as int;
        let mut end: usize = start;
        while end < n && s[end] != 10
            invariant
                n == s@.len(),
                start <= end <= n,
                rest == s@.skip(start as int),
                forall|i: int| 0 <= i < end - start ==> #[trigger] rest[i] != 10,
            decreases n - end,
        {
            end += 1;
        }
        proof {
            lemma_position(rest, 10u8, end - start);
            let tail = split_on(rest, 10u8);
            assert(lines[k] == tail[0]);
            assert(s@.subrange(start as int, end as int) =~= rest.take(end - start));
            if end == n {
                assert(rest.take(end - start) =~= rest);
                assert(tail =~= seq![rest]);
            } else {
                let more = split_on(rest.skip(end - start + 1), 10u8);
                assert(tail =~= seq![rest.take(end - start)] + more);
                assert(rest.skip(end - start + 1) =~= s@.skip(end + 1));
                assert(lines =~= lines.take(k + 1) + more);
            }
        }
        r.push((start, end));
        if end == n {
            return r;
        }
        start = end + 1;
    }
}

/// Whether `line` starts with `mark`.
fn line_has_mark(line: &[u8], mark: &Vec<u8>) -> (r: bool)
    ensures
        r == starts_with(line@, mark@),
{
    if line.len() < mark.len() {
        return false;
    }
    let mut i: usize = 0;
    while i < mark.len()
        invariant
            i <= mark@.len() <= line@.len(),
            forall|k: int| 0 <= k < i ==> line@[k] == mark@[k],
        decreases mark@.len() - i,
    {
        if line[i] != mark[i] {
            assert(line@.take(mark@.len() as int)[i as int] == line@[i as int]);
            return false;
        }
        i += 1;
    }
    assert(line@.take(mark@.len() as int) =~= mark@);
    true
}

/// Whether `line` starts a hunk.
fn line_is_header(line: &[u8]) -> (r: bool)
    ensures
        r == is_header(line@),
{
    if line.len() < 41 || line[40] != 32 {
        return false;
    }
    let mut i: usize = 0;
    while i < 40
        invariant
            i <= 40,
            line@.len() >= 41,
            forall|k: int| 0 <= k < i ==> is_hex_byte(#[trigger] line@[k]),
        decreases 40 - i,
    {
        let b = line[i];
        if !((48 <= b && b <= 57) || (65 <= b && b <= 70) || (97 <= b && b <= 102)) {
            assert(!is_hex_byte(line@[i as int]));
            return false;
        }
        i += 1;
    }
    true
}

/// The first 40 bytes of `line`.
fn commit_of_header(line: &[u8]) -> (r: [u8; 40])
    requires
        line@.len() >= 40,
    ensures
        r@ == line@.take(40),
{
    let mut r: [u8; 40] = [0u8; 40];
    let mut i: usize = 0;
    while i < 40
        invariant
            i <= 40,
            line@.len() >= 40,
            forall|k: int| 0 <= k < i ==> r@[k] == line@[k],
        decreases 40 - i,
    {
        r[i] = line[i];
        i += 1;
    }
    assert(r@ =~= line@.take(40));
    r
}

/// The author that stands in `rest`, what follows the author's mark.
fn author_text(rest: &[u8]) -> (r: Option<String>)
    ensures
        r is Some <==> utf8_text(rest@) is Some,
        r matches Some(name) ==> name@ == trim(utf8_text(rest@)->Some_0),
{
    match text_of_bytes(rest) {
        Some(s) => Some(trim_text(s)),
        None => None,
    }
}

/// The time that stands in `rest`, what follows the time's mark.
fn time_value(rest: &[u8]) -> (r: i64)
    ensures
        r == (match utf8_text(rest@) {
            Some(text) => match parsed_number(trim(text), i64::MIN as int, i64::MAX as int) {
                Some(v) => v,
                None => 0,
            },
            None => 0,
        }),
{
    match text_of_bytes(rest) {
        Some(s) => match parse_i64(trim_text(s).as_str()) {
            Some(v) => v,
            None => 0,
        },
        None => 0,
    }
}

/// Parses the output of `git blame --porcelain`: one author's time and name
/// for each line of the file. The output gives them once for a commit, at the
/// commit's first hunk.
pub fn parse_blame_output(stdout: &[u8]) -> (r: Vec<(i64, String)>)
    ensures
        line_views(r@) == blame_of(stdout@),
{
    let ghost lines = split_on(stdout@, 10u8);
    let ranges = line_ranges(stdout);
    let author_prefix: Vec<u8> = vec![97u8, 117u8, 116u8, 104u8, 111u8, 114u8, 32u8];
    let time_prefix: Vec<u8> = vec![
        97u8, 117u8, 116u8, 104u8, 111u8, 114u8, 45u8, 116u8, 105u8, 109u8, 101u8, 32u8,
    ];
    assert(author_prefix@ =~= author_mark());
    assert(time_prefix@ =~= time_mark());
    let mut commit_ts: FxHashMap<[u8; 40], i64> = map_new();
    let mut commit_author: FxHashMap<[u8; 40], String> = map_new();
    let mut current: [u8; 40] = [0u8; 40];
    let mut current_ts: i64 = 0;
    let mut current_author = String::new();
    let mut r: Vec<(i64, String)> = Vec::new();
    let mut j: usize = 0;
    assert(current@ =~= commit_at(lines, 0));
    assert(line_views(r@) =~= blamed(lines, 0));
    while j < ranges.len()
        invariant
            lines == split_on(stdout@, 10u8),
            ranges@.len() == lines.len(),
            forall|i: int|
                0 <= i < ranges@.len() ==> (#[trigger] ranges@[i]).0 <= ranges@[i].1
                    <= stdout@.len() && stdout@.subrange(
                    ranges@[i].0 as int,
                    ranges@[i].1 as int,
                ) == lines[i],
            author_prefix@ == author_mark(),
            time_prefix@ == time_mark(),
            j <= ranges@.len(),
            current@ == commit_at(lines, j as int),
            current_ts == time_before(lines, j as int, current@),
            current_author@ == author_before(lines, j as int, current@),
            forall|c: Seq<u8>| #[trigger]
                time_before(lines, j as int, c) == (if map_of(&commit_ts).contains_key(c) {
                    map_of(&commit_ts)[c] as int
                } else {
                    0
                }),
            forall|c: Seq<u8>| #[trigger]
                author_before(lines, j as int, c) == (if map_of(&commit_author).contains_key(c) {
                    map_of(&commit_author)[c]@
                } else {
                    Seq::<char>::empty()
                }),
            line_views(r@) == blamed(lines, j as int),
        decreases ranges@.len() - j,
    {
        let (start, end) = ranges[j];
        let line = vstd::slice::slice_subrange(stdout, start, end);
        assert(line@ == lines[j as int]);
        assert forall|c: Seq<u8>|
            named_time(line@) is None || commit_at(lines, j as int)
                != c implies #[trigger] time_before(lines, j + 1, c) == time_before(
            lines,
            j as int,
            c,
        ) by {}
        assert forall|c: Seq<u8>|
            named_author(line@) is None || commit_at(lines, j as int)
                != c implies #[trigger] author_before(lines, j + 1, c) == author_before(
            lines,
            j as int,
            c,
        ) by {}
        if line_is_header(line) {
            current = commit_of_header(line);
            current_ts = match map_get(&commit_ts, &current) {
                Some(ts) => *ts,
                None => 0,
            };
            current_author = match map_get(&commit_author, &current) {
                Some(name) => name.clone(),
                None => String::new(),
            };
        } else if line_has_mark(line, &author_prefix) {
            assert(line@[6] == 32) by {
                assert(line@.take(7)[6] == author_mark()[6]);
            }
            assert(!starts_with(line@, time_mark())) by {
                if starts_with(line@, time_mark()) {
                    assert(line@.take(12)[6] == time_mark()[6]);
                }
            }
            assert(line@[0] == 97) by {
                assert(line@.take(7)[0] == author_mark()[0]);
            }
            let rest = vstd::slice::slice_subrange(line, 7, line.len());
            assert(rest@ =~= line@.skip(7));
            if let Some(name) = author_text(rest) {
                map_insert(&mut commit_author, current, name.clone());
                current_author = name;
            }
        } else if line_has_mark(line, &time_prefix) {
            assert(line@[0] == 97) by {
                assert(line@.take(12)[0] == time_mark()[0]);
            }
            let rest = vstd::slice::slice_subrange(line, 12, line.len());
            assert(rest@ =~= line@.skip(12));
            let ts = time_value(rest);
            map_insert(&mut commit_ts, current, ts);
            current_ts = ts;
        } else if line.len() > 0 && line[0] == 9 {
            let ghost before = r@;
            r.push((current_ts, current_author.clone()));
            assert(line_views(r@) =~= line_views(before).push((current_ts, current_author@)));
        }
        j += 1;
    }
    r
}

/// The arguments of `git` that blame one file as of one commit. White space is
/// ignored, and so are the commits that the file `ignore_revs` lists.
pub open spec fn blame_arguments(
    repo_path: Seq<char>,
    commit: Oid,
    file_path: Seq<char>,
    ignore_revs: Option<Seq<char>>,
) -> Seq<Seq<char>> {
    let start = seq!["-C"@, repo_path, "blame"@, "--porcelain"@, "-w"@];
    let revs = match ignore_revs {
        Some(path) => seq!["--ignore-revs-file="@ + path],
        None => seq![],
    };
    start + revs + seq![bytes_hex(commit@), "--"@, file_path]
}

/// The arguments of `git` that blame one file as of one commit.
pub fn blame_args(
    repo_path: &str,
    commit_oid: Oid,
    file_path: &str,
    ignore_revs: Option<&str>,
) -> (r: Vec<String>)
    ensures
        texts(r@) == blame_arguments(
            repo_path@,
            commit_oid,
            file_path@,
            match ignore_revs {
                Some(path) => Some(path@),
                None => None,
            },
        ),
{
    let mut r: Vec<String> = Vec::new();
    r.push("-C".to_owned());
    r.push(repo_path.to_owned());
    r.push("blame".to_owned());
    r.push("--porcelain".to_owned());
    r.push("-w".to_owned());
    assert(texts(r@) =~= seq!["-C"@, repo_path@, "blame"@, "--porcelain"@, "-w"@]);
    let ghost start = texts(r@);
    let ghost mut revs: Seq<Seq<char>> = seq![];
    if let Some(path) = ignore_revs {
        let mut arg = "--ignore-revs-file=".to_owned();
        push_text(&mut arg, path);
        proof {
            revs = seq![arg@];
        }
        r.push(arg);
    }
    assert(texts(r@) =~= start + revs);
    let ghost before = texts(r@);
    r.push(oid_hex(&commit_oid));
    r.push("--".to_owned());
    r.push(file_path.to_owned());
    assert(texts(r@) =~= before + seq![bytes_hex(commit_oid@), "--"@, file_path@]);
    r
}

/// The number of lines of the blamed file among the first `j` lines of the
/// output.
pub open spec fn content_lines(lines: Seq<Seq<u8>>, j: int) -> int
    decreases j,
{
    if j <= 0 {
        0
    } else {
        content_lines(lines, j - 1) + (if is_content(lines[j - 1]) {
            1int
        } else {
            0
        })
    }
}

/// There is one pair for each line of the blamed file.
pub proof fn law_one_pair_per_line(stdout: Seq<u8>)
    ensures
        blame_of(stdout).len() == content_lines(
            split_on(stdout, 10u8),
            split_on(stdout, 10u8).len() as int,
        ),
{
    let lines = split_on(stdout, 10u8);
    lemma_pairs(lines, lines.len() as int);
}

proof fn lemma_pairs(lines: Seq<Seq<u8>>, j: int)
    ensures
        blamed(lines, j).len() == content_lines(lines, j),
    decreases j,
{
    if j > 0 {
        lemma_pairs(lines, j - 1);
    }
}

/// Lines of one commit with nothing said of the commit between them have the
/// same time and author.
pub proof fn law_commit_speaks_for_its_lines(lines: Seq<Seq<u8>>, i: int, j: int)
    requires
        0 <= i <= j < lines.len(),
        commit_at(lines, i) == commit_at(lines, j),
        forall|k: int|
            i <= k < j ==> named_time(#[trigger] lines[k]) is None && named_author(lines[k]) is None,
    ensures
        time_before(lines, i, commit_at(lines, i)) == time_before(lines, j, commit_at(lines, j)),
        author_before(lines, i, commit_at(lines, i)) == author_before(
            lines,
            j,
            commit_at(lines, j),
        ),
{
    lemma_nothing_said(lines, i, j, commit_at(lines, i));
}

proof fn lemma_nothing_said(lines: Seq<Seq<u8>>, i: int, j: int, commit: Seq<u8>)
    requires
        0 <= i <= j,
        forall|k: int|
            i <= k < j ==> named_time(#[trigger] lines[k]) is None && named_author(lines[k]) is None,
    ensures
        time_before(lines, i, commit) == time_before(lines, j, commit),
        author_before(lines, i, commit) == author_before(lines, j, commit),
    decreases j,
{
    if i < j {
        assert(named_time(lines[j - 1]) is None);
        lemma_nothing_said(lines, i, j - 1, commit);
    }
}

/// Git is asked to blame in the given repository, for the format that is read, with
/// white space ignored; last come the commit in hexadecimal, two dashes, and the
/// file. The list of commits to ignore stands before them, where there is one.
pub proof fn law_what_git_is_asked(
    repo_path: Seq<char>,
    commit: Oid,
    file_path: Seq<char>,
    ignore_revs: Option<Seq<char>>,
)
    ensures
        ({
            let args = blame_arguments(repo_path, commit, file_path, ignore_revs);
            let n = args.len() as int;
            &&& n == (if ignore_revs is Some {
                9int
            } else {
                8
            })
            &&& args.take(5) == seq!["-C"@, repo_path, "blame"@, "--porcelain"@, "-w"@]
            &&& args.skip(n - 3) == seq![bytes_hex(commit@), "--"@, file_path]
            &&& ignore_revs matches Some(path) ==> args[5] == "--ignore-revs-file="@ + path
        }),
{
    let args = blame_arguments(repo_path, commit, file_path, ignore_revs);
    let n = args.len() as int;
    assert(args.take(5) =~= seq!["-C"@, repo_path, "blame"@, "--porcelain"@, "-w"@]);
    assert(args.skip(n - 3) =~= seq![bytes_hex(commit@), "--"@, file_path]);
}

/// Blamed lines keep their times and authors.
pub proof fn law_views_of_lines(lines: Seq<(i64, String)>, i: int)
    ensures
        line_views(lines).len() == lines.len(),
        0 <= i < lines.len() ==> line_views(lines)[i] == (lines[i].0, lines[i].1@),
{
}

/// Bytes are a text if and only if they are the UTF-8 form of one, and then they are
/// that text.
pub proof fn law_texts_of_bytes(bytes: Seq<u8>, text: Seq<char>)
    ensures
        utf8_text(bytes) == Some(text) <==> bytes == vstd::utf8::encode_utf8(text),
        utf8_text(bytes) is Some <==> valid_utf8(bytes),
{
    vstd::utf8::encode_utf8_valid_utf8(text);
    vstd::utf8::encode_utf8_decode_utf8(text);
    if utf8_text(bytes) == Some(text) {
        vstd::utf8::decode_utf8_encode_utf8(bytes);
    }
}

} // verus!
