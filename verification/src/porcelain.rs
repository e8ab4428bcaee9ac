//! What `git blame --porcelain` prints for a file, and that it is read back.

use crate::blame::{
    author_before, author_mark, blame_of, blamed, commit_at, is_content, is_header, is_hex_byte,
    named_author, named_time, time_before, time_mark,
};
use crate::text::{
    decimal, decimal_digits, is_blank, is_digit, is_trimmed, law_number_is_read_back,
    law_split_at_first, law_starts_with, law_trim, law_white_space, lemma_decimal_digits,
    parsed_number, split_on,
    starts_with,
};
use crate::types::{bytes_hex, law_bytes_in_hex, Oid};
use vstd::prelude::*;
use vstd::utf8::{encode_utf8, is_ascii_chars};

verus! {

/// The line that starts a hunk: the commit in hexadecimal, a blank, and more.
pub open spec fn header_line(commit: Oid, rest: Seq<u8>) -> Seq<u8> {
    encode_utf8(bytes_hex(commit@)) + seq![32u8] + rest
}

/// The line that names the author of a commit.
pub open spec fn author_line(name: Seq<char>) -> Seq<u8> {
    encode_utf8("author "@) + encode_utf8(name)
}

/// The line that gives the author's time of a commit.
pub open spec fn time_line(ts: i64) -> Seq<u8> {
    encode_utf8("author-time "@) + encode_utf8(decimal(ts as int))
}

/// The line that holds a line of the file: behind a tab.
pub open spec fn content_line(content: Seq<u8>) -> Seq<u8> {
    seq![9u8] + content
}

/// Whether a byte is a hexadecimal digit.
pub open spec fn is_hex_digit(b: u8) -> bool {
    "0123456789abcdefABCDEF"@.contains(b as char)
}

/// Whether a line says nothing of authors and is no line of the file: it does not
/// start with a tab, with one of the two marks, or with 40 hexadecimal digits and
/// a blank.
pub open spec fn is_other_line(line: Seq<u8>) -> bool {
    &&& !line.contains(10u8)
    &&& line.len() > 0 ==> line[0] != 9
    &&& forall|rest: Seq<u8>| line != #[trigger] (encode_utf8("author "@) + rest)
    &&& forall|rest: Seq<u8>| line != #[trigger] (encode_utf8("author-time "@) + rest)
    &&& line.len() <= 40 || line[40] != 32 || exists|k: int|
        0 <= k < 40 && !is_hex_digit(#[trigger] line[k])
}

/// What is printed for one line of the file.
pub struct Hunk {
    /// The commit that the line is from.
    pub commit: Oid,
    /// What follows the commit in the header.
    pub place: Seq<u8>,
    /// What is said of the commit, where it is: its author and the author's time.
    pub said: Option<(Seq<char>, i64)>,
    /// Other lines: before the author, between author and time, and behind them.
    pub first: Seq<Seq<u8>>,
    pub middle: Seq<Seq<u8>>,
    pub last: Seq<Seq<u8>>,
    /// The line of the file.
    pub content: Seq<u8>,
}

/// The lines that are printed for a line of the file.
pub open spec fn hunk_lines(h: Hunk) -> Seq<Seq<u8>> {
    let about = match h.said {
        Some((name, ts)) => h.first.push(author_line(name)) + h.middle.push(time_line(ts))
            + h.last,
        None => h.first,
    };
    seq![header_line(h.commit, h.place)] + about + seq![content_line(h.content)]
}

/// Whether a hunk is one that git prints: a line has no line break in it, a name no
/// white space at its ends, and what else is said looks like nothing else.
pub open spec fn is_printed(h: Hunk) -> bool {
    &&& !h.place.contains(10u8)
    &&& !h.content.contains(10u8)
    &&& h.said matches Some((name, _)) ==> is_trimmed(name) && !encode_utf8(name).contains(10u8)
    &&& forall|i: int| 0 <= i < h.first.len() ==> is_other_line(#[trigger] h.first[i])
    &&& forall|i: int| 0 <= i < h.middle.len() ==> is_other_line(#[trigger] h.middle[i])
    &&& forall|i: int| 0 <= i < h.last.len() ==> is_other_line(#[trigger] h.last[i])
}

/// All the lines that are printed.
pub open spec fn output_lines(hunks: Seq<Hunk>) -> Seq<Seq<u8>>
    decreases hunks.len(),
{
    if hunks.len() == 0 {
        seq![]
    } else {
        output_lines(hunks.drop_last()) + hunk_lines(hunks.last())
    }
}

/// Lines as bytes: each with a line break behind it.
pub open spec fn as_bytes(lines: Seq<Seq<u8>>) -> Seq<u8>
    decreases lines.len(),
{
    if lines.len() == 0 {
        seq![]
    } else {
        lines[0].push(10u8) + as_bytes(lines.drop_first())
    }
}

proof fn lemma_marks()
    ensures
        encode_utf8("author "@) == author_mark(),
        encode_utf8("author-time "@) == time_mark(),
{
    reveal_strlit("author ");
    reveal_strlit("author-time ");
    vstd::utf8::is_ascii_chars_encode_utf8("author "@);
    vstd::utf8::is_ascii_chars_encode_utf8("author-time "@);
    assert(encode_utf8("author "@) =~= author_mark());
    assert(encode_utf8("author-time "@) =~= time_mark());
}

proof fn lemma_hex_digit(b: u8)
    ensures
        is_hex_digit(b) == is_hex_byte(b),
{
    reveal_strlit("0123456789abcdefABCDEF");
    let digits = "0123456789abcdefABCDEF"@;
    if is_hex_byte(b) {
        let i: int = if b <= 57 {
            b - 48
        } else if b <= 70 {
            b - 65 + 16
        } else {
            b - 97 + 10
        };
        assert(digits[i] == b as char);
    }
}

/// The bytes of an object's name in hexadecimal.
proof fn lemma_hex(commit: Oid)
    ensures
        is_ascii_chars(bytes_hex(commit@)),
        encode_utf8(bytes_hex(commit@)).len() == 40,
        forall|i: int|
            0 <= i < 40 ==> is_hex_byte(#[trigger] encode_utf8(bytes_hex(commit@))[i])
                && encode_utf8(bytes_hex(commit@))[i] == bytes_hex(commit@)[i] as u8,
{
    reveal_strlit("0123456789abcdef");
    let text = bytes_hex(commit@);
    law_bytes_in_hex(commit@);
    assert forall|i: int| 0 <= i < 40 implies "0123456789abcdef"@.contains(#[trigger] text[i]) by {
        let b = commit@[i / 2];
        if i % 2 == 0 {
            assert(text[2 * (i / 2)] == "0123456789abcdef"@[b as int / 16]);
        } else {
            assert(text[2 * (i / 2) + 1] == "0123456789abcdef"@[b as int % 16]);
        }
    }
    assert forall|i: int| 0 <= i < text.len() implies '\0' <= #[trigger] text[i] <= '\u{7f}' by {
        assert("0123456789abcdef"@.contains(text[i]));
    }
    vstd::utf8::is_ascii_chars_encode_utf8(text);
    assert forall|i: int| 0 <= i < 40 implies is_hex_byte(#[trigger] encode_utf8(text)[i])
        && encode_utf8(text)[i] == text[i] as u8 by {
        assert("0123456789abcdef"@.contains(text[i]));
    }
}

/// Two object names in hexadecimal are the same only where the objects are.
proof fn lemma_hex_tells_apart(a: Oid, b: Oid)
    requires
        encode_utf8(bytes_hex(a@)) == encode_utf8(bytes_hex(b@)),
    ensures
        a == b,
{
    reveal_strlit("0123456789abcdef");
    lemma_hex(a);
    lemma_hex(b);
    law_bytes_in_hex(a@);
    law_bytes_in_hex(b@);
    let s = bytes_hex(a@);
    let t = bytes_hex(b@);
    vstd::utf8::encode_utf8_decode_utf8(s);
    vstd::utf8::encode_utf8_decode_utf8(t);
    assert(s == t);
    assert forall|i: int| 0 <= i < 20 implies a@[i] == b@[i] by {
        assert(s[2 * i] == "0123456789abcdef"@[a@[i] as int / 16]);
        assert(t[2 * i] == "0123456789abcdef"@[b@[i] as int / 16]);
        assert(s[2 * i + 1] == "0123456789abcdef"@[a@[i] as int % 16]);
        assert(t[2 * i + 1] == "0123456789abcdef"@[b@[i] as int % 16]);
    }
    assert(a@ =~= b@);
    assert(a =~= b);
}

/// The name of every object in hexadecimal, a blank and anything behind it start a
/// hunk of that object.
pub proof fn law_every_name_starts_a_hunk(commit: Oid, rest: Seq<u8>)
    ensures
        is_header(header_line(commit, rest)),
        header_line(commit, rest).take(40) == encode_utf8(bytes_hex(commit@)),
{
    let hex = encode_utf8(bytes_hex(commit@));
    let line = header_line(commit, rest);
    lemma_hex(commit);
    assert(line.take(40) =~= hex);
    assert forall|i: int| 0 <= i < 40 implies is_hex_byte(#[trigger] line[i]) by {
        assert(line[i] == hex[i]);
    }
}

/// A line starts a hunk if and only if it is 40 hexadecimal digits, large or small,
/// a blank, and anything behind it.
pub proof fn law_what_starts_a_hunk(line: Seq<u8>)
    ensures
        is_header(line) <==> line.len() > 40 && line[40] == 32 && forall|k: int|
            0 <= k < 40 ==> is_hex_digit(#[trigger] line[k]),
{
    assert forall|k: int| 0 <= k < 40 implies is_hex_digit(#[trigger] line[k]) == is_hex_byte(
        line[k],
    ) by {
        lemma_hex_digit(line[k]);
    }
    if line.len() > 40 && line[40] == 32 && forall|k: int|
        0 <= k < 40 ==> is_hex_digit(#[trigger] line[k]) {
        assert forall|k: int| 0 <= k < 40 implies is_hex_byte(#[trigger] line[k]) by {
            assert(is_hex_digit(line[k]));
        }
    }
    if is_header(line) {
        assert forall|k: int| 0 <= k < 40 implies is_hex_digit(#[trigger] line[k]) by {
            assert(is_hex_byte(line[k]));
        }
    }
}

/// A line of the other forms starts no hunk.
pub proof fn law_other_lines_start_no_hunk(name: Seq<char>, ts: i64, content: Seq<u8>, line: Seq<u8>)
    ensures
        !is_header(author_line(name)),
        !is_header(time_line(ts)),
        !is_header(content_line(content)),
        is_other_line(line) ==> !is_header(line) && named_author(line) is None && named_time(line)
            is None && !is_content(line),
{
    lemma_marks();
    assert(author_line(name)[1] == author_mark()[1]);
    assert(time_line(ts)[1] == time_mark()[1]);
    assert(content_line(content)[0] == 9);
    assert(!is_hex_byte(author_line(name)[1]));
    assert(!is_hex_byte(time_line(ts)[1]));
    assert(!is_hex_byte(content_line(content)[0]));
    if is_other_line(line) {
        law_starts_with(line, author_mark());
        law_starts_with(line, time_mark());
        if line.len() > 40 && line[40] == 32 {
            let k = choose|k: int| 0 <= k < 40 && !is_hex_digit(#[trigger] line[k]);
            lemma_hex_digit(line[k]);
        }
    }
}

/// The author that a line names is read back.
proof fn lemma_author_line(name: Seq<char>)
    requires
        is_trimmed(name),
    ensures
        named_author(author_line(name)) == Some(name),
        named_time(author_line(name)) is None,
        !is_content(author_line(name)),
{
    let line = author_line(name);
    lemma_marks();
    law_other_lines_start_no_hunk(name, 0, seq![], seq![]);
    law_starts_with(line, author_mark());
    assert(line == author_mark() + encode_utf8(name));
    assert(line.skip(7) =~= encode_utf8(name));
    vstd::utf8::encode_utf8_valid_utf8(name);
    vstd::utf8::encode_utf8_decode_utf8(name);
    law_trim(seq![], name, seq![]);
    assert(seq![] + name + seq![] =~= name);
    assert(!starts_with(line, time_mark())) by {
        if starts_with(line, time_mark()) {
            assert(line.take(12)[6] == time_mark()[6]);
            assert(line[6] == author_mark()[6]);
        }
    }
    assert(line[0] == author_mark()[0]);
}

proof fn lemma_decimal_is_plain(n: int)
    ensures
        is_trimmed(decimal(n)),
        is_ascii_chars(decimal(n)),
        !encode_utf8(decimal(n)).contains(10u8),
{
    let m = if n < 0 {
        -n
    } else {
        n
    };
    lemma_decimal_digits(m);
    let body = decimal_digits(m);
    let s = decimal(n);
    assert forall|i: int| 0 <= i < s.len() implies s[i] == '-' || is_digit(#[trigger] s[i]) by {
        if n < 0 {
            if i > 0 {
                assert(s[i] == body[i - 1]);
            }
        } else {
            assert(s[i] == body[i]);
        }
    }
    assert forall|i: int| 0 <= i < s.len() implies '\0' <= #[trigger] s[i] <= '\u{7f}' by {
        assert(s[i] == '-' || is_digit(s[i]));
    }
    law_white_space(s[0]);
    law_white_space(s.last());
    assert(s.last() == s[s.len() - 1]);
    vstd::utf8::is_ascii_chars_encode_utf8(s);
    assert(!encode_utf8(s).contains(10u8)) by {
        if encode_utf8(s).contains(10u8) {
            let i = choose|i: int| 0 <= i < encode_utf8(s).len() && encode_utf8(s)[i] == 10u8;
            assert(s[i] == '-' || is_digit(s[i]));
            assert(s[i] as u8 == 10u8);
        }
    }
}

/// The time that a line gives is read back.
proof fn lemma_time_line(ts: i64)
    ensures
        named_time(time_line(ts)) == Some(ts as int),
        named_author(time_line(ts)) is None,
        !is_content(time_line(ts)),
{
    let line = time_line(ts);
    let text = decimal(ts as int);
    lemma_marks();
    law_other_lines_start_no_hunk(seq![], ts, seq![], seq![]);
    law_starts_with(line, time_mark());
    assert(line == time_mark() + encode_utf8(text));
    assert(line.skip(12) =~= encode_utf8(text));
    vstd::utf8::encode_utf8_valid_utf8(text);
    vstd::utf8::encode_utf8_decode_utf8(text);
    lemma_decimal_is_plain(ts as int);
    law_trim(seq![], text, seq![]);
    assert(seq![] + text + seq![] =~= text);
    law_number_is_read_back(ts as int, i64::MIN as int, i64::MAX as int);
    assert(!starts_with(line, author_mark())) by {
        if starts_with(line, author_mark()) {
            assert(line.take(7)[6] == author_mark()[6]);
            assert(line[6] == time_mark()[6]);
        }
    }
    assert(line[0] == time_mark()[0]);
}

/// What was read of the first lines does not depend on those that follow.
proof fn lemma_only_before(lines: Seq<Seq<u8>>, line: Seq<u8>, j: int, commit: Seq<u8>)
    requires
        0 <= j <= lines.len(),
    ensures
        commit_at(lines.push(line), j) == commit_at(lines, j),
        time_before(lines.push(line), j, commit) == time_before(lines, j, commit),
        author_before(lines.push(line), j, commit) == author_before(lines, j, commit),
    decreases j,
{
    if j > 0 {
        lemma_only_before(lines, line, j - 1, commit);
    }
}

proof fn lemma_blamed_before(lines: Seq<Seq<u8>>, line: Seq<u8>, j: int)
    requires
        0 <= j <= lines.len(),
    ensures
        blamed(lines.push(line), j) == blamed(lines, j),
    decreases j,
{
    if j > 0 {
        lemma_blamed_before(lines, line, j - 1);
        lemma_only_before(lines, line, j - 1, commit_at(lines, j - 1));
    }
}

/// What one more line does.
proof fn lemma_one_more_line(lines: Seq<Seq<u8>>, line: Seq<u8>)
    ensures
        ({
            let n = lines.len() as int;
            let more = lines.push(line);
            let current = commit_at(lines, n);
            &&& commit_at(more, n + 1) == (if is_header(line) {
                line.take(40)
            } else {
                current
            })
            &&& forall|c: Seq<u8>| #[trigger]
                time_before(more, n + 1, c) == (if named_time(line) is Some && c == current {
                    named_time(line)->0
                } else {
                    time_before(lines, n, c)
                })
            &&& forall|c: Seq<u8>| #[trigger]
                author_before(more, n + 1, c) == (if named_author(line) is Some && c == current {
                    named_author(line)->0
                } else {
                    author_before(lines, n, c)
                })
            &&& blamed(more, n + 1) == (if is_content(line) {
                blamed(lines, n).push(
                    (time_before(lines, n, current) as i64, author_before(lines, n, current)),
                )
            } else {
                blamed(lines, n)
            })
        }),
{
    let n = lines.len() as int;
    let more = lines.push(line);
    let current = commit_at(lines, n);
    lemma_only_before(lines, line, n, current);
    lemma_blamed_before(lines, line, n);
    assert(more[n] == line);
    assert forall|c: Seq<u8>| #[trigger] time_before(more, n + 1, c) == (if named_time(line) is Some
        && c == current {
        named_time(line)->0
    } else {
        time_before(lines, n, c)
    }) by {
        lemma_only_before(lines, line, n, c);
    }
    assert forall|c: Seq<u8>| #[trigger] author_before(more, n + 1, c) == (if named_author(
        line,
    ) is Some && c == current {
        named_author(line)->0
    } else {
        author_before(lines, n, c)
    }) by {
        lemma_only_before(lines, line, n, c);
    }
}

/// Whether what was read of `more` is what was read of `lines`.
spec fn reads_alike(lines: Seq<Seq<u8>>, more: Seq<Seq<u8>>) -> bool {
    let n = lines.len() as int;
    let m = more.len() as int;
    &&& commit_at(more, m) == commit_at(lines, n)
    &&& forall|c: Seq<u8>| #[trigger] time_before(more, m, c) == time_before(lines, n, c)
    &&& forall|c: Seq<u8>| #[trigger] author_before(more, m, c) == author_before(lines, n, c)
    &&& blamed(more, m) == blamed(lines, n)
}

/// Other lines change nothing.
proof fn lemma_other_lines(lines: Seq<Seq<u8>>, others: Seq<Seq<u8>>)
    requires
        forall|i: int| 0 <= i < others.len() ==> is_other_line(#[trigger] others[i]),
    ensures
        reads_alike(lines, lines + others),
    decreases others.len(),
{
    if others.len() == 0 {
        assert(lines + others =~= lines);
    } else {
        let fewer = others.drop_last();
        assert forall|i: int| 0 <= i < fewer.len() implies is_other_line(#[trigger] fewer[i]) by {
            assert(fewer[i] == others[i]);
        }
        lemma_other_lines(lines, fewer);
        let line = others.last();
        assert(others[others.len() - 1] == line);
        law_other_lines_start_no_hunk(seq![], 0, seq![], line);
        lemma_one_more_line(lines + fewer, line);
        assert(lines + others =~= (lines + fewer).push(line));
    }
}

/// What is said of a commit in the first hunks, last of all.
spec fn said_of(hunks: Seq<Hunk>, commit: Oid) -> Option<(Seq<char>, i64)>
    decreases hunks.len(),
{
    if hunks.len() == 0 {
        None
    } else if hunks.last().commit == commit && hunks.last().said is Some {
        hunks.last().said
    } else {
        said_of(hunks.drop_last(), commit)
    }
}

/// The time of a commit as it is said.
spec fn time_said(said: Option<(Seq<char>, i64)>) -> int {
    match said {
        Some((_, ts)) => ts as int,
        None => 0,
    }
}

/// The author of a commit as it is said.
spec fn author_said(said: Option<(Seq<char>, i64)>) -> Seq<char> {
    match said {
        Some((name, _)) => name,
        None => seq![],
    }
}

/// Whether the lines were read as the hunks say it.
spec fn reads_as(lines: Seq<Seq<u8>>, hunks: Seq<Hunk>) -> bool {
    let n = lines.len() as int;
    &&& forall|c: Oid|
        #![trigger said_of(hunks, c)]
        time_before(lines, n, encode_utf8(bytes_hex(c@))) == time_said(said_of(hunks, c))
            && author_before(lines, n, encode_utf8(bytes_hex(c@))) == author_said(said_of(hunks, c))
    &&& blamed(lines, n).len() == hunks.len()
    &&& forall|i: int|
        0 <= i < hunks.len() ==> #[trigger] blamed(lines, n)[i] == (
            time_said(said_of(hunks.take(i + 1), hunks[i].commit)) as i64,
            author_said(said_of(hunks.take(i + 1), hunks[i].commit)),
        )
}

#[verifier::rlimit(40)]
proof fn lemma_hunk(lines: Seq<Seq<u8>>, hunks: Seq<Hunk>, h: Hunk)
    requires
        reads_as(lines, hunks),
        is_printed(h),
    ensures
        reads_as(lines + hunk_lines(h), hunks.push(h)),
{
    let hex = encode_utf8(bytes_hex(h.commit@));
    let header = header_line(h.commit, h.place);
    let all = hunks.push(h);
    assert(all.drop_last() =~= hunks);
    law_every_name_starts_a_hunk(h.commit, h.place);
    lemma_one_more_line(lines, header);
    assert(header[0] == hex[0] && is_hex_byte(header[0]));
    let a = lines.push(header);
    let b = a + h.first;
    lemma_other_lines(a, h.first);
    assert(commit_at(b, b.len() as int) == hex);
    let e = match h.said {
        Some((name, ts)) => {
            let c = b.push(author_line(name));
            let d = c + h.middle;
            let t = d.push(time_line(ts));
            let e = t + h.last;
            lemma_author_line(name);
            law_other_lines_start_no_hunk(name, ts, seq![], seq![]);
            lemma_one_more_line(b, author_line(name));
            lemma_other_lines(c, h.middle);
            lemma_time_line(ts);
            lemma_one_more_line(d, time_line(ts));
            lemma_other_lines(t, h.last);
            e
        },
        None => b,
    };
    let n = e.len() as int;
    assert(commit_at(e, n) == hex);
    assert forall|c: Oid|
        #![trigger said_of(all, c)]
        time_before(e, n, encode_utf8(bytes_hex(c@))) == time_said(said_of(all, c))
            && author_before(e, n, encode_utf8(bytes_hex(c@))) == author_said(said_of(all, c)) by {
        assert(said_of(hunks, c) == said_of(hunks, c));
        if c != h.commit && encode_utf8(bytes_hex(c@)) == hex {
            lemma_hex_tells_apart(c, h.commit);
        }
    }
    assert(blamed(e, n) == blamed(lines, lines.len() as int));
    let last = content_line(h.content);
    law_other_lines_start_no_hunk(seq![], 0, h.content, seq![]);
    lemma_marks();
    assert(!starts_with(last, author_mark())) by {
        if starts_with(last, author_mark()) {
            assert(last.take(7)[0] == author_mark()[0]);
        }
    }
    assert(!starts_with(last, time_mark())) by {
        if starts_with(last, time_mark()) {
            assert(last.take(12)[0] == time_mark()[0]);
        }
    }
    lemma_one_more_line(e, last);
    assert(lines + hunk_lines(h) =~= e.push(last));
    let more = e.push(last);
    let r = blamed(more, n + 1);
    assert forall|i: int| 0 <= i < all.len() implies #[trigger] r[i] == (
        time_said(said_of(all.take(i + 1), all[i].commit)) as i64,
        author_said(said_of(all.take(i + 1), all[i].commit)),
    ) by {
        if i < hunks.len() {
            assert(all.take(i + 1) =~= hunks.take(i + 1));
            assert(r[i] == blamed(lines, lines.len() as int)[i]);
        } else {
            assert(all.take(i + 1) =~= all);
            assert(said_of(all, h.commit) == said_of(all, h.commit));
        }
    }
}

proof fn lemma_hunks(hunks: Seq<Hunk>)
    requires
        forall|i: int| 0 <= i < hunks.len() ==> is_printed(#[trigger] hunks[i]),
    ensures
        reads_as(output_lines(hunks), hunks),
    decreases hunks.len(),
{
    if hunks.len() > 0 {
        let fewer = hunks.drop_last();
        assert forall|i: int| 0 <= i < fewer.len() implies is_printed(#[trigger] fewer[i]) by {
            assert(fewer[i] == hunks[i]);
        }
        lemma_hunks(fewer);
        assert(is_printed(hunks[hunks.len() - 1]));
        lemma_hunk(output_lines(fewer), fewer, hunks.last());
        assert(fewer.push(hunks.last()) =~= hunks);
    }
}

/// Lines are taken apart where they were put together.
proof fn lemma_lines_apart(lines: Seq<Seq<u8>>)
    requires
        forall|i: int| 0 <= i < lines.len() ==> !(#[trigger] lines[i]).contains(10u8),
    ensures
        split_on(as_bytes(lines), 10u8) == lines.push(seq![]),
    decreases lines.len(),
{
    if lines.len() == 0 {
        law_split_at_first(Seq::<u8>::empty(), seq![], 10u8);
        assert(lines.push(seq![]) =~= seq![Seq::<u8>::empty()]);
    } else {
        let rest = lines.drop_first();
        assert forall|i: int| 0 <= i < rest.len() implies !(#[trigger] rest[i]).contains(10u8) by {
            assert(rest[i] == lines[i + 1]);
        }
        lemma_lines_apart(rest);
        assert(!lines[0].contains(10u8));
        law_split_at_first(lines[0], as_bytes(rest), 10u8);
        assert(lines.push(seq![]) =~= seq![lines[0]] + rest.push(seq![]));
    }
}

proof fn lemma_no_break_in_ascii(text: Seq<char>, line: Seq<u8>, rest: Seq<u8>)
    requires
        !text.contains('\n'),
        is_ascii_chars(text),
        !rest.contains(10u8),
        line == encode_utf8(text) + rest,
    ensures
        !line.contains(10u8),
{
    vstd::utf8::is_ascii_chars_encode_utf8(text);
    if line.contains(10u8) {
        let i = choose|i: int| 0 <= i < line.len() && line[i] == 10u8;
        if i < text.len() {
            assert(text[i] as u8 == 10u8);
            assert(text.contains(text[i]));
        } else {
            assert(rest[i - text.len()] == 10u8);
        }
    }
}

proof fn lemma_hunk_has_no_break(h: Hunk, i: int)
    requires
        is_printed(h),
        0 <= i < hunk_lines(h).len(),
    ensures
        !hunk_lines(h)[i].contains(10u8),
{
    reveal_strlit("author ");
    reveal_strlit("author-time ");
    let lines = hunk_lines(h);
    let line = lines[i];
    let f = h.first.len() as int;
    if i == 0 {
        lemma_hex(h.commit);
        if line.contains(10u8) {
            let k = choose|k: int| 0 <= k < line.len() && line[k] == 10u8;
            if k < 40 {
                assert(is_hex_byte(encode_utf8(bytes_hex(h.commit@))[k]));
            } else if k > 40 {
                assert(h.place[k - 41] == 10u8);
            }
        }
    } else if i == lines.len() - 1 {
        assert(line == content_line(h.content));
        if line.contains(10u8) {
            let k = choose|k: int| 0 <= k < line.len() && line[k] == 10u8;
            assert(h.content[k - 1] == 10u8);
        }
    } else if i <= f {
        assert(line == h.first[i - 1]);
    } else {
        let (name, ts) = h.said->0;
        let m = h.middle.len() as int;
        if i == f + 1 {
            assert(line == author_line(name));
            lemma_no_break_in_ascii("author "@, line, encode_utf8(name));
        } else if i < f + 2 + m {
            assert(line == h.middle[i - f - 2]);
        } else if i == f + 2 + m {
            assert(line == time_line(ts));
            lemma_decimal_is_plain(ts as int);
            lemma_no_break_in_ascii("author-time "@, line, encode_utf8(decimal(ts as int)));
        } else {
            assert(line == h.last[i - f - 3 - m]);
        }
    }
}

proof fn lemma_no_breaks(hunks: Seq<Hunk>)
    requires
        forall|i: int| 0 <= i < hunks.len() ==> is_printed(#[trigger] hunks[i]),
    ensures
        forall|i: int|
            0 <= i < output_lines(hunks).len() ==> !(#[trigger] output_lines(hunks)[i]).contains(
                10u8,
            ),
    decreases hunks.len(),
{
    if hunks.len() > 0 {
        let fewer = hunks.drop_last();
        assert forall|i: int| 0 <= i < fewer.len() implies is_printed(#[trigger] fewer[i]) by {
            assert(fewer[i] == hunks[i]);
        }
        lemma_no_breaks(fewer);
        let before = output_lines(fewer);
        let h = hunks.last();
        assert(is_printed(hunks[hunks.len() - 1]));
        let lines = output_lines(hunks);
        assert forall|i: int| 0 <= i < lines.len() implies !(#[trigger] lines[i]).contains(10u8) by {
            if i < before.len() {
                assert(lines[i] == before[i]);
            } else {
                lemma_hunk_has_no_break(h, i - before.len());
                assert(lines[i] == hunk_lines(h)[i - before.len()]);
            }
        }
    }
}

proof fn lemma_blame_of_hunks(hunks: Seq<Hunk>)
    requires
        forall|i: int| 0 <= i < hunks.len() ==> is_printed(#[trigger] hunks[i]),
    ensures
        ({
            let r = blame_of(as_bytes(output_lines(hunks)));
            &&& r.len() == hunks.len()
            &&& forall|i: int|
                0 <= i < hunks.len() ==> #[trigger] r[i] == (
                    time_said(said_of(hunks.take(i + 1), hunks[i].commit)) as i64,
                    author_said(said_of(hunks.take(i + 1), hunks[i].commit)),
                )
        }),
{
    let lines = output_lines(hunks);
    lemma_hunks(hunks);
    lemma_no_breaks(hunks);
    lemma_lines_apart(lines);
    let end = Seq::<u8>::empty();
    lemma_one_more_line(lines, end);
}

proof fn lemma_said(hunks: Seq<Hunk>, j: int, commit: Oid)
    requires
        0 <= j < hunks.len(),
        hunks[j].commit == commit,
        hunks[j].said is Some,
        forall|k: int|
            j <= k < hunks.len() && (#[trigger] hunks[k]).commit == commit && hunks[k].said is Some
                ==> hunks[k].said == hunks[j].said,
    ensures
        said_of(hunks, commit) == hunks[j].said,
    decreases hunks.len(),
{
    let n = hunks.len() - 1;
    assert(hunks.last() == hunks[n]);
    if !(hunks[n].commit == commit && hunks[n].said is Some) {
        assert(hunks.drop_last()[j] == hunks[j]);
        assert forall|k: int|
            j <= k < n && (#[trigger] hunks.drop_last()[k]).commit == commit
                && hunks.drop_last()[k].said is Some implies hunks.drop_last()[k].said
            == hunks.drop_last()[j].said by {
            assert(hunks.drop_last()[k] == hunks[k]);
        }
        lemma_said(hunks.drop_last(), j, commit);
    }
}

proof fn lemma_unsaid(hunks: Seq<Hunk>, commit: Oid)
    requires
        forall|k: int|
            0 <= k < hunks.len() && (#[trigger] hunks[k]).commit == commit ==> hunks[k].said is None,
    ensures
        said_of(hunks, commit) is None,
    decreases hunks.len(),
{
    if hunks.len() > 0 {
        let n = hunks.len() - 1;
        assert(hunks.last() == hunks[n]);
        assert forall|k: int|
            0 <= k < n && (#[trigger] hunks.drop_last()[k]).commit == commit implies
            hunks.drop_last()[k].said is None by {
            assert(hunks.drop_last()[k] == hunks[k]);
        }
        lemma_unsaid(hunks.drop_last(), commit);
    }
}

/// What git prints for a file is read back: one pair for each line of the file, in
/// order; and a line of a commit has the time and the author that were said of
/// that commit, at this line or at an earlier one, whichever commits came between.
pub proof fn law_blame_is_read_back(hunks: Seq<Hunk>, i: int, j: int)
    requires
        forall|k: int| 0 <= k < hunks.len() ==> is_printed(#[trigger] hunks[k]),
        0 <= j <= i < hunks.len(),
        hunks[j].commit == hunks[i].commit,
        hunks[j].said is Some,
        forall|k: int|
            j <= k <= i && (#[trigger] hunks[k]).commit == hunks[i].commit && hunks[k].said is Some
                ==> hunks[k].said == hunks[j].said,
    ensures
        blame_of(as_bytes(output_lines(hunks))).len() == hunks.len(),
        hunks[j].said matches Some((name, ts)) && blame_of(as_bytes(output_lines(hunks)))[i] == (
            ts,
            name,
        ),
{
    lemma_blame_of_hunks(hunks);
    let seen = hunks.take(i + 1);
    let commit = hunks[i].commit;
    assert(seen[j] == hunks[j]);
    assert forall|k: int|
        j <= k < seen.len() && (#[trigger] seen[k]).commit == commit && seen[k].said is Some implies
        seen[k].said == seen[j].said by {
        assert(seen[k] == hunks[k]);
    }
    lemma_said(seen, j, commit);
}

/// A line of a commit of which nothing was said has no author, and the time 0.
pub proof fn law_unsaid_is_nobody(hunks: Seq<Hunk>, i: int)
    requires
        forall|k: int| 0 <= k < hunks.len() ==> is_printed(#[trigger] hunks[k]),
        0 <= i < hunks.len(),
        forall|k: int|
            0 <= k <= i && (#[trigger] hunks[k]).commit == hunks[i].commit ==> hunks[k].said is None,
    ensures
        blame_of(as_bytes(output_lines(hunks))).len() == hunks.len(),
        blame_of(as_bytes(output_lines(hunks)))[i] == (0i64, Seq::<char>::empty()),
{
    lemma_blame_of_hunks(hunks);
    let seen = hunks.take(i + 1);
    let commit = hunks[i].commit;
    assert forall|k: int| 0 <= k < seen.len() && (#[trigger] seen[k]).commit == commit implies
        seen[k].said is None by {
        assert(seen[k] == hunks[k]);
    }
    lemma_unsaid(seen, commit);
}

/// White space around a name or a time does not count; a time that is no number is
/// 0; and what is no text names nobody, and gives the time 0.
pub proof fn law_what_stands_behind_a_mark(
    text: Seq<char>,
    a: Seq<char>,
    b: Seq<char>,
    bytes: Seq<u8>,
)
    requires
        is_blank(a),
        is_blank(b),
        is_trimmed(text),
        !vstd::utf8::valid_utf8(bytes),
    ensures
        named_author(encode_utf8("author "@) + encode_utf8(a + text + b)) == Some(text),
        named_time(encode_utf8("author-time "@) + encode_utf8(a + text + b)) == Some(
            match parsed_number(text, i64::MIN as int, i64::MAX as int) {
                Some(ts) => ts,
                None => 0,
            },
        ),
        named_author(encode_utf8("author "@) + bytes) is None,
        named_time(encode_utf8("author-time "@) + bytes) == Some(0int),
{
    let whole = a + text + b;
    vstd::utf8::encode_utf8_valid_utf8(whole);
    vstd::utf8::encode_utf8_decode_utf8(whole);
    law_trim(a, text, b);
    lemma_behind_mark(encode_utf8(whole));
    lemma_behind_mark(bytes);
}

proof fn lemma_behind_mark(bytes: Seq<u8>)
    ensures
        ({
            let named = encode_utf8("author "@) + bytes;
            let timed = encode_utf8("author-time "@) + bytes;
            &&& !is_header(named) && starts_with(named, author_mark()) && named.skip(7) == bytes
            &&& !is_header(timed) && starts_with(timed, time_mark()) && timed.skip(12) == bytes
        }),
{
    lemma_marks();
    let named = encode_utf8("author "@) + bytes;
    let timed = encode_utf8("author-time "@) + bytes;
    law_starts_with(named, author_mark());
    law_starts_with(timed, time_mark());
    assert(named == author_mark() + bytes);
    assert(timed == time_mark() + bytes);
    assert(named.skip(7) =~= bytes);
    assert(timed.skip(12) =~= bytes);
    assert(named[1] == author_mark()[1] && timed[1] == time_mark()[1]);
    assert(!is_hex_byte(named[1]) && !is_hex_byte(timed[1]));
}

/// A line belongs to the commit of the last header before it, and before the first
/// header to one whose name is 40 zero bytes.
pub proof fn law_commit_of_a_line(lines: Seq<Seq<u8>>, h: int, j: int, commit: Oid, rest: Seq<u8>)
    requires
        0 <= h < j <= lines.len(),
        lines[h] == header_line(commit, rest),
        forall|k: int| h < k < j ==> !is_header(#[trigger] lines[k]),
    ensures
        commit_at(lines, j) == encode_utf8(bytes_hex(commit@)),
        commit_at(lines, 0) == Seq::new(40, |i: int| 0u8),
    decreases j,
{
    law_every_name_starts_a_hunk(commit, rest);
    if h < j - 1 {
        law_commit_of_a_line(lines, h, j - 1, commit, rest);
        assert(!is_header(lines[j - 1]));
    }
}

} // verus!
