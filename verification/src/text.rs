//! Strings as sequences of characters: the searching, splitting, trimming and
//! number formats that the rest of the crate is stated over.

use vstd::prelude::*;

verus! {

/// `String::push` appends one character.
pub assume_specification[ String::push ](s: &mut String, c: char)
    ensures
        final(s)@ == old(s)@.push(c),
;

/// What the strings of a list hold.
pub open spec fn texts(v: Seq<String>) -> Seq<Seq<char>> {
    v.map_values(|s: String| s@)
}

/// The place of the first `x` in `s`, or the length of `s` where there is none.
pub open spec fn position<T>(s: Seq<T>, x: T) -> int
    decreases s.len(),
{
    if s.len() == 0 || s[0] == x {
        0
    } else {
        1 + position(s.drop_first(), x)
    }
}

/// The place just behind the last `x` in `s`, or 0 where there is none.
pub open spec fn after_last<T>(s: Seq<T>, x: T) -> int
    decreases s.len(),
{
    if s.len() == 0 {
        0
    } else if s.last() == x {
        s.len() as int
    } else {
        after_last(s.drop_last(), x)
    }
}

/// The pieces of `s` between the separators, empty pieces included. There is
/// always at least one.
pub open spec fn split_on<T>(s: Seq<T>, sep: T) -> Seq<Seq<T>>
    decreases s.len(),
{
    let i = position(s, sep);
    if 0 <= i < s.len() {
        seq![s.take(i)] + split_on(s.skip(i + 1), sep)
    } else {
        seq![s]
    }
}

pub open spec fn starts_with<T>(s: Seq<T>, prefix: Seq<T>) -> bool {
    prefix.len() <= s.len() && s.take(prefix.len() as int) == prefix
}

pub open spec fn ends_with<T>(s: Seq<T>, suffix: Seq<T>) -> bool {
    suffix.len() <= s.len() && s.skip(s.len() - suffix.len()) == suffix
}

/// `s` without the suffix, taken off as often as it is there.
pub open spec fn without_suffixes<T>(s: Seq<T>, suffix: Seq<T>) -> Seq<T>
    decreases s.len(),
{
    if suffix.len() > 0 && ends_with(s, suffix) {
        without_suffixes(s.take(s.len() - suffix.len()), suffix)
    } else {
        s
    }
}

/// `s` without the prefix, taken off as often as it is there.
pub open spec fn without_prefixes<T>(s: Seq<T>, prefix: Seq<T>) -> Seq<T>
    decreases s.len(),
{
    if prefix.len() > 0 && starts_with(s, prefix) {
        without_prefixes(s.skip(prefix.len() as int), prefix)
    } else {
        s
    }
}

/// The Unicode property White_Space.
pub open spec fn is_white_space(c: char) -> bool {
    let u = c as int;
    ||| 0x9 <= u <= 0xd
    ||| u == 0x20
    ||| u == 0x85
    ||| u == 0xa0
    ||| u == 0x1680
    ||| 0x2000 <= u <= 0x200a
    ||| u == 0x2028
    ||| u == 0x2029
    ||| u == 0x202f
    ||| u == 0x205f
    ||| u == 0x3000
}

/// `s` without the white space at its start.
pub open spec fn trim_start(s: Seq<char>) -> Seq<char>
    decreases s.len(),
{
    if s.len() > 0 && is_white_space(s[0]) {
        trim_start(s.drop_first())
    } else {
        s
    }
}

/// `s` without the white space at its end.
pub open spec fn trim_end(s: Seq<char>) -> Seq<char>
    decreases s.len(),
{
    if s.len() > 0 && is_white_space(s.last()) {
        trim_end(s.drop_last())
    } else {
        s
    }
}

/// `s` without the white space at its two ends.
pub open spec fn trim(s: Seq<char>) -> Seq<char> {
    trim_end(trim_start(s))
}

/// The length of the longest start of `s` that holds no white space.
pub open spec fn word_len(s: Seq<char>) -> int
    decreases s.len(),
{
    if s.len() == 0 || is_white_space(s[0]) {
        0
    } else {
        1 + word_len(s.drop_first())
    }
}

pub proof fn lemma_trim_start_len(s: Seq<char>)
    ensures
        trim_start(s).len() <= s.len(),
        trim_start(s).len() > 0 ==> !is_white_space(trim_start(s)[0]),
    decreases s.len(),
{
    if s.len() > 0 && is_white_space(s[0]) {
        lemma_trim_start_len(s.drop_first());
    }
}

pub proof fn lemma_word_len(s: Seq<char>)
    ensures
        0 <= word_len(s) <= s.len(),
        s.len() > 0 && !is_white_space(s[0]) ==> word_len(s) > 0,
        forall|i: int| 0 <= i < word_len(s) ==> !is_white_space(#[trigger] s[i]),
        word_len(s) < s.len() ==> is_white_space(s[word_len(s)]),
    decreases s.len(),
{
    if s.len() > 0 && !is_white_space(s[0]) {
        let t = s.drop_first();
        lemma_word_len(t);
        assert forall|i: int| 0 <= i < word_len(s) implies !is_white_space(#[trigger] s[i]) by {
            if i > 0 {
                assert(s[i] == t[i - 1]);
            }
        }
    }
}

/// The words of `s`: its longest runs of characters that are not white space.
pub open spec fn words(s: Seq<char>) -> Seq<Seq<char>>
    decreases s.len(),
{
    let t = trim_start(s);
    if t.len() == 0 {
        seq![]
    } else {
        proof {
            lemma_trim_start_len(s);
            lemma_word_len(t);
        }
        seq![t.take(word_len(t))] + words(t.skip(word_len(t)))
    }
}

/// The lower-case form of an ASCII letter; every other character is kept.
pub open spec fn ascii_lower(c: char) -> char {
    if 'A' <= c <= 'Z' {
        (c as int + 32) as char
    } else {
        c
    }
}

/// The order of strings: that of the first characters that differ, and a
/// string comes before the longer ones that start with it.
pub open spec fn text_le(a: Seq<char>, b: Seq<char>) -> bool
    decreases a.len(),
{
    if a.len() == 0 {
        true
    } else if b.len() == 0 {
        false
    } else if a[0] != b[0] {
        a[0] < b[0]
    } else {
        text_le(a.drop_first(), b.drop_first())
    }
}

pub proof fn lemma_position<T>(s: Seq<T>, x: T, i: int)
    requires
        0 <= i <= s.len(),
        forall|k: int| 0 <= k < i ==> #[trigger] s[k] != x,
        i < s.len() ==> s[i] == x,
    ensures
        position(s, x) == i,
    decreases i,
{
    if i > 0 {
        let t = s.drop_first();
        assert forall|k: int| 0 <= k < i - 1 implies #[trigger] t[k] != x by {
            assert(t[k] == s[k + 1]);
        }
        lemma_position(t, x, i - 1);
    }
}

pub proof fn lemma_position_bounds<T>(s: Seq<T>, x: T)
    ensures
        0 <= position(s, x) <= s.len(),
        forall|k: int| 0 <= k < position(s, x) ==> #[trigger] s[k] != x,
        position(s, x) < s.len() ==> s[position(s, x)] == x,
    decreases s.len(),
{
    if s.len() > 0 && s[0] != x {
        let t = s.drop_first();
        lemma_position_bounds(t, x);
        assert forall|k: int| 0 <= k < position(s, x) implies #[trigger] s[k] != x by {
            if k > 0 {
                assert(s[k] == t[k - 1]);
            }
        }
    }
}

pub proof fn lemma_after_last<T>(s: Seq<T>, x: T, i: int)
    requires
        0 <= i <= s.len(),
        forall|k: int| i <= k < s.len() ==> #[trigger] s[k] != x,
        i > 0 ==> s[i - 1] == x,
    ensures
        after_last(s, x) == i,
    decreases s.len(),
{
    if s.len() > i {
        assert(s[s.len() - 1] != x);
        lemma_after_last(s.drop_last(), x, i);
    }
}

pub proof fn lemma_after_last_bounds<T>(s: Seq<T>, x: T)
    ensures
        0 <= after_last(s, x) <= s.len(),
        forall|k: int| after_last(s, x) <= k < s.len() ==> #[trigger] s[k] != x,
        after_last(s, x) > 0 ==> s[after_last(s, x) - 1] == x,
    decreases s.len(),
{
    if s.len() > 0 && s.last() != x {
        lemma_after_last_bounds(s.drop_last(), x);
        assert forall|k: int| after_last(s, x) <= k < s.len() implies #[trigger] s[k] != x by {
            if k < s.len() - 1 {
                assert(s.drop_last()[k] == s[k]);
            }
        }
    }
}

/// The characters of `s`, in order.
pub fn chars_of(s: &str) -> (r: Vec<char>)
    ensures
        r@ == s@,
{
    let mut r: Vec<char> = Vec::new();
    for c in iter: s.chars()
        invariant
            iter.seq() == s@,
            r@ == s@.take(iter.index() as int),
    {
        r.push(c);
        assert(s@.take(iter.index() as int).push(c) =~= s@.take(iter.index() + 1));
    }
    assert(s@.take(s@.len() as int) =~= s@);
    r
}

/// The string that holds the characters `chars[from..to]`.
pub fn string_of_range(chars: &Vec<char>, from: usize, to: usize) -> (r: String)
    requires
        from <= to <= chars@.len(),
    ensures
        r@ == chars@.subrange(from as int, to as int),
{
    let mut r = String::new();
    let mut i: usize = from;
    while i < to
        invariant
            from <= i <= to <= chars@.len(),
            r@ == chars@.subrange(from as int, i as int),
        decreases to - i,
    {
        r.push(chars[i]);
        assert(chars@.subrange(from as int, i as int).push(chars@[i as int]) =~= chars@.subrange(
            from as int,
            i + 1,
        ));
        i += 1;
    }
    r
}

/// The place of the first `c` in `chars[from..]`, counted from the start of
/// `chars`, or the length of `chars`.
pub fn find_char(chars: &Vec<char>, from: usize, c: char) -> (r: usize)
    requires
        from <= chars@.len(),
    ensures
        from <= r <= chars@.len(),
        r == from + position(chars@.skip(from as int), c),
{
    let ghost rest = chars@.skip(from as int);
    let mut i: usize = from;
    while i < chars.len() && chars[i] != c
        invariant
            from <= i <= chars@.len(),
            rest == chars@.skip(from as int),
            forall|k: int| 0 <= k < i - from ==> #[trigger] rest[k] != c,
        decreases chars@.len() - i,
    {
        i += 1;
    }
    proof {
        lemma_position(rest, c, i - from);
    }
    i
}

/// Whether two lists of characters are the same.
pub fn same_chars(a: &Vec<char>, b: &Vec<char>) -> (r: bool)
    ensures
        r == (a@ == b@),
{
    if a.len() != b.len() {
        return false;
    }
    let mut i: usize = 0;
    while i < a.len()
        invariant
            i <= a@.len() == b@.len(),
            a@.take(i as int) == b@.take(i as int),
        decreases a@.len() - i,
    {
        if a[i] != b[i] {
            return false;
        }
        assert(a@.take(i + 1) =~= a@.take(i as int).push(a@[i as int]));
        assert(b@.take(i + 1) =~= b@.take(i as int).push(b@[i as int]));
        i += 1;
    }
    assert(a@.take(i as int) =~= a@);
    assert(b@.take(i as int) =~= b@);
    true
}

/// Whether `part` stands in `chars` at the place `at`.
pub fn stands_at(chars: &Vec<char>, at: usize, part: &Vec<char>) -> (r: bool)
    requires
        at <= chars@.len(),
    ensures
        r == starts_with(chars@.skip(at as int), part@),
{
    if part.len() > chars.len() - at {
        return false;
    }
    let ghost rest = chars@.skip(at as int);
    let mut i: usize = 0;
    while i < part.len()
        invariant
            i <= part@.len(),
            part@.len() + at <= chars.len(),
            rest == chars@.skip(at as int),
            forall|k: int| 0 <= k < i ==> rest[k] == part@[k],
        decreases part@.len() - i,
    {
        if chars[at + i] != part[i] {
            assert(rest.take(part@.len() as int)[i as int] == chars@[at + i]);
            return false;
        }
        i += 1;
    }
    assert(rest.take(part@.len() as int) =~= part@);
    true
}

/// Whether `chars` starts with `prefix`.
pub fn has_prefix(chars: &Vec<char>, prefix: &str) -> (r: bool)
    ensures
        r == starts_with(chars@, prefix@),
{
    assert(chars@.skip(0) =~= chars@);
    stands_at(chars, 0, &chars_of(prefix))
}

/// Whether `part` stands somewhere in `s`.
pub open spec fn contains_part(s: Seq<char>, part: Seq<char>) -> bool {
    exists|i: int| 0 <= i <= s.len() && #[trigger] starts_with(s.skip(i), part)
}

/// Whether `part` stands somewhere in `chars`.
pub fn has_part(chars: &Vec<char>, part: &str) -> (r: bool)
    ensures
        r == contains_part(chars@, part@),
{
    let part_chars = chars_of(part);
    let mut i: usize = 0;
    loop
        invariant
            i <= chars@.len(),
            part_chars@ == part@,
            forall|k: int| 0 <= k < i ==> !#[trigger] starts_with(chars@.skip(k), part@),
        decreases chars@.len() - i,
    {
        if stands_at(chars, i, &part_chars) {
            return true;
        }
        if i == chars.len() {
            return false;
        }
        i += 1;
    }
}

/// Whether `c` stands in `chars`.
pub fn has_char(chars: &Vec<char>, c: char) -> (r: bool)
    ensures
        r == chars@.contains(c),
{
    let i = find_char(chars, 0, c);
    proof {
        assert(chars@.skip(0) =~= chars@);
        lemma_position_bounds(chars@, c);
        if chars@.contains(c) {
            let k = choose|k: int| 0 <= k < chars@.len() && chars@[k] == c;
            assert(chars@[k] == c);
        }
    }
    i < chars.len()
}

/// Whether `c` has the Unicode property White_Space.
pub fn char_is_white_space(c: char) -> (r: bool)
    ensures
        r == is_white_space(c),
{
    let u = c as u32;
    (0x9 <= u && u <= 0xd) || u == 0x20 || u == 0x85 || u == 0xa0 || u == 0x1680 || (0x2000 <= u
        && u <= 0x200a) || u == 0x2028 || u == 0x2029 || u == 0x202f || u == 0x205f || u == 0x3000
}

/// The end of `chars[from..to]` with the white space at its start left out.
fn skip_white_space(chars: &Vec<char>, from: usize, to: usize) -> (r: usize)
    requires
        from <= to <= chars@.len(),
    ensures
        from <= r <= to,
        chars@.subrange(r as int, to as int) == trim_start(
            chars@.subrange(from as int, to as int),
        ),
{
    let mut i: usize = from;
    while i < to && char_is_white_space(chars[i])
        invariant
            from <= i <= to <= chars@.len(),
            trim_start(chars@.subrange(i as int, to as int)) == trim_start(
                chars@.subrange(from as int, to as int),
            ),
        decreases to - i,
    {
        assert(chars@.subrange(i as int, to as int).drop_first() =~= chars@.subrange(
            i + 1,
            to as int,
        ));
        i += 1;
    }
    i
}

/// The ends of `chars[from..to]` with the white space at both ends left out.
pub fn trim_range(chars: &Vec<char>, from: usize, to: usize) -> (r: (usize, usize))
    requires
        from <= to <= chars@.len(),
    ensures
        from <= r.0 <= r.1 <= to,
        chars@.subrange(r.0 as int, r.1 as int) == trim(chars@.subrange(from as int, to as int)),
{
    let start = skip_white_space(chars, from, to);
    let mut end: usize = to;
    while end > start && char_is_white_space(chars[end - 1])
        invariant
            from <= start <= end <= to <= chars@.len(),
            trim_end(chars@.subrange(start as int, end as int)) == trim(
                chars@.subrange(from as int, to as int),
            ),
        decreases end,
    {
        assert(chars@.subrange(start as int, end as int).drop_last() =~= chars@.subrange(
            start as int,
            end - 1,
        ));
        end -= 1;
    }
    (start, end)
}

/// `s` without the white space at its two ends.
pub fn trim_text(s: &str) -> (r: String)
    ensures
        r@ == trim(s@),
{
    let chars = chars_of(s);
    let (from, to) = trim_range(&chars, 0, chars.len());
    assert(chars@.subrange(0, chars@.len() as int) =~= s@);
    string_of_range(&chars, from, to)
}

/// The pieces of `s` between the separators.
pub fn split_text(s: &str, sep: char) -> (r: Vec<String>)
    ensures
        texts(r@) == split_on(s@, sep),
{
    let chars = chars_of(s);
    let mut r: Vec<String> = Vec::new();
    let mut start: usize = 0;
    assert(chars@.skip(0) =~= s@);
    assert(texts(r@) + split_on(s@, sep) =~= split_on(s@, sep));
    loop
        invariant
            chars@ == s@,
            start <= chars@.len(),
            texts(r@) + split_on(s@.skip(start as int), sep) == split_on(s@, sep),
        decreases chars@.len() - start,
    {
        let ghost rest = s@.skip(start as int);
        let i = find_char(&chars, start, sep);
        let piece = string_of_range(&chars, start, i);
        let ghost before = r@;
        r.push(piece);
        assert(texts(r@) =~= texts(before).push(piece@));
        assert(piece@ =~= rest.take(i - start));
        if i == chars.len() {
            assert(piece@ =~= rest);
            assert(texts(r@) =~= texts(before) + seq![rest]);
            return r;
        }
        assert(rest.skip(i - start + 1) =~= s@.skip(i + 1));
        assert(texts(r@) + split_on(s@.skip(i + 1), sep) =~= texts(before) + (seq![rest.take(
            i - start,
        )] + split_on(rest.skip(i - start + 1), sep)));
        start = i + 1;
    }
}

/// The words of `s`.
pub fn words_of(s: &str) -> (r: Vec<String>)
    ensures
        texts(r@) == words(s@),
{
    let chars = chars_of(s);
    let n = chars.len();
    let mut r: Vec<String> = Vec::new();
    let mut start: usize = 0;
    assert(chars@.subrange(0, n as int) =~= s@);
    assert(texts(r@) + words(s@) =~= words(s@));
    loop
        invariant
            chars@ == s@,
            n == chars@.len(),
            start <= n,
            texts(r@) + words(chars@.subrange(start as int, n as int)) == words(s@),
        decreases n - start,
    {
        let ghost rest = chars@.subrange(start as int, n as int);
        let from = skip_white_space(&chars, start, n);
        let ghost t = chars@.subrange(from as int, n as int);
        if from == n {
            assert(texts(r@) + words(rest) =~= texts(r@));
            return r;
        }
        proof {
            lemma_trim_start_len(rest);
            lemma_word_len(t);
        }
        let mut to: usize = from;
        while to < n && !char_is_white_space(chars[to])
            invariant
                n == chars@.len(),
                from <= to <= n,
                t == chars@.subrange(from as int, n as int),
                to - from <= word_len(t) <= t.len(),
                forall|k: int| 0 <= k < word_len(t) ==> !is_white_space(#[trigger] t[k]),
                word_len(t) < t.len() ==> is_white_space(t[word_len(t)]),
            decreases n - to,
        {
            assert(chars@[to as int] == t[to - from]);
            to += 1;
        }
        proof {
            if to < n {
                assert(chars@[to as int] == t[to - from]);
            }
            assert(to - from == word_len(t));
        }
        let word = string_of_range(&chars, from, to);
        let ghost before = r@;
        r.push(word);
        assert(texts(r@) =~= texts(before).push(word@));
        assert(word@ =~= t.take(word_len(t)));
        assert(t.skip(word_len(t)) =~= chars@.subrange(to as int, n as int));
        assert(texts(r@) + words(chars@.subrange(to as int, n as int)) =~= texts(before) + (
        seq![t.take(word_len(t))] + words(t.skip(word_len(t)))));
        start = to;
    }
}

pub open spec fn is_digit(c: char) -> bool {
    '0' <= c <= '9'
}

pub open spec fn all_digits(s: Seq<char>) -> bool {
    forall|i: int| 0 <= i < s.len() ==> is_digit(#[trigger] s[i])
}

/// The number that decimal digits write.
pub open spec fn digits_value(s: Seq<char>) -> int
    decreases s.len(),
{
    if s.len() == 0 {
        0
    } else {
        10 * digits_value(s.drop_last()) + (s.last() as int - '0' as int)
    }
}

/// The number that `s` writes, if it is one between `min` and `max`: a sign,
/// which may be left out, and one digit or more. A minus is a sign only where
/// numbers below zero are wanted.
pub open spec fn parsed_number(s: Seq<char>, min: int, max: int) -> Option<int> {
    let negative = min < 0 && s.len() > 0 && s[0] == '-';
    let signed = negative || (s.len() > 0 && s[0] == '+');
    let body = if signed {
        s.skip(1)
    } else {
        s
    };
    let value = if negative {
        -digits_value(body)
    } else {
        digits_value(body)
    };
    if body.len() > 0 && all_digits(body) && min <= value <= max {
        Some(value)
    } else {
        None
    }
}

/// A number written in decimal, as far as it fits between `min` and `max`.
#[verifier::loop_isolation(false)]
fn parse_number(chars: &Vec<char>, min: i128, max: i128) -> (r: Option<i128>)
    requires
        i64::MIN <= min <= 0 <= max <= u64::MAX,
    ensures
        r is Some <==> parsed_number(chars@, min as int, max as int) is Some,
        r matches Some(v) ==> parsed_number(chars@, min as int, max as int) == Some(v as int),
{
    let n = chars.len();
    let negative = min < 0 && n > 0 && chars[0] == '-';
    let signed = negative || (n > 0 && chars[0] == '+');
    let start: usize = if signed {
        1
    } else {
        0
    };
    let ghost body = if signed {
        chars@.skip(1)
    } else {
        chars@
    };
    assert(body =~= chars@.skip(start as int));
    if start == n {
        return None;
    }
    let limit: i128 = 0x1_0000_0000_0000_0000;
    let mut big = false;
    let mut value: i128 = 0;
    let mut i: usize = start;
    while i < n
        invariant
            n == chars@.len(),
            start <= i <= n,
            limit == 0x1_0000_0000_0000_0000,
            body == chars@.skip(start as int),
            all_digits(body.take(i - start)),
            0 <= value <= limit,
            !big ==> value == digits_value(body.take(i - start)),
            big ==> digits_value(body.take(i - start)) > limit,
        decreases n - i,
    {
        let c = chars[i];
        let ghost done = body.take(i - start);
        let ghost next = body.take(i - start + 1);
        assert(next.drop_last() =~= done);
        assert(next.last() == c);
        if !('0' <= c && c <= '9') {
            assert(!is_digit(body[i - start]));
            return None;
        }
        let d = (c as u32 - '0' as u32) as i128;
        assert(all_digits(next)) by {
            assert forall|k: int| 0 <= k < next.len() implies is_digit(#[trigger] next[k]) by {
                if k < done.len() {
                    assert(next[k] == done[k]);
                }
            }
        }
        if !big {
            let more = 10 * value + d;
            if more > limit {
                big = true;
            } else {
                value = more;
            }
        }
        i += 1;
    }
    assert(body.take(n - start) =~= body);
    if big {
        return None;
    }
    let v = if negative {
        -value
    } else {
        value
    };
    if min <= v && v <= max {
        Some(v)
    } else {
        None
    }
}

/// The `i64` that `s` writes in decimal.
pub fn parse_i64(s: &str) -> (r: Option<i64>)
    ensures
        r is Some <==> parsed_number(s@, i64::MIN as int, i64::MAX as int) is Some,
        r matches Some(v) ==> parsed_number(s@, i64::MIN as int, i64::MAX as int) == Some(v as int),
{
    match parse_number(&chars_of(s), i64::MIN as i128, i64::MAX as i128) {
        Some(v) => Some(v as i64),
        None => None,
    }
}

/// The `usize` that `s` writes in decimal.
pub fn parse_usize(s: &str) -> (r: Option<usize>)
    ensures
        r is Some <==> parsed_number(s@, 0, usize::MAX as int) is Some,
        r matches Some(v) ==> parsed_number(s@, 0, usize::MAX as int) == Some(v as int),
{
    match parse_number(&chars_of(s), 0, usize::MAX as i128) {
        Some(v) => Some(v as usize),
        None => None,
    }
}

/// The digit that writes `d`, which is below 16.
pub open spec fn digit_char(d: int) -> char {
    if d < 10 {
        ('0' as int + d) as char
    } else {
        ('a' as int + d - 10) as char
    }
}

/// The decimal digits of a number that is not negative.
pub open spec fn decimal_digits(n: int) -> Seq<char>
    decreases n,
{
    if n < 10 {
        seq![digit_char(n)]
    } else {
        decimal_digits(n / 10).push(digit_char(n % 10))
    }
}

/// A number in decimal.
pub open spec fn decimal(n: int) -> Seq<char> {
    if n < 0 {
        seq!['-'] + decimal_digits(-n)
    } else {
        decimal_digits(n)
    }
}

/// The last `width` hexadecimal digits of a number.
pub open spec fn hex_digits(n: int, width: nat) -> Seq<char>
    decreases width,
{
    if width == 0 {
        seq![]
    } else {
        hex_digits(n / 16, (width - 1) as nat).push(digit_char(n % 16))
    }
}

fn digit_of(d: u64) -> (r: char)
    requires
        d < 16,
    ensures
        r == digit_char(d as int),
{
    if d < 10 {
        (48 + d as u8) as char
    } else {
        (87 + d as u8) as char
    }
}

/// Appends `n` in decimal.
pub fn push_digits(s: &mut String, n: u64)
    ensures
        final(s)@ == old(s)@ + decimal_digits(n as int),
    decreases n,
{
    if n >= 10 {
        push_digits(s, n / 10);
    }
    s.push(digit_of(n % 10));
    assert(s@ =~= old(s)@ + decimal_digits(n as int));
}

/// Appends `n` in decimal.
pub fn push_decimal(s: &mut String, n: i64)
    ensures
        final(s)@ == old(s)@ + decimal(n as int),
{
    if n < 0 {
        s.push('-');
        push_digits(s, (-(n as i128)) as u64);
    } else {
        push_digits(s, n as u64);
    }
    assert(s@ =~= old(s)@ + decimal(n as int));
}

/// Appends the last `width` hexadecimal digits of `n`.
pub fn push_hex(s: &mut String, n: u64, width: u8)
    ensures
        final(s)@ == old(s)@ + hex_digits(n as int, width as nat),
    decreases width,
{
    if width > 0 {
        push_hex(s, n / 16, width - 1);
        s.push(digit_of(n % 16));
    }
    assert(s@ =~= old(s)@ + hex_digits(n as int, width as nat));
}

/// Appends the characters of `part`.
pub fn push_text(s: &mut String, part: &str)
    ensures
        final(s)@ == old(s)@ + part@,
{
    s.append(part);
}

/// A text without the separator is one piece, and the first separator ends the
/// first piece: what stands behind it is split in the same way.
pub proof fn law_split_at_first<T>(a: Seq<T>, b: Seq<T>, sep: T)
    requires
        !a.contains(sep),
    ensures
        split_on(a, sep) == seq![a],
        split_on(a.push(sep) + b, sep) == seq![a] + split_on(b, sep),
{
    let s = a.push(sep) + b;
    let n = a.len() as int;
    assert forall|k: int| 0 <= k < n implies #[trigger] a[k] != sep by {
        assert(a.contains(a[k]));
    }
    lemma_position(a, sep, n);
    assert forall|k: int| 0 <= k < n implies #[trigger] s[k] != sep by {
        assert(s[k] == a[k]);
    }
    lemma_position(s, sep, n);
    assert(s.take(n) =~= a);
    assert(s.skip(n + 1) =~= b);
}

/// A text starts with a prefix if and only if it is the prefix and something
/// behind it.
pub proof fn law_starts_with<T>(s: Seq<T>, prefix: Seq<T>)
    ensures
        starts_with(s, prefix) <==> exists|rest: Seq<T>| s == #[trigger] (prefix + rest),
{
    let n = prefix.len() as int;
    if starts_with(s, prefix) {
        assert(s =~= prefix + s.skip(n));
    }
    if exists|rest: Seq<T>| s == #[trigger] (prefix + rest) {
        let rest = choose|rest: Seq<T>| s == #[trigger] (prefix + rest);
        assert(s.take(n) =~= prefix);
    }
}

/// A text ends with a suffix if and only if it is something and the suffix behind
/// it.
pub proof fn law_ends_with<T>(s: Seq<T>, suffix: Seq<T>)
    ensures
        ends_with(s, suffix) <==> exists|start: Seq<T>| s == #[trigger] (start + suffix),
{
    let n = s.len() - suffix.len();
    if ends_with(s, suffix) {
        assert(s =~= s.take(n) + suffix);
    }
    if exists|start: Seq<T>| s == #[trigger] (start + suffix) {
        let start = choose|start: Seq<T>| s == #[trigger] (start + suffix);
        assert(s.skip(n) =~= suffix);
    }
}

/// A part stands in a text if and only if the text is something, the part and
/// something behind it.
pub proof fn law_contains_part(s: Seq<char>, part: Seq<char>)
    ensures
        contains_part(s, part) <==> exists|a: Seq<char>, b: Seq<char>| s == #[trigger] (a + part + b),
{
    if contains_part(s, part) {
        let i = choose|i: int| 0 <= i <= s.len() && #[trigger] starts_with(s.skip(i), part);
        law_starts_with(s.skip(i), part);
        let rest = choose|rest: Seq<char>| s.skip(i) == #[trigger] (part + rest);
        assert(s =~= s.take(i) + s.skip(i));
        assert(s =~= s.take(i) + part + rest);
    }
    if exists|a: Seq<char>, b: Seq<char>| s == #[trigger] (a + part + b) {
        let (a, b) = choose|a: Seq<char>, b: Seq<char>| s == #[trigger] (a + part + b);
        let i = a.len() as int;
        assert(s.skip(i) =~= part + b);
        law_starts_with(s.skip(i), part);
        assert(starts_with(s.skip(i), part));
    }
}

/// One more suffix at the end makes no difference, and a text without it is kept
/// as it is.
pub proof fn law_suffixes_come_off<T>(s: Seq<T>, suffix: Seq<T>)
    ensures
        without_suffixes(s + suffix, suffix) == without_suffixes(s, suffix),
        (forall|start: Seq<T>| s != #[trigger] (start + suffix)) ==> without_suffixes(s, suffix) == s,
{
    let longer = s + suffix;
    assert(longer.skip(longer.len() - suffix.len()) =~= suffix);
    assert(longer.take(longer.len() - suffix.len()) =~= s);
    law_ends_with(s, suffix);
    if suffix.len() == 0 {
        assert(longer =~= s);
    }
}

/// One more prefix at the start makes no difference, and a text without it is kept
/// as it is.
pub proof fn law_prefixes_come_off<T>(s: Seq<T>, prefix: Seq<T>)
    ensures
        without_prefixes(prefix + s, prefix) == without_prefixes(s, prefix),
        (forall|rest: Seq<T>| s != #[trigger] (prefix + rest)) ==> without_prefixes(s, prefix) == s,
{
    let longer = prefix + s;
    assert(longer.take(prefix.len() as int) =~= prefix);
    assert(longer.skip(prefix.len() as int) =~= s);
    law_starts_with(s, prefix);
    if prefix.len() == 0 {
        assert(longer =~= s);
    }
}

/// Among the ASCII characters the blank, the tab and the four that end a line or a
/// page are white space; no letter, digit or mark is. The no-break space, the
/// ideographic space and the separators of lines and paragraphs are too.
pub proof fn law_white_space(c: char)
    ensures
        (c as int) < 128 ==> (is_white_space(c) <==> c == ' ' || c == '\t' || c == '\n' || c
            == '\x0b' || c == '\x0c' || c == '\r'),
        128 <= c as int ==> (is_white_space(c) <==> seq![
            0x85int,
            0xa0,
            0x1680,
            0x2000,
            0x2001,
            0x2002,
            0x2003,
            0x2004,
            0x2005,
            0x2006,
            0x2007,
            0x2008,
            0x2009,
            0x200a,
            0x2028,
            0x2029,
            0x202f,
            0x205f,
            0x3000,
        ].contains(c as int)),
{
    let others = seq![
        0x85int,
        0xa0,
        0x1680,
        0x2000,
        0x2001,
        0x2002,
        0x2003,
        0x2004,
        0x2005,
        0x2006,
        0x2007,
        0x2008,
        0x2009,
        0x200a,
        0x2028,
        0x2029,
        0x202f,
        0x205f,
        0x3000,
    ];
    let u = c as int;
    if 128 <= u && is_white_space(c) {
        let i = if u == 0x85 {
            0int
        } else if u == 0xa0 {
            1
        } else if u == 0x1680 {
            2
        } else if u <= 0x200a {
            3 + (u - 0x2000)
        } else if u == 0x2028 {
            14
        } else if u == 0x2029 {
            15
        } else if u == 0x202f {
            16
        } else if u == 0x205f {
            17
        } else {
            18
        };
        assert(others[i] == u);
    }
}

/// Whether a text is white space throughout.
pub open spec fn is_blank(s: Seq<char>) -> bool {
    forall|i: int| 0 <= i < s.len() ==> is_white_space(#[trigger] s[i])
}

/// Whether a text has no white space at its two ends.
pub open spec fn is_trimmed(s: Seq<char>) -> bool {
    s.len() > 0 ==> !is_white_space(s[0]) && !is_white_space(s.last())
}

proof fn lemma_trim_start(a: Seq<char>, s: Seq<char>)
    requires
        is_blank(a),
        s.len() > 0 ==> !is_white_space(s[0]),
    ensures
        trim_start(a + s) == s,
    decreases a.len(),
{
    let all = a + s;
    if a.len() == 0 {
        assert(all =~= s);
    } else {
        assert(all[0] == a[0]);
        assert(all.drop_first() =~= a.drop_first() + s);
        assert forall|i: int| 0 <= i < a.drop_first().len() implies is_white_space(
            #[trigger] a.drop_first()[i],
        ) by {
            assert(a.drop_first()[i] == a[i + 1]);
        }
        lemma_trim_start(a.drop_first(), s);
    }
}

proof fn lemma_trim_end(s: Seq<char>, b: Seq<char>)
    requires
        is_blank(b),
        s.len() > 0 ==> !is_white_space(s.last()),
    ensures
        trim_end(s + b) == s,
    decreases b.len(),
{
    let all = s + b;
    if b.len() == 0 {
        assert(all =~= s);
    } else {
        assert(all.last() == b[b.len() - 1]);
        assert(all.drop_last() =~= s + b.drop_last());
        assert forall|i: int| 0 <= i < b.drop_last().len() implies is_white_space(
            #[trigger] b.drop_last()[i],
        ) by {
            assert(b.drop_last()[i] == b[i]);
        }
        lemma_trim_end(s, b.drop_last());
    }
}

/// White space around a text comes off, and nothing else does.
pub proof fn law_trim(a: Seq<char>, s: Seq<char>, b: Seq<char>)
    requires
        is_blank(a),
        is_trimmed(s),
        is_blank(b),
    ensures
        trim(a + s + b) == s,
{
    if s.len() == 0 {
        let all = a + s + b;
        assert forall|i: int| 0 <= i < all.len() implies is_white_space(#[trigger] all[i]) by {
            if i < a.len() {
                assert(all[i] == a[i]);
            } else {
                assert(all[i] == b[i - a.len()]);
            }
        }
        lemma_trim_start(all, s);
        assert(all + s =~= all);
        assert(trim_end(s) =~= s);
    } else {
        assert(a + s + b =~= a + (s + b));
        lemma_trim_start(a, s + b);
        lemma_trim_end(s, b);
    }
}

/// The first word of a text ends at the next white space, and what stands there is
/// taken apart in the same way; white space alone has no words.
pub proof fn law_words(a: Seq<char>, word: Seq<char>, rest: Seq<char>)
    requires
        is_blank(a),
        word.len() > 0,
        forall|i: int| 0 <= i < word.len() ==> !is_white_space(#[trigger] word[i]),
        rest.len() > 0 ==> is_white_space(rest[0]),
    ensures
        words(a) == Seq::<Seq<char>>::empty(),
        words(a + word + rest) == seq![word] + words(rest),
{
    let t = word + rest;
    assert(a + word + rest =~= a + t);
    assert(t[0] == word[0]);
    lemma_trim_start(a, t);
    lemma_trim_start(a, seq![]);
    assert(a + seq![] =~= a);
    lemma_word_len(t);
    let n = word_len(t);
    assert(n == word.len()) by {
        if n < word.len() {
            assert(t[n] == word[n]);
        } else if n > word.len() {
            assert(t[word.len() as int] == rest[0]);
        }
    }
    assert(t.take(n) =~= word);
    assert(t.skip(n) =~= rest);
}

/// The capital letters of ASCII have the small ones, in their order, for lower
/// case; every other character is its own.
pub proof fn law_ascii_lower(c: char)
    ensures
        'A' <= c <= 'Z' ==> 'a' <= ascii_lower(c) <= 'z' && ascii_lower(c) as int - 'a' as int == c as int
            - 'A' as int,
        !('A' <= c <= 'Z') ==> ascii_lower(c) == c,
{
}

/// Strings are in the order of the first characters that differ, and a string
/// comes before every longer one that starts with it.
pub proof fn law_text_order(
    p: Seq<char>,
    a: char,
    x: Seq<char>,
    b: char,
    y: Seq<char>,
)
    requires
        a != b,
    ensures
        text_le(p.push(a) + x, p.push(b) + y) <==> a < b,
        text_le(p, p.push(a) + x),
        !text_le(p.push(a) + x, p),
        text_le(p, p),
    decreases p.len(),
{
    let s = p.push(a) + x;
    let t = p.push(b) + y;
    if p.len() == 0 {
        assert(s[0] == a && t[0] == b);
    } else {
        let q = p.drop_first();
        law_text_order(q, a, x, b, y);
        assert(s.drop_first() =~= q.push(a) + x);
        assert(t.drop_first() =~= q.push(b) + y);
        assert(s[0] == p[0] && t[0] == p[0]);
    }
}

/// A number below ten is written as one digit, and a digit behind a number writes
/// ten times the number and the digit.
pub proof fn law_decimal(n: int, d: int)
    requires
        0 < n,
        0 <= d < 10,
    ensures
        decimal(d) == seq!["0123456789"@[d]],
        decimal(10 * n + d) == decimal(n).push("0123456789"@[d]),
        decimal(-n) == seq!['-'] + decimal(n),
{
    reveal_strlit("0123456789");
    assert((10 * n + d) / 10 == n);
    assert((10 * n + d) % 10 == d);
}

pub proof fn lemma_decimal_digits(n: int)
    requires
        n >= 0,
    ensures
        decimal_digits(n).len() > 0,
        all_digits(decimal_digits(n)),
        digits_value(decimal_digits(n)) == n,
    decreases n,
{
    reveal_with_fuel(digits_value, 2);
    let s = decimal_digits(n);
    if n < 10 {
        assert(s.drop_last() =~= seq![]);
    } else {
        lemma_decimal_digits(n / 10);
        let t = decimal_digits(n / 10);
        assert(s.drop_last() =~= t);
        assert forall|i: int| 0 <= i < s.len() implies is_digit(#[trigger] s[i]) by {
            if i < t.len() {
                assert(s[i] == t[i]);
            }
        }
    }
}

/// A number is read back as it is written, with a plus before it or without, if it
/// is one between `min` and `max`, and else not.
pub proof fn law_number_is_read_back(n: int, min: int, max: int)
    ensures
        parsed_number(decimal(n), min, max) == (if min <= n <= max {
            Some(n)
        } else {
            None
        }),
        n >= 0 ==> parsed_number(seq!['+'] + decimal(n), min, max) == parsed_number(
            decimal(n),
            min,
            max,
        ),
{
    let m = if n < 0 {
        -n
    } else {
        n
    };
    let body = decimal_digits(m);
    lemma_decimal_digits(m);
    let s = decimal(n);
    assert(is_digit(body[0]));
    if n < 0 {
        assert(s.skip(1) =~= body);
        assert(!is_digit(s[0]));
    } else {
        let signed = seq!['+'] + s;
        assert(signed.skip(1) =~= body);
    }
}

/// What has anything but digits behind its first character is no number, nor is
/// what starts with anything but a digit or a sign, nor nothing at all.
pub proof fn law_digits_make_numbers(s: Seq<char>, i: int, min: int, max: int)
    ensures
        0 < i < s.len() && !('0' <= s[i] <= '9') ==> parsed_number(s, min, max) is None,
        s.len() > 0 && !('0' <= s[0] <= '9') && s[0] != '+' && s[0] != '-' ==> parsed_number(
            s,
            min,
            max,
        ) is None,
        s.len() == 0 ==> parsed_number(s, min, max) is None,
        s.len() == 1 && !('0' <= s[0] <= '9') ==> parsed_number(s, min, max) is None,
{
    if 0 < i < s.len() && !('0' <= s[i] <= '9') {
        assert(s.skip(1)[i - 1] == s[i]);
        assert(!is_digit(s.skip(1)[i - 1]));
        assert(!is_digit(s[i]));
    }
    if s.len() > 0 && !('0' <= s[0] <= '9') {
        assert(!is_digit(s[0]));
    }
}

/// A zero before the digits of a number makes no other number.
pub proof fn law_zeros_come_first(s: Seq<char>, min: int, max: int)
    requires
        s.len() > 0,
        forall|i: int| 0 <= i < s.len() ==> '0' <= #[trigger] s[i] <= '9',
    ensures
        parsed_number(seq!['0'] + s, min, max) == parsed_number(s, min, max),
{
    let t = seq!['0'] + s;
    lemma_zero_first(s);
    assert forall|i: int| 0 <= i < s.len() implies is_digit(#[trigger] s[i]) by {}
    assert(all_digits(s));
    assert forall|i: int| 0 <= i < t.len() implies is_digit(#[trigger] t[i]) by {
        if i > 0 {
            assert(t[i] == s[i - 1]);
        }
    }
    assert(all_digits(t));
    assert(is_digit(s[0]) && is_digit(t[0]));
}

proof fn lemma_zero_first(s: Seq<char>)
    ensures
        digits_value(seq!['0'] + s) == digits_value(s),
    decreases s.len(),
{
    reveal_with_fuel(digits_value, 2);
    let t = seq!['0'] + s;
    if s.len() == 0 {
        assert(t.drop_last() =~= seq![]);
    } else {
        lemma_zero_first(s.drop_last());
        assert(t.drop_last() =~= seq!['0'] + s.drop_last());
        assert(t.last() == s.last());
    }
}

/// So many hexadecimal digits are written as were asked for, the last of them for
/// what a division by sixteen leaves, and those before it for the quotient.
pub proof fn law_hex_digits(n: int, width: nat)
    requires
        n >= 0,
    ensures
        hex_digits(n, width).len() == width,
        width > 0 ==> hex_digits(n, width).last() == "0123456789abcdef"@[n % 16],
        width > 0 ==> hex_digits(n, width).drop_last() == hex_digits(n / 16, (width - 1) as nat),
    decreases width,
{
    reveal_strlit("0123456789abcdef");
    if width > 0 {
        law_hex_digits(n / 16, (width - 1) as nat);
        assert(hex_digits(n, width).drop_last() =~= hex_digits(n / 16, (width - 1) as nat));
    }
}

/// The texts of a list are what its strings hold, in their order.
pub proof fn law_texts(v: Seq<String>, s: String)
    ensures
        texts(Seq::<String>::empty()) == Seq::<Seq<char>>::empty(),
        texts(v.push(s)) == texts(v).push(s@),
{
    assert(texts(Seq::<String>::empty()) =~= Seq::<Seq<char>>::empty());
    assert(texts(v.push(s)) =~= texts(v).push(s@));
}

/// A text is taken apart at white space, or at a separator, and freed of the white
/// space around it.
pub proof fn law_parts_of_a_text(
    s: &str,
    trimmed: String,
    in_words: Vec<String>,
    sep: char,
    in_parts: Vec<String>,
    a: Seq<char>,
    b: Seq<char>,
    word: Seq<char>,
    rest: &str,
    words_of_rest: Vec<String>,
    parts_of_rest: Vec<String>,
)
    requires
        call_ensures(trim_text, (s,), trimmed),
        call_ensures(words_of, (s,), in_words),
        call_ensures(split_text, (s, sep), in_parts),
        call_ensures(words_of, (rest,), words_of_rest),
        call_ensures(split_text, (rest, sep), parts_of_rest),
        is_blank(a),
        is_blank(b),
        word.len() > 0,
        forall|i: int| 0 <= i < word.len() ==> !is_white_space(#[trigger] word[i]),
    ensures
        s@ == a + word + b ==> trimmed@ == word,
        s@ == a ==> in_words@.len() == 0,
        s@ == a + word + rest@ && (rest@.len() > 0 ==> is_white_space(rest@[0])) ==> texts(
            in_words@,
        ) == seq![word] + texts(words_of_rest@),
        s@ == word && !word.contains(sep) ==> texts(in_parts@) == seq![word],
        s@ == word.push(sep) + rest@ && !word.contains(sep) ==> texts(in_parts@) == seq![word]
            + texts(parts_of_rest@),
{
    assert(!is_white_space(word[0]) && !is_white_space(word[word.len() - 1]));
    law_trim(a, word, b);
    law_words(a, word, Seq::empty());
    if rest@.len() > 0 ==> is_white_space(rest@[0]) {
        law_words(a, word, rest@);
    }
    if !word.contains(sep) {
        law_split_at_first(word, rest@, sep);
    }
    assert(texts(in_words@).len() == in_words@.len());
}

/// What is put behind a text stands there as it is, or in digits.
pub proof fn law_what_is_put_behind(
    s: &mut String,
    n: u64,
    t: &mut String,
    i: i64,
    u: &mut String,
    h: u64,
    width: u8,
    v: &mut String,
    part: &str,
)
    requires
        call_ensures(push_digits, (s, n), ()),
        call_ensures(push_decimal, (t, i), ()),
        call_ensures(push_hex, (u, h, width), ()),
        call_ensures(push_text, (v, part), ()),
    ensures
        final(s)@ == old(s)@ + decimal(n as int),
        final(t)@ == old(t)@ + decimal(i as int),
        final(u)@ == old(u)@ + hex_digits(h as int, width as nat),
        final(v)@ == old(v)@ + part@,
{
}

/// A character, or a part, is found in a text where the text has it.
pub proof fn law_what_is_found(
    chars: &Vec<char>,
    from: usize,
    c: char,
    at: usize,
    part: &str,
    begins: bool,
    has: bool,
    has_c: bool,
    other: &Vec<char>,
    same: bool,
)
    requires
        from <= chars@.len(),
        call_ensures(find_char, (chars, from, c), at),
        call_ensures(has_prefix, (chars, part), begins),
        call_ensures(has_part, (chars, part), has),
        call_ensures(has_char, (chars, c), has_c),
        call_ensures(same_chars, (chars, other), same),
    ensures
        from <= at <= chars@.len(),
        at < chars@.len() ==> chars@[at as int] == c,
        forall|i: int| from <= i < at ==> #[trigger] chars@[i] != c,
        begins <==> exists|rest: Seq<char>| chars@ == #[trigger] (part@ + rest),
        has <==> exists|a: Seq<char>, b: Seq<char>| chars@ == #[trigger] (a + part@ + b),
        has_c <==> exists|i: int| 0 <= i < chars@.len() && #[trigger] chars@[i] == c,
        same <==> chars@ == other@,
{
    law_starts_with(chars@, part@);
    law_contains_part(chars@, part@);
    let behind = chars@.skip(from as int);
    lemma_position_bounds(behind, c);
    if at < chars@.len() {
        assert(behind[at - from] == chars@[at as int]);
    }
    assert forall|i: int| from <= i < at implies #[trigger] chars@[i] != c by {
        assert(behind[i - from] == chars@[i]);
    }
}

/// A plus before digits changes nothing; a minus makes the number that is as far
/// below zero, where such numbers are wanted, and otherwise no number.
pub proof fn law_signs(s: Seq<char>, min: int, max: int, v: int)
    requires
        s.len() > 0,
        forall|i: int| 0 <= i < s.len() ==> '0' <= #[trigger] s[i] <= '9',
        parsed_number(s, 0, v) == Some(v),
    ensures
        parsed_number(s, min, max) == (if min <= v <= max {
            Some(v)
        } else {
            None
        }),
        parsed_number(seq!['+'] + s, min, max) == parsed_number(s, min, max),
        parsed_number(seq!['-'] + s, min, max) == (if min < 0 && min <= -v <= max {
            Some(-v)
        } else {
            None
        }),
{
    let plus = seq!['+'] + s;
    let minus = seq!['-'] + s;
    assert(plus.skip(1) =~= s);
    assert(minus.skip(1) =~= s);
    assert(all_digits(s));
    assert(is_digit(s[0]));
    assert(minus[0] == '-' && !is_digit(minus[0]));
}

} // verus!
