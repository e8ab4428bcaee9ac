//! Reading trees from `git cat-file --batch`: the header of an object, the
//! entries of a tree, and the walk from tree to tree.

use crate::blame::{text_of_bytes, utf8_text};
use crate::files::file_views;
use crate::text::{
    chars_of, decimal, is_digit, law_number_is_read_back, lemma_decimal_digits, lemma_position,
    lemma_position_bounds, parse_usize, parsed_number, position, push_text, same_chars,
    string_of_range,
};
use crate::types::Oid;
use vstd::prelude::*;

verus! {

/// ASCII white space.
pub open spec fn is_ascii_space(c: char) -> bool {
    c == ' ' || c == '\t' || c == '\n' || c == '\r' || c == '\x0C'
}

/// The length of the longest start of `s` that holds no ASCII white space.
pub open spec fn ascii_word_len(s: Seq<char>) -> int
    decreases s.len(),
{
    if s.len() == 0 || is_ascii_space(s[0]) {
        0
    } else {
        1 + ascii_word_len(s.drop_first())
    }
}

/// `s` without the ASCII white space at its start.
pub open spec fn skip_ascii_space(s: Seq<char>) -> Seq<char>
    decreases s.len(),
{
    if s.len() > 0 && is_ascii_space(s[0]) {
        skip_ascii_space(s.drop_first())
    } else {
        s
    }
}

/// The first word of `s`, and what follows it; no word where there is none.
pub open spec fn first_word(s: Seq<char>) -> Option<(Seq<char>, Seq<char>)> {
    let t = skip_ascii_space(s);
    let n = ascii_word_len(t);
    if n > 0 {
        Some((t.take(n), t.skip(n)))
    } else {
        None
    }
}

/// What the header of an object says: three words, its name, its kind and its
/// size. Whether the kind is "tree", and the size; nothing where a word is
/// missing, as for an object that is missing itself, or the size is no number.
pub open spec fn header_of(header: Seq<char>) -> Option<(bool, int)> {
    match first_word(header) {
        Some((_, rest)) => match first_word(rest) {
            Some((kind, rest)) => match first_word(rest) {
                Some((size, _)) => match parsed_number(size, 0, usize::MAX as int) {
                    Some(n) => Some((kind == "tree"@, n)),
                    None => None,
                },
                None => None,
            },
            None => None,
        },
        None => None,
    }
}

/// The next word in `chars[from..]`: where it starts and ends.
fn next_word(chars: &Vec<char>, from: usize) -> (r: Option<(usize, usize)>)
    requires
        from <= chars@.len(),
    ensures
        r is Some <==> first_word(chars@.skip(from as int)) is Some,
        r matches Some(w) ==> from <= w.0 <= w.1 <= chars@.len() && first_word(
            chars@.skip(from as int),
        ) == Some((chars@.subrange(w.0 as int, w.1 as int), chars@.skip(w.1 as int))),
{
    let n = chars.len();
    let ghost s = chars@.skip(from as int);
    let mut start: usize = from;
    while start < n && (chars[start] == ' ' || chars[start] == '\t' || chars[start] == '\n'
        || chars[start] == '\r' || chars[start] == '\x0C')
        invariant
            n == chars@.len(),
            from <= start <= n,
            s == chars@.skip(from as int),
            skip_ascii_space(chars@.skip(start as int)) == skip_ascii_space(s),
        decreases n - start,
    {
        assert(chars@.skip(start as int).drop_first() =~= chars@.skip(start + 1));
        start += 1;
    }
    let ghost t = chars@.skip(start as int);
    assert(skip_ascii_space(s) == t);
    let mut end: usize = start;
    while end < n && !(chars[end] == ' ' || chars[end] == '\t' || chars[end] == '\n' || chars[end]
        == '\r' || chars[end] == '\x0C')
        invariant
            n == chars@.len(),
            start <= end <= n,
            t == chars@.skip(start as int),
            ascii_word_len(t) == end - start + ascii_word_len(chars@.skip(end as int)),
        decreases n - end,
    {
        assert(chars@.skip(end as int).drop_first() =~= chars@.skip(end + 1));
        end += 1;
    }
    assert(ascii_word_len(t) == end - start);
    assert(t.take(end - start) =~= chars@.subrange(start as int, end as int));
    assert(t.skip(end - start) =~= chars@.skip(end as int));
    if start < end {
        Some((start, end))
    } else {
        None
    }
}

/// What the header line of an object says: whether the object is a tree, and how
/// many bytes follow it. A line that is no text says nothing, and one that gives
/// no size is followed by no bytes.
pub fn object_header(line: &[u8]) -> (r: Option<(bool, usize)>)
    ensures
        match utf8_text(line@) {
            Some(text) => match header_of(text) {
                Some(h) => r matches Some(v) && v.0 == h.0 && v.1 == h.1,
                None => r is None,
            },
            None => r is None,
        },
{
    let text = match text_of_bytes(line) {
        Some(text) => text,
        None => {
            return None;
        },
    };
    let chars = chars_of(text);
    assert(chars@.skip(0) =~= text@);
    let (_, end) = match next_word(&chars, 0) {
        Some(w) => w,
        None => {
            return None;
        },
    };
    let (kind_start, kind_end) = match next_word(&chars, end) {
        Some(w) => w,
        None => {
            return None;
        },
    };
    let (size_start, size_end) = match next_word(&chars, kind_end) {
        Some(w) => w,
        None => {
            return None;
        },
    };
    let kind = chars_of(string_of_range(&chars, kind_start, kind_end).as_str());
    let is_tree = same_chars(&kind, &chars_of("tree"));
    match parse_usize(string_of_range(&chars, size_start, size_end).as_str()) {
        Some(size) => Some((is_tree, size)),
        None => None,
    }
}

/// What an entry of a tree stands for: a tree of its own, a commit of another
/// repository, or a file.
#[derive(Clone, Copy, PartialEq, Eq, Structural)]
pub enum EntryKind {
    Tree,
    Link,
    File,
}

/// What a mode says of an entry: "40000" or "040000" is a tree and "160000" a
/// commit of another repository.
pub open spec fn kind_of(mode: Seq<u8>) -> EntryKind {
    if mode == seq![52u8, 48u8, 48u8, 48u8, 48u8] || mode == seq![
        48u8,
        52u8,
        48u8,
        48u8,
        48u8,
        48u8,
    ] {
        EntryKind::Tree
    } else if mode == seq![49u8, 54u8, 48u8, 48u8, 48u8, 48u8] {
        EntryKind::Link
    } else {
        EntryKind::File
    }
}

/// Whether `data[from..to]` is the given bytes.
fn is_bytes(data: &[u8], from: usize, to: usize, what: &Vec<u8>) -> (r: bool)
    requires
        from <= to <= data@.len(),
    ensures
        r == (data@.subrange(from as int, to as int) == what@),
{
    if to - from != what.len() {
        return false;
    }
    let ghost s = data@.subrange(from as int, to as int);
    let mut i: usize = 0;
    while i < what.len()
        invariant
            from <= to <= data@.len(),
            to - from == what@.len(),
            i <= what@.len(),
            s == data@.subrange(from as int, to as int),
            forall|k: int| 0 <= k < i ==> s[k] == what@[k],
        decreases what@.len() - i,
    {
        if data[from + i] != what[i] {
            assert(s[i as int] != what@[i as int]);
            return false;
        }
        i += 1;
    }
    assert(s =~= what@);
    true
}

/// What the mode in `data[from..to]` says of an entry.
fn read_kind(data: &[u8], from: usize, to: usize) -> (r: EntryKind)
    requires
        from <= to <= data@.len(),
    ensures
        r == kind_of(data@.subrange(from as int, to as int)),
{
    let tree: Vec<u8> = vec![52u8, 48u8, 48u8, 48u8, 48u8];
    let padded: Vec<u8> = vec![48u8, 52u8, 48u8, 48u8, 48u8, 48u8];
    let link: Vec<u8> = vec![49u8, 54u8, 48u8, 48u8, 48u8, 48u8];
    assert(tree@ =~= seq![52u8, 48u8, 48u8, 48u8, 48u8]);
    assert(padded@ =~= seq![48u8, 52u8, 48u8, 48u8, 48u8, 48u8]);
    assert(link@ =~= seq![49u8, 54u8, 48u8, 48u8, 48u8, 48u8]);
    if is_bytes(data, from, to, &tree) || is_bytes(data, from, to, &padded) {
        EntryKind::Tree
    } else if is_bytes(data, from, to, &link) {
        EntryKind::Link
    } else {
        EntryKind::File
    }
}

/// An entry of a tree.
#[verifier::ext_equal]
pub struct EntryView {
    pub kind: EntryKind,
    pub name: Seq<char>,
    pub oid: Oid,
}

/// The 20 bytes at `at`.
pub open spec fn oid_at(data: Seq<u8>, at: int) -> Oid {
    choose|oid: Oid| #[trigger] oid@ == data.subrange(at, at + 20)
}

/// The entries of a tree from the place `i` on. Each is the mode, a space, the
/// name, a zero byte and the 20 bytes of the object's name. An entry whose name
/// is no text is passed over, and what is cut short ends the list.
pub open spec fn entries_from(data: Seq<u8>, i: int) -> Seq<EntryView>
    decreases
            if i < data.len() {
                data.len() - i
            } else {
                0
            },
{
    if i < 0 || i >= data.len() {
        seq![]
    } else {
        let space = i + position(data.skip(i), 32u8);
        let zero = space + 1 + position(data.skip(space + 1), 0u8);
        let next = zero + 21;
        if space < i || space >= data.len() || zero <= space || zero >= data.len() {
            seq![]
        } else {
            match utf8_text(data.subrange(space + 1, zero)) {
                None => entries_from(data, next),
                Some(name) => if next > data.len() {
                    seq![]
                } else {
                    let entry = EntryView {
                        kind: kind_of(data.subrange(i, space)),
                        name,
                        oid: oid_at(data, zero + 1),
                    };
                    seq![entry] + entries_from(data, next)
                },
            }
        }
    }
}

/// The entries of a tree.
pub open spec fn tree_entries(data: Seq<u8>) -> Seq<EntryView> {
    entries_from(data, 0)
}

/// An entry of a tree.
pub struct TreeEntry {
    pub kind: EntryKind,
    pub name: String,
    pub oid: Oid,
}

impl TreeEntry {
    pub open spec fn view(&self) -> EntryView {
        EntryView { kind: self.kind, name: self.name@, oid: self.oid }
    }
}

/// The entries as plain values.
pub open spec fn tree_views(entries: Seq<TreeEntry>) -> Seq<EntryView> {
    entries.map_values(|e: TreeEntry| e.view())
}

/// The place of the first `x` in `data[from..]`, or the length of `data`.
fn find_byte(data: &[u8], from: usize, x: u8) -> (r: usize)
    requires
        from <= data@.len(),
    ensures
        from <= r <= data@.len(),
        r == from + position(data@.skip(from as int), x),
{
    let ghost rest = data@.skip(from as int);
    let mut i: usize = from;
    while i < data.len() && data[i] != x
        invariant
            from <= i <= data@.len(),
            rest == data@.skip(from as int),
            forall|k: int| 0 <= k < i - from ==> #[trigger] rest[k] != x,
        decreases data@.len() - i,
    {
        i += 1;
    }
    proof {
        lemma_position(rest, x, i - from);
    }
    i
}

/// The 20 bytes at `at`.
fn read_oid(data: &[u8], at: usize) -> (r: Oid)
    requires
        at + 20 <= data@.len(),
    ensures
        r == oid_at(data@, at as int),
{
    let mut oid: Oid = [0u8; 20];
    let n = data.len();
    let mut i: usize = 0;
    while i < 20
        invariant
            i <= 20,
            n == data@.len(),
            at + 20 <= n,
            forall|k: int| 0 <= k < i ==> oid@[k] == data@[at + k],
        decreases 20 - i,
    {
        oid[i] = data[at + i];
        i += 1;
    }
    proof {
        assert(oid@ =~= data@.subrange(at as int, at + 20));
        let other = oid_at(data@, at as int);
        assert(other@ == oid@);
        assert(other =~= oid);
    }
    oid
}

/// The entries of a tree object.
pub fn parse_tree(data: &[u8]) -> (r: Vec<TreeEntry>)
    ensures
        tree_views(r@) == tree_entries(data@),
{
    let mut r: Vec<TreeEntry> = Vec::new();
    let n = data.len();
    let mut i: usize = 0;
    assert(tree_views(r@) + entries_from(data@, 0) =~= entries_from(data@, 0));
    while i < n
        invariant
            n == data@.len(),
            i <= n,
            tree_views(r@) + entries_from(data@, i as int) == tree_entries(data@),
        decreases n - i,
    {
        let space = find_byte(data, i, 32);
        if space == n {
            assert(entries_from(data@, i as int) =~= seq![]);
            assert(tree_views(r@) + seq![] =~= tree_views(r@));
            return r;
        }
        let zero = find_byte(data, space + 1, 0);
        if zero == n {
            assert(entries_from(data@, i as int) =~= seq![]);
            assert(tree_views(r@) + seq![] =~= tree_views(r@));
            return r;
        }
        let whole = n - zero >= 21;
        let next: usize = if whole {
            zero + 21
        } else {
            n
        };
        let name_bytes = vstd::slice::slice_subrange(data, space + 1, zero);
        assert(!whole ==> entries_from(data@, zero + 21) =~= entries_from(data@, n as int));
        match text_of_bytes(name_bytes) {
            None => {
                i = next;
            },
            Some(name) => {
                if !whole {
                    assert(entries_from(data@, i as int) =~= seq![]);
                    assert(tree_views(r@) + seq![] =~= tree_views(r@));
                    return r;
                }
                let ghost before = r@;
                let kind = read_kind(data, i, space);
                let oid = read_oid(data, zero + 1);
                let entry = TreeEntry { kind, name: name.to_owned(), oid };
                r.push(entry);
                proof {
                    assert(entry.view() == EntryView {
                        kind: kind_of(data@.subrange(i as int, space as int)),
                        name: name@,
                        oid: oid_at(data@, zero + 1),
                    });
                    assert(tree_views(r@) =~= tree_views(before).push(entry.view()));
                    assert(tree_views(r@) + entries_from(data@, next as int) =~= tree_views(before)
                        + (seq![entry.view()] + entries_from(data@, next as int)));
                }
                i = next;
            },
        }
    }
    assert(tree_views(r@) + entries_from(data@, i as int) =~= tree_views(r@));
    r
}

/// The bytes of an entry.
pub open spec fn entry_bytes(mode: Seq<u8>, name: Seq<char>, oid: Oid) -> Seq<u8> {
    mode + seq![32u8] + vstd::utf8::encode_utf8(name) + seq![0u8] + oid@
}

/// The entries from a place on are those of what is left from there.
proof fn lemma_entries_of_rest(data: Seq<u8>, i: int, j: int)
    requires
        0 <= i <= data.len(),
        0 <= j,
    ensures
        entries_from(data, i + j) == entries_from(data.skip(i), j),
    decreases
            if i + j < data.len() {
                data.len() - (i + j)
            } else {
                0
            },
{
    let rest = data.skip(i);
    if i + j < data.len() {
        assert(rest.skip(j) =~= data.skip(i + j));
        lemma_position_bounds(rest.skip(j), 32u8);
        let space = j + position(rest.skip(j), 32u8);
        if space < rest.len() {
            assert(rest.skip(space + 1) =~= data.skip(i + space + 1));
            lemma_position_bounds(rest.skip(space + 1), 0u8);
            let zero = space + 1 + position(rest.skip(space + 1), 0u8);
            if zero < rest.len() {
                assert(rest.subrange(space + 1, zero) =~= data.subrange(i + space + 1, i + zero));
                assert(rest.subrange(j, space) =~= data.subrange(i + j, i + space));
                if zero + 21 <= rest.len() {
                    assert(rest.subrange(zero + 1, zero + 21) =~= data.subrange(
                        i + zero + 1,
                        i + zero + 21,
                    ));
                }
                lemma_entries_of_rest(data, i, zero + 21);
            }
        }
    }
}

/// An entry is read back as it was written, and what follows it too.
pub proof fn law_entry_is_read_back(mode: Seq<u8>, name: Seq<char>, oid: Oid, rest: Seq<u8>)
    requires
        !mode.contains(32u8),
        !vstd::utf8::encode_utf8(name).contains(0u8),
    ensures
        tree_entries(entry_bytes(mode, name, oid) + rest) == seq![
            (EntryView { kind: kind_of(mode), name, oid }),
        ] + tree_entries(rest),
{
    let text = vstd::utf8::encode_utf8(name);
    let entry = entry_bytes(mode, name, oid);
    let data = entry + rest;
    let space = mode.len() as int;
    let zero = space + 1 + text.len();
    assert(data.skip(0) =~= data);
    assert(data[space] == 32);
    assert forall|k: int| 0 <= k < space implies #[trigger] data[k] != 32 by {
        assert(data[k] == mode[k]);
        assert(mode.contains(mode[k]));
    }
    lemma_position(data, 32u8, space);
    let tail = data.skip(space + 1);
    assert(tail[text.len() as int] == 0);
    assert forall|k: int| 0 <= k < text.len() implies #[trigger] tail[k] != 0 by {
        assert(tail[k] == text[k]);
        assert(text.contains(text[k]));
    }
    lemma_position(tail, 0u8, text.len() as int);
    assert(data.subrange(space + 1, zero) =~= text);
    vstd::utf8::encode_utf8_valid_utf8(name);
    vstd::utf8::encode_utf8_decode_utf8(name);
    assert(data.subrange(0, space) =~= mode);
    assert(data.subrange(zero + 1, zero + 21) =~= oid@);
    let read = oid_at(data, zero + 1);
    assert(oid@ == data.subrange(zero + 1, zero + 21));
    assert(read@ == oid@);
    assert(read =~= oid);
    assert(entry.len() == zero + 21);
    lemma_entries_of_rest(data, zero + 21, 0);
    assert(data.skip(zero + 21) =~= rest);
}

/// Something that a walk has met and not yet dealt with: a file with its path,
/// or a tree with what goes before the names of its entries.
#[verifier::ext_equal]
pub struct PendingView {
    pub is_tree: bool,
    pub oid: Oid,
    pub path: Seq<char>,
}

/// What the entries of a tree lead to. Commits of other repositories lead to
/// nothing.
pub open spec fn children(prefix: Seq<char>, entries: Seq<EntryView>) -> Seq<PendingView>
    decreases entries.len(),
{
    if entries.len() == 0 {
        seq![]
    } else {
        let rest = children(prefix, entries.drop_first());
        let e = entries[0];
        match e.kind {
            EntryKind::Tree => seq![
                PendingView { is_tree: true, oid: e.oid, path: (prefix + e.name).push('/') },
            ] + rest,
            EntryKind::Link => rest,
            EntryKind::File => seq![
                PendingView { is_tree: false, oid: e.oid, path: prefix + e.name },
            ] + rest,
        }
    }
}

/// What a tree that may be missing leads to.
pub open spec fn children_of(prefix: Seq<char>, data: Option<Seq<u8>>) -> Seq<PendingView> {
    match data {
        Some(bytes) => children(prefix, tree_entries(bytes)),
        None => seq![],
    }
}

/// The files that a pending thing leads to, down to the given depth, in the
/// order of the trees. `trees` gives the bytes of each tree that can be read.
pub open spec fn listing(
    trees: spec_fn(Oid) -> Option<Seq<u8>>,
    p: PendingView,
    depth: nat,
) -> Seq<(Oid, Seq<char>)>
    decreases depth, 0nat,
{
    if !p.is_tree {
        seq![(p.oid, p.path)]
    } else if depth == 0 {
        seq![]
    } else {
        listings(trees, children_of(p.path, trees(p.oid)), (depth - 1) as nat)
    }
}

/// The files that pending things lead to, one after the other.
pub open spec fn listings(
    trees: spec_fn(Oid) -> Option<Seq<u8>>,
    ps: Seq<PendingView>,
    depth: nat,
) -> Seq<(Oid, Seq<char>)>
    decreases depth, ps.len() + 1,
{
    if ps.len() == 0 {
        seq![]
    } else {
        listing(trees, ps[0], depth) + listings(trees, ps.drop_first(), depth)
    }
}

/// Whether no tree below a pending thing lies deeper than the given depth.
pub open spec fn is_within(
    trees: spec_fn(Oid) -> Option<Seq<u8>>,
    p: PendingView,
    depth: nat,
) -> bool
    decreases depth, 0nat,
{
    p.is_tree ==> depth > 0 && are_within(
        trees,
        children_of(p.path, trees(p.oid)),
        (depth - 1) as nat,
    )
}

/// Whether no tree below any of the pending things lies deeper than that.
pub open spec fn are_within(
    trees: spec_fn(Oid) -> Option<Seq<u8>>,
    ps: Seq<PendingView>,
    depth: nat,
) -> bool
    decreases depth, ps.len() + 1,
{
    ps.len() == 0 || (is_within(trees, ps[0], depth) && are_within(trees, ps.drop_first(), depth))
}

proof fn lemma_deeper(trees: spec_fn(Oid) -> Option<Seq<u8>>, p: PendingView, depth: nat)
    requires
        is_within(trees, p, depth),
    ensures
        is_within(trees, p, depth + 1),
        listing(trees, p, depth + 1) == listing(trees, p, depth),
    decreases depth, 0nat,
{
    if p.is_tree {
        lemma_all_deeper(trees, children_of(p.path, trees(p.oid)), (depth - 1) as nat);
    }
}

proof fn lemma_all_deeper(
    trees: spec_fn(Oid) -> Option<Seq<u8>>,
    ps: Seq<PendingView>,
    depth: nat,
)
    requires
        are_within(trees, ps, depth),
    ensures
        are_within(trees, ps, depth + 1),
        listings(trees, ps, depth + 1) == listings(trees, ps, depth),
    decreases depth, ps.len() + 1,
{
    if ps.len() > 0 {
        lemma_deeper(trees, ps[0], depth);
        lemma_all_deeper(trees, ps.drop_first(), depth);
    }
}

proof fn lemma_listings_add(
    trees: spec_fn(Oid) -> Option<Seq<u8>>,
    a: Seq<PendingView>,
    b: Seq<PendingView>,
    depth: nat,
)
    ensures
        listings(trees, a + b, depth) == listings(trees, a, depth) + listings(trees, b, depth),
        are_within(trees, a + b, depth) <==> are_within(trees, a, depth) && are_within(
            trees,
            b,
            depth,
        ),
    decreases a.len(),
{
    if a.len() == 0 {
        assert(a + b =~= b);
        assert(listings(trees, a, depth) + listings(trees, b, depth) =~= listings(trees, b, depth));
    } else {
        assert((a + b).drop_first() =~= a.drop_first() + b);
        lemma_listings_add(trees, a.drop_first(), b, depth);
        assert(listings(trees, a + b, depth) =~= listings(trees, a, depth) + listings(
            trees,
            b,
            depth,
        ));
    }
}

struct Pending {
    is_tree: bool,
    oid: Oid,
    path: String,
}

impl Pending {
    spec fn view(&self) -> PendingView {
        PendingView { is_tree: self.is_tree, oid: self.oid, path: self.path@ }
    }
}

/// A walk over all the files below a tree. It asks for one tree after the other
/// and is told the bytes of each.
pub struct TreeWalk {
    /// What is left, what comes next at the end.
    todo: Vec<Pending>,
    found: Vec<(Oid, String)>,
}

/// How many things at the start are files.
pub open spec fn leading_files(ps: Seq<PendingView>) -> int
    decreases ps.len(),
{
    if ps.len() == 0 || ps[0].is_tree {
        0
    } else {
        1 + leading_files(ps.drop_first())
    }
}

/// The files at the start.
pub open spec fn as_files(ps: Seq<PendingView>) -> Seq<(Oid, Seq<char>)> {
    ps.map_values(|p: PendingView| (p.oid, p.path))
}

impl TreeWalk {
    /// What is left to deal with, what comes next first.
    pub closed spec fn left(&self) -> Seq<PendingView> {
        Seq::new(self.todo@.len(), |i: int| self.todo@[self.todo@.len() - 1 - i].view())
    }

    /// The files that were found so far.
    pub closed spec fn files(&self) -> Seq<(Oid, Seq<char>)> {
        file_views(self.found@)
    }

    /// Whether the walk waits for the bytes of a tree.
    pub open spec fn waits(&self) -> bool {
        self.left().len() > 0 && self.left()[0].is_tree
    }

    /// All the files of the walk: those that were found, and those that what is
    /// left leads to.
    pub open spec fn outcome(
        &self,
        trees: spec_fn(Oid) -> Option<Seq<u8>>,
        depth: nat,
    ) -> Seq<(Oid, Seq<char>)> {
        self.files() + listings(trees, self.left(), depth)
    }

    /// A walk from a tree down.
    pub fn new(tree_oid: Oid) -> (r: TreeWalk)
        ensures
            r.files() == Seq::<(Oid, Seq<char>)>::empty(),
            r.left() == seq![
                (PendingView { is_tree: true, oid: tree_oid, path: seq![] }),
            ],
    {
        let mut todo: Vec<Pending> = Vec::new();
        todo.push(Pending { is_tree: true, oid: tree_oid, path: String::new() });
        let r = TreeWalk { todo, found: Vec::new() };
        assert(r.files() =~= Seq::<(Oid, Seq<char>)>::empty());
        assert(r.left() =~= seq![
            (PendingView { is_tree: true, oid: tree_oid, path: seq![] }),
        ]);
        r
    }

    /// Goes on to the next tree, and says which it is; nothing is left where
    /// there is none.
    pub fn next_tree(&mut self) -> (r: Option<Oid>)
        ensures
            final(self).files() == old(self).files() + as_files(
                old(self).left().take(leading_files(old(self).left())),
            ),
            final(self).left() == old(self).left().skip(leading_files(old(self).left())),
            r is None <==> final(self).left().len() == 0,
            r matches Some(oid) ==> final(self).waits() && final(self).left()[0].oid == oid,
    {
        let ghost all = self.left();
        let ghost before = self.files();
        let ghost mut n: int = 0;
        proof {
            lemma_leading_files(all);
            assert(all.skip(0) =~= all);
            assert(before + as_files(all.take(0)) =~= before);
        }
        while self.todo.len() > 0 && !self.todo[self.todo.len() - 1].is_tree
            invariant
                0 <= n <= leading_files(all) <= all.len(),
                forall|k: int| 0 <= k < leading_files(all) ==> !(#[trigger] all[k]).is_tree,
                leading_files(all) < all.len() ==> all[leading_files(all)].is_tree,
                self.left() == all.skip(n),
                self.files() == before + as_files(all.take(n)),
            decreases self.todo@.len(),
        {
            let ghost left = self.left();
            let ghost files = self.files();
            assert(left.len() == self.todo@.len());
            assert(left[0] == self.todo@[self.todo@.len() - 1].view());
            assert(left[0] == all[n]);
            let p = self.todo.pop().unwrap();
            self.found.push((p.oid, p.path));
            proof {
                assert(self.left() =~= left.drop_first());
                assert(self.files() =~= files.push((all[n].oid, all[n].path)));
                assert(all.skip(n).drop_first() =~= all.skip(n + 1));
                assert(before + as_files(all.take(n + 1)) =~= (before + as_files(
                    all.take(n),
                )).push((all[n].oid, all[n].path)));
                n = n + 1;
            }
        }
        proof {
            if self.todo@.len() > 0 {
                assert(self.left()[0] == self.todo@[self.todo@.len() - 1].view());
                assert(self.left()[0] == all[n]);
            }
            assert(n == leading_files(all)) by {
                if n < leading_files(all) {
                    assert(!all[n].is_tree);
                }
            }
        }
        if self.todo.len() == 0 {
            None
        } else {
            Some(self.todo[self.todo.len() - 1].oid)
        }
    }

    /// Takes the bytes of the tree that the walk waits for, or nothing where it
    /// cannot be read.
    pub fn take_tree(&mut self, data: Option<Vec<u8>>)
        requires
            old(self).waits(),
        ensures
            final(self).files() == old(self).files(),
            final(self).left() == children_of(
                old(self).left()[0].path,
                match data {
                    Some(bytes) => Some(bytes@),
                    None => None,
                },
            ) + old(self).left().drop_first(),
    {
        let ghost all = self.left();
        assert(all[0] == self.todo@[self.todo@.len() - 1].view());
        let tree = self.todo.pop().unwrap();
        assert(self.left() =~= all.drop_first());
        let ghost rest = self.left();
        let bytes = match data {
            Some(bytes) => bytes,
            None => {
                assert(seq![] + rest =~= rest);
                return;
            },
        };
        let entries = parse_tree(bytes.as_slice());
        let ghost views = tree_entries(bytes@);
        let ghost files = self.files();
        let mut i: usize = entries.len();
        proof {
            assert(views.skip(views.len() as int) =~= seq![]);
            assert(children(tree.path@, views.skip(views.len() as int)) + rest =~= rest);
        }
        while i > 0
            invariant
                i <= entries@.len(),
                views == tree_views(entries@),
                self.files() == files,
                self.left() == children(tree.path@, views.skip(i as int)) + rest,
            decreases i,
        {
            i -= 1;
            let entry = &entries[i];
            let ghost e = entry.view();
            let ghost left = self.left();
            proof {
                assert(views[i as int] == e);
                assert(views.skip(i as int).drop_first() =~= views.skip(i + 1));
                assert(views.skip(i as int)[0] == e);
            }
            match entry.kind {
                EntryKind::Tree => {
                    let mut path = tree.path.clone();
                    push_text(&mut path, entry.name.as_str());
                    path.push('/');
                    self.todo.push(Pending { is_tree: true, oid: entry.oid, path });
                    assert(self.left() =~= seq![
                        (PendingView {
                            is_tree: true,
                            oid: e.oid,
                            path: (tree.path@ + e.name).push('/'),
                        }),
                    ] + left);
                },
                EntryKind::Link => {},
                EntryKind::File => {
                    let mut path = tree.path.clone();
                    push_text(&mut path, entry.name.as_str());
                    self.todo.push(Pending { is_tree: false, oid: entry.oid, path });
                    assert(self.left() =~= seq![
                        (PendingView { is_tree: false, oid: e.oid, path: tree.path@ + e.name }),
                    ] + left);
                },
            }
            assert(self.left() =~= children(tree.path@, views.skip(i as int)) + rest);
        }
        assert(views.skip(0) =~= views);
    }

    /// The files that were found, in the order of the trees.
    pub fn into_files(self) -> (r: Vec<(Oid, String)>)
        ensures
            file_views(r@) == self.files(),
    {
        self.found
    }
}

proof fn lemma_leading_files(ps: Seq<PendingView>)
    ensures
        0 <= leading_files(ps) <= ps.len(),
        forall|k: int| 0 <= k < leading_files(ps) ==> !(#[trigger] ps[k]).is_tree,
        leading_files(ps) < ps.len() ==> ps[leading_files(ps)].is_tree,
    decreases ps.len(),
{
    if ps.len() > 0 && !ps[0].is_tree {
        let t = ps.drop_first();
        lemma_leading_files(t);
        assert forall|k: int| 0 <= k < leading_files(ps) implies !(#[trigger] ps[k]).is_tree by {
            if k > 0 {
                assert(ps[k] == t[k - 1]);
            }
        }
    }
}

proof fn lemma_files_list_themselves(
    trees: spec_fn(Oid) -> Option<Seq<u8>>,
    ps: Seq<PendingView>,
    depth: nat,
)
    requires
        forall|k: int| 0 <= k < ps.len() ==> !(#[trigger] ps[k]).is_tree,
    ensures
        listings(trees, ps, depth) == as_files(ps),
        are_within(trees, ps, depth),
    decreases ps.len(),
{
    reveal_with_fuel(listings, 2);
    reveal_with_fuel(listing, 2);
    reveal_with_fuel(are_within, 2);
    reveal_with_fuel(is_within, 2);
    if ps.len() > 0 {
        let t = ps.drop_first();
        assert forall|k: int| 0 <= k < t.len() implies !(#[trigger] t[k]).is_tree by {
            assert(t[k] == ps[k + 1]);
        }
        lemma_files_list_themselves(trees, t, depth);
        assert(as_files(ps) =~= seq![(ps[0].oid, ps[0].path)] + as_files(t));
    } else {
        assert(as_files(ps) =~= seq![]);
    }
}

/// Going on to the next tree changes nothing about the files of a walk. `left`
/// is what was left before, `files` what was found.
pub proof fn law_going_on_keeps_files(
    trees: spec_fn(Oid) -> Option<Seq<u8>>,
    left: Seq<PendingView>,
    files: Seq<(Oid, Seq<char>)>,
    depth: nat,
)
    ensures
        ({
            let n = leading_files(left);
            (files + as_files(left.take(n))) + listings(trees, left.skip(n), depth) == files
                + listings(trees, left, depth)
        }),
        are_within(trees, left, depth) ==> are_within(
            trees,
            left.skip(leading_files(left)),
            depth,
        ),
{
    let n = leading_files(left);
    lemma_leading_files(left);
    lemma_files_list_themselves(trees, left.take(n), depth);
    lemma_listings_add(trees, left.take(n), left.skip(n), depth);
    assert(left.take(n) + left.skip(n) =~= left);
    assert((files + as_files(left.take(n))) + listings(trees, left.skip(n), depth) =~= files
        + listings(trees, left, depth));
}

/// Taking the bytes of a tree changes nothing about the files of a walk, if they
/// are the bytes that the tree has.
pub proof fn law_taking_tree_keeps_files(
    trees: spec_fn(Oid) -> Option<Seq<u8>>,
    left: Seq<PendingView>,
    depth: nat,
)
    requires
        left.len() > 0,
        left[0].is_tree,
        are_within(trees, left, depth),
    ensures
        ({
            let now = children_of(left[0].path, trees(left[0].oid)) + left.drop_first();
            listings(trees, now, depth) == listings(trees, left, depth) && are_within(
                trees,
                now,
                depth,
            )
        }),
{
    reveal_with_fuel(listings, 3);
    reveal_with_fuel(listing, 3);
    reveal_with_fuel(are_within, 3);
    reveal_with_fuel(is_within, 3);
    let below = children_of(left[0].path, trees(left[0].oid));
    assert(is_within(trees, left[0], depth));
    lemma_all_deeper(trees, below, (depth - 1) as nat);
    lemma_listings_add(trees, below, left.drop_first(), depth);
}

/// Whether the walk `b` comes from `a` by going on to the next tree, or by
/// taking the bytes that the tree has which `a` waits for.
pub open spec fn is_step(
    trees: spec_fn(Oid) -> Option<Seq<u8>>,
    a: TreeWalk,
    b: TreeWalk,
) -> bool {
    ||| b.files() == a.files() + as_files(a.left().take(leading_files(a.left()))) && b.left()
        == a.left().skip(leading_files(a.left()))
    ||| a.waits() && b.files() == a.files() && b.left() == children_of(
        a.left()[0].path,
        trees(a.left()[0].oid),
    ) + a.left().drop_first()
}

/// Whether the step from the place `i` of a run is one of a walk.
pub open spec fn steps_at(
    trees: spec_fn(Oid) -> Option<Seq<u8>>,
    run: Seq<TreeWalk>,
    i: int,
) -> bool {
    is_step(trees, run[i], run[i + 1])
}

proof fn lemma_run_keeps_outcome(
    trees: spec_fn(Oid) -> Option<Seq<u8>>,
    run: Seq<TreeWalk>,
    n: int,
    depth: nat,
)
    requires
        0 <= n < run.len(),
        forall|i: int| 0 <= i < n ==> #[trigger] steps_at(trees, run, i),
        are_within(trees, run[0].left(), depth),
    ensures
        are_within(trees, run[n].left(), depth),
        run[n].outcome(trees, depth) == run[0].outcome(trees, depth),
    decreases n,
{
    if n > 0 {
        lemma_run_keeps_outcome(trees, run, n - 1, depth);
        let a = run[n - 1];
        let b = run[n];
        assert(steps_at(trees, run, n - 1));
        law_going_on_keeps_files(trees, a.left(), a.files(), depth);
        if a.waits() {
            law_taking_tree_keeps_files(trees, a.left(), depth);
        }
    }
}

/// A walk from a tree down that has come to its end has found all the files
/// below the tree, each with its path, in the order of the trees.
pub proof fn law_walk_finds_all(
    trees: spec_fn(Oid) -> Option<Seq<u8>>,
    tree_oid: Oid,
    run: Seq<TreeWalk>,
    depth: nat,
)
    requires
        run.len() > 0,
        run[0].files() == Seq::<(Oid, Seq<char>)>::empty(),
        run[0].left() == seq![
            (PendingView { is_tree: true, oid: tree_oid, path: seq![] }),
        ],
        forall|i: int| 0 <= i < run.len() - 1 ==> #[trigger] steps_at(trees, run, i),
        run.last().left().len() == 0,
        is_within(trees, PendingView { is_tree: true, oid: tree_oid, path: seq![] }, depth),
    ensures
        run.last().files() == listing(
            trees,
            PendingView { is_tree: true, oid: tree_oid, path: seq![] },
            depth,
        ),
{
    let p = PendingView { is_tree: true, oid: tree_oid, path: seq![] };
    let begun = run[0];
    let ended = run.last();
    let none = begun.left().drop_first();
    assert(none =~= seq![]);
    assert(listings(trees, none, depth) =~= seq![]);
    assert(are_within(trees, none, depth));
    assert(are_within(trees, begun.left(), depth));
    lemma_run_keeps_outcome(trees, run, run.len() - 1, depth);
    assert(listings(trees, begun.left(), depth) =~= listing(trees, p, depth));
    assert(ended.outcome(trees, depth) =~= ended.files());
    assert(begun.outcome(trees, depth) =~= listing(trees, p, depth));
}

/// An entry as it is written: its mode, its name and its object.
pub struct WrittenEntry {
    pub mode: Seq<u8>,
    pub name: Seq<char>,
    pub oid: Oid,
}

/// The bytes of a tree: its entries, one behind the other.
pub open spec fn tree_bytes(entries: Seq<WrittenEntry>) -> Seq<u8>
    decreases entries.len(),
{
    if entries.len() == 0 {
        seq![]
    } else {
        entry_bytes(entries[0].mode, entries[0].name, entries[0].oid) + tree_bytes(
            entries.drop_first(),
        )
    }
}

/// Whether an entry can be written: no blank in its mode and no zero byte in its
/// name.
pub open spec fn can_be_written(e: WrittenEntry) -> bool {
    !e.mode.contains(32u8) && !vstd::utf8::encode_utf8(e.name).contains(0u8)
}

/// Whether a mode is written with the given digits.
pub open spec fn is_mode(mode: Seq<u8>, digits: Seq<char>) -> bool {
    mode.len() == digits.len() && forall|i: int|
        0 <= i < mode.len() ==> (#[trigger] mode[i]) as char == digits[i]
}

/// The mode of a tree, with a zero at its start or without, and that of a commit of
/// another repository are told apart from all others, which are those of files.
pub proof fn law_modes(mode: Seq<u8>)
    ensures
        kind_of(mode) == EntryKind::Tree <==> is_mode(mode, "40000"@) || is_mode(mode, "040000"@),
        kind_of(mode) == EntryKind::Link <==> is_mode(mode, "160000"@),
{
    reveal_strlit("40000");
    reveal_strlit("040000");
    reveal_strlit("160000");
    let tree = seq![52u8, 48u8, 48u8, 48u8, 48u8];
    let padded = seq![48u8, 52u8, 48u8, 48u8, 48u8, 48u8];
    let link = seq![49u8, 54u8, 48u8, 48u8, 48u8, 48u8];
    if is_mode(mode, "40000"@) {
        assert(mode =~= tree);
    }
    if is_mode(mode, "040000"@) {
        assert(mode =~= padded);
    }
    if is_mode(mode, "160000"@) {
        assert(mode =~= link);
        assert(link[0] != tree[0] && link[0] != padded[0]);
    }
}

/// What a written entry leads to, in a tree whose names go behind `prefix`.
pub open spec fn leads_to(prefix: Seq<char>, e: WrittenEntry) -> PendingView {
    if is_mode(e.mode, "40000"@) || is_mode(e.mode, "040000"@) {
        PendingView { is_tree: true, oid: e.oid, path: prefix + e.name + seq!['/'] }
    } else {
        PendingView { is_tree: false, oid: e.oid, path: prefix + e.name }
    }
}

/// A tree leads to one thing for each of its entries that is no commit of another
/// repository, in the order of the entries, whatever they are called: to the
/// entry's object, with the entry's name behind the path of the tree, and a slash
/// behind that where the object is a tree.
pub proof fn law_every_entry_is_met(prefix: Seq<char>, entries: Seq<WrittenEntry>)
    requires
        forall|i: int| 0 <= i < entries.len() ==> can_be_written(#[trigger] entries[i]),
    ensures
        children_of(prefix, Some(tree_bytes(entries))) == entries.filter(
            |e: WrittenEntry| !is_mode(e.mode, "160000"@),
        ).map_values(|e: WrittenEntry| leads_to(prefix, e)),
        tree_entries(tree_bytes(entries)).len() == entries.len(),
{
    lemma_every_entry_is_met(prefix, entries, |e: WrittenEntry| !is_mode(e.mode, "160000"@));
}

proof fn lemma_every_entry_is_met(
    prefix: Seq<char>,
    entries: Seq<WrittenEntry>,
    wanted: spec_fn(WrittenEntry) -> bool,
)
    requires
        forall|i: int| 0 <= i < entries.len() ==> can_be_written(#[trigger] entries[i]),
        wanted == (|e: WrittenEntry| !is_mode(e.mode, "160000"@)),
    ensures
        children(prefix, tree_entries(tree_bytes(entries))) == entries.filter(wanted).map_values(
            |e: WrittenEntry| leads_to(prefix, e),
        ),
        tree_entries(tree_bytes(entries)).len() == entries.len(),
    decreases entries.len(),
{
    reveal(Seq::filter);
    let f = |e: WrittenEntry| leads_to(prefix, e);
    if entries.len() == 0 {
        assert(tree_entries(tree_bytes(entries)) =~= seq![]);
        assert(entries.filter(wanted).map_values(f) =~= seq![]);
    } else {
        let e = entries[0];
        let rest = entries.drop_first();
        assert forall|i: int| 0 <= i < rest.len() implies can_be_written(#[trigger] rest[i]) by {
            assert(rest[i] == entries[i + 1]);
        }
        lemma_every_entry_is_met(prefix, rest, wanted);
        assert(can_be_written(entries[0]));
        law_entry_is_read_back(e.mode, e.name, e.oid, tree_bytes(rest));
        law_modes(e.mode);
        let first = EntryView { kind: kind_of(e.mode), name: e.name, oid: e.oid };
        let views = tree_entries(tree_bytes(entries));
        assert(views[0] == first);
        assert(views.drop_first() =~= tree_entries(tree_bytes(rest)));
        assert((prefix + e.name).push('/') =~= prefix + e.name + seq!['/']);
        entries.lemma_filter_eq_filter_alt(wanted);
        let some = rest.filter(wanted);
        if wanted(e) {
            assert((seq![e] + some).map_values(f) =~= seq![f(e)] + some.map_values(f));
        }
    }
}

/// A tree that cannot be read leads to nothing.
pub proof fn law_missing_tree_is_empty(prefix: Seq<char>)
    ensures
        children_of(prefix, None) == Seq::<PendingView>::empty(),
{
}

/// Whether a text is a word: one character or more, and no ASCII white space.
pub open spec fn is_word(s: Seq<char>) -> bool {
    s.len() > 0 && forall|i: int|
        0 <= i < s.len() ==> #[trigger] s[i] != ' ' && s[i] != '\t' && s[i] != '\n' && s[i] != '\r'
            && s[i] != '\x0c'
}

proof fn lemma_word_first(word: Seq<char>, rest: Seq<char>)
    requires
        forall|i: int| 0 <= i < word.len() ==> !is_ascii_space(#[trigger] word[i]),
        rest.len() > 0 ==> is_ascii_space(rest[0]),
    ensures
        ascii_word_len(word + rest) == word.len(),
    decreases word.len(),
{
    let s = word + rest;
    if word.len() == 0 {
        assert(s =~= rest);
    } else {
        assert(s[0] == word[0]);
        assert(s.drop_first() =~= word.drop_first() + rest);
        assert forall|i: int| 0 <= i < word.drop_first().len() implies !is_ascii_space(
            #[trigger] word.drop_first()[i],
        ) by {
            assert(word.drop_first()[i] == word[i + 1]);
        }
        lemma_word_first(word.drop_first(), rest);
    }
}

proof fn lemma_first_word(space: bool, word: Seq<char>, rest: Seq<char>)
    requires
        is_word(word),
        rest.len() > 0 ==> is_ascii_space(rest[0]),
    ensures
        first_word(
            if space {
                seq![' '] + word + rest
            } else {
                word + rest
            },
        ) == Some((word, rest)),
{
    reveal_with_fuel(skip_ascii_space, 2);
    let t = word + rest;
    assert forall|i: int| 0 <= i < word.len() implies !is_ascii_space(#[trigger] word[i]) by {}
    lemma_word_first(word, rest);
    assert(t[0] == word[0]);
    assert(!is_ascii_space(t[0]));
    if space {
        let s = seq![' '] + word + rest;
        assert(s.drop_first() =~= t);
        assert(s[0] == ' ');
    }
    assert(t.take(word.len() as int) =~= word);
    assert(t.skip(word.len() as int) =~= rest);
}

/// The header of an object names the object, its kind and its size, with a blank
/// between them: of such a line both the kind and the size are read, whatever
/// follows the size behind white space.
pub proof fn law_header_is_read_back(
    name: Seq<char>,
    kind: Seq<char>,
    size: usize,
    rest: Seq<char>,
)
    requires
        is_word(name),
        is_word(kind),
        rest.len() > 0 ==> rest[0] == ' ' || rest[0] == '\n',
    ensures
        header_of(name + seq![' '] + kind + seq![' '] + decimal(size as int) + rest) == Some(
            (kind == seq!['t', 'r', 'e', 'e'], size as int),
        ),
{
    reveal_strlit("tree");
    let digits = decimal(size as int);
    lemma_decimal_digits(size as int);
    assert forall|i: int| 0 <= i < digits.len() implies #[trigger] digits[i] != ' ' && digits[i]
        != '\t' && digits[i] != '\n' && digits[i] != '\r' && digits[i] != '\x0c' by {
        assert(is_digit(digits[i]));
    }
    assert(is_word(digits));
    let third = seq![' '] + digits + rest;
    let second = seq![' '] + kind + third;
    let all = name + seq![' '] + kind + seq![' '] + digits + rest;
    assert(all =~= name + second);
    lemma_first_word(false, name, second);
    lemma_first_word(true, kind, third);
    lemma_first_word(true, digits, rest);
    law_number_is_read_back(size as int, 0, usize::MAX as int);
    assert("tree"@ =~= seq!['t', 'r', 'e', 'e']);
}

/// A line of two words, as for an object that is missing, is no header.
pub proof fn law_two_words_are_no_header(name: Seq<char>, word: Seq<char>)
    requires
        is_word(name),
        is_word(word),
    ensures
        header_of(name + seq![' '] + word) is None,
{
    let second = seq![' '] + word + Seq::<char>::empty();
    assert(name + seq![' '] + word =~= name + second);
    lemma_first_word(false, name, second);
    lemma_first_word(true, word, seq![]);
    assert(first_word(Seq::<char>::empty()) is None);
}

/// An entry whose name is no text is passed over, and what is cut short before the
/// end of its object's name is no entry.
pub proof fn law_entries_without_a_name(
    mode: Seq<u8>,
    name: Seq<u8>,
    oid: Oid,
    rest: Seq<u8>,
    part: Seq<u8>,
)
    requires
        !mode.contains(32u8),
        !name.contains(0u8),
        part.len() < 20,
    ensures
        !vstd::utf8::valid_utf8(name) ==> tree_entries(
            mode + seq![32u8] + name + seq![0u8] + oid@ + rest,
        ) == tree_entries(rest),
        tree_entries(mode) == Seq::<EntryView>::empty(),
        tree_entries(mode + seq![32u8] + name) == Seq::<EntryView>::empty(),
        tree_entries(mode + seq![32u8] + name + seq![0u8] + part) == Seq::<EntryView>::empty(),
{
    let data = mode + seq![32u8] + name + seq![0u8] + oid@ + rest;
    let cut = mode + seq![32u8] + name;
    let space = mode.len() as int;
    let zero = space + 1 + name.len();
    assert(data.skip(0) =~= data && cut.skip(0) =~= cut && mode.skip(0) =~= mode);
    assert forall|k: int| 0 <= k < space implies #[trigger] mode[k] != 32 by {
        assert(mode.contains(mode[k]));
    }
    assert forall|k: int| 0 <= k < name.len() implies #[trigger] name[k] != 0 by {
        assert(name.contains(name[k]));
    }
    lemma_position(mode, 32u8, space);
    assert(tree_entries(mode) =~= seq![]);
    assert forall|k: int| 0 <= k < space implies #[trigger] data[k] != 32 by {
        assert(data[k] == mode[k]);
    }
    assert forall|k: int| 0 <= k < space implies #[trigger] cut[k] != 32 by {
        assert(cut[k] == mode[k]);
    }
    lemma_position(data, 32u8, space);
    lemma_position(cut, 32u8, space);
    let tail = data.skip(space + 1);
    assert forall|k: int| 0 <= k < name.len() implies #[trigger] tail[k] != 0 by {
        assert(tail[k] == name[k]);
    }
    assert(tail[name.len() as int] == 0);
    lemma_position(tail, 0u8, name.len() as int);
    assert(cut.skip(space + 1) =~= name);
    lemma_position(name, 0u8, name.len() as int);
    assert(tree_entries(cut) =~= seq![]);
    assert(data.subrange(space + 1, zero) =~= name);
    lemma_entries_of_rest(data, zero + 21, 0);
    assert(data.skip(zero + 21) =~= rest);
    let short = mode + seq![32u8] + name + seq![0u8] + part;
    assert(short.skip(0) =~= short);
    assert forall|k: int| 0 <= k < space implies #[trigger] short[k] != 32 by {
        assert(short[k] == mode[k]);
    }
    lemma_position(short, 32u8, space);
    let end = short.skip(space + 1);
    assert forall|k: int| 0 <= k < name.len() implies #[trigger] end[k] != 0 by {
        assert(end[k] == name[k]);
    }
    assert(end[name.len() as int] == 0);
    lemma_position(end, 0u8, name.len() as int);
    assert(entries_from(short, zero + 21) =~= seq![]);
    assert(tree_entries(short) =~= seq![]);
}

/// An entry keeps its kind, its name and its object.
pub proof fn law_views_of_entries(entries: Seq<TreeEntry>, i: int)
    ensures
        tree_views(entries).len() == entries.len(),
        0 <= i < entries.len() ==> tree_views(entries)[i].kind == entries[i].kind
            && tree_views(entries)[i].name == entries[i].name@ && tree_views(entries)[i].oid
            == entries[i].oid,
{
}

} // verus!
