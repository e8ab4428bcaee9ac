//! The data that the analysis hands from one step to the next.

use crate::text::{hex_digits, push_hex};
use vstd::prelude::*;

verus! {

/// The name of a git object: the 20 bytes of its SHA-1.
pub type Oid = [u8; 20];

/// One file of one sampled commit.
#[derive(Clone, Copy)]
pub struct WorkItem {
    pub commit_oid: Oid,
    pub blob_oid: Oid,
}

/// One sampled commit: its lines by period and by author. Only counts above
/// zero are listed, each with its place in the list of periods or authors.
pub struct SeriesPoint {
    pub ts: i64,
    pub total: u64,
    pub counts: Vec<(usize, u64)>,
    pub author_counts: Vec<(usize, u64)>,
    pub summary: String,
    pub author: String,
}

/// A version tag. Its importance, from 0 to 1, is `spacing / max_spacing`: how
/// far it stands from its nearest neighbour in time, against the tag that
/// stands the farthest from its own.
pub struct Tag {
    pub name: String,
    pub ts: i64,
    pub spacing: u64,
    pub max_spacing: u64,
}

/// What an analysis writes.
pub struct OutputData {
    pub repo: String,
    pub granularity: String,
    pub generated_at: String,
    pub head_commit: String,
    pub periods: Vec<String>,
    pub authors: Vec<String>,
    pub series: Vec<SeriesPoint>,
    pub tags: Vec<Tag>,
}

/// The width of the time buckets.
#[derive(Clone, Copy, PartialEq, Eq, Structural, Debug)]
pub enum Granularity {
    Quarter,
    Year,
}

impl Granularity {
    /// The name of the granularity.
    pub open spec fn text(self) -> Seq<char> {
        match self {
            Granularity::Quarter => "quarter"@,
            Granularity::Year => "year"@,
        }
    }

    /// The name of the granularity.
    pub fn name(&self) -> (r: String)
        ensures
            r@ == self.text(),
    {
        match self {
            Granularity::Quarter => "quarter".to_owned(),
            Granularity::Year => "year".to_owned(),
        }
    }
}

/// The hexadecimal digits of a sequence of bytes.
pub open spec fn bytes_hex(bytes: Seq<u8>) -> Seq<char>
    decreases bytes.len(),
{
    if bytes.len() == 0 {
        seq![]
    } else {
        bytes_hex(bytes.drop_last()) + hex_digits(bytes.last() as int, 2)
    }
}

/// An object's name in hexadecimal.
pub fn oid_hex(oid: &Oid) -> (r: String)
    ensures
        r@ == bytes_hex(oid@),
{
    let mut r = String::new();
    let mut i: usize = 0;
    assert(bytes_hex(oid@.take(0)) =~= r@);
    while i < 20
        invariant
            i <= 20,
            r@ == bytes_hex(oid@.take(i as int)),
        decreases 20 - i,
    {
        push_hex(&mut r, oid[i] as u64, 2);
        assert(oid@.take(i + 1).drop_last() =~= oid@.take(i as int));
        i += 1;
    }
    assert(oid@.take(20) =~= oid@);
    r
}

/// Whether two object names are the same.
pub fn same_oid(a: &Oid, b: &Oid) -> (r: bool)
    ensures
        r == (*a == *b),
{
    let mut i: usize = 0;
    while i < 20
        invariant
            i <= 20,
            forall|k: int| 0 <= k < i ==> a[k] == b[k],
        decreases 20 - i,
    {
        if a[i] != b[i] {
            return false;
        }
        i += 1;
    }
    assert(*a =~= *b);
    true
}

/// Each byte is written as two of the digits from 0 to f, the higher one first.
pub proof fn law_bytes_in_hex(bytes: Seq<u8>)
    ensures
        bytes_hex(bytes).len() == 2 * bytes.len(),
        forall|i: int|
            0 <= i < bytes.len() ==> bytes_hex(bytes)[2 * i] == "0123456789abcdef"@[(
            #[trigger] bytes[i]) as int / 16] && bytes_hex(bytes)[2 * i + 1]
                == "0123456789abcdef"@[bytes[i] as int % 16],
    decreases bytes.len(),
{
    reveal_strlit("0123456789abcdef");
    if bytes.len() > 0 {
        let fewer = bytes.drop_last();
        let b = bytes.last() as int;
        law_bytes_in_hex(fewer);
        lemma_two_digits(b);
        assert forall|i: int| 0 <= i < bytes.len() implies bytes_hex(bytes)[2 * i]
            == "0123456789abcdef"@[(#[trigger] bytes[i]) as int / 16] && bytes_hex(bytes)[2 * i + 1]
            == "0123456789abcdef"@[bytes[i] as int % 16] by {
            if i < fewer.len() {
                assert(fewer[i] == bytes[i]);
            }
        }
    }
}

proof fn lemma_two_digits(b: int)
    requires
        0 <= b < 256,
    ensures
        hex_digits(b, 2) == seq!["0123456789abcdef"@[b / 16], "0123456789abcdef"@[b % 16]],
{
    reveal_strlit("0123456789abcdef");
    reveal_with_fuel(hex_digits, 3);
    assert((b / 16) % 16 == b / 16);
}

/// The granularities are called "quarter" and "year".
pub proof fn law_granularity_names()
    ensures
        Granularity::Quarter.text() == seq!['q', 'u', 'a', 'r', 't', 'e', 'r'],
        Granularity::Year.text() == seq!['y', 'e', 'a', 'r'],
{
    reveal_strlit("quarter");
    reveal_strlit("year");
}

} // verus!
