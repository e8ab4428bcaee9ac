//! The cache of blamed lines: one entry per blob, in the form in which it is
//! stored.

use crate::blame::{blame_of, line_views, parse_blame_output};
use crate::fx::map_of;
use crate::tally::{authors_of, blob_histograms, periods_of, tallies};
use rustc_hash::FxHashMap;
use vstd::prelude::*;

verus! {

/// What `bincode::deserialize` makes of bytes when asked for a list of pairs of
/// an `i64` and a string; nothing where it returns an error.
pub uninterp spec fn decoded_lines(bytes: Seq<u8>) -> Option<Seq<(i64, Seq<char>)>>;

/// The bytes that `bincode::serialize` writes a list of pairs of an `i64` and a
/// string as.
pub uninterp spec fn encoded_lines(lines: Seq<(i64, Seq<char>)>) -> Seq<u8>;

/// Blamed lines that may be missing, as plain values.
pub open spec fn maybe_lines(lines: Option<Vec<(i64, String)>>) -> Option<Seq<(i64, Seq<char>)>> {
    match lines {
        Some(l) => Some(line_views(l@)),
        None => None,
    }
}

/// `bincode::deserialize` at the type `Vec<(i64, String)>`: its result is
/// `decoded_lines` of the bytes.
#[verifier::external_body]
fn decode_lines(bytes: &Vec<u8>) -> (r: Option<Vec<(i64, String)>>)
    ensures
        maybe_lines(r) == decoded_lines(bytes@),
{
    bincode::deserialize::<Vec<(i64, String)>>(bytes).ok()
}

/// `bincode::serialize` of a `Vec<(i64, String)>`: it does not fail, as it sets
/// no limit on the size and writes to a `Vec`; its result is `encoded_lines` of
/// the pairs; and `bincode::deserialize` reads the same pairs from what it wrote.
#[verifier::external_body]
fn encode_lines(lines: &Vec<(i64, String)>) -> (r: Option<Vec<u8>>)
    ensures
        r is Some,
        r matches Some(bytes) ==> bytes@ == encoded_lines(line_views(lines@)),
        r matches Some(bytes) ==> decoded_lines(bytes@) == Some(line_views(lines@)),
{
    bincode::serialize(lines).ok()
}

/// The lines that the cache has for a blob, from the entry stored for it. There
/// are none where the cache is not to be used, and none where the entry cannot
/// be read.
pub fn cached_lines(no_cache: bool, entry: Option<Vec<u8>>) -> (r: Option<Vec<(i64, String)>>)
    ensures
        maybe_lines(r) == (match entry {
            Some(bytes) => if no_cache {
                None
            } else {
                decoded_lines(bytes@)
            },
            None => None,
        }),
{
    if no_cache {
        return None;
    }
    match entry {
        Some(bytes) => decode_lines(&bytes),
        None => None,
    }
}

/// The lines that `git blame` gives for a file: none where it failed.
pub open spec fn blamed_lines(stdout: Option<Vec<u8>>) -> Seq<(i64, Seq<char>)> {
    match stdout {
        Some(bytes) => blame_of(bytes@),
        None => seq![],
    }
}

/// The lines of a blob from the output of `git blame`, which is missing where
/// the program failed, and the entry to store for them. A later look at that
/// entry gives the same lines.
pub fn fresh_lines(stdout: Option<Vec<u8>>) -> (r: (Vec<(i64, String)>, Vec<u8>))
    ensures
        line_views(r.0@) == blamed_lines(stdout),
        r.1@ == encoded_lines(line_views(r.0@)),
        decoded_lines(r.1@) == Some(line_views(r.0@)),
{
    let lines: Vec<(i64, String)> = match stdout {
        Some(bytes) => parse_blame_output(bytes.as_slice()),
        None => Vec::new(),
    };
    assert(stdout is None ==> line_views(lines@) =~= seq![]);
    let entry = encode_lines(&lines).unwrap();
    (lines, entry)
}

/// The histograms of a blob from the entry that the cache has for it, if there
/// are lines to be had from it.
pub fn cached_histograms(no_cache: bool, entry: Option<Vec<u8>>, yearly: bool) -> (r: Option<
    (FxHashMap<i32, u64>, FxHashMap<String, u64>),
>)
    ensures
        r is Some <==> !no_cache && entry is Some && decoded_lines(entry->0@) is Some,
        r matches Some(h) ==> tallies(
            map_of(&h.0),
            periods_of(decoded_lines(entry->0@)->0, yearly),
        ),
        r matches Some(h) ==> tallies(map_of(&h.1), authors_of(decoded_lines(entry->0@)->0)),
{
    match cached_lines(no_cache, entry) {
        Some(lines) => Some(blob_histograms(&lines, yearly)),
        None => None,
    }
}

/// The histograms of a blob from the output of `git blame`, and the entry to
/// store for its lines.
pub fn blamed_histograms(stdout: Option<Vec<u8>>, yearly: bool) -> (r: (
    (FxHashMap<i32, u64>, FxHashMap<String, u64>),
    Vec<u8>,
))
    ensures
        tallies(map_of(&r.0.0), periods_of(blamed_lines(stdout), yearly)),
        tallies(map_of(&r.0.1), authors_of(blamed_lines(stdout))),
        r.1@ == encoded_lines(blamed_lines(stdout)),
        decoded_lines(r.1@) == Some(blamed_lines(stdout)),
{
    let (lines, entry) = fresh_lines(stdout);
    (blob_histograms(&lines, yearly), entry)
}

/// The lines of a blob are those that git's output gives, and there are none where
/// git failed.
pub proof fn law_lines_of_a_blob(stdout: Vec<u8>)
    ensures
        blamed_lines(Some(stdout)) == blame_of(stdout@),
        blamed_lines(None).len() == 0,
{
}

} // verus!
