//! Hash tables with the Fx hasher, stated over the mathematical values that
//! their keys stand for.

use crate::sealed::Sealed;
use rustc_hash::{FxHashMap, FxHashSet};
use std::hash::Hash;
use vstd::prelude::*;

verus! {

/// The hash builder behind `FxHashMap` and `FxHashSet`.
#[verifier::external_type_specification]
#[verifier::external_body]
pub struct ExFxBuildHasher(rustc_hash::FxBuildHasher);

/// A table key whose `Eq` and `Hash` go by the value it stands for and by
/// nothing else. The keys below are all there are.
pub trait FxKey: Sealed + Eq + Hash {
    type Model;

    spec fn model(&self) -> Self::Model;
}

impl FxKey for i32 {
    type Model = i32;

    open spec fn model(&self) -> i32 {
        *self
    }
}

impl FxKey for String {
    type Model = Seq<char>;

    open spec fn model(&self) -> Seq<char> {
        self@
    }
}

impl FxKey for [u8; 20] {
    type Model = [u8; 20];

    open spec fn model(&self) -> [u8; 20] {
        *self
    }
}

impl FxKey for [u8; 40] {
    type Model = Seq<u8>;

    open spec fn model(&self) -> Seq<u8> {
        self@
    }
}

impl<K: FxKey> FxKey for ([u8; 20], K) {
    type Model = ([u8; 20], K::Model);

    open spec fn model(&self) -> ([u8; 20], K::Model) {
        (self.0, self.1.model())
    }
}

/// A key that can be copied.
pub(crate) trait CopyKey: FxKey + Sized {
    /// A key that stands for the same value.
    fn copy_key(&self) -> (r: Self)
        ensures
            r.model() == self.model(),
    ;
}

impl CopyKey for i32 {
    fn copy_key(&self) -> (r: i32) {
        *self
    }
}

impl CopyKey for String {
    fn copy_key(&self) -> (r: String) {
        self.clone()
    }
}

/// What a map holds: the value under each key, by what the key stands for.
#[verifier::opaque]
pub open spec fn map_of<K: FxKey, V>(m: &FxHashMap<K, V>) -> Map<K::Model, V> {
    Map::new(
        |x: K::Model| exists|k: K| m@.contains_key(k) && #[trigger] k.model() == x,
        |x: K::Model| m@[choose|k: K| m@.contains_key(k) && #[trigger] k.model() == x],
    )
}

/// A new, empty map.
pub fn map_new<K: FxKey, V>() -> (m: FxHashMap<K, V>)
    ensures
        map_of(&m) == Map::<K::Model, V>::empty(),
{
    let m: FxHashMap<K, V> = FxHashMap::default();
    proof {
        reveal(map_of);
        assert(map_of(&m) =~= Map::<K::Model, V>::empty());
    }
    m
}

/// `HashMap::insert`: the key, by what it stands for, now has the value, and
/// every other key has what it had.
#[verifier::external_body]
pub(crate) fn map_insert<K: FxKey, V>(m: &mut FxHashMap<K, V>, key: K, value: V)
    ensures
        map_of(final(m)) == map_of(old(m)).insert(key.model(), value),
{
    m.insert(key, value);
}

/// `HashMap::get`: the value under the key, or nothing where the map has no such
/// key.
#[verifier::external_body]
pub(crate) fn map_get<'a, K: FxKey, V>(m: &'a FxHashMap<K, V>, key: &K) -> (r: Option<&'a V>)
    ensures
        r == (if map_of(m).contains_key(key.model()) {
            Some(&map_of(m)[key.model()])
        } else {
            None
        }),
{
    m.get(key)
}

/// A set has `n` members.
pub open spec fn is_size<T>(s: Set<T>, n: int) -> bool {
    s.finite() && s.len() == n
}

/// `HashMap::len`: the number of entries, of which there are finitely many.
#[verifier::external_body]
pub(crate) fn map_len<K: FxKey, V>(m: &FxHashMap<K, V>) -> (r: usize)
    ensures
        is_size(map_of(m).dom(), r as int),
{
    m.len()
}

/// The entries of a table of counts, each once, in no particular order.
pub open spec fn lists_entries<K: FxKey>(r: Seq<(&K, u64)>, m: &FxHashMap<K, u64>) -> bool {
    &&& forall|i: int|
        0 <= i < r.len() ==> map_of(m).contains_key((#[trigger] r[i]).0.model())
            && map_of(m)[r[i].0.model()] == r[i].1
    &&& forall|i: int, j: int|
        0 <= i < j < r.len() ==> (#[trigger] r[i]).0.model() != (#[trigger] r[j]).0.model()
    &&& forall|x: K::Model|
        #[trigger] map_of(m).contains_key(x) ==> exists|i: int|
            0 <= i < r.len() && (#[trigger] r[i]).0.model() == x
}

/// `HashMap::iter`: every entry of the map once. Their order is not stated: it
/// depends on where the hashes put them.
#[verifier::external_body]
pub(crate) fn map_entries<'a, K: FxKey>(m: &'a FxHashMap<K, u64>) -> (r: Vec<(&'a K, u64)>)
    ensures
        lists_entries(r@, m),
{
    m.iter().map(|(k, v)| (k, *v)).collect()
}

/// What a set holds: the values that its members stand for.
#[verifier::opaque]
pub open spec fn set_of<K: FxKey>(s: &FxHashSet<K>) -> Set<K::Model> {
    s@.map(|k: K| k.model())
}

/// A new, empty set.
pub fn set_new<K: FxKey>() -> (s: FxHashSet<K>)
    ensures
        set_of(&s) == Set::<K::Model>::empty(),
{
    let s: FxHashSet<K> = FxHashSet::default();
    proof {
        reveal(set_of);
        assert(set_of(&s) =~= Set::<K::Model>::empty());
    }
    s
}

/// `HashSet::insert`: the set now has the member, beside those that it had.
#[verifier::external_body]
pub(crate) fn set_insert<K: FxKey>(s: &mut FxHashSet<K>, key: K)
    ensures
        set_of(final(s)) == set_of(old(s)).insert(key.model()),
{
    s.insert(key);
}

/// `HashSet::contains`: whether the set has the member.
#[verifier::external_body]
pub(crate) fn set_contains<K: FxKey>(s: &FxHashSet<K>, key: &K) -> (r: bool)
    ensures
        r == set_of(s).contains(key.model()),
{
    s.contains(key)
}

} // verus!
