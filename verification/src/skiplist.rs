//! Trusted interface to `crossbeam_skiplist::SkipMap`, the lock-free
//! ordered map that backs both the memtable and the index.
//!
//! The entries a skip map holds are named by the uninterpreted function
//! [`skip_map_contents`]; the wrapper contracts below speak about that name
//! and are believed, not proved — each one records the `SkipMap` method it
//! relies on.  [`SortedKv`] is the verified face over those wrappers.

use vstd::prelude::*;

use crossbeam_skiplist::SkipMap;

use crate::model::{key_lt, KvMap};

verus! {

#[verifier::external_type_specification]
#[verifier::external_body]
#[verifier::reject_recursive_types(K)]
#[verifier::reject_recursive_types(V)]
pub struct ExSkipMap<K, V>(SkipMap<K, V>);

/// The entries a skip map currently holds, as a map from the key's
/// characters to the value's characters and the timestamp.
pub uninterp spec fn skip_map_contents(m: SkipMap<String, (String, u128)>) -> KvMap;

/// Relies on `SkipMap::new`: the new map is empty.
#[verifier::external_body]
fn skip_map_new() -> (r: SkipMap<String, (String, u128)>)
    ensures
        skip_map_contents(r) == KvMap::empty(),
{
    SkipMap::new()
}

/// Relies on `SkipMap::insert`: the pair is added, replacing any existing
/// entry with this key.
#[verifier::external_body]
fn skip_map_insert(m: &mut SkipMap<String, (String, u128)>, key: String, value: String, ts: u128)
    ensures
        skip_map_contents(*final(m)) == skip_map_contents(*old(m)).insert(key@, (value@, ts)),
{
    m.insert(key, (value, ts));
}

/// Relies on `SkipMap::get`: an exact-match lookup of the stored pair.
#[verifier::external_body]
fn skip_map_lookup(m: &SkipMap<String, (String, u128)>, key: &String) -> (r: Option<
    (String, u128),
>)
    ensures
        match r {
            Some(p) => skip_map_contents(*m).contains_key(key@) && skip_map_contents(*m)[key@] == (
                p.0@,
                p.1,
            ),
            None => !skip_map_contents(*m).contains_key(key@),
        },
{
    m.get(key).map(|e| (e.value().0.clone(), e.value().1))
}

/// Relies on `SkipMap::len`: the number of entries held.
#[verifier::external_body]
fn skip_map_len(m: &SkipMap<String, (String, u128)>) -> (n: usize)
    ensures
        n == skip_map_contents(*m).dom().len(),
{
    m.len()
}

/// Relies on `SkipMap::clear`: every entry is removed.
#[verifier::external_body]
fn skip_map_clear(m: &mut SkipMap<String, (String, u128)>)
    ensures
        skip_map_contents(*final(m)) == KvMap::empty(),
{
    m.clear();
}

/// Relies on `SkipMap::iter`: it yields each entry exactly once, in
/// ascending key order, which for `String` keys is byte-lexicographic
/// order on their UTF-8 encodings.
#[verifier::external_body]
fn skip_map_to_vec(m: &SkipMap<String, (String, u128)>) -> (r: Vec<(String, String, u128)>)
    ensures
        r@.len() == skip_map_contents(*m).dom().len(),
        forall|i: int, j: int|
            0 <= i < j < r@.len() ==> key_lt(#[trigger] r@[i].0@, #[trigger] r@[j].0@),
        forall|i: int|
            0 <= i < r@.len() ==> skip_map_contents(*m).contains_key(#[trigger] r@[i].0@)
                && skip_map_contents(*m)[r@[i].0@] == (r@[i].1@, r@[i].2),
        forall|k: Seq<char>| #[trigger]
            skip_map_contents(*m).contains_key(k) ==> exists|i: int|
                0 <= i < r@.len() && #[trigger] r@[i].0@ == k,
{
    let mut out = Vec::new();
    for e in m.iter() {
        out.push((e.key().clone(), e.value().0.clone(), e.value().1));
    }
    out
}

/// An ordered map from string keys to value/timestamp pairs, backed by a
/// lock-free skip list.
pub struct SortedKv {
    map: SkipMap<String, (String, u128)>,
}

impl View for SortedKv {
    type V = KvMap;

    closed spec fn view(&self) -> KvMap {
        skip_map_contents(self.map)
    }
}

impl SortedKv {
    pub fn new() -> (r: SortedKv)
        ensures
            r@ == KvMap::empty(),
    {
        SortedKv { map: skip_map_new() }
    }

    pub fn insert(&mut self, key: String, value: String, timestamp: u128)
        ensures
            final(self)@ == old(self)@.insert(key@, (value@, timestamp)),
    {
        skip_map_insert(&mut self.map, key, value, timestamp);
    }

    pub fn lookup(&self, key: &String) -> (r: Option<(String, u128)>)
        ensures
            match r {
                Some(p) => self@.contains_key(key@) && self@[key@] == (p.0@, p.1),
                None => !self@.contains_key(key@),
            },
    {
        skip_map_lookup(&self.map, key)
    }

    pub fn length(&self) -> (n: usize)
        ensures
            n == self@.dom().len(),
    {
        skip_map_len(&self.map)
    }

    pub fn clear(&mut self)
        ensures
            final(self)@ == KvMap::empty(),
    {
        skip_map_clear(&mut self.map);
    }

    /// Every entry, in strictly ascending key order.
    pub fn to_vec(&self) -> (r: Vec<(String, String, u128)>)
        ensures
            r@.len() == self@.dom().len(),
            forall|i: int, j: int|
                0 <= i < j < r@.len() ==> key_lt(#[trigger] r@[i].0@, #[trigger] r@[j].0@),
            forall|i: int|
                0 <= i < r@.len() ==> self@.contains_key(#[trigger] r@[i].0@) && self@[r@[i].0@]
                    == (r@[i].1@, r@[i].2),
            forall|k: Seq<char>| #[trigger]
                self@.contains_key(k) ==> exists|i: int|
                    0 <= i < r@.len() && #[trigger] r@[i].0@ == k,
    {
        skip_map_to_vec(&self.map)
    }
}

} // verus!
