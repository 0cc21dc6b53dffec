//! Ordered keyvalue lists, as a map file stores them.
//!
//! The lists themselves are `indexmap::IndexMap<String, String>`: insertion
//! ordered, one entry per key. The library reasons about such a map through its
//! entries, a sequence of `(key, value)` pairs in map order.

use indexmap::IndexMap;
use vstd::prelude::*;

verus! {

/// Declares `indexmap::IndexMap` so that it can stand in fields and signatures.
#[verifier::external_type_specification]
#[verifier::external_body]
#[verifier::reject_recursive_types(K)]
#[verifier::reject_recursive_types(V)]
#[verifier::reject_recursive_types(S)]
pub struct ExIndexMap<K, V, S>(IndexMap<K, V, S>);

/// The entries of a keyvalue map, in map order.
pub uninterp spec fn entries_of(m: IndexMap<String, String>) -> Seq<(Seq<char>, Seq<char>)>;

/// An ordered keyvalue list as the library reasons about it.
pub type Entries = Seq<(Seq<char>, Seq<char>)>;

/// Entry `i` carries key `k`.
pub open spec fn key_at(e: Entries, k: Seq<char>, i: int) -> bool {
    0 <= i < e.len() && e[i].0 == k
}

/// Some entry carries key `k`.
pub open spec fn has_key(e: Entries, k: Seq<char>) -> bool {
    exists|i: int| key_at(e, k, i)
}

/// The position of the entry with key `k` (meaningful where `has_key`).
pub open spec fn key_pos(e: Entries, k: Seq<char>) -> int {
    choose|i: int| key_at(e, k, i)
}

/// The value stored under `k`, if any.
pub open spec fn lookup(e: Entries, k: Seq<char>) -> Option<Seq<char>> {
    if has_key(e, k) {
        Some(e[key_pos(e, k)].1)
    } else {
        None
    }
}

/// No key occurs twice.
pub open spec fn distinct_keys(e: Entries) -> bool {
    forall|i: int, j: int| 0 <= i < e.len() && 0 <= j < e.len() && i != j ==> e[i].0 != e[j].0
}

/// The keys of a keyvalue list, in order.
pub open spec fn keys_of(e: Entries) -> Seq<Seq<char>> {
    e.map_values(|p: (Seq<char>, Seq<char>)| p.0)
}

/// With distinct keys, the position of a present key is the one that carries it.
pub proof fn lemma_key_pos_unique(e: Entries, k: Seq<char>, i: int)
    requires
        distinct_keys(e),
        key_at(e, k, i),
    ensures
        has_key(e, k),
        key_pos(e, k) == i,
        lookup(e, k) == Some(e[i].1),
{
}

/// `IndexMap::new`: an empty map.
#[verifier::external_body]
pub(crate) fn kv_new() -> (m: IndexMap<String, String>)
    ensures
        entries_of(m) == Seq::<(Seq<char>, Seq<char>)>::empty(),
{
    IndexMap::new()
}

/// `IndexMap::len`: the number of entries.
#[verifier::external_body]
pub(crate) fn kv_len(m: &IndexMap<String, String>) -> (n: usize)
    ensures
        n == entries_of(*m).len(),
{
    m.len()
}

/// `IndexMap::get_index`: the entry at position `i`, if there is one. The source
/// stores entries in a vector and keeps one entry per key, so the key handed
/// back occurs at no other position.
#[verifier::external_body]
pub(crate) fn kv_get_index(m: &IndexMap<String, String>, i: usize) -> (r: Option<(&String, &String)>)
    ensures
        i < entries_of(*m).len() <==> r is Some,
        r matches Some(p) ==> p.0@ == entries_of(*m)[i as int].0 && p.1@ == entries_of(
            *m,
        )[i as int].1,
        r matches Some(p) ==> forall|j: int|
            0 <= j < entries_of(*m).len() && j != i ==> entries_of(*m)[j].0 != p.0@,
{
    m.get_index(i)
}

/// `IndexMap::get_index_of`: the position of the entry with this key.
#[verifier::external_body]
pub(crate) fn kv_index_of(m: &IndexMap<String, String>, key: &str) -> (r: Option<usize>)
    ensures
        r matches Some(i) ==> key_at(entries_of(*m), key@, i as int),
        r is None ==> !has_key(entries_of(*m), key@),
{
    m.get_index_of(key)
}

/// `IndexMap::get`: the value stored under `key`.
#[verifier::external_body]
pub(crate) fn kv_get<'a>(m: &'a IndexMap<String, String>, key: &str) -> (r: Option<&'a String>)
    ensures
        r is None <==> lookup(entries_of(*m), key@) is None,
        r matches Some(v) ==> lookup(entries_of(*m), key@) == Some(v@),
{
    m.get(key)
}

/// `IndexMap::insert`: an existing key keeps its place and takes the new value;
/// a new key goes last.
#[verifier::external_body]
pub(crate) fn kv_insert(m: &mut IndexMap<String, String>, key: String, value: String) -> (r: Option<String>)
    ensures
        has_key(entries_of(*old(m)), key@) ==> entries_of(*final(m)) == entries_of(*old(m)).update(
            key_pos(entries_of(*old(m)), key@),
            (key@, value@),
        ),
        !has_key(entries_of(*old(m)), key@) ==> entries_of(*final(m)) == entries_of(*old(m)).push(
            (key@, value@),
        ),
        r matches Some(v) ==> lookup(entries_of(*old(m)), key@) == Some(v@),
        r is None <==> !has_key(entries_of(*old(m)), key@),
{
    m.insert(key, value)
}

/// `IndexMap::shift_remove`: the entry with this key leaves, and the ones after
/// it move up by one, keeping their order.
#[verifier::external_body]
pub(crate) fn kv_shift_remove(m: &mut IndexMap<String, String>, key: &str) -> (r: Option<String>)
    ensures
        has_key(entries_of(*old(m)), key@) ==> entries_of(*final(m)) == entries_of(*old(m)).remove(
            key_pos(entries_of(*old(m)), key@),
        ),
        !has_key(entries_of(*old(m)), key@) ==> entries_of(*final(m)) == entries_of(*old(m)),
        r matches Some(v) ==> lookup(entries_of(*old(m)), key@) == Some(v@),
        r is None <==> !has_key(entries_of(*old(m)), key@),
{
    m.shift_remove(key)
}

/// `IndexMap::shift_insert`: a new key is inserted at `index`; an existing key is
/// moved to `index` and takes the new value. The source panics on an index past
/// the end (`len` for an existing key, `len + 1` for a new one), so those are
/// left out.
#[verifier::external_body]
pub(crate) fn kv_shift_insert(
    m: &mut IndexMap<String, String>,
    index: usize,
    key: String,
    value: String,
) -> (r: Option<String>)
    requires
        has_key(entries_of(*old(m)), key@) ==> index < entries_of(*old(m)).len(),
        !has_key(entries_of(*old(m)), key@) ==> index <= entries_of(*old(m)).len(),
    ensures
        has_key(entries_of(*old(m)), key@) ==> entries_of(*final(m)) == entries_of(*old(m)).remove(
            key_pos(entries_of(*old(m)), key@),
        ).insert(index as int, (key@, value@)),
        !has_key(entries_of(*old(m)), key@) ==> entries_of(*final(m)) == entries_of(*old(m)).insert(
            index as int,
            (key@, value@),
        ),
        r is None <==> !has_key(entries_of(*old(m)), key@),
{
    m.shift_insert(index, key, value)
}

/// `IndexMap::clone`: a map with the same entries in the same order.
#[verifier::external_body]
pub(crate) fn kv_clone(m: &IndexMap<String, String>) -> (r: IndexMap<String, String>)
    ensures
        entries_of(r) == entries_of(*m),
{
    m.clone()
}

/// Learns, by visiting every entry once, that no key of `m` occurs twice.
pub fn check_distinct(m: &IndexMap<String, String>)
    ensures
        distinct_keys(entries_of(*m)),
{
    let n = kv_len(m);
    let mut i: usize = 0;
    while i < n
        invariant
            n == entries_of(*m).len(),
            i <= n,
            forall|a: int, b: int|
                0 <= a < i && 0 <= b < n && a != b ==> entries_of(*m)[a].0 != entries_of(*m)[b].0,
        decreases n - i,
    {
        let _ = kv_get_index(m, i);
        i = i + 1;
    }
}

} // verus!
