//! Ordered header maps.  Headers keep the order in which they were first
//! inserted; inserting a key that is already present replaces its value in
//! place.  The map itself is `indexmap::IndexMap`, reached through the trusted
//! items of this module.

use indexmap::IndexMap;
use crate::text::eq_ignore_ascii_case;
use vstd::prelude::*;

verus! {

#[verifier::external_type_specification]
#[verifier::external_body]
#[verifier::reject_recursive_types(K)]
#[verifier::reject_recursive_types(V)]
#[verifier::reject_recursive_types(S)]
pub struct ExIndexMap<K, V, S>(IndexMap<K, V, S>);

/// The entries of an ordered header map, as (key, value) pairs in the map's order.
pub uninterp spec fn header_entries(map: IndexMap<String, String>) -> Seq<(Seq<char>, Seq<char>)>;

/// Index of the first entry whose key is `key`, if any.
pub open spec fn first_index_of(entries: Seq<(Seq<char>, Seq<char>)>, key: Seq<char>) -> Option<int>
    decreases entries.len(),
{
    if entries.len() == 0 {
        None
    } else if entries[0].0 == key {
        Some(0)
    } else {
        match first_index_of(entries.drop_first(), key) {
            Some(i) => Some(i + 1),
            None => None,
        }
    }
}

/// Index of the first entry whose key equals `key` up to ASCII case, if any.
pub open spec fn first_index_ignore_case(entries: Seq<(Seq<char>, Seq<char>)>, key: Seq<char>) -> Option<int>
    decreases entries.len(),
{
    if entries.len() == 0 {
        None
    } else if eq_ignore_ascii_case(entries[0].0, key) {
        Some(0)
    } else {
        match first_index_ignore_case(entries.drop_first(), key) {
            Some(i) => Some(i + 1),
            None => None,
        }
    }
}

/// The value of the first entry whose key equals `key` up to ASCII case.
pub open spec fn entries_lookup_ignore_case(entries: Seq<(Seq<char>, Seq<char>)>, key: Seq<char>) -> Option<Seq<char>> {
    match first_index_ignore_case(entries, key) {
        Some(i) => Some(entries[i].1),
        None => None,
    }
}

/// The first match up to ASCII case is determined by the keys.
pub proof fn lemma_first_index_ignore_case(entries: Seq<(Seq<char>, Seq<char>)>, key: Seq<char>, i: int)
    requires
        0 <= i <= entries.len(),
        forall|j: int| 0 <= j < i ==> !eq_ignore_ascii_case(#[trigger] entries[j].0, key),
    ensures
        i < entries.len() && eq_ignore_ascii_case(entries[i].0, key) ==> first_index_ignore_case(entries, key) == Some(i),
        i == entries.len() ==> first_index_ignore_case(entries, key) is None,
    decreases i,
{
    if i > 0 {
        let rest = entries.drop_first();
        assert forall|j: int| 0 <= j < i - 1 implies !eq_ignore_ascii_case(#[trigger] rest[j].0, key) by {
            assert(rest[j] == entries[j + 1]);
        }
        lemma_first_index_ignore_case(rest, key, i - 1);
        assert(!eq_ignore_ascii_case(entries[0].0, key));
        if i < entries.len() {
            assert(rest[i - 1] == entries[i]);
        }
    }
}

/// The value stored under `key`.
pub open spec fn entries_lookup(entries: Seq<(Seq<char>, Seq<char>)>, key: Seq<char>) -> Option<Seq<char>> {
    match first_index_of(entries, key) {
        Some(i) => Some(entries[i].1),
        None => None,
    }
}

/// The entries after inserting `(key, value)`: an existing key keeps its place
/// and takes the new value, a new key goes last.
pub open spec fn entries_insert(
    entries: Seq<(Seq<char>, Seq<char>)>,
    key: Seq<char>,
    value: Seq<char>,
) -> Seq<(Seq<char>, Seq<char>)> {
    match first_index_of(entries, key) {
        Some(i) => entries.update(i, (key, value)),
        None => entries.push((key, value)),
    }
}

/// Inserts `(key, value)` when `key` is not yet present; otherwise leaves the entries as they are.
pub open spec fn entries_insert_absent(
    entries: Seq<(Seq<char>, Seq<char>)>,
    key: Seq<char>,
    value: Seq<char>,
) -> Seq<(Seq<char>, Seq<char>)> {
    match first_index_of(entries, key) {
        Some(_) => entries,
        None => entries.push((key, value)),
    }
}

/// Inserts every pair of `pairs`, first to last.
pub open spec fn entries_insert_all(
    entries: Seq<(Seq<char>, Seq<char>)>,
    pairs: Seq<(Seq<char>, Seq<char>)>,
) -> Seq<(Seq<char>, Seq<char>)>
    decreases pairs.len(),
{
    if pairs.len() == 0 {
        entries
    } else {
        entries_insert(entries_insert_all(entries, pairs.drop_last()), pairs.last().0, pairs.last().1)
    }
}

/// Whether no key occurs twice.
pub open spec fn keys_distinct(entries: Seq<(Seq<char>, Seq<char>)>) -> bool {
    forall|i: int, j: int| 0 <= i < j < entries.len() ==> entries[i].0 != entries[j].0
}

/// What `first_index_of` finds: the first matching index, or no match at all.
pub proof fn lemma_first_index_of(entries: Seq<(Seq<char>, Seq<char>)>, key: Seq<char>)
    ensures
        match first_index_of(entries, key) {
            Some(i) => 0 <= i < entries.len() && entries[i].0 == key && forall|j: int|
                0 <= j < i ==> entries[j].0 != key,
            None => forall|j: int| 0 <= j < entries.len() ==> entries[j].0 != key,
        },
    decreases entries.len(),
{
    if entries.len() > 0 {
        lemma_first_index_of(entries.drop_first(), key);
        assert forall|j: int| 0 < j < entries.len() implies #[trigger] entries[j] == entries.drop_first()[j - 1] by {}
    }
}

/// The first match is determined by the keys: a position holding `key` with no
/// earlier `key` is the first index of `key`.
pub proof fn lemma_first_index_of_is(entries: Seq<(Seq<char>, Seq<char>)>, key: Seq<char>, i: int)
    requires
        0 <= i < entries.len(),
        entries[i].0 == key,
        forall|j: int| 0 <= j < i ==> entries[j].0 != key,
    ensures
        first_index_of(entries, key) == Some(i),
{
    lemma_first_index_of(entries, key);
    match first_index_of(entries, key) {
        Some(k) => {
            if k < i {
            } else if k > i {
            }
        },
        None => {},
    }
}

/// Reading back what was written: after inserting `(key, value)`, `key` is
/// found with `value`.
pub proof fn lemma_insert_read_back(entries: Seq<(Seq<char>, Seq<char>)>, key: Seq<char>, value: Seq<char>)
    ensures
        entries_lookup(entries_insert(entries, key, value), key) == Some(value),
{
    lemma_first_index_of(entries, key);
    let after = entries_insert(entries, key, value);
    match first_index_of(entries, key) {
        Some(i) => {
            lemma_first_index_of_is(after, key, i);
        },
        None => {
            lemma_first_index_of_is(after, key, entries.len() as int);
        },
    }
}

/// Inserting under one key leaves what every other key finds as it was.
pub proof fn lemma_insert_other_key(
    entries: Seq<(Seq<char>, Seq<char>)>,
    key: Seq<char>,
    value: Seq<char>,
    other: Seq<char>,
)
    requires
        other != key,
    ensures
        entries_lookup(entries_insert(entries, key, value), other) == entries_lookup(entries, other),
{
    lemma_first_index_of(entries, key);
    lemma_first_index_of(entries, other);
    let after = entries_insert(entries, key, value);
    lemma_first_index_of(after, other);
    match first_index_of(entries, other) {
        Some(i) => {
            lemma_first_index_of_is(after, other, i);
        },
        None => {
            match first_index_of(after, other) {
                Some(j) => {
                    assert(after[j].0 == other);
                },
                None => {},
            }
        },
    }
}

/// Each key at most once: inserting keeps the keys of a map distinct.
pub proof fn lemma_insert_keeps_keys_distinct(entries: Seq<(Seq<char>, Seq<char>)>, key: Seq<char>, value: Seq<char>)
    requires
        keys_distinct(entries),
    ensures
        keys_distinct(entries_insert(entries, key, value)),
{
    lemma_first_index_of(entries, key);
}

/// Each key at most once: inserting many pairs keeps the keys distinct.
pub proof fn lemma_insert_all_keeps_keys_distinct(entries: Seq<(Seq<char>, Seq<char>)>, pairs: Seq<(Seq<char>, Seq<char>)>)
    requires
        keys_distinct(entries),
    ensures
        keys_distinct(entries_insert_all(entries, pairs)),
    decreases pairs.len(),
{
    if pairs.len() > 0 {
        lemma_insert_all_keeps_keys_distinct(entries, pairs.drop_last());
        lemma_insert_keeps_keys_distinct(entries_insert_all(entries, pairs.drop_last()), pairs.last().0, pairs.last().1);
    }
}

/// `IndexMap::new`: the new map is empty.
#[verifier::external_body]
pub(crate) fn headers_new() -> (map: IndexMap<String, String>)
    ensures
        header_entries(map) == Seq::<(Seq<char>, Seq<char>)>::empty(),
{
    IndexMap::new()
}

/// `IndexMap::insert`: a key already present keeps its place and takes the new
/// value; a new key is added last.
#[verifier::external_body]
pub(crate) fn headers_insert(map: &mut IndexMap<String, String>, key: String, value: String)
    ensures
        header_entries(*final(map)) == entries_insert(header_entries(*old(map)), key@, value@),
{
    map.insert(key, value);
}

/// `IndexMap::get`: the value stored under `key`.  An `IndexMap` holds each key
/// at most once, so the value found is that of the first entry with this key.
#[verifier::external_body]
pub(crate) fn headers_get<'a>(map: &'a IndexMap<String, String>, key: &str) -> (r: Option<&'a String>)
    ensures
        r is Some <==> entries_lookup(header_entries(*map), key@) is Some,
        r matches Some(v) ==> entries_lookup(header_entries(*map), key@) == Some(v@),
{
    map.get(key)
}

/// `IndexMap::iter`: the entries in the map's order, each copied into a pair of strings.
#[verifier::external_body]
pub(crate) fn headers_pairs(map: &IndexMap<String, String>) -> (r: Vec<(String, String)>)
    ensures
        r@.len() == header_entries(*map).len(),
        forall|i: int|
            0 <= i < r@.len() ==> r@[i].0@ == header_entries(*map)[i].0 && r@[i].1@ == header_entries(
                *map,
            )[i].1,
{
    map.iter().map(|(k, v)| (k.clone(), v.clone())).collect()
}

} // verus!
