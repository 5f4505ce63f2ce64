//! The mathematical model of decoded bencode values.

use crate::occurrence::{
    is_first_occurrence, lemma_first_occurrence, lemma_index_of_first, lemma_no_occurrence,
};
use vstd::prelude::*;

verus! {

/// One decoded node, as a mathematical value.
///
/// A dictionary is the sequence of its entries in the order in which their
/// keys first occurred.
pub enum Value {
    ByteString(Seq<u8>),
    Integer(int),
    List(Seq<Value>),
    Dict(Seq<(Seq<u8>, Value)>),
}

/// The keys of the entries of a dictionary, in entry order.
pub open spec fn dict_keys(entries: Seq<(Seq<u8>, Value)>) -> Seq<Seq<u8>> {
    entries.map_values(|entry: (Seq<u8>, Value)| entry.0)
}

/// The value stored under `key`, if the dictionary has such an entry.
pub open spec fn dict_get(entries: Seq<(Seq<u8>, Value)>, key: Seq<u8>) -> Option<Value> {
    match dict_keys(entries).index_of_first(key) {
        Some(i) => Some(entries[i].1),
        None => None,
    }
}

/// The dictionary after storing `value` under `key`: an entry that already
/// has this key keeps its place and gets the new value, otherwise a new
/// entry is appended.
pub open spec fn dict_insert(entries: Seq<(Seq<u8>, Value)>, key: Seq<u8>, value: Value) -> Seq<
    (Seq<u8>, Value),
> {
    match dict_keys(entries).index_of_first(key) {
        Some(i) => entries.update(i, (key, value)),
        None => entries.push((key, value)),
    }
}

/// The mapping that a dictionary stands for: each key that an entry has,
/// with the value found under it.
pub open spec fn dict_map(entries: Seq<(Seq<u8>, Value)>) -> Map<Seq<u8>, Value> {
    Map::new(
        |key: Seq<u8>| dict_get(entries, key) is Some,
        |key: Seq<u8>| dict_get(entries, key).unwrap(),
    )
}

/// Whether no two entries of a dictionary have the same key.
pub open spec fn keys_unique(entries: Seq<(Seq<u8>, Value)>) -> bool {
    dict_keys(entries).no_duplicates()
}

/// Whether a value is one that a node can hold: every integer in it fits
/// an `i64` and no dictionary in it has two entries with the same key.
pub open spec fn well_formed(value: Value) -> bool
    decreases value,
{
    match value {
        Value::ByteString(_) => true,
        Value::Integer(n) => i64::MIN <= n <= i64::MAX,
        Value::List(items) => forall|i: int|
            0 <= i < items.len() ==> well_formed(#[trigger] items[i]),
        Value::Dict(entries) => keys_unique(entries) && forall|i: int|
            0 <= i < entries.len() ==> well_formed((#[trigger] entries[i]).1),
    }
}

/// Whether every value of a run is well formed.
pub open spec fn all_well_formed(items: Seq<Value>) -> bool {
    forall|i: int| 0 <= i < items.len() ==> well_formed(#[trigger] items[i])
}

/// Whether the value of every pair of a run is well formed.
pub open spec fn values_well_formed(pairs: Seq<(Seq<u8>, Value)>) -> bool {
    forall|i: int| 0 <= i < pairs.len() ==> well_formed((#[trigger] pairs[i]).1)
}

/// A list is well formed exactly where each of its items is.
pub proof fn lemma_well_formed_list(items: Seq<Value>)
    ensures
        well_formed(Value::List(items)) <==> all_well_formed(items),
{
    let list = Value::List(items);
    if well_formed(list) {
        assert forall|i: int| 0 <= i < items.len() implies well_formed(#[trigger] items[i]) by {
            assert(list->List_0[i] == items[i]);
        }
    }
}

/// A dictionary is well formed exactly where its keys are unique and each
/// of its values is well formed.
pub proof fn lemma_well_formed_dict(entries: Seq<(Seq<u8>, Value)>)
    ensures
        well_formed(Value::Dict(entries)) <==> keys_unique(entries) && values_well_formed(
            entries,
        ),
{
    let dict = Value::Dict(entries);
    if well_formed(dict) {
        assert forall|i: int| 0 <= i < entries.len() implies well_formed(
            (#[trigger] entries[i]).1,
        ) by {
            assert(dict->Dict_0[i] == entries[i]);
        }
    }
}

/// A key that no entry has is not found, and only such a key.
pub proof fn lemma_get_none_iff_absent(entries: Seq<(Seq<u8>, Value)>, key: Seq<u8>)
    ensures
        dict_get(entries, key) is None <==> forall|i: int|
            0 <= i < entries.len() ==> (#[trigger] entries[i]).0 != key,
{
    let keys = dict_keys(entries);
    lemma_index_of_first(keys, key);
    if dict_get(entries, key) is None {
        assert forall|i: int| 0 <= i < entries.len() implies (#[trigger] entries[i]).0 != key by {
            assert(keys[i] == entries[i].0);
        }
    } else {
        let i = keys.index_of_first(key).unwrap();
        assert(entries[i].0 == key);
    }
}

/// Inserting under a key that the dictionary has leaves its keys as they
/// are; inserting under a new key appends that key.
pub proof fn lemma_keys_after_insert(entries: Seq<(Seq<u8>, Value)>, key: Seq<u8>, value: Value)
    ensures
        dict_keys(dict_insert(entries, key, value)) == if dict_keys(entries).contains(key) {
            dict_keys(entries)
        } else {
            dict_keys(entries).push(key)
        },
{
    let keys = dict_keys(entries);
    lemma_index_of_first(keys, key);
    match keys.index_of_first(key) {
        Some(i) => {
            assert(keys.contains(key));
            assert(dict_keys(entries.update(i, (key, value))) =~= keys);
        },
        None => {
            assert(dict_keys(entries.push((key, value))) =~= keys.push(key));
        },
    }
}

/// Last write wins: after an insertion the key holds the inserted value,
/// and every other key holds what it held before.
pub proof fn lemma_get_after_insert(
    entries: Seq<(Seq<u8>, Value)>,
    key: Seq<u8>,
    value: Value,
    query: Seq<u8>,
)
    ensures
        dict_get(dict_insert(entries, key, value), query) == if query == key {
            Some(value)
        } else {
            dict_get(entries, query)
        },
{
    let keys = dict_keys(entries);
    let after = dict_insert(entries, key, value);
    let keys_after = dict_keys(after);
    lemma_keys_after_insert(entries, key, value);
    lemma_index_of_first(keys, key);
    lemma_index_of_first(keys, query);
    match keys.index_of_first(key) {
        Some(i) => {
            assert(keys_after == keys);
        },
        None => {
            assert(keys_after == keys.push(key));
            assert(after == entries.push((key, value)));
            match keys.index_of_first(query) {
                Some(j) => {
                    assert(is_first_occurrence(keys_after, query, j));
                    lemma_first_occurrence(keys_after, query, j);
                },
                None => {
                    if query == key {
                        assert(is_first_occurrence(keys_after, query, keys.len() as int));
                        lemma_first_occurrence(keys_after, query, keys.len() as int);
                    } else {
                        lemma_no_occurrence(keys_after, query);
                    }
                },
            }
        },
    }
}

/// As a mapping, a dictionary after an insertion is the mapping before it
/// with the key set to the inserted value.
pub proof fn lemma_insert_is_map_insert(
    entries: Seq<(Seq<u8>, Value)>,
    key: Seq<u8>,
    value: Value,
)
    ensures
        dict_map(dict_insert(entries, key, value)) == dict_map(entries).insert(key, value),
{
    let after = dict_map(dict_insert(entries, key, value));
    let expected = dict_map(entries).insert(key, value);
    assert forall|query: Seq<u8>| #[trigger]
        after.dom().contains(query) == expected.dom().contains(query) by {
        lemma_get_after_insert(entries, key, value, query);
    }
    assert forall|query: Seq<u8>| after.dom().contains(query) implies #[trigger] after[query]
        == expected[query] by {
        lemma_get_after_insert(entries, key, value, query);
    }
    assert(after =~= expected);
}

/// Insertion keeps the keys of a dictionary unique.
pub proof fn lemma_insert_keeps_keys_unique(
    entries: Seq<(Seq<u8>, Value)>,
    key: Seq<u8>,
    value: Value,
)
    requires
        keys_unique(entries),
    ensures
        keys_unique(dict_insert(entries, key, value)),
{
    lemma_keys_after_insert(entries, key, value);
}

/// In a dictionary with unique keys every entry is found under its key.
pub proof fn lemma_get_entry(entries: Seq<(Seq<u8>, Value)>, i: int)
    requires
        keys_unique(entries),
        0 <= i < entries.len(),
    ensures
        dict_get(entries, entries[i].0) == Some(entries[i].1),
{
    let keys = dict_keys(entries);
    assert(keys[i] == entries[i].0);
    lemma_index_of_first(keys, entries[i].0);
}

} // verus!
