//! The convention of API Gateway, whose events hold the values of a query
//! string parameter as one scalar, joined with commas.

use crate::decode::{decoded, wire_view};
use crate::query_map::QueryMap;
use crate::text::{join, spec_join};
use crate::wire::{Convention, OneOrMany};
use vstd::prelude::*;

verus! {

/// Pairs of strings as plain values.
pub open spec fn pairs_view(pairs: Seq<(String, String)>) -> Seq<(Seq<char>, Seq<char>)> {
    pairs.map_values(|pair: (String, String)| (pair.0@, pair.1@))
}

/// Each key with its values joined by commas.
pub open spec fn joined(entries: Seq<(Seq<char>, Seq<Seq<char>>)>) -> Seq<
    (Seq<char>, Seq<char>),
> {
    entries.map_values(
        |entry: (Seq<char>, Seq<Seq<char>>)| (entry.0, spec_join(entry.1, seq![','])),
    )
}

/// Deserialize values into a [`QueryMap`]: a scalar is split at its commas,
/// a list is taken as it is.
/// This function assumes that all values have been initialized.
pub fn deserialize(entries: Vec<(String, OneOrMany)>) -> (map: QueryMap<String>)
    ensures
        map.text_entries() == decoded(wire_view(entries@), Convention::CommaSeparated),
{
    QueryMap::decode(entries, Convention::CommaSeparated)
}

/// Deserialize `null` values into optional values: no source gives no map.
pub fn deserialize_optional(source: Option<Vec<(String, OneOrMany)>>) -> (map: Option<
    QueryMap<String>,
>)
    ensures
        match source {
            Some(entries) => map is Some && map.unwrap().text_entries() == decoded(
                wire_view(entries@),
                Convention::CommaSeparated,
            ),
            None => map is None,
        },
{
    match source {
        Some(entries) => Some(deserialize(entries)),
        None => None,
    }
}

/// Deserialize `null` values into default [`QueryMap`] objects: no source
/// gives the map without keys.
pub fn deserialize_empty(source: Option<Vec<(String, OneOrMany)>>) -> (map: QueryMap<String>)
    ensures
        map.text_entries() == match source {
            Some(entries) => decoded(wire_view(entries@), Convention::CommaSeparated),
            None => Seq::empty(),
        },
{
    match source {
        Some(entries) => deserialize(entries),
        None => {
            let map = QueryMap::default();
            assert(map.text_entries() =~= Seq::empty());
            map
        },
    }
}

/// Serializes [`QueryMap`], converting value from [`Vec<String>`] to
/// [`String`]: every key, in the order of the keys, with its values joined
/// by commas.
pub fn serialize_query_string_parameters(value: &QueryMap<String>) -> (parameters: Vec<
    (String, String),
>)
    ensures
        pairs_view(parameters@) == joined(value.text_entries()),
{
    proof {
        reveal_strlit(",");
        assert(","@ =~= seq![',']);
    }
    let store = value.store();
    let ghost expected = joined(value.text_entries());
    let mut parameters: Vec<(String, String)> = Vec::with_capacity(store.len());
    let mut at: usize = 0;
    while at < store.len()
        invariant
            at <= store.entries().len(),
            store.entries() == value.entries(),
            ","@ == seq![','],
            expected == joined(value.text_entries()),
            pairs_view(parameters@) == expected.take(at as int),
        decreases store.entries().len() - at,
    {
        let ghost before = pairs_view(parameters@);
        let key = String::from_str(store.key_at(at));
        let scalar = join(store.values_at(at), ",");
        parameters.push((key, scalar));
        at = at + 1;
        assert(pairs_view(parameters@) =~= before.push((key@, scalar@)));
        assert(pairs_view(parameters@) =~= expected.take(at as int));
    }
    assert(expected.take(at as int) =~= expected);
    parameters
}

} // verus!
