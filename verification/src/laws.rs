//! What holds of every map, stated over the models that the contracts use.

use crate::aws_api_gateway_v2::joined;
use crate::decode::{decoded, normalized};
use crate::encode::encoded;
use crate::model::{
    as_map, collect, count_values, distinct_keys, flatten, has_key, keys_of, lemma_accumulate,
    lemma_position_of, lemma_put, lemma_text_keys, pairs_of, position_of, total_values,
};
use crate::query::{first_malformed, gathered, spec_pair};
use crate::query_map::QueryMap;
use crate::text::{free_of, lemma_join_split, lemma_split_join};
use crate::wire::{shape_of, values_of, Convention, Shape};
use vstd::prelude::*;

verus! {

/// `all` finds nothing for a key exactly where `first` finds nothing, and
/// where both find something, `first` finds the first of what `all` finds.
/// This holds for a key that is absent or has a value; for a key with an
/// empty list `all` finds that list and `first` finds nothing.
pub proof fn law_first_is_first_of_all<V>(map: QueryMap<V>, key: Seq<char>)
    requires
        map.wf(),
        map@.contains_key(key) ==> map@[key].len() > 0,
    ensures
        map.all_of(key) is None <==> map.first_of(key) is None,
        map.first_of(key) is Some ==> map.first_of(key) == Some(map.all_of(key).unwrap()[0]),
{
}

/// The keys of entries with distinct keys are distinct, and they are the
/// keys at which the mapping is defined: there are as many of the one as of
/// the other.
pub proof fn lemma_keys<V>(entries: Seq<(Seq<char>, Seq<V>)>)
    requires
        distinct_keys(entries),
    ensures
        keys_of(entries).no_duplicates(),
        keys_of(entries).to_set() == as_map(entries).dom(),
        as_map(entries).dom().finite(),
        as_map(entries).dom().len() == entries.len(),
{
    let keys = keys_of(entries);
    assert forall|i: int, j: int|
        0 <= i < keys.len() && 0 <= j < keys.len() && i != j implies keys[i] != keys[j] by {
        if i < j {
            assert(entries[i].0 != entries[j].0);
        } else {
            assert(entries[j].0 != entries[i].0);
        }
    }
    assert forall|key: Seq<char>| keys.to_set().contains(key) <==> as_map(entries).dom().contains(
        key,
    ) by {
        if keys.to_set().contains(key) {
            let i = choose|i: int| 0 <= i < keys.len() && keys[i] == key;
            assert(entries[i].0 == key);
        }
        if has_key(entries, key) {
            let i = position_of(entries, key);
            assert(keys[i] == key);
        }
    }
    assert(keys.to_set() =~= as_map(entries).dom());
    keys.unique_seq_to_set();
}

/// The keys of a map are distinct, and they are the keys at which its
/// mapping is defined: there are as many of the one as of the other.
pub proof fn law_keys<V>(map: QueryMap<V>)
    requires
        map.wf(),
    ensures
        map.keys().no_duplicates(),
        map.keys().to_set() == map@.dom(),
        map@.dom().finite(),
        map@.dom().len() == map.keys().len(),
{
    map.lemma_distinct();
    lemma_keys(map.entries());
}

/// A map is without keys exactly where its mapping is the empty one.
pub proof fn law_empty<V>(map: QueryMap<V>)
    requires
        map.wf(),
    ensures
        map.keys().len() == 0 <==> map@ == Map::<Seq<char>, Seq<V>>::empty(),
{
    law_keys(map);
    if map.keys().len() == 0 {
        assert(map@ =~= Map::<Seq<char>, Seq<V>>::empty());
    } else {
        assert(map@.dom().len() > 0);
        assert(Map::<Seq<char>, Seq<V>>::empty().dom() =~= Set::<Seq<char>>::empty());
    }
}

/// A key that the mapping is not defined at is found by neither `first` nor
/// `all`.
pub proof fn law_absent_key<V>(map: QueryMap<V>, key: Seq<char>)
    requires
        map.wf(),
        !map@.contains_key(key),
    ensures
        map.first_of(key) is None,
        map.all_of(key) is None,
{
}

/// There are as many pairs as there are values: the lengths of the lists of
/// all keys, added up.
pub proof fn law_pair_count<V>(map: QueryMap<V>)
    requires
        map.wf(),
    ensures
        map.pairs().len() == count_values(map.keys(), map@),
        map.pairs().len() == total_values(map.entries()),
{
    map.lemma_distinct();
    lemma_flatten_len(map.entries());
    lemma_count_values(map.entries(), 0);
    assert(map.entries().skip(0) =~= map.entries());
    assert(map.keys().skip(0) =~= map.keys());
}

/// The values of the entries from `from` on are as many as the mapping has
/// for their keys.
pub proof fn lemma_count_values<V>(entries: Seq<(Seq<char>, Seq<V>)>, from: int)
    requires
        distinct_keys(entries),
        0 <= from <= entries.len(),
    ensures
        total_values(entries.skip(from)) == count_values(
            keys_of(entries).skip(from),
            as_map(entries),
        ),
    decreases entries.len() - from,
{
    if from < entries.len() {
        lemma_count_values(entries, from + 1);
        lemma_position_of(entries, from);
        assert(entries.skip(from).drop_first() =~= entries.skip(from + 1));
        assert(keys_of(entries).skip(from).drop_first() =~= keys_of(entries).skip(from + 1));
    }
}

/// The pairs of a list of entries are as many as the values in it.
pub proof fn lemma_flatten_len<V>(entries: Seq<(Seq<char>, Seq<V>)>)
    ensures
        flatten(entries).len() == total_values(entries),
    decreases entries.len(),
{
    if entries.len() > 0 {
        lemma_flatten_len(entries.drop_first());
    }
}

/// Whether some entry has the key `key` and holds the value `value`.
pub open spec fn holds_pair<V>(
    entries: Seq<(Seq<char>, Seq<V>)>,
    key: Seq<char>,
    value: V,
) -> bool {
    exists|i: int|
        0 <= i < entries.len() && (#[trigger] entries[i]).0 == key && entries[i].1.contains(value)
}

/// The pairs of a map are the pairs of a key of the map with a value of
/// that key.
pub proof fn law_pairs<V>(map: QueryMap<V>, key: Seq<char>, value: V)
    requires
        map.wf(),
    ensures
        map.pairs().contains((key, value)) <==> map@.contains_key(key) && map@[key].contains(
            value,
        ),
{
    map.lemma_distinct();
    let entries = map.entries();
    lemma_flatten_contains(entries, key, value);
    if map@.contains_key(key) {
        lemma_position_of(entries, position_of(entries, key));
    }
    if holds_pair(entries, key, value) {
        let i = choose|i: int|
            0 <= i < entries.len() && (#[trigger] entries[i]).0 == key && entries[i].1.contains(
                value,
            );
        lemma_position_of(entries, i);
    }
}

/// A pair is among the pairs of a list of entries exactly where an entry has
/// its key and holds its value.
pub proof fn lemma_flatten_contains<V>(entries: Seq<(Seq<char>, Seq<V>)>, key: Seq<char>, value: V)
    ensures
        flatten(entries).contains((key, value)) <==> holds_pair(entries, key, value),
    decreases entries.len(),
{
    if entries.len() > 0 {
        let head = pairs_of(entries.first());
        let rest = entries.drop_first();
        lemma_flatten_contains(rest, key, value);
        if flatten(entries).contains((key, value)) {
            let at = choose|at: int|
                0 <= at < flatten(entries).len() && flatten(entries)[at] == (key, value);
            if at < head.len() {
                assert(entries[0].1[at] == value);
                assert(entries[0].0 == key && entries[0].1.contains(value));
            } else {
                assert(flatten(rest)[at - head.len()] == (key, value));
                let i = choose|i: int|
                    0 <= i < rest.len() && (#[trigger] rest[i]).0 == key && rest[i].1.contains(
                        value,
                    );
                assert(entries[i + 1] == rest[i]);
            }
        }
        if holds_pair(entries, key, value) {
            let i = choose|i: int|
                0 <= i < entries.len() && (#[trigger] entries[i]).0 == key && entries[i].1.contains(
                    value,
                );
            if i == 0 {
                let j = choose|j: int| 0 <= j < entries[0].1.len() && entries[0].1[j] == value;
                assert(head[j] == (key, value));
                assert(flatten(entries)[j] == (key, value));
            } else {
                assert(rest[i - 1] == entries[i]);
                let at = choose|at: int|
                    0 <= at < flatten(rest).len() && flatten(rest)[at] == (key, value);
                assert(flatten(entries)[head.len() + at] == (key, value));
            }
        }
    }
}

/// What comes of storing pairs one by one has distinct keys: those of the
/// pairs.
pub proof fn lemma_collect_keys<V>(pairs: Seq<(Seq<char>, Seq<V>)>, key: Seq<char>)
    ensures
        distinct_keys(collect(pairs)),
        has_key(collect(pairs), key) <==> has_key(pairs, key),
    decreases pairs.len(),
{
    if pairs.len() > 0 {
        let shorter = pairs.drop_last();
        let last = pairs.last();
        lemma_collect_keys(shorter, key);
        lemma_put(collect(shorter), last.0, last.1);
        assert(as_map(collect(pairs)).contains_key(key) <==> (key == last.0 || as_map(
            collect(shorter),
        ).contains_key(key)));
        if has_key(shorter, key) {
            let i = position_of(shorter, key);
            assert(pairs[i].0 == key);
        }
        if key == last.0 {
            assert(pairs[pairs.len() - 1].0 == key);
        }
        if has_key(pairs, key) {
            let i = position_of(pairs, key);
            if i < pairs.len() - 1 {
                assert(shorter[i].0 == key);
            }
        }
    }
}

/// Of the pairs with one key the last one stays: a pair behind which no
/// pair has its key gives that key its values.
pub proof fn law_last_pair_stays<V>(pairs: Seq<(Seq<char>, Seq<V>)>, at: int)
    requires
        0 <= at < pairs.len(),
        forall|later: int| at < later < pairs.len() ==> (#[trigger] pairs[later]).0 != pairs[at].0,
    ensures
        as_map(collect(pairs)).contains_key(pairs[at].0),
        as_map(collect(pairs))[pairs[at].0] == pairs[at].1,
    decreases pairs.len(),
{
    let shorter = pairs.drop_last();
    let last = pairs.last();
    lemma_collect_keys(shorter, last.0);
    lemma_put(collect(shorter), last.0, last.1);
    if at < pairs.len() - 1 {
        assert(shorter[at] == pairs[at]);
        assert forall|later: int| at < later < shorter.len() implies (#[trigger] shorter[later]).0
            != shorter[at].0 by {
            assert(shorter[later] == pairs[later]);
        }
        law_last_pair_stays(shorter, at);
        assert(pairs[pairs.len() - 1].0 != pairs[at].0);
    }
}

/// A key that no pair has is not a key of what comes of storing the pairs.
pub proof fn law_never_stored<V>(pairs: Seq<(Seq<char>, Seq<V>)>, key: Seq<char>)
    requires
        !has_key(pairs, key),
    ensures
        !as_map(collect(pairs)).contains_key(key),
{
    lemma_collect_keys(pairs, key);
}

/// Storing pairs with distinct keys one by one gives those pairs, in their
/// order.
pub proof fn lemma_collect_distinct<V>(pairs: Seq<(Seq<char>, Seq<V>)>)
    requires
        distinct_keys(pairs),
    ensures
        collect(pairs) == pairs,
    decreases pairs.len(),
{
    if pairs.len() > 0 {
        let shorter = pairs.drop_last();
        let last = pairs.last();
        assert forall|i: int, j: int| 0 <= i < j < shorter.len() implies (#[trigger] shorter[i]).0
            != (#[trigger] shorter[j]).0 by {
            assert(pairs[i].0 != pairs[j].0);
        }
        lemma_collect_distinct(shorter);
        if has_key(shorter, last.0) {
            let i = position_of(shorter, last.0);
            assert(pairs[i].0 != pairs[pairs.len() - 1].0);
        }
        assert(shorter.push(last) =~= pairs);
    }
}

/// Reading a query string fails at an entry exactly where that entry holds
/// no `=` and every entry before it holds one; it succeeds exactly where
/// every entry holds one.
pub proof fn law_first_malformed(entries: Seq<Seq<char>>)
    ensures
        match first_malformed(entries) {
            Some(at) => {
                &&& 0 <= at < entries.len()
                &&& spec_pair(entries[at]) is None
                &&& forall|i: int| 0 <= i < at ==> spec_pair(#[trigger] entries[i]) is Some
            },
            None => forall|i: int|
                0 <= i < entries.len() ==> spec_pair(#[trigger] entries[i]) is Some,
        },
    decreases entries.len(),
{
    if entries.len() > 0 {
        let shorter = entries.drop_last();
        law_first_malformed(shorter);
        assert forall|i: int| 0 <= i < shorter.len() implies shorter[i] == entries[i] by {}
        match first_malformed(entries) {
            Some(at) => {
                assert forall|i: int| 0 <= i < at implies spec_pair(
                    #[trigger] entries[i],
                ) is Some by {
                    assert(shorter[i] == entries[i]);
                }
            },
            None => {
                assert forall|i: int| 0 <= i < entries.len() implies spec_pair(
                    #[trigger] entries[i],
                ) is Some by {
                    if i < shorter.len() {
                        assert(shorter[i] == entries[i]);
                    }
                }
            },
        }
    }
}

/// The values of the entries of a query string that have the key `key`, in
/// the order of the entries.
pub open spec fn values_for(entries: Seq<Seq<char>>, key: Seq<char>) -> Seq<Seq<char>>
    decreases entries.len(),
{
    if entries.len() == 0 {
        Seq::empty()
    } else {
        let pair = spec_pair(entries.last()).unwrap();
        let before = values_for(entries.drop_last(), key);
        if pair.0 == key {
            before.push(pair.1)
        } else {
            before
        }
    }
}

/// In the map that a query string is read into, a key has the values of all
/// the entries with that key, in the order of the entries; and the keys of
/// the map are those that some entry has.
pub proof fn law_values_gathered(entries: Seq<Seq<char>>, key: Seq<char>)
    ensures
        distinct_keys(gathered(entries)),
        as_map(gathered(entries)).contains_key(key) <==> values_for(entries, key).len() > 0,
        as_map(gathered(entries)).contains_key(key) ==> as_map(gathered(entries))[key]
            == values_for(entries, key),
    decreases entries.len(),
{
    if entries.len() > 0 {
        let pair = spec_pair(entries.last()).unwrap();
        let before = gathered(entries.drop_last());
        law_values_gathered(entries.drop_last(), key);
        law_values_gathered(entries.drop_last(), pair.0);
        lemma_accumulate(before, pair.0, pair.1);
    }
}

/// A list of values that is written and read again is the same list: always
/// where it is written as a list; where it is written joined with commas and
/// read as such, if there is a value and no value holds a comma.
pub proof fn law_values_round_trip(values: Seq<Seq<char>>, writing: Convention, reading: Convention)
    requires
        writing == Convention::CommaSeparated ==> {
            &&& reading == Convention::CommaSeparated
            &&& values.len() >= 1
            &&& free_of(values, ',')
        },
    ensures
        values_of(shape_of(values, writing), reading) == values,
{
    if writing == Convention::CommaSeparated {
        lemma_split_join(values, ',');
    }
}

/// A shape that is read and written again is the same shape: a list that is
/// written as a list, and a scalar that is read as comma separated and
/// written so.
pub proof fn law_shape_round_trip(shape: Shape, reading: Convention, writing: Convention)
    requires
        shape is Many ==> writing == Convention::Plain,
        shape is One ==> reading == Convention::CommaSeparated && writing
            == Convention::CommaSeparated,
    ensures
        shape_of(values_of(shape, reading), writing) == shape,
{
    if let Shape::One(text) = shape {
        lemma_join_split(text, ',');
    }
}

/// A map that is written and decoded again has the same entries: always
/// where values are written as lists; where they are written joined with
/// commas and read as such, if every key has a value and no value holds a
/// comma.
pub proof fn law_decode_encode(map: QueryMap<String>, writing: Convention, reading: Convention)
    requires
        map.wf(),
        writing == Convention::CommaSeparated ==> {
            &&& reading == Convention::CommaSeparated
            &&& forall|i: int|
                0 <= i < map.text_entries().len() ==> {
                    &&& (#[trigger] map.text_entries()[i]).1.len() >= 1
                    &&& free_of(map.text_entries()[i].1, ',')
                }
        },
    ensures
        decoded(encoded(map.text_entries(), writing), reading) == map.text_entries(),
{
    map.lemma_distinct();
    let entries = map.text_entries();
    lemma_text_keys(map.entries(), Seq::empty());
    let again = normalized(encoded(entries, writing), reading);
    assert forall|i: int| 0 <= i < entries.len() implies again[i] == entries[i] by {
        law_values_round_trip(entries[i].1, writing, reading);
    }
    assert(again =~= entries);
    lemma_collect_distinct(entries);
}

/// The entries of a source that are decoded and written again are the same
/// entries, where no key occurs twice in them and all of them are lists that
/// are written as lists, or all of them are scalars that are read as comma
/// separated and written so.
pub proof fn law_encode_decode(
    entries: Seq<(Seq<char>, Shape)>,
    reading: Convention,
    writing: Convention,
)
    requires
        forall|i: int, j: int|
            0 <= i < j < entries.len() ==> (#[trigger] entries[i]).0 != (#[trigger] entries[j]).0,
        writing == Convention::Plain ==> forall|i: int|
            0 <= i < entries.len() ==> (#[trigger] entries[i]).1 is Many,
        writing == Convention::CommaSeparated ==> {
            &&& reading == Convention::CommaSeparated
            &&& forall|i: int| 0 <= i < entries.len() ==> (#[trigger] entries[i]).1 is One
        },
    ensures
        encoded(decoded(entries, reading), writing) == entries,
{
    let lists = normalized(entries, reading);
    assert forall|i: int, j: int| 0 <= i < j < lists.len() implies (#[trigger] lists[i]).0 != (
    #[trigger] lists[j]).0 by {
        assert(entries[i].0 != entries[j].0);
    }
    lemma_collect_distinct(lists);
    let again = encoded(lists, writing);
    assert forall|i: int| 0 <= i < entries.len() implies again[i] == entries[i] by {
        law_shape_round_trip(entries[i].1, reading, writing);
    }
    assert(again =~= entries);
}

/// The parameters of a map, each read as a scalar.
pub open spec fn scalars(parameters: Seq<(Seq<char>, Seq<char>)>) -> Seq<(Seq<char>, Shape)> {
    parameters.map_values(|pair: (Seq<char>, Seq<char>)| (pair.0, Shape::One(pair.1)))
}

/// A map whose values are written joined with commas, and read again with
/// the scalars split at their commas, has the same entries, if every key has
/// a value and no value holds a comma.
pub proof fn law_joined_round_trip(map: QueryMap<String>)
    requires
        map.wf(),
        forall|i: int|
            0 <= i < map.text_entries().len() ==> {
                &&& (#[trigger] map.text_entries()[i]).1.len() >= 1
                &&& free_of(map.text_entries()[i].1, ',')
            },
    ensures
        decoded(scalars(joined(map.text_entries())), Convention::CommaSeparated)
            == map.text_entries(),
{
    law_decode_encode(map, Convention::CommaSeparated, Convention::CommaSeparated);
    assert(scalars(joined(map.text_entries())) =~= encoded(
        map.text_entries(),
        Convention::CommaSeparated,
    ));
}

} // verus!
