//! The mathematical model of a multi-value store: a sequence of entries, each
//! a key with its ordered values, in which no key occurs twice.

use crate::text::texts;
use vstd::prelude::*;

verus! {

/// Whether some entry has the key `key`.
pub open spec fn has_key<V>(entries: Seq<(Seq<char>, Seq<V>)>, key: Seq<char>) -> bool {
    exists|i: int| 0 <= i < entries.len() && (#[trigger] entries[i]).0 == key
}

/// The position of an entry with the key `key`; meaningful where there is one.
pub open spec fn position_of<V>(entries: Seq<(Seq<char>, Seq<V>)>, key: Seq<char>) -> int {
    choose|i: int| 0 <= i < entries.len() && (#[trigger] entries[i]).0 == key
}

/// No key occurs in two entries.
pub open spec fn distinct_keys<V>(entries: Seq<(Seq<char>, Seq<V>)>) -> bool {
    forall|i: int, j: int|
        0 <= i < j < entries.len() ==> (#[trigger] entries[i]).0 != (#[trigger] entries[j]).0
}

/// The keys of the entries, in their order.
pub open spec fn keys_of<V>(entries: Seq<(Seq<char>, Seq<V>)>) -> Seq<Seq<char>> {
    entries.map_values(|e: (Seq<char>, Seq<V>)| e.0)
}

/// The mapping from each key to its values.
pub open spec fn as_map<V>(entries: Seq<(Seq<char>, Seq<V>)>) -> Map<Seq<char>, Seq<V>> {
    Map::new(
        |key: Seq<char>| has_key(entries, key),
        |key: Seq<char>| entries[position_of(entries, key)].1,
    )
}

/// The entries after `values` has been stored under `key`: an entry that had
/// the key keeps its place and gets the new values, a new key goes last.
pub open spec fn put<V>(entries: Seq<(Seq<char>, Seq<V>)>, key: Seq<char>, values: Seq<V>) -> Seq<
    (Seq<char>, Seq<V>),
> {
    if has_key(entries, key) {
        entries.update(position_of(entries, key), (key, values))
    } else {
        entries.push((key, values))
    }
}

/// The entries after `value` has been added to the values of `key`: it goes
/// behind the values that the key had, and a new key goes last.
pub open spec fn accumulate<V>(entries: Seq<(Seq<char>, Seq<V>)>, key: Seq<char>, value: V) -> Seq<
    (Seq<char>, Seq<V>),
> {
    if has_key(entries, key) {
        let i = position_of(entries, key);
        entries.update(i, (key, entries[i].1.push(value)))
    } else {
        entries.push((key, seq![value]))
    }
}

/// The entries that come of storing the pairs one by one, each in place of
/// what its key had: of two pairs with one key the later one stays, at the
/// place of the earlier one.
pub open spec fn collect<V>(pairs: Seq<(Seq<char>, Seq<V>)>) -> Seq<(Seq<char>, Seq<V>)>
    decreases pairs.len(),
{
    if pairs.len() == 0 {
        Seq::empty()
    } else {
        put(collect(pairs.drop_last()), pairs.last().0, pairs.last().1)
    }
}

/// Keys and values as plain values.
pub open spec fn plain<V>(pairs: Seq<(String, Vec<V>)>) -> Seq<(Seq<char>, Seq<V>)> {
    pairs.map_values(|pair: (String, Vec<V>)| (pair.0@, pair.1@))
}

/// The entries with each value as its text.
pub open spec fn text_entries(entries: Seq<(Seq<char>, Seq<String>)>) -> Seq<
    (Seq<char>, Seq<Seq<char>>),
> {
    entries.map_values(|entry: (Seq<char>, Seq<String>)| (entry.0, texts(entry.1)))
}

/// The pairs of one entry: its key with each of its values, in their order.
pub open spec fn pairs_of<V>(entry: (Seq<char>, Seq<V>)) -> Seq<(Seq<char>, V)> {
    entry.1.map_values(|value: V| (entry.0, value))
}

/// The pairs of all entries: entry by entry, each entry's pairs together.
pub open spec fn flatten<V>(entries: Seq<(Seq<char>, Seq<V>)>) -> Seq<(Seq<char>, V)>
    decreases entries.len(),
{
    if entries.len() == 0 {
        Seq::empty()
    } else {
        pairs_of(entries.first()) + flatten(entries.drop_first())
    }
}

/// The number of values that the entries hold, all keys together.
pub open spec fn total_values<V>(entries: Seq<(Seq<char>, Seq<V>)>) -> nat
    decreases entries.len(),
{
    if entries.len() == 0 {
        0
    } else {
        entries.first().1.len() + total_values(entries.drop_first())
    }
}

/// The number of values that a mapping has for the keys, all keys together.
pub open spec fn count_values<V>(keys: Seq<Seq<char>>, mapping: Map<Seq<char>, Seq<V>>) -> nat
    decreases keys.len(),
{
    if keys.len() == 0 {
        0
    } else {
        mapping[keys.first()].len() + count_values(keys.drop_first(), mapping)
    }
}

/// In a list with distinct keys, the entry at `i` is the one found for its key.
pub proof fn lemma_position_of<V>(entries: Seq<(Seq<char>, Seq<V>)>, i: int)
    requires
        distinct_keys(entries),
        0 <= i < entries.len(),
    ensures
        has_key(entries, entries[i].0),
        position_of(entries, entries[i].0) == i,
        as_map(entries).contains_key(entries[i].0),
        as_map(entries)[entries[i].0] == entries[i].1,
{
    let key = entries[i].0;
    let p = position_of(entries, key);
    assert(0 <= p < entries.len() && entries[p].0 == key);
    if p < i {
        assert(entries[p].0 != entries[i].0);
    } else if i < p {
        assert(entries[i].0 != entries[p].0);
    }
}

/// Storing under a key keeps the keys distinct, and changes the mapping at
/// that key only.
pub proof fn lemma_put<V>(entries: Seq<(Seq<char>, Seq<V>)>, key: Seq<char>, values: Seq<V>)
    requires
        distinct_keys(entries),
    ensures
        distinct_keys(put(entries, key, values)),
        as_map(put(entries, key, values)) == as_map(entries).insert(key, values),
{
    let after = put(entries, key, values);
    let at = if has_key(entries, key) {
        position_of(entries, key)
    } else {
        entries.len() as int
    };
    assert(after.len() > at && after[at] == (key, values));
    assert forall|i: int| 0 <= i < after.len() && i != at implies #[trigger] after[i] == entries[i]
        && entries[i].0 != key by {
        if has_key(entries, key) {
            lemma_position_of(entries, i);
        }
    }
    assert(distinct_keys(after)) by {
        assert forall|i: int, j: int| 0 <= i < j < after.len() implies (#[trigger] after[i]).0 != (
        #[trigger] after[j]).0 by {
            if i != at && j != at {
                assert(entries[i].0 != entries[j].0);
            }
        }
    }
    assert forall|k: Seq<char>| has_key(after, k) <==> (k == key || has_key(entries, k)) by {
        if has_key(after, k) {
            let i = position_of(after, k);
            if i != at {
                assert(entries[i].0 == k);
            }
        }
        if k == key {
            assert(after[at].0 == k);
        } else if has_key(entries, k) {
            let i = position_of(entries, k);
            assert(after[i].0 == k);
        }
    }
    assert forall|k: Seq<char>| has_key(after, k) implies #[trigger] as_map(after)[k] == as_map(
        entries,
    ).insert(key, values)[k] by {
        let i = position_of(after, k);
        lemma_position_of(after, i);
        if i != at {
            lemma_position_of(entries, i);
        }
    }
    assert(as_map(after) =~= as_map(entries).insert(key, values));
}

/// Adding a value keeps the keys distinct, and changes the mapping at that
/// key only: the value goes behind the values that the key had.
pub proof fn lemma_accumulate<V>(entries: Seq<(Seq<char>, Seq<V>)>, key: Seq<char>, value: V)
    requires
        distinct_keys(entries),
    ensures
        distinct_keys(accumulate(entries, key, value)),
        as_map(accumulate(entries, key, value)) == as_map(entries).insert(
            key,
            if has_key(entries, key) {
                as_map(entries)[key].push(value)
            } else {
                seq![value]
            },
        ),
{
    let values = if has_key(entries, key) {
        as_map(entries)[key].push(value)
    } else {
        seq![value]
    };
    if has_key(entries, key) {
        lemma_position_of(entries, position_of(entries, key));
    }
    assert(accumulate(entries, key, value) =~= put(entries, key, values));
    lemma_put(entries, key, values);
}

/// The pairs from entry `from` on are those of that entry, then those of the
/// entries behind it.
pub proof fn lemma_flatten_skip<V>(entries: Seq<(Seq<char>, Seq<V>)>, from: int)
    requires
        0 <= from < entries.len(),
    ensures
        flatten(entries.skip(from)) == pairs_of(entries[from]) + flatten(entries.skip(from + 1)),
{
    assert(entries.skip(from).drop_first() =~= entries.skip(from + 1));
}

/// Taking the values as texts changes neither the keys nor where a key is.
pub proof fn lemma_text_keys(entries: Seq<(Seq<char>, Seq<String>)>, key: Seq<char>)
    requires
        distinct_keys(entries),
    ensures
        distinct_keys(text_entries(entries)),
        has_key(text_entries(entries), key) == has_key(entries, key),
        has_key(entries, key) ==> position_of(text_entries(entries), key) == position_of(
            entries,
            key,
        ),
{
    let as_text = text_entries(entries);
    assert forall|i: int| 0 <= i < entries.len() implies (#[trigger] as_text[i]).0
        == entries[i].0 by {}
    assert forall|i: int, j: int| 0 <= i < j < as_text.len() implies (#[trigger] as_text[i]).0 != (
    #[trigger] as_text[j]).0 by {
        assert(entries[i].0 != entries[j].0);
    }
    if has_key(entries, key) {
        let i = position_of(entries, key);
        assert(as_text[i].0 == key);
        lemma_position_of(as_text, i);
    }
    if has_key(as_text, key) {
        let i = position_of(as_text, key);
        assert(entries[i].0 == key);
    }
}

/// Storing values and then taking texts is storing the texts.
pub proof fn lemma_text_put(
    entries: Seq<(Seq<char>, Seq<String>)>,
    key: Seq<char>,
    values: Seq<String>,
)
    requires
        distinct_keys(entries),
    ensures
        text_entries(put(entries, key, values)) == put(text_entries(entries), key, texts(values)),
{
    lemma_text_keys(entries, key);
    assert(text_entries(put(entries, key, values)) =~= put(
        text_entries(entries),
        key,
        texts(values),
    ));
}

/// Adding a value and then taking texts is adding its text.
pub proof fn lemma_text_accumulate(
    entries: Seq<(Seq<char>, Seq<String>)>,
    key: Seq<char>,
    value: String,
)
    requires
        distinct_keys(entries),
    ensures
        text_entries(accumulate(entries, key, value)) == accumulate(
            text_entries(entries),
            key,
            value@,
        ),
{
    lemma_text_keys(entries, key);
    let after = text_entries(accumulate(entries, key, value));
    let expected = accumulate(text_entries(entries), key, value@);
    assert(after.len() == expected.len());
    assert forall|i: int| 0 <= i < after.len() implies after[i] == expected[i] by {
        if has_key(entries, key) {
            let at = position_of(entries, key);
            if i == at {
                assert(texts(entries[at].1.push(value)) =~= texts(entries[at].1).push(value@));
            }
        } else {
            if i == entries.len() {
                assert(texts(seq![value]) =~= seq![value@]);
            }
        }
    }
    assert(after =~= expected);
}

/// The mapping of the texts maps a key to the texts of its values.
pub proof fn lemma_text_lookup(entries: Seq<(Seq<char>, Seq<String>)>, key: Seq<char>)
    requires
        distinct_keys(entries),
    ensures
        as_map(text_entries(entries)).contains_key(key) == as_map(entries).contains_key(key),
        as_map(entries).contains_key(key) ==> as_map(text_entries(entries))[key] == texts(
            as_map(entries)[key],
        ),
{
    lemma_text_keys(entries, key);
}

} // verus!
