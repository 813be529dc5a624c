//! The decoding adapter: from the entries of a structured source to a map.

use crate::model::{collect, lemma_text_put, put, text_entries};
use crate::query_map::QueryMap;
use crate::store::Store;
use crate::wire::{values_of, Convention, OneOrMany, Shape};
use vstd::prelude::*;

verus! {

/// The entries of a source as plain values.
pub open spec fn wire_view(entries: Seq<(String, OneOrMany)>) -> Seq<(Seq<char>, Shape)> {
    entries.map_values(|entry: (String, OneOrMany)| (entry.0@, entry.1@))
}

/// Each entry of a source with the list of values that its shape stands for.
pub open spec fn normalized(entries: Seq<(Seq<char>, Shape)>, convention: Convention) -> Seq<
    (Seq<char>, Seq<Seq<char>>),
> {
    entries.map_values(|entry: (Seq<char>, Shape)| (entry.0, values_of(entry.1, convention)))
}

/// The entries of the map that a source decodes to: each key with the values
/// that its shape stands for; of two entries with one key the later one stays.
pub open spec fn decoded(entries: Seq<(Seq<char>, Shape)>, convention: Convention) -> Seq<
    (Seq<char>, Seq<Seq<char>>),
> {
    collect(normalized(entries, convention))
}

impl Store<String> {
    /// Stores what one entry of a source holds: the values that `value`
    /// stands for go under `key`, in place of what the key had.
    pub fn insert_entry(self, key: String, value: OneOrMany, convention: Convention) -> (store:
        Self)
        ensures
            text_entries(store.entries()) == put(
                text_entries(self.entries()),
                key@,
                values_of(value@, convention),
            ),
    {
        proof {
            use_type_invariant(&self);
            self.lemma_distinct();
        }
        let values = value.into_values(convention);
        proof {
            lemma_text_put(self.entries(), key@, values@);
        }
        self.insert(key, values)
    }
}

impl QueryMap<String> {
    /// Decodes the entries of a structured source, in which the values of a
    /// key may stand as a scalar or as a list.
    pub fn decode(entries: Vec<(String, OneOrMany)>, convention: Convention) -> (map: Self)
        ensures
            map.text_entries() == decoded(wire_view(entries@), convention),
    {
        let ghost all = normalized(wire_view(entries@), convention);
        let mut store: Store<String> = Store::new();
        assert(text_entries(store.entries()) =~= collect(all.take(0)));
        for entry in it: entries
            invariant
                all == normalized(wire_view(it.seq()), convention),
                text_entries(store.entries()) == collect(all.take(it.index())),
        {
            let ghost at = it.index();
            assert(all[at] == (entry.0@, values_of(entry.1@, convention)));
            assert(all.take(at + 1).drop_last() =~= all.take(at));
            store = store.insert_entry(entry.0, entry.1, convention);
        }
        assert(all.take(all.len() as int) =~= all);
        QueryMap::from_store(store)
    }
}

} // verus!
