//! Writing a map back as the entries of a structured source.

use crate::decode::wire_view;
use crate::model::text_entries;
use crate::query_map::QueryMap;
use crate::wire::{shape_of, Convention, OneOrMany, Shape};
use vstd::prelude::*;

verus! {

/// Each entry with the shape in which its values are written.
pub open spec fn encoded(entries: Seq<(Seq<char>, Seq<Seq<char>>)>, convention: Convention) -> Seq<
    (Seq<char>, Shape),
> {
    entries.map_values(
        |entry: (Seq<char>, Seq<Seq<char>>)| (entry.0, shape_of(entry.1, convention)),
    )
}

impl QueryMap<String> {
    /// The entries of the map as a structured source holds them, key by key
    /// in the order of the keys: every key with a list, or, where scalars
    /// are comma separated, every key with its values joined by commas.
    pub fn encode(&self, convention: Convention) -> (entries: Vec<(String, OneOrMany)>)
        ensures
            wire_view(entries@) == encoded(self.text_entries(), convention),
    {
        let store = self.store();
        let ghost expected = encoded(self.text_entries(), convention);
        let mut entries: Vec<(String, OneOrMany)> = Vec::with_capacity(store.len());
        let mut at: usize = 0;
        while at < store.len()
            invariant
                at <= store.entries().len(),
                store.entries() == self.entries(),
                expected == encoded(self.text_entries(), convention),
                wire_view(entries@) == expected.take(at as int),
            decreases store.entries().len() - at,
        {
            let ghost before = wire_view(entries@);
            let key = String::from_str(store.key_at(at));
            let shape = OneOrMany::from_values(store.values_at(at), convention);
            entries.push((key, shape));
            at = at + 1;
            assert(wire_view(entries@) =~= before.push((key@, shape@)));
            assert(wire_view(entries@) =~= expected.take(at as int));
        }
        assert(expected.take(at as int) =~= expected);
        entries
    }
}

} // verus!
