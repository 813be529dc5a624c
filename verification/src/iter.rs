//! The flattening iterator: the pairs of a store, one at a time.

use crate::model::{flatten, lemma_flatten_skip, pairs_of};
use crate::store::Store;
use vstd::prelude::*;
use vstd::std_specs::iter::IteratorSpecImpl;

verus! {

/// A read only reference to the `QueryMap`'s data, which walks its pairs
/// without collecting them first.
///
/// It holds a cursor over the keys and, while a key is being walked, that key
/// with its values and the index of the value that comes next.
pub struct QueryMapIter<'a, V> {
    store: &'a Store<V>,
    keys: usize,
    current: Option<(&'a str, &'a Vec<V>)>,
    next_idx: usize,
}

/// Items as plain values: each key as its text, with the value.
pub open spec fn plain_items<V>(items: Seq<(&str, &V)>) -> Seq<(Seq<char>, V)> {
    items.map_values(|item: (&str, &V)| (item.0@, *item.1))
}

impl<'a, V> QueryMapIter<'a, V> {
    /// The cursor over the keys is within the store; a key that is being
    /// walked is the one before that cursor, and has a value left.
    #[verifier::type_invariant]
    pub closed spec fn wf(&self) -> bool {
        &&& self.keys <= self.store.entries().len()
        &&& match self.current {
            Some((key, values)) => {
                &&& self.keys > 0
                &&& (key@, values@) == self.store.entries()[self.keys - 1]
                &&& self.next_idx < values@.len()
            },
            None => self.next_idx == 0,
        }
    }

    /// The pairs that are still to come, in the order in which they come.
    pub closed spec fn pending(&self) -> Seq<(Seq<char>, V)> {
        let later = flatten(self.store.entries().skip(self.keys as int));
        match self.current {
            Some((key, values)) => pairs_of((key@, values@)).skip(self.next_idx as int) + later,
            None => later,
        }
    }

    /// An iterator that stands before the first pair of `store`.
    pub fn over(store: &'a Store<V>) -> (iter: Self)
        ensures
            iter.pending() == flatten(store.entries()),
    {
        assert(store.entries().skip(0) =~= store.entries());
        QueryMapIter { store, keys: 0, current: None, next_idx: 0 }
    }
}

impl<'a, V> Iterator for QueryMapIter<'a, V> {
    type Item = (&'a str, &'a V);

    /// The next pair, or `None` when every pair has been given.
    fn next(&mut self) -> (item: Option<(&'a str, &'a V)>)
        ensures
            match item {
                Some((key, value)) => {
                    &&& old(self).pending().len() > 0
                    &&& old(self).pending()[0] == (key@, *value)
                    &&& final(self).pending() == old(self).pending().drop_first()
                },
                None => {
                    &&& old(self).pending().len() == 0
                    &&& final(self).pending() == old(self).pending()
                },
            },
    {
        proof {
            use_type_invariant(&*self);
        }
        let store = self.store;
        let ghost entries = store.entries();
        while self.current.is_none() && self.keys < store.len()
            invariant
                self.wf(),
                self.store == store,
                entries == store.entries(),
                self.pending() == old(self).pending(),
            decreases entries.len() - self.keys,
        {
            let values = store.values_at(self.keys);
            proof {
                lemma_flatten_skip(entries, self.keys as int);
            }
            if values.len() > 0 {
                let key = store.key_at(self.keys);
                self.keys = self.keys + 1;
                self.current = Some((key, values));
                assert(pairs_of((key@, values@)).skip(0) =~= pairs_of((key@, values@)));
            } else {
                self.keys = self.keys + 1;
                assert(pairs_of(entries[self.keys - 1]) =~= Seq::empty());
            }
        }
        match self.current {
            Some((key, values)) => {
                assert(self.next_idx < values.len());
                let value = &values[self.next_idx];
                let ghost pairs = pairs_of((key@, values@));
                let ghost later = flatten(entries.skip(self.keys as int));
                let ghost at = self.next_idx as int;
                assert(self.pending() == pairs.skip(at) + later);
                assert(self.pending()[0] == (key@, *value));
                assert((pairs.skip(at) + later).drop_first() =~= pairs.skip(at + 1) + later);
                if self.next_idx + 1 < values.len() {
                    self.next_idx = self.next_idx + 1;
                } else {
                    self.next_idx = 0;
                    self.current = None;
                    assert(pairs.skip(at + 1) =~= Seq::empty());
                }
                Some((key, value))
            },
            None => {
                assert(entries.skip(self.keys as int) =~= Seq::empty());
                None
            },
        }
    }
}

impl<'a, V> IteratorSpecImpl for QueryMapIter<'a, V> {
    /// The items are borrowed from the store and known by what they hold
    /// only, so which items come is stated by `next` over `pending`, and
    /// not over `remaining`.
    open spec fn obeys_prophetic_iter_laws(&self) -> bool {
        false
    }

    /// Items that hold the pairs that are still to come.
    open spec fn remaining(&self) -> Seq<Self::Item> {
        choose|items: Seq<(&'a str, &'a V)>| #[trigger] plain_items(items) == self.pending()
    }

    open spec fn will_return_none(&self) -> bool {
        true
    }

    open spec fn decrease(&self) -> Option<nat> {
        Some(self.pending().len())
    }

    open spec fn initial_value_relation(&self, init: &Self) -> bool {
        self.pending() == init.pending()
    }

    open spec fn peek(&self, index: int) -> Option<Self::Item> {
        None
    }
}

} // verus!
