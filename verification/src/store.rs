//! The multi-value store: string keys, each with an ordered list of values.

use crate::model::{
    accumulate, as_map, collect, distinct_keys, has_key, lemma_accumulate, lemma_position_of,
    lemma_put, plain, position_of, put,
};
use vstd::hash_map::StringHashMap;
use vstd::prelude::*;

verus! {

/// A mapping from string keys to ordered lists of values.
///
/// The entries are kept in the order in which their keys first came; a hash
/// index finds an entry by its key.
pub struct Store<V> {
    entries: Vec<(String, Vec<V>)>,
    index: StringHashMap<usize>,
}

impl<V> View for Store<V> {
    type V = Map<Seq<char>, Seq<V>>;

    /// The mapping from each key to its values.
    open spec fn view(&self) -> Map<Seq<char>, Seq<V>> {
        as_map(self.entries())
    }
}

impl<V> Store<V> {
    /// The entries as plain values: each key with its values, in key order.
    pub closed spec fn entries(&self) -> Seq<(Seq<char>, Seq<V>)> {
        plain(self.entries@)
    }

    /// The index holds exactly the keys of the entries, each with its position.
    #[verifier::type_invariant]
    pub closed spec fn wf(&self) -> bool {
        &&& forall|i: int|
            0 <= i < self.entries@.len() ==> {
                &&& self.index@.contains_key(#[trigger] self.entries@[i].0@)
                &&& self.index@[self.entries@[i].0@] == i
            }
        &&& forall|key: Seq<char>| #[trigger]
            self.index@.contains_key(key) ==> {
                &&& self.index@[key] < self.entries@.len()
                &&& self.entries@[self.index@[key] as int].0@ == key
            }
    }

    /// An empty store.
    pub fn new() -> (store: Self)
        ensures
            store.entries() == Seq::<(Seq<char>, Seq<V>)>::empty(),
    {
        let store = Store { entries: Vec::new(), index: StringHashMap::new() };
        assert(store.entries() =~= Seq::<(Seq<char>, Seq<V>)>::empty());
        store
    }

    /// An empty store with room for `capacity` keys.
    pub fn with_capacity(capacity: usize) -> (store: Self)
        ensures
            store.entries() == Seq::<(Seq<char>, Seq<V>)>::empty(),
    {
        let store = Store {
            entries: Vec::with_capacity(capacity),
            index: StringHashMap::with_capacity(capacity),
        };
        assert(store.entries() =~= Seq::<(Seq<char>, Seq<V>)>::empty());
        store
    }

    /// The store that holds the pairs, stored one by one: of two pairs with
    /// one key the later one stays.
    pub fn from_pairs(pairs: Vec<(String, Vec<V>)>) -> (store: Self)
        ensures
            store.entries() == collect(plain(pairs@)),
    {
        let ghost all = plain(pairs@);
        let mut store = Store::new();
        for pair in it: pairs
            invariant
                all == plain(it.seq()),
                store.entries() == collect(all.take(it.index())),
        {
            let ghost at = it.index();
            assert(all[at] == (pair.0@, pair.1@));
            assert(all.take(at + 1).drop_last() =~= all.take(at));
            store = store.insert(pair.0, pair.1);
        }
        assert(all.take(all.len() as int) =~= all);
        store
    }

    /// The number of keys.
    pub fn len(&self) -> (n: usize)
        ensures
            n == self.entries().len(),
    {
        self.entries.len()
    }

    /// Whether the store has no keys.
    pub fn is_empty(&self) -> (empty: bool)
        ensures
            empty == (self.entries().len() == 0),
    {
        self.entries.len() == 0
    }

    /// The key of the entry at position `at`.
    pub(crate) fn key_at(&self, at: usize) -> (key: &str)
        requires
            at < self.entries().len(),
        ensures
            key@ == self.entries()[at as int].0,
    {
        self.entries[at].0.as_str()
    }

    /// The values of the entry at position `at`.
    pub(crate) fn values_at(&self, at: usize) -> (values: &Vec<V>)
        requires
            at < self.entries().len(),
        ensures
            values@ == self.entries()[at as int].1,
    {
        &self.entries[at].1
    }

    /// The values stored under `key`, if the key is present.
    pub fn get(&self, key: &str) -> (found: Option<&Vec<V>>)
        ensures
            match found {
                Some(values) => self@.contains_key(key@) && values@ == self@[key@],
                None => !self@.contains_key(key@),
            },
    {
        proof {
            use_type_invariant(self);
        }
        match self.index.get(key) {
            Some(at) => {
                let entry = &self.entries[*at];
                proof {
                    self.lemma_distinct();
                    assert(self.entries()[*at as int] == (entry.0@, entry.1@));
                    lemma_position_of(self.entries(), *at as int);
                }
                Some(&entry.1)
            },
            None => {
                proof {
                    if has_key(self.entries(), key@) {
                        let i = position_of(self.entries(), key@);
                        assert(self.entries()[i].0 == self.entries@[i].0@);
                    }
                }
                None
            },
        }
    }

    /// Stores `values` under `key`, in place of what the key had.
    pub fn insert(self, key: String, values: Vec<V>) -> (store: Self)
        ensures
            store.entries() == put(self.entries(), key@, values@),
            store@ == self@.insert(key@, values@),
    {
        proof {
            use_type_invariant(&self);
            self.lemma_distinct();
            lemma_put(self.entries(), key@, values@);
        }
        let ghost before = self.entries();
        let Store { mut entries, mut index } = self;
        match index.get(key.as_str()) {
            Some(at) => {
                let at = *at;
                proof {
                    assert(before[at as int].0 == key@);
                    lemma_position_of(before, at as int);
                }
                entries.set(at, (key, values));
            },
            None => {
                proof {
                    if has_key(before, key@) {
                        let i = position_of(before, key@);
                        assert(before[i].0 == entries@[i].0@);
                    }
                }
                let at = entries.len();
                index.insert(key.clone(), at);
                entries.push((key, values));
            },
        }
        let store = Store { entries, index };
        assert(store.entries() =~= put(before, key@, values@));
        store
    }

    /// Adds `value` behind the values that `key` has.
    pub fn append(self, key: String, value: V) -> (store: Self)
        ensures
            store.entries() == accumulate(self.entries(), key@, value),
            store@ == self@.insert(
                key@,
                if self@.contains_key(key@) {
                    self@[key@].push(value)
                } else {
                    seq![value]
                },
            ),
    {
        proof {
            use_type_invariant(&self);
            self.lemma_distinct();
            lemma_accumulate(self.entries(), key@, value);
        }
        let ghost before = self.entries();
        let Store { mut entries, mut index } = self;
        match index.get(key.as_str()) {
            Some(at) => {
                let at = *at;
                proof {
                    assert(before[at as int].0 == key@);
                    lemma_position_of(before, at as int);
                }
                entries[at].1.push(value);
            },
            None => {
                proof {
                    if has_key(before, key@) {
                        let i = position_of(before, key@);
                        assert(before[i].0 == entries@[i].0@);
                    }
                }
                let at = entries.len();
                index.insert(key.clone(), at);
                let mut values = Vec::new();
                values.push(value);
                entries.push((key, values));
            },
        }
        let store = Store { entries, index };
        assert(store.entries() =~= accumulate(before, key@, value));
        store
    }

    /// In a well-formed store no key occurs twice.
    pub proof fn lemma_distinct(&self)
        requires
            self.wf(),
        ensures
            distinct_keys(self.entries()),
    {
        assert forall|i: int, j: int| 0 <= i < j < self.entries().len() implies (
        #[trigger] self.entries()[i]).0 != (#[trigger] self.entries()[j]).0 by {
            assert(self.index@[self.entries@[i].0@] == i);
            assert(self.index@[self.entries@[j].0@] == j);
        }
    }
}

} // verus!
