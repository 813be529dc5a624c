//! The query map: an immutable, cheaply cloneable handle to one store.

use crate::iter::QueryMapIter;
use crate::model::{
    as_map, collect, distinct_keys, flatten, has_key, keys_of, plain, text_entries,
};
use crate::store::Store;
use std::sync::Arc;
use vstd::prelude::*;
use vstd::std_specs::convert::FromSpecImpl;

verus! {

/// A read-only view into a map of data which may contain multiple values.
///
/// Internally data is always represented as many values. Clones share one
/// store, which is never changed once the map has been made.
pub struct QueryMap<V> {
    inner: Arc<Store<V>>,
}

/// `Arc::clone`, which gives a second handle to the same allocation: the
/// store behind the new handle is the store behind the old one.
#[verifier::external_body]
fn share<V>(store: &Arc<Store<V>>) -> (shared: Arc<Store<V>>)
    ensures
        *shared == **store,
{
    Arc::clone(store)
}

impl<V> View for QueryMap<V> {
    type V = Map<Seq<char>, Seq<V>>;

    /// The mapping from each key to its values.
    open spec fn view(&self) -> Map<Seq<char>, Seq<V>> {
        as_map(self.entries())
    }
}

impl<V> QueryMap<V> {
    /// The entries as plain values: each key with its values, in the order
    /// in which the keys are walked.
    pub closed spec fn entries(&self) -> Seq<(Seq<char>, Seq<V>)> {
        self.inner.entries()
    }

    /// The store behind the handle is well formed.
    #[verifier::type_invariant]
    pub closed spec fn wf(&self) -> bool {
        self.inner.wf()
    }

    /// The keys, in the order in which they are walked.
    pub open spec fn keys(&self) -> Seq<Seq<char>> {
        keys_of(self.entries())
    }

    /// Every pair of a key and one of its values: key by key, and for one
    /// key in the order of its values.
    pub open spec fn pairs(&self) -> Seq<(Seq<char>, V)> {
        flatten(self.entries())
    }

    /// What `first` finds for `key`.
    pub open spec fn first_of(&self, key: Seq<char>) -> Option<V> {
        if self@.contains_key(key) && self@[key].len() > 0 {
            Some(self@[key][0])
        } else {
            None
        }
    }

    /// What `all` finds for `key`.
    pub open spec fn all_of(&self, key: Seq<char>) -> Option<Seq<V>> {
        if self@.contains_key(key) {
            Some(self@[key])
        } else {
            None
        }
    }

    /// In a well-formed map no key occurs twice.
    pub proof fn lemma_distinct(&self)
        requires
            self.wf(),
        ensures
            distinct_keys(self.entries()),
    {
        self.inner.lemma_distinct();
    }

    /// The store behind the handle.
    pub fn store(&self) -> (store: &Store<V>)
        ensures
            store.entries() == self.entries(),
    {
        &self.inner
    }

    /// Wraps a store.
    pub fn from_store(store: Store<V>) -> (map: Self)
        ensures
            map.entries() == store.entries(),
    {
        proof {
            use_type_invariant(&store);
        }
        QueryMap { inner: Arc::new(store) }
    }

    /// Return the first element associated with a key.
    pub fn first(&self, key: &str) -> (found: Option<&V>)
        ensures
            match found {
                Some(value) => self.first_of(key@) == Some(*value),
                None => self.first_of(key@) is None,
            },
    {
        match self.inner.get(key) {
            Some(values) => if values.len() > 0 {
                Some(&values[0])
            } else {
                None
            },
            None => None,
        }
    }

    /// Return all elements associated with a key.
    pub fn all(&self, key: &str) -> (found: Option<Vec<&V>>)
        ensures
            match found {
                Some(values) => self.all_of(key@) == Some(values@.unref()),
                None => self.all_of(key@) is None,
            },
    {
        match self.inner.get(key) {
            Some(values) => {
                let mut refs: Vec<&V> = Vec::with_capacity(values.len());
                let mut i: usize = 0;
                while i < values.len()
                    invariant
                        i <= values.len(),
                        refs@.len() == i,
                        refs@.unref() == values@.take(i as int),
                    decreases values.len() - i,
                {
                    let ghost before = refs@;
                    refs.push(&values[i]);
                    i += 1;
                    assert forall|j: int| 0 <= j < i implies *refs@[j] == values@[j] by {
                        if j < i - 1 {
                            assert(before.unref()[j] == values@.take(i - 1)[j]);
                        }
                    }
                    assert(refs@.unref() =~= values@.take(i as int));
                }
                assert(values@.take(i as int) =~= values@);
                Some(refs)
            },
            None => None,
        }
    }

    /// Return an iterator for this map.
    pub fn iter(&self) -> (iter: QueryMapIter<'_, V>)
        ensures
            iter.pending() == self.pairs(),
    {
        QueryMapIter::over(&self.inner)
    }

    /// Return true if there are no elements in the map.
    pub fn is_empty(&self) -> (empty: bool)
        ensures
            empty == (self.keys().len() == 0),
            empty == (self@ == Map::<Seq<char>, Seq<V>>::empty()),
    {
        proof {
            if self.entries().len() > 0 {
                assert(has_key(self.entries(), self.entries()[0].0));
                assert(self@.contains_key(self.entries()[0].0));
            } else {
                assert(self@ =~= Map::<Seq<char>, Seq<V>>::empty());
            }
        }
        self.inner.len() == 0
    }
}

impl QueryMap<String> {
    /// The entries with each value as its text.
    pub open spec fn text_entries(&self) -> Seq<(Seq<char>, Seq<Seq<char>>)> {
        text_entries(self.entries())
    }

    /// The mapping from each key to the texts of its values.
    pub open spec fn text_view(&self) -> Map<Seq<char>, Seq<Seq<char>>> {
        as_map(self.text_entries())
    }
}

impl<V> Clone for QueryMap<V> {
    /// A second handle to the same store.
    fn clone(&self) -> (copy: Self)
        ensures
            copy == *self,
    {
        proof {
            use_type_invariant(self);
        }
        QueryMap { inner: share(&self.inner) }
    }
}

impl<V> From<Vec<(String, Vec<V>)>> for QueryMap<V> {
    /// The map that holds the pairs, stored one by one: of two pairs with one
    /// key the later one stays. The lists are taken as they are.
    fn from(pairs: Vec<(String, Vec<V>)>) -> (map: Self)
        ensures
            map.entries() == collect(plain(pairs@)),
    {
        QueryMap::from_store(Store::from_pairs(pairs))
    }
}

impl<V> FromSpecImpl<Vec<(String, Vec<V>)>> for QueryMap<V> {
    /// Two maps with the same entries need not be the same value, so the
    /// conversion is stated on `from` itself, over the entries.
    open spec fn obeys_from_spec() -> bool {
        false
    }

    open spec fn from_spec(pairs: Vec<(String, Vec<V>)>) -> Self {
        choose|map: Self| map.wf() && map.entries() == collect(plain(pairs@))
    }
}

impl<V> Default for QueryMap<V> {
    /// The map without keys.
    fn default() -> (map: Self)
        ensures
            map.entries() == Seq::<(Seq<char>, Seq<V>)>::empty(),
            map@ == Map::<Seq<char>, Seq<V>>::empty(),
    {
        let map = QueryMap::from_store(Store::new());
        assert(map@ =~= Map::<Seq<char>, Seq<V>>::empty());
        map
    }
}

} // verus!
