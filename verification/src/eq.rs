//! Equality of maps: the same keys, each with the same values in the same
//! order. The order of the keys does not count.

use crate::laws::lemma_keys;
use crate::model::{lemma_position_of, lemma_text_keys, lemma_text_lookup, position_of};
use crate::query_map::QueryMap;
use crate::text::texts;
use vstd::prelude::*;
use vstd::set_lib::lemma_subset_equality;
use vstd::std_specs::cmp::PartialEqSpecImpl;

verus! {

/// Whether two lists hold the same texts in the same order.
pub fn same_texts(left: &Vec<String>, right: &Vec<String>) -> (same: bool)
    ensures
        same == (texts(left@) == texts(right@)),
{
    if left.len() != right.len() {
        assert(texts(left@).len() != texts(right@).len());
        return false;
    }
    let mut at: usize = 0;
    while at < left.len()
        invariant
            at <= left.len(),
            left.len() == right.len(),
            forall|i: int| 0 <= i < at ==> left@[i]@ == right@[i]@,
        decreases left.len() - at,
    {
        if left[at] != right[at] {
            assert(texts(left@)[at as int] != texts(right@)[at as int]);
            return false;
        }
        at = at + 1;
    }
    assert(texts(left@) =~= texts(right@));
    true
}

impl PartialEq for QueryMap<String> {
    /// Whether the two maps have the same keys, each with the same texts
    /// in the same order.
    fn eq(&self, other: &Self) -> (equal: bool) {
        let ours = self.store();
        let theirs = other.store();
        proof {
            use_type_invariant(ours);
            use_type_invariant(theirs);
            ours.lemma_distinct();
            theirs.lemma_distinct();
            lemma_text_keys(ours.entries(), Seq::empty());
            lemma_text_keys(theirs.entries(), Seq::empty());
            lemma_keys(self.text_entries());
            lemma_keys(other.text_entries());
        }
        if ours.len() != theirs.len() {
            return false;
        }
        let mut at: usize = 0;
        while at < ours.len()
            invariant
                at <= ours.entries().len(),
                ours.entries() == self.entries(),
                theirs.entries() == other.entries(),
                ours.wf(),
                theirs.wf(),
                forall|i: int|
                    0 <= i < at ==> {
                        &&& other.text_view().contains_key(#[trigger] self.text_entries()[i].0)
                        &&& other.text_view()[self.text_entries()[i].0]
                            == self.text_entries()[i].1
                    },
            decreases ours.entries().len() - at,
        {
            let ghost key = self.text_entries()[at as int].0;
            proof {
                ours.lemma_distinct();
                theirs.lemma_distinct();
                lemma_text_keys(ours.entries(), key);
                lemma_position_of(self.text_entries(), at as int);
                lemma_text_lookup(theirs.entries(), key);
            }
            match theirs.get(ours.key_at(at)) {
                Some(values) => {
                    if !same_texts(ours.values_at(at), values) {
                        return false;
                    }
                },
                None => {
                    return false;
                },
            }
            at = at + 1;
        }
        proof {
            assert forall|key: Seq<char>| self.text_view().contains_key(key) implies
                other.text_view().contains_key(key) && other.text_view()[key]
                    == self.text_view()[key] by {
                let i = position_of(self.text_entries(), key);
                lemma_position_of(self.text_entries(), i);
            }
            assert(self.text_view().dom().subset_of(other.text_view().dom()));
            lemma_subset_equality(self.text_view().dom(), other.text_view().dom());
            assert(self.text_view() =~= other.text_view());
        }
        true
    }
}

impl Eq for QueryMap<String> {

}

impl PartialEqSpecImpl for QueryMap<String> {
    open spec fn obeys_eq_spec() -> bool {
        true
    }

    /// Two maps are equal where they map the same keys to the same texts.
    open spec fn eq_spec(&self, other: &Self) -> bool {
        self.text_view() == other.text_view()
    }
}

} // verus!
