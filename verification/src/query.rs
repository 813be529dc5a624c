//! The text adapter: a query string such as `a=1&b=2&a=3`, read into a map.
//!
//! Entries stand between `&`; in an entry the key stands before the first
//! `=` and the value behind it. Keys and values are taken as they are
//! written. The values of a key that occurs more than once are gathered in
//! the order in which they stand. The empty text has no entries.

use crate::model::{accumulate, lemma_text_accumulate, text_entries};
use crate::query_map::QueryMap;
use crate::store::Store;
use crate::text::{part, spec_split, split, texts};
use vstd::prelude::*;

verus! {

/// Why a text is no query string.
#[derive(Debug, Clone, Copy, PartialEq, Eq)]
pub enum ParseError {
    /// The entry at position `entry`, counted from 0, holds no `=`.
    MissingEquals { entry: usize },
}

/// The number of characters of `text` that stand before its first `mark`;
/// the length of `text` where it holds none.
pub open spec fn prefix_len(text: Seq<char>, mark: char) -> nat
    decreases text.len(),
{
    if text.len() == 0 || text[0] == mark {
        0
    } else {
        1 + prefix_len(text.drop_first(), mark)
    }
}

/// The key and the value of an entry: what stands before its first `=`, and
/// what stands behind that. `None` where the entry holds no `=`.
pub open spec fn spec_pair(entry: Seq<char>) -> Option<(Seq<char>, Seq<char>)> {
    let at = prefix_len(entry, '=') as int;
    if at < entry.len() {
        Some((entry.take(at), entry.skip(at + 1)))
    } else {
        None
    }
}

/// The entries of a query string: none for the empty text, else what stands
/// between the `&`.
pub open spec fn query_entries(text: Seq<char>) -> Seq<Seq<char>> {
    if text.len() == 0 {
        Seq::empty()
    } else {
        spec_split(text, '&')
    }
}

/// The position of the first entry without `=`, if there is one.
pub open spec fn first_malformed(entries: Seq<Seq<char>>) -> Option<int>
    decreases entries.len(),
{
    if entries.len() == 0 {
        None
    } else if first_malformed(entries.drop_last()) is Some {
        first_malformed(entries.drop_last())
    } else if spec_pair(entries.last()) is None {
        Some(entries.len() - 1)
    } else {
        None
    }
}

/// The entries of the map that holds the pairs: each key with the values
/// of all its pairs, in the order of the pairs.
pub open spec fn gathered(entries: Seq<Seq<char>>) -> Seq<(Seq<char>, Seq<Seq<char>>)>
    decreases entries.len(),
{
    if entries.len() == 0 {
        Seq::empty()
    } else {
        let pair = spec_pair(entries.last()).unwrap();
        accumulate(gathered(entries.drop_last()), pair.0, pair.1)
    }
}

/// A position that stands at a `mark`, or at the end, and behind no `mark`,
/// is the prefix length.
pub proof fn lemma_prefix_len(text: Seq<char>, mark: char, at: int)
    requires
        0 <= at <= text.len(),
        forall|j: int| 0 <= j < at ==> text[j] != mark,
        at < text.len() ==> text[at] == mark,
    ensures
        prefix_len(text, mark) == at,
    decreases at,
{
    if at > 0 {
        let rest = text.drop_first();
        assert forall|j: int| 0 <= j < at - 1 implies rest[j] != mark by {
            assert(rest[j] == text[j + 1]);
        }
        lemma_prefix_len(rest, mark, at - 1);
    }
}

/// Splits an entry at its first `=`.
pub fn split_pair(entry: &str) -> (pair: Option<(String, String)>)
    ensures
        match pair {
            Some((key, value)) => spec_pair(entry@) == Some((key@, value@)),
            None => spec_pair(entry@) is None,
        },
{
    let ascii = entry.is_ascii();
    let len = entry.unicode_len();
    let mut at: usize = 0;
    for c in it: entry.chars()
        invariant
            it.seq() == entry@,
            len == entry@.len(),
            ascii ==> entry.is_ascii(),
            at == it.index(),
            forall|j: int| 0 <= j < at ==> entry@[j] != '=',
    {
        if c == '=' {
            proof {
                lemma_prefix_len(entry@, '=', at as int);
            }
            let key = part(entry, ascii, 0, at);
            let value = part(entry, ascii, at + 1, len);
            return Some((key, value));
        }
        at = at + 1;
    }
    proof {
        lemma_prefix_len(entry@, '=', at as int);
    }
    None
}

/// Reads a query string into a map.
///
/// Fails at the first entry that holds no `=`, and then gives no map.
pub fn parse_query(text: &str) -> (parsed: Result<QueryMap<String>, ParseError>)
    ensures
        match parsed {
            Ok(map) => {
                &&& first_malformed(query_entries(text@)) is None
                &&& map.text_entries() == gathered(query_entries(text@))
            },
            Err(ParseError::MissingEquals { entry }) => first_malformed(query_entries(text@))
                == Some(entry as int),
        },
{
    let mut store: Store<String> = Store::new();
    if text.is_empty() {
        assert(text_entries(store.entries()) =~= gathered(query_entries(text@)));
        return Ok(QueryMap::from_store(store));
    }
    let entries = split(text, '&');
    let ghost all = texts(entries@);
    let mut at: usize = 0;
    assert(text_entries(store.entries()) =~= gathered(all.take(0)));
    while at < entries.len()
        invariant
            at <= entries.len(),
            all == texts(entries@),
            all == query_entries(text@),
            first_malformed(all.take(at as int)) is None,
            text_entries(store.entries()) == gathered(all.take(at as int)),
        decreases entries.len() - at,
    {
        assert(all.take(at + 1).drop_last() =~= all.take(at as int));
        assert(all.take(at + 1).last() == entries@[at as int]@);
        match split_pair(entries[at].as_str()) {
            Some((key, value)) => {
                proof {
                    use_type_invariant(&store);
                    store.lemma_distinct();
                    lemma_text_accumulate(store.entries(), key@, value);
                }
                store = store.append(key, value);
            },
            None => {
                proof {
                    assert(first_malformed(all.take(at + 1)) == Some(at as int));
                    lemma_first_malformed_prefix(all, at + 1);
                }
                return Err(ParseError::MissingEquals { entry: at });
            },
        }
        at = at + 1;
    }
    assert(all.take(at as int) =~= all);
    Ok(QueryMap::from_store(store))
}

impl core::str::FromStr for QueryMap<String> {
    type Err = ParseError;

    /// Reads a query string into a map, as `parse_query` does.
    fn from_str(text: &str) -> (parsed: Result<Self, ParseError>)
        ensures
            match parsed {
                Ok(map) => {
                    &&& first_malformed(query_entries(text@)) is None
                    &&& map.text_entries() == gathered(query_entries(text@))
                },
                Err(ParseError::MissingEquals { entry }) => first_malformed(query_entries(text@))
                    == Some(entry as int),
            },
    {
        parse_query(text)
    }
}

/// An entry without `=` among the first `upto` is the first such entry of
/// all.
pub proof fn lemma_first_malformed_prefix(entries: Seq<Seq<char>>, upto: int)
    requires
        0 <= upto <= entries.len(),
        first_malformed(entries.take(upto)) is Some,
    ensures
        first_malformed(entries) == first_malformed(entries.take(upto)),
    decreases entries.len() - upto,
{
    if upto < entries.len() {
        assert(entries.take(upto + 1).drop_last() =~= entries.take(upto));
        lemma_first_malformed_prefix(entries, upto + 1);
    } else {
        assert(entries.take(upto) =~= entries);
    }
}

} // verus!
