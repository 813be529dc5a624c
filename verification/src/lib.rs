//! A read-only, multi-valued, string-keyed map.
//!
//! A [`QueryMap`] normalizes key/value data such as HTTP query strings and
//! structured request payloads into one shape: every key maps to an ordered
//! list of values, even where the source had a single value.
//!
//! # Examples
//!
//! Create a QueryMap from pairs of a key and its values:
//!
//! ```
//! use query_map::QueryMap;
//!
//! let data = vec![("foo".to_string(), vec!["bar".to_string()])];
//!
//! let map: QueryMap<String> = QueryMap::from(data);
//! assert_eq!("bar", map.first("foo").unwrap().as_str());
//! assert_eq!(None, map.first("bar"));
//! ```
//!
//! Create a QueryMap from the entries of a structured source, whose values
//! are scalars or lists:
//!
//! ```
//! use query_map::{Convention, OneOrMany, QueryMap};
//!
//! let entries = vec![("foo".to_string(), OneOrMany::One("bar".to_string()))];
//!
//! let map = QueryMap::decode(entries, Convention::Plain);
//! assert_eq!("bar", map.first("foo").unwrap().as_str());
//! ```
//!
//! Create a QueryMap from a query string:
//!
//! ```
//! use query_map::QueryMap;
//!
//! let data = "foo=bar&baz=quux&foo=qux";
//! let map = data.parse::<QueryMap<String>>().unwrap();
//! let got = map.all("foo").unwrap();
//! assert_eq!(vec!["bar", "qux"], got);
//! ```
//!
//! # Models
//!
//! The contracts speak of a map through its entries, a sequence of keys with
//! their values in which no key occurs twice ([`QueryMap::entries`]), and
//! through what follows from them: the mapping from keys to values (the
//! view, `map@`) and the pairs that an iterator gives ([`QueryMap::pairs`]).
//! The module [`laws`] proves what holds of every map.

pub mod aws_api_gateway_v2;
pub mod decode;
pub mod encode;
pub mod eq;
pub mod iter;
pub mod laws;
pub mod model;
pub mod query;
pub mod query_map;
pub mod store;
pub mod text;
pub mod wire;

pub use iter::QueryMapIter;
pub use query::{parse_query, ParseError};
pub use query_map::QueryMap;
pub use store::Store;
pub use wire::{Convention, OneOrMany};
