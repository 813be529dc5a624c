use query_map::aws_api_gateway_v2::{
    deserialize, deserialize_empty, deserialize_optional, serialize_query_string_parameters,
};
use query_map::{OneOrMany, QueryMap};

fn strings(values: &[&str]) -> Vec<String> {
    values.iter().map(|v| v.to_string()).collect()
}

fn one(key: &str, text: &str) -> (String, OneOrMany) {
    (key.to_string(), OneOrMany::One(text.to_string()))
}

fn many(key: &str, values: &[&str]) -> (String, OneOrMany) {
    (key.to_string(), OneOrMany::Many(strings(values)))
}

fn parameter(key: &str, value: &str) -> (String, String) {
    (key.to_string(), value.to_string())
}

#[test]
fn gateway_scalar_is_split_at_commas() {
    let map = deserialize(vec![one("foo", "bar,baz"), one("x", "y")]);
    assert_eq!(vec!["bar", "baz"], map.all("foo").unwrap());
    assert_eq!(vec!["y"], map.all("x").unwrap());
}

#[test]
fn gateway_list_is_taken_as_it_is() {
    let map = deserialize(vec![many("foo", &["bar,baz", "qux"])]);
    assert_eq!(vec!["bar,baz", "qux"], map.all("foo").unwrap());
}

#[test]
fn gateway_no_source_is_no_map() {
    assert!(deserialize_optional(None).is_none());
}

#[test]
fn gateway_optional_source_is_decoded() {
    let map = deserialize_optional(Some(vec![one("foo", "bar,baz")])).unwrap();
    assert_eq!(vec!["bar", "baz"], map.all("foo").unwrap());
    let empty = deserialize_optional(Some(Vec::new())).unwrap();
    assert!(empty.is_empty());
}

#[test]
fn gateway_no_source_is_the_empty_map() {
    assert!(deserialize_empty(None).is_empty());
    assert!(deserialize_empty(None) == QueryMap::default());
}

#[test]
fn gateway_source_or_empty_is_decoded() {
    let map = deserialize_empty(Some(vec![one("foo", "bar,baz"), many("k", &["v"])]));
    assert_eq!(vec!["bar", "baz"], map.all("foo").unwrap());
    assert_eq!(vec!["v"], map.all("k").unwrap());
}

#[test]
fn gateway_values_are_joined_with_commas() {
    let map = deserialize(vec![many("key1", &["value1", "value2", "value3"]), one("k", "v")]);
    assert_eq!(
        vec![parameter("key1", "value1,value2,value3"), parameter("k", "v")],
        serialize_query_string_parameters(&map)
    );
}

#[test]
fn gateway_no_parameters_of_the_empty_map() {
    let map: QueryMap<String> = QueryMap::default();
    assert_eq!(Vec::<(String, String)>::new(), serialize_query_string_parameters(&map));
}

#[test]
fn gateway_key_without_values_is_the_empty_scalar() {
    let map = deserialize(vec![many("e", &[])]);
    assert_eq!(vec![parameter("e", "")], serialize_query_string_parameters(&map));
}

#[test]
fn gateway_parameters_read_again_give_the_map() {
    let map = deserialize(vec![one("foo", "bar,baz"), many("x", &["y"])]);
    let again = deserialize(
        serialize_query_string_parameters(&map)
            .into_iter()
            .map(|(key, scalar)| (key, OneOrMany::One(scalar)))
            .collect(),
    );
    assert!(again == map);
}
