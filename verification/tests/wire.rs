use query_map::{Convention, OneOrMany, QueryMap, Store};

fn strings(values: &[&str]) -> Vec<String> {
    values.iter().map(|v| v.to_string()).collect()
}

fn one(text: &str) -> OneOrMany {
    OneOrMany::One(text.to_string())
}

fn many(values: &[&str]) -> OneOrMany {
    OneOrMany::Many(strings(values))
}

fn entries(data: Vec<(&str, OneOrMany)>) -> Vec<(String, OneOrMany)> {
    data.into_iter().map(|(key, value)| (key.to_string(), value)).collect()
}

#[test]
fn scalar_is_one_value() {
    assert_eq!(strings(&["bar"]), one("bar").into_values(Convention::Plain));
    assert_eq!(strings(&["bar,baz"]), one("bar,baz").into_values(Convention::Plain));
    assert_eq!(strings(&[""]), one("").into_values(Convention::Plain));
}

#[test]
fn comma_separated_scalar_is_split() {
    assert_eq!(strings(&["bar"]), one("bar").into_values(Convention::CommaSeparated));
    assert_eq!(strings(&["bar", "baz"]), one("bar,baz").into_values(Convention::CommaSeparated));
    assert_eq!(strings(&[""]), one("").into_values(Convention::CommaSeparated));
}

#[test]
fn list_is_taken_as_it_is() {
    for convention in [Convention::Plain, Convention::CommaSeparated] {
        assert_eq!(strings(&["bar", "baz"]), many(&["bar", "baz"]).into_values(convention));
        assert_eq!(strings(&["a,b"]), many(&["a,b"]).into_values(convention));
        assert_eq!(strings(&[]), many(&[]).into_values(convention));
    }
}

#[test]
fn values_are_written_as_a_list() {
    assert_eq!(many(&["bar"]), OneOrMany::from_values(&strings(&["bar"]), Convention::Plain));
    assert_eq!(many(&["a", "b"]), OneOrMany::from_values(&strings(&["a", "b"]), Convention::Plain));
    assert_eq!(many(&[]), OneOrMany::from_values(&strings(&[]), Convention::Plain));
}

#[test]
fn values_are_written_joined_with_commas() {
    let convention = Convention::CommaSeparated;
    assert_eq!(one("bar"), OneOrMany::from_values(&strings(&["bar"]), convention));
    assert_eq!(one("bar,baz"), OneOrMany::from_values(&strings(&["bar", "baz"]), convention));
    assert_eq!(one(""), OneOrMany::from_values(&strings(&[]), convention));
}

#[test]
fn decode_scalar() {
    let map = QueryMap::decode(entries(vec![("foo", one("bar"))]), Convention::Plain);
    assert_eq!(vec!["bar"], map.all("foo").unwrap());
}

#[test]
fn decode_list() {
    let map = QueryMap::decode(entries(vec![("foo", many(&["bar", "baz"]))]), Convention::Plain);
    assert_eq!(vec!["bar", "baz"], map.all("foo").unwrap());
}

#[test]
fn decode_scalar_with_commas_as_one_value() {
    let map = QueryMap::decode(entries(vec![("foo", one("bar,baz"))]), Convention::Plain);
    assert_eq!(vec!["bar,baz"], map.all("foo").unwrap());
}

#[test]
fn decode_comma_separated_scalar_and_encode_it_again() {
    let convention = Convention::CommaSeparated;
    let map = QueryMap::decode(entries(vec![("foo", one("bar,baz"))]), convention);
    assert_eq!(vec!["bar", "baz"], map.all("foo").unwrap());
    assert_eq!("bar", map.first("foo").unwrap());
    assert_eq!(entries(vec![("foo", one("bar,baz"))]), map.encode(convention));
}

#[test]
fn decode_nothing() {
    let map = QueryMap::decode(Vec::new(), Convention::Plain);
    assert!(map.is_empty());
    assert_eq!(Vec::<(String, OneOrMany)>::new(), map.encode(Convention::Plain));
}

#[test]
fn decode_keeps_the_later_of_two_entries_with_one_key() {
    let source = entries(vec![("a", one("1")), ("b", many(&["2", "3"])), ("a", many(&["4", "5"]))]);
    let map = QueryMap::decode(source, Convention::Plain);
    assert_eq!(vec!["4", "5"], map.all("a").unwrap());
    assert_eq!(vec!["2", "3"], map.all("b").unwrap());
    assert_eq!(2, map.iter().filter(|(key, _)| *key == "a").count());
}

#[test]
fn decode_list_and_encode_it_again() {
    let source = vec![("foo", many(&["bar", "baz"])), ("x", many(&["y,z"])), ("e", many(&[]))];
    for convention in [Convention::Plain, Convention::CommaSeparated] {
        let map = QueryMap::decode(entries(source_copy(&source)), convention);
        assert_eq!(entries(source_copy(&source)), map.encode(Convention::Plain));
    }
}

fn source_copy(source: &[(&'static str, OneOrMany)]) -> Vec<(&'static str, OneOrMany)> {
    source
        .iter()
        .map(|(key, value)| match value {
            OneOrMany::One(text) => (*key, OneOrMany::One(text.clone())),
            OneOrMany::Many(list) => (*key, OneOrMany::Many(list.clone())),
        })
        .collect()
}

#[test]
fn encode_and_decode_again() {
    let mut store = Store::new();
    store = store.insert("a".to_string(), strings(&["1", "2"]));
    store = store.insert("b".to_string(), strings(&["3"]));
    let map = QueryMap::from_store(store);
    for convention in [Convention::Plain, Convention::CommaSeparated] {
        let again = QueryMap::decode(map.encode(convention), convention);
        assert!(again == map);
    }
}

#[test]
fn comma_in_a_value_is_not_kept_apart() {
    let map = QueryMap::from(vec![("a".to_string(), strings(&["1,2", "3"]))]);
    let convention = Convention::CommaSeparated;
    assert_eq!(entries(vec![("a", one("1,2,3"))]), map.encode(convention));
    let again = QueryMap::decode(map.encode(convention), convention);
    assert_eq!(vec!["1", "2", "3"], again.all("a").unwrap());
    assert!(again != map);
}

#[test]
fn encode_keeps_the_order_of_the_keys() {
    let source = entries(vec![("z", one("1")), ("a", one("2")), ("m", one("3,4"))]);
    let map = QueryMap::decode(source, Convention::CommaSeparated);
    assert_eq!(
        entries(vec![("z", many(&["1"])), ("a", many(&["2"])), ("m", many(&["3", "4"]))]),
        map.encode(Convention::Plain)
    );
    assert_eq!(
        entries(vec![("z", one("1")), ("a", one("2")), ("m", one("3,4"))]),
        map.encode(Convention::CommaSeparated)
    );
}

#[test]
fn store_insert_entry_step_by_step() {
    let mut store = Store::with_capacity(2);
    assert!(store.is_empty());
    store = store.insert_entry("a".to_string(), one("1,2"), Convention::CommaSeparated);
    store = store.insert_entry("b".to_string(), one("1,2"), Convention::Plain);
    store = store.insert_entry("a".to_string(), many(&["9"]), Convention::CommaSeparated);
    assert_eq!(2, store.len());
    assert_eq!(Some(&strings(&["9"])), store.get("a"));
    assert_eq!(Some(&strings(&["1,2"])), store.get("b"));
    assert_eq!(None, store.get("c"));
    let map = QueryMap::from_store(store);
    let walked = map.iter().map(|(k, v)| (k, v.as_str())).collect::<Vec<_>>();
    assert_eq!(vec![("a", "9"), ("b", "1,2")], walked);
}

#[test]
fn store_append_gathers_values() {
    let mut store = Store::new();
    store = store.append("a".to_string(), 1);
    store = store.append("b".to_string(), 2);
    store = store.append("a".to_string(), 3);
    assert_eq!(Some(&vec![1, 3]), store.get("a"));
    assert_eq!(Some(&vec![2]), store.get("b"));
    assert_eq!(2, store.len());
}
