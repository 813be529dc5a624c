use query_map::QueryMap;
use std::collections::HashMap;

fn map_of(data: HashMap<String, Vec<String>>) -> QueryMap<String> {
    QueryMap::from(data.into_iter().collect::<Vec<_>>())
}

fn pairs(data: &[(&str, &[&str])]) -> Vec<(String, Vec<String>)> {
    data.iter()
        .map(|(key, values)| (key.to_string(), values.iter().map(|v| v.to_string()).collect()))
        .collect()
}

#[test]
fn str_map_default_is_empty() {
    let d: QueryMap<String> = QueryMap::default();
    assert!(d.is_empty())
}

#[test]
fn test_map_first() {
    let mut data = HashMap::new();
    data.insert("foo".into(), vec!["bar".into()]);
    let map: QueryMap<String> = map_of(data);
    assert_eq!("bar", map.first("foo").unwrap().as_str());
    assert_eq!(None, map.first("bar"));
}

#[test]
fn test_map_all() {
    let mut data = HashMap::new();
    data.insert("foo".into(), vec!["bar".into(), "baz".into()]);
    let map: QueryMap<String> = map_of(data);
    let got = map.all("foo").unwrap();
    assert_eq!(vec!["bar", "baz"], got);
    assert_eq!(None, map.all("bar"));
}

#[test]
fn test_map_iter() {
    let mut data = HashMap::new();
    data.insert("foo".into(), vec!["bar".into()]);
    data.insert("baz".into(), vec!["boom".into()]);
    let map: QueryMap<String> = map_of(data);
    let mut values = map.iter().map(|(_, v)| v).collect::<Vec<_>>();
    values.sort();
    assert_eq!(vec!["bar", "boom"], values);
}

#[test]
fn default_map_finds_nothing() {
    let map: QueryMap<u32> = QueryMap::default();
    assert_eq!(None, map.first("foo"));
    assert_eq!(None, map.all("foo"));
    assert_eq!(None, map.iter().next());
}

#[test]
fn map_with_a_key_is_not_empty() {
    let map = QueryMap::from(pairs(&[("foo", &["bar"])]));
    assert!(!map.is_empty());
}

#[test]
fn map_of_no_pairs_is_empty() {
    let map: QueryMap<String> = QueryMap::from(Vec::new());
    assert!(map.is_empty());
}

#[test]
fn first_is_the_first_of_all() {
    let map = QueryMap::from(pairs(&[("a", &["1", "2", "3"]), ("b", &["4"])]));
    for key in ["a", "b", "c"] {
        let first = map.first(key);
        let all = map.all(key);
        assert_eq!(first.is_none(), all.is_none());
        if let (Some(first), Some(all)) = (first, all) {
            assert_eq!(first, all[0]);
        }
    }
}

#[test]
fn absent_keys_are_none() {
    let map = QueryMap::from(pairs(&[("a", &["1"])]));
    assert_eq!(None, map.first("b"));
    assert_eq!(None, map.all("b"));
    assert_eq!(None, map.first(""));
    assert_eq!(None, map.first("A"));
    assert_eq!(None, map.first("a "));
}

#[test]
fn key_with_an_empty_list() {
    let map = QueryMap::from(pairs(&[("a", &[]), ("b", &["1"])]));
    assert_eq!(None, map.first("a"));
    assert_eq!(Some(Vec::<&String>::new()), map.all("a"));
    assert!(!map.is_empty());
    let walked = map.iter().collect::<Vec<_>>();
    assert_eq!(vec![("b", &"1".to_string())], walked);
}

#[test]
fn later_pair_replaces_earlier_one() {
    let map = QueryMap::from(pairs(&[("a", &["1", "2"]), ("b", &["3"]), ("a", &["4"])]));
    assert_eq!(vec!["4"], map.all("a").unwrap());
    assert_eq!(vec!["3"], map.all("b").unwrap());
    let keys = map.iter().map(|(k, _)| k).collect::<Vec<_>>();
    assert_eq!(vec!["a", "b"], keys);
}

#[test]
fn iter_walks_keys_in_order_and_values_in_order() {
    let map = QueryMap::from(pairs(&[("x", &["1", "2"]), ("y", &["3"]), ("z", &["4", "5", "6"])]));
    let walked = map.iter().map(|(k, v)| (k, v.as_str())).collect::<Vec<_>>();
    assert_eq!(
        vec![("x", "1"), ("x", "2"), ("y", "3"), ("z", "4"), ("z", "5"), ("z", "6")],
        walked
    );
}

#[test]
fn iter_gives_one_pair_for_each_value() {
    let data = pairs(&[("x", &["1", "2"]), ("y", &[]), ("z", &["4", "5", "6"]), ("w", &["7"])]);
    let total: usize = data.iter().map(|(_, values)| values.len()).sum();
    let map = QueryMap::from(data);
    assert_eq!(6, total);
    assert_eq!(total, map.iter().count());
}

#[test]
fn iter_ends_and_stays_ended() {
    let map = QueryMap::from(pairs(&[("x", &["1"])]));
    let mut iter = map.iter();
    assert_eq!(Some(("x", &"1".to_string())), iter.next());
    assert_eq!(None, iter.next());
    assert_eq!(None, iter.next());
}

#[test]
fn iter_starts_afresh_each_time() {
    let map = QueryMap::from(pairs(&[("x", &["1", "2"])]));
    let mut first = map.iter();
    first.next();
    assert_eq!(2, map.iter().count());
    assert_eq!(1, first.count());
}

#[test]
fn clone_shares_the_store() {
    let map = QueryMap::from(pairs(&[("x", &["1", "2"]), ("y", &["3"])]));
    let copy = map.clone();
    assert!(copy == map);
    drop(map);
    assert_eq!(vec!["1", "2"], copy.all("x").unwrap());
    assert_eq!("3", copy.first("y").unwrap());
}

#[test]
fn values_of_any_type() {
    let map = QueryMap::from(vec![("n".to_string(), vec![3u64, 1, 2])]);
    assert_eq!(Some(&3), map.first("n"));
    assert_eq!(vec![&3, &1, &2], map.all("n").unwrap());
}

#[test]
fn equal_maps_have_the_same_keys_and_values() {
    let a = QueryMap::from(pairs(&[("x", &["1", "2"]), ("y", &["3"])]));
    let b = QueryMap::from(pairs(&[("y", &["3"]), ("x", &["1", "2"])]));
    assert!(a == b);
    assert!(b == a);
    assert!(a == a.clone());
}

#[test]
fn unequal_maps() {
    let a = QueryMap::from(pairs(&[("x", &["1", "2"]), ("y", &["3"])]));
    let order = QueryMap::from(pairs(&[("x", &["2", "1"]), ("y", &["3"])]));
    let fewer = QueryMap::from(pairs(&[("x", &["1", "2"])]));
    let other_key = QueryMap::from(pairs(&[("x", &["1", "2"]), ("z", &["3"])]));
    let shorter = QueryMap::from(pairs(&[("x", &["1"]), ("y", &["3"])]));
    let empty: QueryMap<String> = QueryMap::default();
    assert!(a != order);
    assert!(a != fewer);
    assert!(fewer != a);
    assert!(a != other_key);
    assert!(a != shorter);
    assert!(a != empty);
    assert!(empty == QueryMap::default());
}

#[test]
fn store_behind_the_map() {
    let map = QueryMap::from(pairs(&[("x", &["1", "2"]), ("y", &["3"])]));
    let store = map.store();
    assert_eq!(2, store.len());
    assert!(!store.is_empty());
    assert_eq!(Some(&vec!["1".to_string(), "2".to_string()]), store.get("x"));
    assert_eq!(None, store.get("z"));
}

#[test]
fn store_insert_replaces_and_keeps_the_place() {
    let mut store = query_map::Store::new();
    store = store.insert("a".to_string(), vec![1, 2]);
    store = store.insert("b".to_string(), vec![3]);
    store = store.insert("a".to_string(), vec![4]);
    assert_eq!(2, store.len());
    let map = QueryMap::from_store(store);
    assert_eq!(vec![("a", &4), ("b", &3)], map.iter().collect::<Vec<_>>());
}
