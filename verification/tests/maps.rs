use std::collections::BTreeMap;

use neo4j_schema::ordered_map::OrderedMap;

fn keys(map: &OrderedMap<bool>) -> Vec<String> {
    (0..map.len()).map(|i| map.key(i).clone()).collect()
}

#[test]
fn lists_entries_in_the_order_of_the_keys() {
    let mut map: OrderedMap<bool> = OrderedMap::new();
    let mut model: BTreeMap<String, bool> = BTreeMap::new();
    for (key, value) in [
        ("b", true),
        ("a", false),
        ("é", true),
        ("z", false),
        ("b", false),
        ("", true),
        ("😀", true),
        ("aa", true),
    ] {
        map.insert(key.to_string(), value);
        model.insert(key.to_string(), value);
        assert_eq!(keys(&map), model.keys().cloned().collect::<Vec<_>>());
    }
    for i in 0..map.len() {
        assert_eq!(model.get(map.key(i)), Some(map.value(i)));
    }
    assert_eq!(map.get("b"), Some(&false));
    assert_eq!(map.get("c"), None);
    assert!(map.contains_key("aa"));
    assert!(!map.contains_key("aaa"));
}

#[test]
fn removes_what_was_inserted() {
    let mut map: OrderedMap<bool> = OrderedMap::new();
    assert_eq!(map.remove("a"), None);
    map.insert("a".to_string(), true);
    map.insert("b".to_string(), false);
    assert_eq!(map.remove("c"), None);
    assert_eq!(map.remove("a"), Some(true));
    assert_eq!(map.remove("a"), None);
    assert_eq!(keys(&map), vec!["b"]);
}
