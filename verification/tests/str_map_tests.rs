use yflow::str_map::StrMap;

#[test]
fn str_map_insert_and_get() {
    let mut map: StrMap<u32> = StrMap::new();
    assert!(map.is_empty());
    assert_eq!(map.insert("a".to_string(), 1), None);
    assert_eq!(map.insert("b".to_string(), 2), None);
    assert_eq!(map.insert("a".to_string(), 3), Some(1));
    assert_eq!(map.len(), 2);
    assert_eq!(map.get("a"), Some(&3));
    assert_eq!(map.get("b"), Some(&2));
    assert_eq!(map.get("c"), None);
    assert!(map.contains_key("b"));
    assert!(!map.contains_key("c"));
}

#[test]
fn str_map_keeps_insertion_order() {
    let mut map: StrMap<u32> = StrMap::new();
    map.insert("z".to_string(), 1);
    map.insert("a".to_string(), 2);
    map.insert("z".to_string(), 3);
    assert_eq!(map.key_at(0), "z");
    assert_eq!(map.key_at(1), "a");
    assert_eq!(*map.value_at(0), 3);
    assert_eq!(*map.value_at(1), 2);
    assert_eq!(map.index_of("a"), Some(1));
    assert_eq!(map.index_of("q"), None);
}

#[test]
fn str_map_clone_is_equal() {
    let mut map: StrMap<String> = StrMap::new();
    map.insert("k".to_string(), "v".to_string());
    let copy = map.clone();
    assert_eq!(copy.len(), 1);
    assert_eq!(copy.get("k"), Some(&"v".to_string()));
}
