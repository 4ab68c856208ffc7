use pycycle::names::NameMap;

#[test]
fn names_keep_their_order_and_their_last_value() {
    let mut map: NameMap<u32> = NameMap::new();
    assert_eq!(map.len(), 0);
    map.insert("b".to_string(), 1);
    map.insert("a".to_string(), 2);
    map.insert("b".to_string(), 3);
    assert_eq!(map.len(), 2);
    assert_eq!(map.name_at(0), "b");
    assert_eq!(*map.value_at(0), 3);
    assert_eq!(map.name_at(1), "a");
    assert_eq!(map.get("a"), Some(&2));
    assert_eq!(map.get("b"), Some(&3));
    assert_eq!(map.get("c"), None);
    assert!(map.contains("a"));
    assert!(!map.contains(""));
}
