use parameters::ParamMap;

#[test]
fn test_param_map_insert_and_get() {
    let mut map = ParamMap::new();
    assert_eq!(map.len(), 0);
    map.insert("a".to_string(), "1".to_string());
    map.insert("b".to_string(), "2".to_string());
    assert_eq!(map.len(), 2);
    assert_eq!(map.get("a"), Some(&"1".to_string()));
    assert_eq!(map.get("b"), Some(&"2".to_string()));
    assert_eq!(map.get("c"), None);
}

#[test]
fn test_param_map_insert_overwrites() {
    let mut map = ParamMap::new();
    map.insert("a".to_string(), "1".to_string());
    map.insert("a".to_string(), "2".to_string());
    assert_eq!(map.len(), 1);
    assert_eq!(map.get("a"), Some(&"2".to_string()));
}
