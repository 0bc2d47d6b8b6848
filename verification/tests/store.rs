use lib::store::Store;

#[test]
fn store_insert_get_remove() {
    let mut store = Store::new();
    assert_eq!(store.get(&"a".to_string()), None);
    store.insert("a".to_string(), "1".to_string());
    store.insert("b".to_string(), "2".to_string());
    assert_eq!(store.get(&"a".to_string()), Some("1".to_string()));
    assert_eq!(store.get(&"b".to_string()), Some("2".to_string()));
    store.insert("a".to_string(), "3".to_string());
    assert_eq!(store.get(&"a".to_string()), Some("3".to_string()));
    store.remove(&"a".to_string());
    assert_eq!(store.get(&"a".to_string()), None);
    assert_eq!(store.get(&"b".to_string()), Some("2".to_string()));
    store.remove(&"missing".to_string());
    assert_eq!(store.get(&"b".to_string()), Some("2".to_string()));
}

#[test]
fn store_keys_are_exact_text() {
    let mut store = Store::new();
    store.insert("Key".to_string(), "x".to_string());
    assert_eq!(store.get(&"key".to_string()), None);
    assert_eq!(store.get(&"Key".to_string()), Some("x".to_string()));
}
