use phpm::strmap::StrMap;

#[test]
fn insert_then_get_reads_back_the_value() {
    let mut m: StrMap<u32> = StrMap::new();
    m.insert("b".to_string(), 2);
    m.insert("a".to_string(), 1);
    m.insert("b".to_string(), 3);
    assert_eq!(m.get("b"), Some(&3));
    assert_eq!(m.get("a"), Some(&1));
    assert_eq!(m.get("c"), None);
    assert_eq!(m.len(), 2);
    assert_eq!(m.key_at(0), "a");
    assert_eq!(m.key_at(1), "b");
    assert!(m.contains_key("a"));
    assert!(!m.is_empty());
}
