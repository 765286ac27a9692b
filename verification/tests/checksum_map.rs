use smart_archive::checksum_map::ChecksumMap;

#[test]
fn insert_get_remove() {
    let mut m = ChecksumMap::new();
    assert_eq!(m.len(), 0);
    m.insert("./a".to_string(), "1".to_string());
    m.insert("./b".to_string(), "2".to_string());
    m.insert("./a".to_string(), "3".to_string());
    assert_eq!(m.len(), 2);
    assert_eq!(m.get("./a").map(|s| s.as_str()), Some("3"));
    assert_eq!(m.keys().len(), 2);
    m.remove(&"./a".to_string());
    assert!(!m.contains_key("./a"));
    assert_eq!(m.len(), 1);
    m.remove(&"./zzz".to_string());
    assert_eq!(m.len(), 1);
    assert_eq!(m.keys(), &vec!["./b".to_string()]);
}

#[test]
fn from_entries_keeps_last_value() {
    let m = ChecksumMap::from_entries(vec![
        ("./x".to_string(), "1".to_string()),
        ("./y".to_string(), "2".to_string()),
        ("./x".to_string(), "9".to_string()),
    ]);
    assert_eq!(m.len(), 2);
    assert_eq!(m.get("./x").map(|s| s.as_str()), Some("9"));
}

#[test]
fn from_entries_order_does_not_matter() {
    let entries = vec![
        ("./a".to_string(), "11".to_string()),
        ("./b/c".to_string(), "22".to_string()),
        ("./d".to_string(), "33".to_string()),
    ];
    let mut reversed = entries.clone();
    reversed.reverse();
    let m1 = ChecksumMap::from_entries(entries);
    let m2 = ChecksumMap::from_entries(reversed);
    assert_eq!(m1.len(), m2.len());
    for k in ["./a", "./b/c", "./d"] {
        assert_eq!(m1.get(k), m2.get(k));
    }
}
