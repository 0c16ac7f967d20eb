use kvs::index::{KvsIndex, LogMeta};

#[test]
fn insert_returns_previous_length() {
    let mut ix = KvsIndex::new();
    assert_eq!(ix.insert("a".to_string(), LogMeta::new(1, 0, 10)), 0);
    assert_eq!(ix.insert("a".to_string(), LogMeta::new(1, 10, 12)), 10);
    assert_eq!(ix.len(), 1);
    assert_eq!(ix.get(&"a".to_string()), Some(LogMeta::new(1, 10, 12)));
}

#[test]
fn remove_returns_length_or_zero() {
    let mut ix = KvsIndex::new();
    ix.insert("a".to_string(), LogMeta::new(1, 0, 7));
    ix.insert("b".to_string(), LogMeta::new(1, 7, 9));
    assert_eq!(ix.remove(&"a".to_string()), 7);
    assert!(!ix.contains_key(&"a".to_string()));
    assert!(ix.contains_key(&"b".to_string()));
    assert_eq!(ix.remove(&"a".to_string()), 0);
    assert_eq!(ix.len(), 1);
}

#[test]
fn log_meta_len() {
    assert_eq!(LogMeta::new(3, 4, 5).len(), 5);
}
