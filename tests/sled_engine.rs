use kvs::error::KvsError;
use kvs::sled_engine::SledKvsEngine;

#[test]
fn sled_engine_set_get_remove() {
    let mut e = SledKvsEngine::open("/tmp/kvs_sled_engine_test").unwrap();
    let _ = e.remove("k".to_string());
    assert_eq!(e.get("k".to_string()).unwrap(), None);
    e.set("k".to_string(), "v".to_string()).unwrap();
    assert_eq!(e.get("k".to_string()).unwrap(), Some("v".to_string()));
    e.set("k".to_string(), "w".to_string()).unwrap();
    assert_eq!(e.get("k".to_string()).unwrap(), Some("w".to_string()));
    e.remove("k".to_string()).unwrap();
    assert_eq!(e.get("k".to_string()).unwrap(), None);
    assert!(matches!(
        e.remove("k".to_string()),
        Err(KvsError::KeyNotFound { .. })
    ));
}
