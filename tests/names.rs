use kvs::engine_sel::{resolve_engine, KvsEngineSel};
use kvs::error::KvsError;
use kvs::segments::{segment_id, segment_ids};

#[test]
fn segment_names() {
    assert_eq!(segment_id("12.kvs"), Some(12));
    assert_eq!(segment_id("0.kvs"), Some(0));
    assert_eq!(segment_id("+3.kvs"), Some(3));
    assert_eq!(segment_id("4294967295.kvs"), Some(4294967295));
    assert_eq!(segment_id("4294967296.kvs"), None);
    assert_eq!(segment_id("x.kvs"), None);
    assert_eq!(segment_id(".kvs"), None);
    assert_eq!(segment_id("5.kvx"), None);
    assert_eq!(segment_id("00engine"), None);
    assert_eq!(segment_id("-1.kvs"), None);
}

#[test]
fn segment_ids_sorted_and_unique() {
    let names: Vec<String> = ["10.kvs", "00engine", "2.kvs", "+2.kvs", "1.kvs", "junk"]
        .iter()
        .map(|s| s.to_string())
        .collect();
    assert_eq!(segment_ids(&names), vec![1, 2, 10]);
    assert_eq!(segment_ids(&Vec::new()), Vec::<u32>::new());
}

#[test]
fn engine_names() {
    assert_eq!(KvsEngineSel::parse("kvs").unwrap(), KvsEngineSel::KvStore);
    assert_eq!(KvsEngineSel::parse("sled").unwrap(), KvsEngineSel::SledKvsEngine);
    assert_eq!(
        KvsEngineSel::parse("rocks"),
        Err(KvsError::InvalidEngine("rocks".to_string()))
    );
    assert_eq!(KvsEngineSel::KvStore.name(), "kvs");
    assert_eq!(KvsEngineSel::SledKvsEngine.name(), "sled");
    assert_eq!(KvsEngineSel::default(), KvsEngineSel::KvStore);
}

#[test]
fn engine_mismatch_is_refused() {
    let r = resolve_engine(Some(KvsEngineSel::SledKvsEngine), Some(KvsEngineSel::KvStore));
    assert_eq!(
        r,
        Err(KvsError::MisMatchEngine {
            e_disk: KvsEngineSel::SledKvsEngine,
            e_cli: KvsEngineSel::KvStore
        })
    );
}

#[test]
fn engine_choice() {
    assert_eq!(resolve_engine(None, None), Ok((KvsEngineSel::KvStore, true)));
    assert_eq!(
        resolve_engine(None, Some(KvsEngineSel::SledKvsEngine)),
        Ok((KvsEngineSel::SledKvsEngine, true))
    );
    assert_eq!(
        resolve_engine(Some(KvsEngineSel::SledKvsEngine), None),
        Ok((KvsEngineSel::SledKvsEngine, false))
    );
    assert_eq!(
        resolve_engine(Some(KvsEngineSel::KvStore), Some(KvsEngineSel::KvStore)),
        Ok((KvsEngineSel::KvStore, false))
    );
}

#[test]
fn error_messages() {
    assert_eq!(
        KvsError::InvalidEngine("x".to_string()).message(),
        "kvs: invalid engine `x`, choose either `kvs` or `sled`"
    );
    assert_eq!(
        KvsError::MisMatchEngine {
            e_disk: KvsEngineSel::SledKvsEngine,
            e_cli: KvsEngineSel::KvStore
        }
        .message(),
        "engine from cli `kvs` is different from engine on disk `sled`"
    );
    assert_eq!(KvsError::KeyNotFound { key: "k".to_string() }.message(), "k");
    assert_eq!(KvsError::CommandError("bad".to_string()).message(), "kvs-cli: bad");
    assert_eq!(KvsError::CompactionError("c".to_string()).message(), "kvs-compact: c");
    assert_eq!(KvsError::Inner("i".to_string()).message(), "kvs-inner: i");
}
