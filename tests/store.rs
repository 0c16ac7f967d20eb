use kvs::error::KvsError;
use kvs::index::LogMeta;
use kvs::store::{Bootstrap, KvStore, COMPACTION_THRESHOLD};
use std::collections::BTreeMap;
use std::collections::HashMap;

/// Segment files held in memory, driven the way the file-backed engine drives
/// real ones.
struct MemEngine {
    files: BTreeMap<u32, Vec<u8>>,
    store: Option<KvStore>,
    compactions: usize,
}

fn open(mut files: BTreeMap<u32, Vec<u8>>) -> Result<MemEngine, KvsError> {
    let mut b = Bootstrap::new();
    for (id, bytes) in files.iter() {
        b.load(*id, bytes)?;
    }
    let store = b.finish()?;
    assert!(!files.contains_key(&store.active_id()));
    files.insert(store.active_id(), Vec::new());
    Ok(MemEngine { files, store: Some(store), compactions: 0 })
}

fn slice(files: &BTreeMap<u32, Vec<u8>>, m: LogMeta) -> Vec<u8> {
    let f = &files[&m.file_id];
    f[m.offset as usize..m.offset as usize + m.len].to_vec()
}

impl MemEngine {
    fn store(&self) -> &KvStore {
        self.store.as_ref().unwrap()
    }

    fn set(&mut self, key: &str, value: &str) -> Result<(), KvsError> {
        let w = KvStore::prepare_set(key.to_string(), value.to_string());
        let active = self.store().active_id();
        self.files.get_mut(&active).unwrap().extend_from_slice(w.bytes());
        self.store.as_mut().unwrap().commit(w)?;
        self.maybe_compact()
    }

    fn remove(&mut self, key: &str) -> Result<(), KvsError> {
        let w = self.store().prepare_remove(key.to_string())?;
        let active = self.store().active_id();
        self.files.get_mut(&active).unwrap().extend_from_slice(w.bytes());
        self.store.as_mut().unwrap().commit(w)?;
        self.maybe_compact()
    }

    fn get(&self, key: &str) -> Result<Option<String>, KvsError> {
        let k = key.to_string();
        match self.store().locate(&k) {
            None => Ok(None),
            Some(m) => KvStore::read_value(&k, &slice(&self.files, m)).map(Some),
        }
    }

    fn maybe_compact(&mut self) -> Result<(), KvsError> {
        if self.store().compaction_due() {
            self.compact()
        } else {
            Ok(())
        }
    }

    fn compact(&mut self) -> Result<(), KvsError> {
        let store = self.store.take().unwrap();
        let mut c = match store.begin_compaction() {
            Ok(c) => c,
            Err((s, e)) => {
                self.store = Some(s);
                return Err(e);
            }
        };
        let out = c.output_id();
        self.files.insert(out, Vec::new());
        while let Some(m) = c.next_location() {
            let bytes = slice(&self.files, m);
            if let Err(e) = c.copy(&bytes) {
                self.files.remove(&out);
                let (s, e) = c.fail(e);
                self.store = Some(s);
                return Err(e);
            }
            self.files.get_mut(&out).unwrap().extend_from_slice(&bytes);
        }
        self.files.insert(c.next_active_id(), Vec::new());
        let (s, retired) = c.finish();
        for id in retired {
            self.files.remove(&id);
        }
        self.store = Some(s);
        self.compactions += 1;
        Ok(())
    }

    fn close(self) -> BTreeMap<u32, Vec<u8>> {
        self.files
    }
}

#[test]
fn set_then_get() {
    let mut e = open(BTreeMap::new()).unwrap();
    e.set("k", "v").unwrap();
    assert_eq!(e.get("k").unwrap(), Some("v".to_string()));
}

#[test]
fn overwrite_then_get() {
    let mut e = open(BTreeMap::new()).unwrap();
    e.set("k", "v1").unwrap();
    e.set("k", "v2").unwrap();
    assert_eq!(e.get("k").unwrap(), Some("v2".to_string()));
}

#[test]
fn remove_then_get() {
    let mut e = open(BTreeMap::new()).unwrap();
    e.set("k", "v").unwrap();
    e.remove("k").unwrap();
    assert_eq!(e.get("k").unwrap(), None);
}

#[test]
fn remove_missing_key() {
    let mut e = open(BTreeMap::new()).unwrap();
    match e.remove("nope") {
        Err(KvsError::KeyNotFound { key }) => assert_eq!(key, "nope"),
        other => panic!("unexpected {:?}", other),
    }
}

#[test]
fn get_missing_key() {
    let e = open(BTreeMap::new()).unwrap();
    assert_eq!(e.get("absent").unwrap(), None);
}

#[test]
fn first_open_makes_segment_one() {
    let e = open(BTreeMap::new()).unwrap();
    assert_eq!(e.store().active_id(), 1);
    assert_eq!(e.store().segments().clone(), vec![1]);
    assert_eq!(e.store().reclaimable_bytes(), 0);
}

#[test]
fn reclaimable_counts_overwrites_and_tombstones() {
    let mut e = open(BTreeMap::new()).unwrap();
    e.set("k", "v").unwrap();
    let set_len = br#"{"Set":["k","v"]}"#.len() as u64;
    assert_eq!(e.store().reclaimable_bytes(), 0);
    e.set("k", "w").unwrap();
    assert_eq!(e.store().reclaimable_bytes(), set_len);
    e.remove("k").unwrap();
    let rm_len = br#"{"Rm":"k"}"#.len() as u64;
    assert_eq!(e.store().reclaimable_bytes(), 2 * set_len + rm_len);
}

#[test]
fn active_segment_holds_the_records() {
    let mut e = open(BTreeMap::new()).unwrap();
    e.set("a", "1").unwrap();
    e.remove("a").unwrap();
    let files = e.close();
    assert_eq!(files[&1], br#"{"Set":["a","1"]}{"Rm":"a"}"#.to_vec());
}

#[test]
fn reopen_replays_segments() {
    let mut e = open(BTreeMap::new()).unwrap();
    e.set("a", "1").unwrap();
    e.set("b", "2").unwrap();
    e.set("a", "3").unwrap();
    e.remove("b").unwrap();
    let files = e.close();
    let e2 = open(files).unwrap();
    assert_eq!(e2.get("a").unwrap(), Some("3".to_string()));
    assert_eq!(e2.get("b").unwrap(), None);
    assert_eq!(e2.store().active_id(), 2);
}

#[test]
fn reopen_twice_gives_same_index() {
    let mut e = open(BTreeMap::new()).unwrap();
    e.set("x", "1").unwrap();
    e.set("y", "2").unwrap();
    e.set("x", "3").unwrap();
    let e1 = open(e.close()).unwrap();
    let r1 = e1.store().reclaimable_bytes();
    let l1 = (e1.store().locate(&"x".to_string()), e1.store().locate(&"y".to_string()));
    let e2 = open(e1.close()).unwrap();
    assert_eq!(e2.store().reclaimable_bytes(), r1);
    let l2 = (e2.store().locate(&"x".to_string()), e2.store().locate(&"y".to_string()));
    assert_eq!(l1, l2);
}

#[test]
fn broken_segment_fails_open() {
    let mut files = BTreeMap::new();
    files.insert(1u32, br#"{"Set":["a","1"]}{"Set":["b""#.to_vec());
    assert!(matches!(open(files), Err(KvsError::Inner(_))));
}

#[test]
fn segments_replay_in_id_order() {
    let mut files = BTreeMap::new();
    files.insert(2u32, br#"{"Set":["k","new"]}"#.to_vec());
    files.insert(1u32, br#"{"Set":["k","old"]}"#.to_vec());
    let e = open(files).unwrap();
    assert_eq!(e.get("k").unwrap(), Some("new".to_string()));
    assert_eq!(e.store().active_id(), 3);
}

#[test]
fn out_of_order_load_is_refused() {
    let mut b = Bootstrap::new();
    b.load(5, br#"{"Set":["k","v"]}"#).unwrap();
    assert!(matches!(b.load(5, b""), Err(KvsError::Inner(_))));
    assert!(matches!(b.load(3, b""), Err(KvsError::Inner(_))));
}

#[test]
fn read_value_checks_the_record() {
    let k = "k".to_string();
    assert_eq!(KvStore::read_value(&k, br#"{"Set":["k","v"]}"#).unwrap(), "v");
    assert!(matches!(
        KvStore::read_value(&k, br#"{"Set":["j","v"]}"#),
        Err(KvsError::Inner(_))
    ));
    assert!(matches!(KvStore::read_value(&k, br#"{"Rm":"k"}"#), Err(KvsError::Inner(_))));
    assert!(matches!(KvStore::read_value(&k, br#"{"Set":["k","v"]} "#), Err(KvsError::Inner(_))));
}

#[test]
fn compaction_leaves_two_segments() {
    let mut e = open(BTreeMap::new()).unwrap();
    let value = "x".repeat(1024);
    let mut i = 0;
    while e.compactions == 0 {
        e.set(&format!("key{}", i % 10), &value).unwrap();
        i += 1;
    }
    assert_eq!(e.store().reclaimable_bytes(), 0);
    assert_eq!(e.store().segments().len(), 2);
    assert_eq!(e.files.len(), 2);
    for j in 0..10 {
        assert_eq!(e.get(&format!("key{}", j)).unwrap(), Some(value.clone()));
    }
    assert!(COMPACTION_THRESHOLD == 4 * 1024 * 1024);
}

#[test]
fn compaction_bounds_space() {
    let mut e = open(BTreeMap::new()).unwrap();
    let value = "v".repeat(1024);
    for round in 0..6 {
        for k in 0..1000 {
            let v = format!("{}{}", round, value);
            e.set(&format!("key{}", k), &v).unwrap();
        }
    }
    assert!(e.compactions > 0);
    let live: usize = (0..1000)
        .map(|k| format!(r#"{{"Set":["key{}","5{}"]}}"#, k, value).len())
        .sum();
    let on_disk: usize = e.files.values().map(|f| f.len()).sum();
    assert!(on_disk <= 2 * live, "{} > 2 * {}", on_disk, live);
    for k in 0..1000 {
        assert_eq!(e.get(&format!("key{}", k)).unwrap(), Some(format!("5{}", value)));
    }
}

#[test]
fn random_ops_survive_reopen() {
    let mut e = open(BTreeMap::new()).unwrap();
    let mut model: HashMap<String, String> = HashMap::new();
    let mut seed: u64 = 0x2545F4914F6CDD1D;
    for n in 0..3000 {
        seed = seed.wrapping_mul(6364136223846793005).wrapping_add(1442695040888963407);
        let key = format!("k{}", (seed >> 33) % 50);
        if (seed >> 20) % 4 == 0 {
            let r = e.remove(&key);
            match model.remove(&key) {
                Some(_) => r.unwrap(),
                None => assert!(matches!(r, Err(KvsError::KeyNotFound { .. }))),
            }
        } else {
            let value = format!("v{}-{}", n, "p".repeat(((seed >> 40) % 3000) as usize));
            e.set(&key, &value).unwrap();
            model.insert(key, value);
        }
    }
    let e2 = open(e.close()).unwrap();
    for i in 0..50 {
        let key = format!("k{}", i);
        assert_eq!(e2.get(&key).unwrap(), model.get(&key).cloned());
    }
}

#[test]
fn reopen_after_compaction_keeps_values() {
    let mut e = open(BTreeMap::new()).unwrap();
    e.set("keep", "me").unwrap();
    e.set("gone", "soon").unwrap();
    e.remove("gone").unwrap();
    e.compact().unwrap();
    assert_eq!(e.store().segments().clone(), vec![2, 3]);
    let e2 = open(e.close()).unwrap();
    assert_eq!(e2.get("keep").unwrap(), Some("me".to_string()));
    assert_eq!(e2.get("gone").unwrap(), None);
    assert_eq!(e2.store().reclaimable_bytes(), 0);
    assert_eq!(e2.store().active_id(), 4);
}

#[test]
fn copy_refuses_wrong_record() {
    let mut e = open(BTreeMap::new()).unwrap();
    e.set("a", "1").unwrap();
    let store = e.store.take().unwrap();
    let mut c = store.begin_compaction().ok().unwrap();
    assert_eq!(c.output_id(), 2);
    assert_eq!(c.next_active_id(), 3);
    assert!(!c.is_done());
    assert!(c.copy(br#"{"Set":["b","1"]}"#).is_err());
    assert!(c.copy(br#"{"Set":["a","1"]}"#).is_ok());
    assert!(c.is_done());
    assert!(c.copy(br#"{"Set":["a","1"]}"#).is_err());
    let back = c.abandon();
    assert_eq!(back.active_id(), 1);
}

#[test]
fn stale_tombstone_is_refused() {
    let mut e = open(BTreeMap::new()).unwrap();
    e.set("k", "v").unwrap();
    let w1 = e.store().prepare_remove("k".to_string()).unwrap();
    let w2 = e.store().prepare_remove("k".to_string()).unwrap();
    e.store.as_mut().unwrap().commit(w1).unwrap();
    let before = e.store().reclaimable_bytes();
    match e.store.as_mut().unwrap().commit(w2) {
        Err(KvsError::KeyNotFound { key }) => assert_eq!(key, "k"),
        other => panic!("unexpected {:?}", other),
    }
    assert_eq!(e.store().reclaimable_bytes(), before);
}

#[test]
fn pending_write_bytes() {
    let w = KvStore::prepare_set("a".to_string(), "b".to_string());
    assert_eq!(w.bytes(), br#"{"Set":["a","b"]}"#);
}

#[test]
fn failed_compaction_is_a_compaction_error() {
    let mut e = open(BTreeMap::new()).unwrap();
    e.set("a", "1").unwrap();
    let store = e.store.take().unwrap();
    let mut c = store.begin_compaction().ok().unwrap();
    let err = c.copy(br#"{"Set":["b","1"]}"#).unwrap_err();
    let (back, err) = c.fail(err);
    assert!(matches!(err, KvsError::CompactionError(_)));
    assert_eq!(back.active_id(), 1);
    e.store = Some(back);
    assert_eq!(e.get("a").unwrap(), Some("1".to_string()));
    let (_, err) = e.store.take().unwrap().begin_compaction().ok().unwrap().fail(KvsError::Inner("disk".to_string()));
    assert_eq!(err, KvsError::CompactionError("disk".to_string()));
}

#[test]
fn compaction_moves_records_to_output() {
    let mut e = open(BTreeMap::new()).unwrap();
    e.set("a", "1").unwrap();
    e.set("b", "22").unwrap();
    e.set("a", "333").unwrap();
    e.compact().unwrap();
    let la = e.store().locate(&"a".to_string()).unwrap();
    let lb = e.store().locate(&"b".to_string()).unwrap();
    assert_eq!(la.file_id, 2);
    assert_eq!(lb.file_id, 2);
    assert_eq!(la.len, br#"{"Set":["a","333"]}"#.len());
    assert_eq!(lb.len, br#"{"Set":["b","22"]}"#.len());
    assert!(
        (la.offset == 0 && lb.offset == la.len as u64)
            || (lb.offset == 0 && la.offset == lb.len as u64)
    );
}
