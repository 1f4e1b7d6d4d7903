use kvs::{ErrorKind, KvStore, LogOp, Segment, COMPACTION_THRESHOLD};
use std::collections::BTreeMap;

/// A data directory kept in memory: generation -> file bytes.
fn apply(dir: &mut BTreeMap<u64, Vec<u8>>, ops: Vec<LogOp>) {
    for op in ops {
        match op {
            LogOp::Create { gen } => {
                dir.insert(gen, Vec::new());
            }
            LogOp::Append { gen, bytes } => {
                dir.entry(gen).or_default().extend_from_slice(&bytes);
            }
            LogOp::Delete { gen } => {
                dir.remove(&gen);
            }
        }
    }
}

fn segments_of(dir: &BTreeMap<u64, Vec<u8>>) -> Vec<Segment> {
    dir.iter()
        .map(|(gen, data)| Segment { gen: *gen, data: data.clone() })
        .collect()
}

fn fresh() -> (KvStore, BTreeMap<u64, Vec<u8>>) {
    let mut store = KvStore::open(Vec::new()).ok().unwrap();
    let mut dir = BTreeMap::new();
    apply(&mut dir, store.take_log_ops());
    (store, dir)
}

fn s(x: &str) -> String {
    x.to_string()
}

#[test]
fn basic_set_overwrite_remove() {
    let (mut store, _) = fresh();
    store.set(s("k"), s("1")).ok().unwrap();
    store.set(s("k"), s("2")).ok().unwrap();
    assert_eq!(store.get(s("k")).ok().unwrap(), Some(s("2")));
    store.remove(s("k")).ok().unwrap();
    assert_eq!(store.get(s("k")).ok().unwrap(), None);
}

#[test]
fn get_absent_key_is_none() {
    let (store, _) = fresh();
    assert_eq!(store.get(s("missing")).ok().unwrap(), None);
}

#[test]
fn set_then_get_other_keys_between() {
    let (mut store, _) = fresh();
    store.set(s("a"), s("1")).ok().unwrap();
    store.set(s("b"), s("2")).ok().unwrap();
    store.set(s("c"), s("3")).ok().unwrap();
    assert_eq!(store.get(s("a")).ok().unwrap(), Some(s("1")));
    assert_eq!(store.get(s("b")).ok().unwrap(), Some(s("2")));
}

#[test]
fn set_same_value_twice() {
    let (mut store, _) = fresh();
    store.set(s("k"), s("v")).ok().unwrap();
    store.set(s("k"), s("v")).ok().unwrap();
    assert_eq!(store.get(s("k")).ok().unwrap(), Some(s("v")));
}

#[test]
fn remove_twice_is_key_not_found() {
    let (mut store, _) = fresh();
    store.set(s("k"), s("v")).ok().unwrap();
    assert!(store.remove(s("k")).is_ok());
    let second = store.remove(s("k"));
    assert!(matches!(second, Err(e) if matches!(e.kind, ErrorKind::KeyNotFound)));
    assert_eq!(store.get(s("k")).ok().unwrap(), None);
}

#[test]
fn remove_absent_key_is_key_not_found() {
    let (mut store, _) = fresh();
    let r = store.remove(s("nope"));
    assert!(matches!(r, Err(e) if matches!(e.kind, ErrorKind::KeyNotFound)));
}

#[test]
fn empty_key_and_value_round_trip() {
    let (mut store, mut dir) = fresh();
    store.set(s(""), s("")).ok().unwrap();
    store.set(s("k"), s("")).ok().unwrap();
    store.set(s(""), s("v")).ok().unwrap();
    assert_eq!(store.get(s("")).ok().unwrap(), Some(s("v")));
    assert_eq!(store.get(s("k")).ok().unwrap(), Some(s("")));
    apply(&mut dir, store.take_log_ops());
    let reopened = KvStore::open(segments_of(&dir)).ok().unwrap();
    assert_eq!(reopened.get(s("")).ok().unwrap(), Some(s("v")));
    assert_eq!(reopened.get(s("k")).ok().unwrap(), Some(s("")));
}

#[test]
fn codec_characters_round_trip() {
    let (mut store, mut dir) = fresh();
    let key = s("{\"k\":\"v\"}\n\\ \t\u{1}\u{7f} é ✓");
    let value = s("\"}}{{,\"value\":\r\n\u{0}\u{1f}😀");
    store.set(key.clone(), value.clone()).ok().unwrap();
    assert_eq!(store.get(key.clone()).ok().unwrap(), Some(value.clone()));
    apply(&mut dir, store.take_log_ops());
    let reopened = KvStore::open(segments_of(&dir)).ok().unwrap();
    assert_eq!(reopened.get(key).ok().unwrap(), Some(value));
}

#[test]
fn persistence_across_reopen() {
    let (mut store, mut dir) = fresh();
    store.set(s("a"), s("α")).ok().unwrap();
    store.set(s("b"), s("β")).ok().unwrap();
    apply(&mut dir, store.take_log_ops());
    drop(store);
    let reopened = KvStore::open(segments_of(&dir)).ok().unwrap();
    assert_eq!(reopened.get(s("a")).ok().unwrap(), Some(s("α")));
    assert_eq!(reopened.get(s("b")).ok().unwrap(), Some(s("β")));
}

#[test]
fn reopen_keeps_removals_and_writes_a_new_segment() {
    let (mut store, mut dir) = fresh();
    store.set(s("a"), s("1")).ok().unwrap();
    store.set(s("b"), s("2")).ok().unwrap();
    store.remove(s("a")).ok().unwrap();
    apply(&mut dir, store.take_log_ops());
    assert_eq!(dir.keys().copied().collect::<Vec<u64>>(), vec![1]);
    let mut reopened = KvStore::open(segments_of(&dir)).ok().unwrap();
    apply(&mut dir, reopened.take_log_ops());
    assert_eq!(dir.keys().copied().collect::<Vec<u64>>(), vec![1, 2]);
    assert_eq!(reopened.get(s("a")).ok().unwrap(), None);
    assert_eq!(reopened.get(s("b")).ok().unwrap(), Some(s("2")));
    reopened.set(s("c"), s("3")).ok().unwrap();
    apply(&mut dir, reopened.take_log_ops());
    let again = KvStore::open(segments_of(&dir)).ok().unwrap();
    assert_eq!(again.get(s("b")).ok().unwrap(), Some(s("2")));
    assert_eq!(again.get(s("c")).ok().unwrap(), Some(s("3")));
    assert_eq!(again.get(s("a")).ok().unwrap(), None);
}

#[test]
fn log_bytes_are_the_json_records() {
    let (mut store, mut dir) = fresh();
    store.set(s("k"), s("v")).ok().unwrap();
    store.remove(s("k")).ok().unwrap();
    apply(&mut dir, store.take_log_ops());
    assert_eq!(
        String::from_utf8(dir[&1].clone()).unwrap(),
        "{\"Set\":{\"key\":\"k\",\"value\":\"v\"}}{\"Remove\":{\"key\":\"k\"}}"
    );
}

#[test]
fn compaction_keeps_last_value_and_bounds_files() {
    let (mut store, mut dir) = fresh();
    let mut last = String::new();
    let mut most_files = 0;
    for i in 0..2000u32 {
        let digits = format!("{:04}", i);
        let value: String = digits.repeat(256);
        assert_eq!(value.len(), 1024);
        store.set(s("x"), value.clone()).ok().unwrap();
        last = value;
        apply(&mut dir, store.take_log_ops());
        most_files = most_files.max(dir.len());
    }
    assert_eq!(store.get(s("x")).ok().unwrap(), Some(last.clone()));
    assert!(most_files <= 3, "files: {}", most_files);
    let total: usize = dir.values().map(|d| d.len()).sum();
    assert!(total <= COMPACTION_THRESHOLD as usize + 4 * 1100, "bytes: {}", total);
    let reopened = KvStore::open(segments_of(&dir)).ok().unwrap();
    assert_eq!(reopened.get(s("x")).ok().unwrap(), Some(last));
}

#[test]
fn explicit_compaction_keeps_only_live_records() {
    let (mut store, mut dir) = fresh();
    store.set(s("a"), s("1")).ok().unwrap();
    store.set(s("a"), s("2")).ok().unwrap();
    store.set(s("b"), s("3")).ok().unwrap();
    store.remove(s("b")).ok().unwrap();
    store.compact().ok().unwrap();
    apply(&mut dir, store.take_log_ops());
    assert_eq!(dir.keys().copied().collect::<Vec<u64>>(), vec![2, 3]);
    assert_eq!(
        String::from_utf8(dir[&2].clone()).unwrap(),
        "{\"Set\":{\"key\":\"a\",\"value\":\"2\"}}"
    );
    assert!(dir[&3].is_empty());
    assert_eq!(store.get(s("a")).ok().unwrap(), Some(s("2")));
    assert_eq!(store.get(s("b")).ok().unwrap(), None);
}

#[test]
fn compaction_of_empty_store_still_rotates() {
    let (mut store, mut dir) = fresh();
    store.compact().ok().unwrap();
    apply(&mut dir, store.take_log_ops());
    assert_eq!(dir.keys().copied().collect::<Vec<u64>>(), vec![2, 3]);
    assert!(dir.values().all(|d| d.is_empty()));
}

#[test]
fn open_rejects_malformed_segment() {
    let logs = vec![Segment { gen: 1, data: b"{\"Set\":{\"key\":\"k\"".to_vec() }];
    let r = KvStore::open(logs);
    assert!(matches!(r, Err(e) if matches!(e.kind, ErrorKind::Serde(_))));
    let logs = vec![Segment { gen: 1, data: b"garbage".to_vec() }];
    assert!(matches!(KvStore::open(logs), Err(e) if matches!(e.kind, ErrorKind::Serde(_))));
}

#[test]
fn open_rejects_generations_out_of_order() {
    let logs = vec![
        Segment { gen: 2, data: Vec::new() },
        Segment { gen: 1, data: Vec::new() },
    ];
    let r = KvStore::open(logs);
    assert!(matches!(r, Err(e) if matches!(e.kind, ErrorKind::UnexpectedError(_))));
    let logs = vec![Segment { gen: u64::MAX, data: Vec::new() }];
    assert!(matches!(KvStore::open(logs), Err(e) if matches!(e.kind, ErrorKind::UnexpectedError(_))));
}

#[test]
fn open_counts_tombstones_of_absent_keys() {
    let logs = vec![Segment { gen: 4, data: b"{\"Remove\":{\"key\":\"z\"}}".to_vec() }];
    let mut store = KvStore::open(logs).ok().unwrap();
    assert_eq!(store.get(s("z")).ok().unwrap(), None);
    let mut dir = BTreeMap::new();
    apply(&mut dir, store.take_log_ops());
    assert_eq!(dir.keys().copied().collect::<Vec<u64>>(), vec![5]);
}

#[test]
fn many_keys_read_back() {
    let (mut store, mut dir) = fresh();
    for c in 0..64 {
        for i in 0..100 {
            store.set(format!("k{}_{}", c, i), format!("v{}_{}", c, i)).ok().unwrap();
        }
    }
    apply(&mut dir, store.take_log_ops());
    let reopened = KvStore::open(segments_of(&dir)).ok().unwrap();
    for c in 0..64 {
        for i in 0..100 {
            assert_eq!(
                reopened.get(format!("k{}_{}", c, i)).ok().unwrap(),
                Some(format!("v{}_{}", c, i))
            );
        }
    }
}
