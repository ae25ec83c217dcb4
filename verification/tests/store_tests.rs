//! Tests of the log-structured engine: point operations, durability across
//! reopen, and compaction behavior.

use kvs::{KvStore, KvsError, SegmentFile};

fn reopen(store: &KvStore) -> KvStore {
    KvStore::open(store.snapshot()).expect("reopen must succeed")
}

#[test]
fn buf_writer() {
    let s = format!("foo: {}", 42);
    println!("{}", s);
}

#[test]
fn point_read_after_write() {
    let mut store = KvStore::new();
    store.set("k".to_owned(), "v".to_owned()).unwrap();
    assert_eq!(store.get("k".to_owned()).unwrap(), Some("v".to_owned()));
}

#[test]
fn overwrite_takes_last_value() {
    let mut store = KvStore::new();
    store.set("k".to_owned(), "v1".to_owned()).unwrap();
    store.set("k".to_owned(), "v2".to_owned()).unwrap();
    assert_eq!(store.get("k".to_owned()).unwrap(), Some("v2".to_owned()));
}

#[test]
fn remove_absent_is_key_not_found() {
    let mut store = KvStore::new();
    let r = store.remove("never".to_owned());
    assert_eq!(r, Err(KvsError::KeyNotFound));
}

#[test]
fn remove_then_get_is_none() {
    let mut store = KvStore::new();
    store.set("k".to_owned(), "v".to_owned()).unwrap();
    store.remove("k".to_owned()).unwrap();
    assert_eq!(store.get("k".to_owned()).unwrap(), None);
}

#[test]
fn basic_session() {
    // set k1; get k1; get k2; rm k1; get k1; rm k1 again
    let mut store = KvStore::new();
    assert!(store.set("k1".to_owned(), "v1".to_owned()).is_ok());
    assert_eq!(store.get("k1".to_owned()).unwrap(), Some("v1".to_owned()));
    assert_eq!(store.get("k2".to_owned()).unwrap(), None);
    assert!(store.remove("k1".to_owned()).is_ok());
    assert_eq!(store.get("k1".to_owned()).unwrap(), None);
    assert_eq!(store.remove("k1".to_owned()), Err(KvsError::KeyNotFound));
}

#[test]
fn durability_across_restart() {
    let mut store = KvStore::new();
    store.set("a".to_owned(), "1".to_owned()).unwrap();
    store.set("b".to_owned(), "2".to_owned()).unwrap();
    store.set("a".to_owned(), "3".to_owned()).unwrap();
    store.remove("b".to_owned()).unwrap();
    store.set("c".to_owned(), "4".to_owned()).unwrap();
    let reopened = reopen(&store);
    for key in ["a", "b", "c", "d"] {
        assert_eq!(
            store.get(key.to_owned()).unwrap(),
            reopened.get(key.to_owned()).unwrap()
        );
    }
    assert_eq!(reopened.get("a".to_owned()).unwrap(), Some("3".to_owned()));
    assert_eq!(reopened.get("b".to_owned()).unwrap(), None);
    assert_eq!(reopened.get("c".to_owned()).unwrap(), Some("4".to_owned()));
}

#[test]
fn reopen_many_keys() {
    let mut store = KvStore::new();
    let value = "x".repeat(200);
    for i in 0..10000u32 {
        store.set(format!("key-{}", i), value.clone()).unwrap();
    }
    let reopened = reopen(&store);
    for i in 0..10000u32 {
        assert_eq!(reopened.get(format!("key-{}", i)).unwrap(), Some(value.clone()));
    }
}

#[test]
fn compaction_bounds_disk_size() {
    let mut store = KvStore::new();
    let mut max_disk: u64 = 0;
    for i in 0..100000u32 {
        let value = format!("{:016}", i);
        store.set("the-key".to_owned(), value).unwrap();
        let d = store.disk_size();
        if d > max_disk {
            max_disk = d;
        }
    }
    // the log grew past the compaction threshold at some point ...
    assert!(max_disk > 1024 * 1024);
    // ... but compaction kept the total below twice the threshold
    assert!(store.disk_size() < 2 * 1024 * 1024);
    assert_eq!(
        store.get("the-key".to_owned()).unwrap(),
        Some(format!("{:016}", 99999))
    );
}

#[test]
fn uncompacted_bytes_track_shadowed_writes() {
    // at the very end of the generation space no fresh generations are left,
    // so compaction cannot run and the shadowed-byte count stays observable
    let files = vec![SegmentFile { gen: u64::MAX - 2, data: Vec::new() }];
    let mut store = KvStore::open(files).unwrap();
    let mut seen_large = false;
    for i in 0..100000u32 {
        store.set("the-key".to_owned(), format!("{:016}", i)).unwrap();
        if store.uncompacted_bytes() > 1024 * 1024 {
            seen_large = true;
            break;
        }
    }
    assert!(seen_large);
}

#[test]
fn mutations_charge_exactly_the_displaced_record() {
    let mut store = KvStore::new();
    store.set("k".to_owned(), "v1".to_owned()).unwrap();
    assert_eq!(store.uncompacted_bytes(), 0);
    // overwriting displaces {"Set":{"key":"k","value":"v1"}}, 32 characters
    store.set("k".to_owned(), "v2".to_owned()).unwrap();
    assert_eq!(store.uncompacted_bytes(), 32);
    // removing displaces the second record of the same length
    store.remove("k".to_owned()).unwrap();
    assert_eq!(store.uncompacted_bytes(), 64);
}

#[test]
fn explicit_compaction_keeps_content() {
    let mut store = KvStore::new();
    for i in 0..100u32 {
        store.set(format!("k{}", i), format!("first-{}", i)).unwrap();
    }
    for i in 0..100u32 {
        store.set(format!("k{}", i), format!("second-{}", i)).unwrap();
    }
    store.remove("k0".to_owned()).unwrap();
    let before = store.disk_size();
    store.compact().unwrap();
    assert!(store.disk_size() <= before);
    assert_eq!(store.uncompacted_bytes(), 0);
    assert_eq!(store.get("k0".to_owned()).unwrap(), None);
    for i in 1..100u32 {
        assert_eq!(
            store.get(format!("k{}", i)).unwrap(),
            Some(format!("second-{}", i))
        );
    }
    // compacting twice changes nothing further
    let size_once = store.disk_size();
    store.compact().unwrap();
    assert_eq!(store.disk_size(), size_once);
}

#[test]
fn open_replays_raw_segments() {
    let data = kvs::str_chars(
        "{\"Set\":{\"key\":\"a\",\"value\":\"1\"}}{\"Set\":{\"key\":\"b\",\"value\":\"2\"}}{\"Remove\":{\"key\":\"a\"}}",
    );
    let files = vec![SegmentFile { gen: 1, data }];
    let store = KvStore::open(files).unwrap();
    assert_eq!(store.get("a".to_owned()).unwrap(), None);
    assert_eq!(store.get("b".to_owned()).unwrap(), Some("2".to_owned()));
}

#[test]
fn open_ignores_partial_tail() {
    // a crash can leave a half-written record at the end of a segment
    let data = kvs::str_chars(
        "{\"Set\":{\"key\":\"a\",\"value\":\"1\"}}{\"Set\":{\"key\":\"a\",\"val",
    );
    let files = vec![SegmentFile { gen: 3, data }];
    let store = KvStore::open(files).unwrap();
    assert_eq!(store.get("a".to_owned()).unwrap(), Some("1".to_owned()));
    assert_eq!(store.current_generation(), 4);
}

#[test]
fn later_generations_shadow_earlier_ones() {
    let first = kvs::str_chars("{\"Set\":{\"key\":\"a\",\"value\":\"old\"}}");
    let second = kvs::str_chars("{\"Set\":{\"key\":\"a\",\"value\":\"new\"}}");
    let files = vec![
        SegmentFile { gen: 1, data: first },
        SegmentFile { gen: 2, data: second },
    ];
    let store = KvStore::open(files).unwrap();
    assert_eq!(store.get("a".to_owned()).unwrap(), Some("new".to_owned()));
}

#[test]
fn unicode_keys_and_values_survive() {
    let mut store = KvStore::new();
    store
        .set("schlüssel \"quoted\"".to_owned(), "wert\\mit\nallem\u{1}".to_owned())
        .unwrap();
    let reopened = reopen(&store);
    assert_eq!(
        reopened.get("schlüssel \"quoted\"".to_owned()).unwrap(),
        Some("wert\\mit\nallem\u{1}".to_owned())
    );
}
