use ferris::kvstore::{KvError, KvStore};

#[test]
fn set_then_get_returns_value() {
    let mut store = KvStore::new(1_000_000);
    store.set("k".to_string(), "v".to_string()).unwrap();
    assert_eq!(store.get("k".to_string()).unwrap(), Some("v".to_string()));
}

#[test]
fn remove_absent_key_fails_and_get_stays_none() {
    let mut store = KvStore::new(1_000_000);
    assert_eq!(store.remove("ghost".to_string()), Err(KvError::KeyNotFound));
    assert_eq!(store.get("ghost".to_string()).unwrap(), None);
}

#[test]
fn repeated_get_is_idempotent() {
    let mut store = KvStore::new(1_000_000);
    store.set("k".to_string(), "v".to_string()).unwrap();
    let first = store.get("k".to_string()).unwrap();
    let second = store.get("k".to_string()).unwrap();
    let third = store.get("k".to_string()).unwrap();
    assert_eq!(first, second);
    assert_eq!(second, third);
    let absent1 = store.get("other".to_string()).unwrap();
    let absent2 = store.get("other".to_string()).unwrap();
    assert_eq!(absent1, absent2);
}

#[test]
fn scenario_set_get_remove_foo() {
    let mut store = KvStore::new(1_000_000);
    store.set("foo".to_string(), "bar".to_string()).unwrap();
    assert_eq!(store.get("foo".to_string()).unwrap(), Some("bar".to_string()));
    store.remove("foo".to_string()).unwrap();
    assert_eq!(store.get("foo".to_string()).unwrap(), None);
    assert_eq!(store.remove("foo".to_string()), Err(KvError::KeyNotFound));
}

#[test]
fn overwrite_takes_last_value() {
    let mut store = KvStore::new(1_000_000);
    store.set("k".to_string(), "first".to_string()).unwrap();
    store.set("k".to_string(), "second".to_string()).unwrap();
    assert_eq!(store.get("k".to_string()).unwrap(), Some("second".to_string()));
}

#[test]
fn reopen_round_trip_preserves_every_key() {
    let mut store = KvStore::new(1_000_000);
    store.set("a".to_string(), "1".to_string()).unwrap();
    store.set("b".to_string(), "2".to_string()).unwrap();
    store.set("c".to_string(), "3".to_string()).unwrap();
    store.set("b".to_string(), "2b".to_string()).unwrap();
    store.remove("c".to_string()).unwrap();

    let bytes = store.log_bytes().clone();
    let reopened = KvStore::open(bytes, 1_000_000).unwrap();
    assert_eq!(reopened.get("a".to_string()).unwrap(), Some("1".to_string()));
    assert_eq!(reopened.get("b".to_string()).unwrap(), Some("2b".to_string()));
    assert_eq!(reopened.get("c".to_string()).unwrap(), None);
    assert_eq!(reopened.key_count(), store.key_count());
}

#[test]
fn reopen_round_trip_with_unicode() {
    let mut store = KvStore::new(1_000_000);
    store
        .set("clé".to_string(), "väl\u{1F980}ue".to_string())
        .unwrap();
    let bytes = store.log_bytes().clone();
    let reopened = KvStore::open(bytes, 1_000_000).unwrap();
    assert_eq!(
        reopened.get("clé".to_string()).unwrap(),
        Some("väl\u{1F980}ue".to_string())
    );
}

#[test]
fn empty_key_and_value_round_trip() {
    let mut store = KvStore::new(1_000_000);
    store.set(String::new(), String::new()).unwrap();
    assert_eq!(store.get(String::new()).unwrap(), Some(String::new()));
    let bytes = store.log_bytes().clone();
    let reopened = KvStore::open(bytes, 1_000_000).unwrap();
    assert_eq!(reopened.get(String::new()).unwrap(), Some(String::new()));
}

// A set record for a one-byte key and a one-byte value is
// 1 (tag) + 8 (key length) + 8 (value length) + 1 + 1 = 19 bytes.
#[test]
fn record_size_is_exact() {
    let mut store = KvStore::new(1_000_000);
    store.set("k".to_string(), "v".to_string()).unwrap();
    assert_eq!(store.log_size(), 19);
}

#[test]
fn compaction_triggers_and_preserves_values() {
    // Six 19-byte records would reach 114 bytes; the threshold of 100 is
    // crossed on the sixth set, so the log is compacted down to the one
    // live record.
    let mut store = KvStore::new(100);
    for i in 0..5 {
        store.set("k".to_string(), format!("{}", i)).unwrap();
    }
    let before = store.log_size();
    assert_eq!(before, 95);
    assert_eq!(store.compaction_count(), 0);
    store.set("k".to_string(), "5".to_string()).unwrap();
    let after = store.log_size();
    assert!(after <= before);
    assert_eq!(after, 19);
    assert_eq!(store.compaction_count(), 1);
    assert_eq!(store.get("k".to_string()).unwrap(), Some("5".to_string()));
}

#[test]
fn log_only_appends_while_compaction_count_is_stable() {
    let mut store = KvStore::new(1_000_000);
    store.set("a".to_string(), "1".to_string()).unwrap();
    let snapshot = store.log_bytes().clone();
    store.set("b".to_string(), "2".to_string()).unwrap();
    store.remove("a".to_string()).unwrap();
    assert_eq!(store.compaction_count(), 0);
    assert_eq!(&store.log_bytes()[..snapshot.len()], &snapshot[..]);
    assert!(store.log_size() > snapshot.len());
}

#[test]
fn reaching_the_threshold_exactly_does_not_compact() {
    // six 19-byte records make the log exactly 114 bytes: not *over* the
    // threshold, so no compaction runs and the log still only appended
    let mut store = KvStore::new(114);
    for i in 0..6 {
        store.set("k".to_string(), format!("{}", i)).unwrap();
    }
    assert_eq!(store.log_size(), 114);
    assert_eq!(store.compaction_count(), 0);
    store.set("k".to_string(), "x".to_string()).unwrap();
    assert_eq!(store.compaction_count(), 1);
    assert_eq!(store.log_size(), 19);
}

#[test]
fn compacted_log_is_one_record_per_live_key() {
    let mut store = KvStore::new(100);
    for i in 0..6 {
        store.set("k".to_string(), format!("{}", i)).unwrap();
    }
    assert_eq!(store.compaction_count(), 1);
    // exactly one set record: tag, key length, value length, "k", "5"
    let mut expected = vec![0u8];
    expected.extend_from_slice(&1u64.to_le_bytes());
    expected.extend_from_slice(&1u64.to_le_bytes());
    expected.push(b'k');
    expected.push(b'5');
    assert_eq!(store.log_bytes(), &expected);
}

#[test]
fn compaction_keeps_all_live_keys() {
    let mut store = KvStore::new(150);
    for i in 0..10 {
        store.set(format!("key{}", i), format!("val{}", i)).unwrap();
    }
    store.remove("key0".to_string()).unwrap();
    for i in 1..10 {
        assert_eq!(
            store.get(format!("key{}", i)).unwrap(),
            Some(format!("val{}", i))
        );
    }
    assert_eq!(store.get("key0".to_string()).unwrap(), None);
    // the compacted log still replays to the same state
    let bytes = store.log_bytes().clone();
    let reopened = KvStore::open(bytes, 150).unwrap();
    for i in 1..10 {
        assert_eq!(
            reopened.get(format!("key{}", i)).unwrap(),
            Some(format!("val{}", i))
        );
    }
}

#[test]
fn open_rejects_unknown_tag() {
    assert_eq!(
        KvStore::open(vec![7, 7, 7], 1_000_000).err(),
        Some(KvError::CorruptLog)
    );
}

#[test]
fn open_rejects_truncated_record() {
    // a set tag whose length fields run past the end of the log
    let bytes = vec![0u8, 5, 0, 0, 0, 0, 0, 0, 0];
    assert_eq!(
        KvStore::open(bytes, 1_000_000).err(),
        Some(KvError::CorruptLog)
    );
}

#[test]
fn open_rejects_invalid_utf8_key() {
    // tag 0, key length 1, value length 0, then the invalid byte 0xFF
    let mut bytes = vec![0u8];
    bytes.extend_from_slice(&1u64.to_le_bytes());
    bytes.extend_from_slice(&0u64.to_le_bytes());
    bytes.push(0xFF);
    assert_eq!(
        KvStore::open(bytes, 1_000_000).err(),
        Some(KvError::CorruptLog)
    );
}

#[test]
fn open_empty_log_is_empty_store() {
    let store = KvStore::open(Vec::new(), 1_000_000).unwrap();
    assert_eq!(store.key_count(), 0);
    assert_eq!(store.log_size(), 0);
    assert_eq!(store.get("k".to_string()).unwrap(), None);
}

#[test]
fn open_replays_tombstones() {
    let mut store = KvStore::new(1_000_000);
    store.set("a".to_string(), "1".to_string()).unwrap();
    store.remove("a".to_string()).unwrap();
    let bytes = store.log_bytes().clone();
    let reopened = KvStore::open(bytes, 1_000_000).unwrap();
    assert_eq!(reopened.get("a".to_string()).unwrap(), None);
    assert_eq!(reopened.key_count(), 0);
}
