use kvs::store::KvStore;
use kvs::KvsError;

fn total_bytes(s: &KvStore) -> usize {
    s.dump().iter().map(|p| p.1.len()).sum()
}

#[test]
fn scenario_basic() {
    let mut s = KvStore::new();
    s.set("a".to_string(), "1".to_string());
    s.set("b".to_string(), "2".to_string());
    s.set("a".to_string(), "3".to_string());
    assert_eq!(s.get("a".to_string()).unwrap(), Some("3".to_string()));
    assert_eq!(s.get("b".to_string()).unwrap(), Some("2".to_string()));
    assert_eq!(s.get("c".to_string()).unwrap(), None);
    assert!(s.del("b".to_string()).is_ok());
    assert_eq!(s.get("b".to_string()).unwrap(), None);
    assert_eq!(s.del("b".to_string()), Err(KvsError::KeyNotFound));
}

#[test]
fn set_then_get_returns_value() {
    let mut s = KvStore::new();
    s.set("key".to_string(), "value".to_string());
    assert_eq!(s.get("key".to_string()).unwrap(), Some("value".to_string()));
    s.set("".to_string(), "".to_string());
    assert_eq!(s.get("".to_string()).unwrap(), Some("".to_string()));
}

#[test]
fn overwrite_takes_last_value() {
    let mut s = KvStore::new();
    s.set("k".to_string(), "v1".to_string());
    s.set("k".to_string(), "v2".to_string());
    assert_eq!(s.get("k".to_string()).unwrap(), Some("v2".to_string()));
    let live = s.index.iter().filter(|e| e.key == "k").count();
    assert_eq!(live, 1, "exactly one live index entry exists for an overwritten key");
}

#[test]
fn remove_then_get_is_not_found() {
    let mut s = KvStore::new();
    s.set("k".to_string(), "v".to_string());
    assert!(s.del("k".to_string()).is_ok());
    assert_eq!(s.get("k".to_string()).unwrap(), None);
    assert_eq!(s.del("k".to_string()), Err(KvsError::KeyNotFound));
}

#[test]
fn unicode_keys_and_values_round_trip() {
    let mut s = KvStore::new();
    s.set("clé".to_string(), "värde🚀".to_string());
    assert_eq!(s.get("clé".to_string()).unwrap(), Some("värde🚀".to_string()));
    let reopened = KvStore::open(&s.dump()).unwrap();
    let mut r = reopened;
    assert_eq!(r.get("clé".to_string()).unwrap(), Some("värde🚀".to_string()));
}

#[test]
fn reopen_reproduces_state() {
    let mut s = KvStore::new();
    s.set("a".to_string(), "1".to_string());
    s.set("b".to_string(), "2".to_string());
    s.set("a".to_string(), "3".to_string());
    s.del("b".to_string()).unwrap();
    s.set("c".to_string(), "4".to_string());
    let mut r = KvStore::open(&s.dump()).unwrap();
    assert_eq!(r.get("a".to_string()).unwrap(), Some("3".to_string()));
    assert_eq!(r.get("b".to_string()).unwrap(), None);
    assert_eq!(r.get("c".to_string()).unwrap(), Some("4".to_string()));
    assert_eq!(r.del("b".to_string()), Err(KvsError::KeyNotFound));
}

#[test]
fn reopen_after_compaction_reproduces_state() {
    let mut s = KvStore::new();
    for i in 0..50 {
        s.set(format!("k{}", i % 5), format!("v{}", i));
    }
    s.compact();
    let mut r = KvStore::open(&s.dump()).unwrap();
    for k in 0..5 {
        let expect = format!("v{}", 45 + k);
        assert_eq!(r.get(format!("k{}", k)).unwrap(), Some(expect));
    }
}

#[test]
fn compaction_preserves_live_keys_and_shrinks_log() {
    let mut s = KvStore::new();
    let big = "x".repeat(1024);
    let mut shrank = false;
    let mut prev = total_bytes(&s);
    for _ in 0..1100 {
        s.set("k".to_string(), big.clone());
        let now = total_bytes(&s);
        if now < prev {
            shrank = true;
        }
        prev = now;
    }
    assert!(shrank, "the dead-byte threshold was crossed, so compaction ran and the log shrank");
    assert_eq!(s.get("k".to_string()).unwrap(), Some(big));
}

#[test]
fn explicit_compaction_keeps_state_and_resets_counter() {
    let mut s = KvStore::new();
    s.set("a".to_string(), "1".to_string());
    s.set("a".to_string(), "2".to_string());
    s.set("b".to_string(), "3".to_string());
    assert!(s.uncompacted > 0);
    let before = total_bytes(&s);
    let gen_before = s.current_gen;
    s.compact();
    assert_eq!(s.uncompacted, 0);
    assert_eq!(s.current_gen, gen_before + 2);
    assert!(total_bytes(&s) < before);
    assert_eq!(s.get("a".to_string()).unwrap(), Some("2".to_string()));
    assert_eq!(s.get("b".to_string()).unwrap(), Some("3".to_string()));
}

#[test]
fn truncated_tail_recovers_complete_records() {
    let mut s = KvStore::new();
    s.set("a".to_string(), "1".to_string());
    s.set("b".to_string(), "2".to_string());
    let mut files = s.dump();
    let last = files.len() - 1;
    let cut = files[last].1.len() - 3;
    files[last].1.truncate(cut);
    let mut r = KvStore::open(&files).unwrap();
    assert_eq!(r.get("a".to_string()).unwrap(), Some("1".to_string()));
    assert_eq!(r.get("b".to_string()).unwrap(), None);
}

#[test]
fn malformed_segment_fails_recovery() {
    let files = vec![(1u64, vec![7u8, 1, 2, 3])];
    match KvStore::open(&files) {
        Err(KvsError::CorruptRecord) => {}
        other => panic!("expected a corrupt-record failure, got {:?}", other.is_ok()),
    }
}

#[test]
fn open_empty_directory_starts_fresh() {
    let files: Vec<(u64, Vec<u8>)> = Vec::new();
    let mut s = KvStore::open(&files).unwrap();
    assert_eq!(s.current_gen, 1);
    assert_eq!(s.get("a".to_string()).unwrap(), None);
    s.set("a".to_string(), "1".to_string());
    assert_eq!(s.get("a".to_string()).unwrap(), Some("1".to_string()));
}

#[test]
fn dead_byte_counter_counts_superseded_record() {
    let mut s = KvStore::new();
    s.set("k".to_string(), "v1".to_string());
    assert_eq!(s.uncompacted, 0);
    // the superseded record: one tag byte, two length fields of eight bytes,
    // one key byte and two value bytes
    s.set("k".to_string(), "v2".to_string());
    assert_eq!(s.uncompacted, 1 + 8 + 1 + 8 + 2);
    s.del("k".to_string()).unwrap();
    assert_eq!(s.uncompacted, 2 * (1 + 8 + 1 + 8 + 2));
}
