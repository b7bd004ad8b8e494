use alefsdb::db::Database;
use alefsdb::path::DbPath;
use alefsdb::txn::TxnOp;
use alefsdb::value::Value;
use alefsdb::storage::{BatchOp, Compact, KvMap, Storage, StorageError, WriteBatch};
use alefsdb::wal::{
    recover, LogSink, WalStore, apply_record_body, check_wal_start, crc32, encode_checkpoint, encode_commit_record,
    load_checkpoint_bytes, parse_record_body, replay_wal,
};

fn put(k: &[u8], v: &[u8]) -> BatchOp {
    BatchOp::Put { key: k.to_vec(), value: v.to_vec() }
}

fn del(k: &[u8]) -> BatchOp {
    BatchOp::Delete { key: k.to_vec() }
}

#[test]
fn crc32_check_value() {
    assert_eq!(crc32(b"123456789"), 0xCBF4_3926);
    assert_eq!(crc32(b""), 0);
}

#[test]
fn commit_record_layout() {
    let rec = encode_commit_record(&vec![put(b"k", b"v")]);
    assert_eq!(&rec[0..4], b"ALEF");
    assert_eq!(rec[4], 1);
    let body_len = u32::from_le_bytes([rec[5], rec[6], rec[7], rec[8]]) as usize;
    assert_eq!(rec.len(), 9 + body_len + 4);
    let body = &rec[9..9 + body_len];
    assert_eq!(body, &[1, 1, 0, 0, 0, 1, 1, 0, 0, 0, b'k', 1, 0, 0, 0, b'v']);
    let crc = u32::from_le_bytes([rec[9 + body_len], rec[10 + body_len], rec[11 + body_len], rec[12 + body_len]]);
    assert_eq!(crc, crc32(body));
    assert_eq!(parse_record_body(body).unwrap(), vec![put(b"k", b"v")]);
}

#[test]
fn replay_applies_records_in_order() {
    let mut log = encode_commit_record(&vec![put(b"a", b"1"), put(b"b", b"2")]);
    log.extend(encode_commit_record(&vec![del(b"a"), put(b"b", b"3")]));
    let mut map = KvMap::new();
    replay_wal(&log, 0, &mut map).unwrap();
    assert_eq!(map.get(b"a"), None);
    assert_eq!(map.get(b"b"), Some(&b"3".to_vec()));
    assert_eq!(map.len(), 1);
}

#[test]
fn replay_ignores_truncated_tail_and_bad_checksum() {
    let mut log = encode_commit_record(&vec![put(b"ok", b"1")]);
    log.extend_from_slice(b"ALEF");
    log.extend_from_slice(&[1, 0, 0, 0, 50]);
    let mut map = KvMap::new();
    replay_wal(&log, 0, &mut map).unwrap();
    assert_eq!(map.get(b"ok"), Some(&b"1".to_vec()));

    let mut good = encode_commit_record(&vec![put(b"good", b"1")]);
    let mut bad = encode_commit_record(&vec![put(b"bad", b"2")]);
    let last = bad.len() - 1;
    bad[last] ^= 0xff;
    good.extend(bad);
    good.extend(encode_commit_record(&vec![put(b"later", b"3")]));
    let mut map = KvMap::new();
    replay_wal(&good, 0, &mut map).unwrap();
    assert_eq!(map.get(b"good"), Some(&b"1".to_vec()));
    assert_eq!(map.get(b"bad"), None);
    assert_eq!(map.get(b"later"), None);
}

#[test]
fn replay_rejects_bad_magic_and_version() {
    let mut map = KvMap::new();
    let junk = b"XXXXXXXXXXXXX".to_vec();
    assert_eq!(
        replay_wal(&junk, 7, &mut map),
        Err(StorageError::Corrupt("bad WAL magic at offset 7".to_string()))
    );
    let mut rec = encode_commit_record(&vec![]);
    rec[4] = 9;
    assert_eq!(
        replay_wal(&rec, 0, &mut map),
        Err(StorageError::Corrupt("unsupported WAL version 9".to_string()))
    );
}

#[test]
fn corrupt_bodies_are_refused_without_change() {
    let mut map = KvMap::new();
    assert_eq!(apply_record_body(&[], &mut map), Err(StorageError::Corrupt("empty WAL body".to_string())));
    assert_eq!(apply_record_body(&[7], &mut map), Err(StorageError::Corrupt("unknown record type 7".to_string())));
    assert_eq!(apply_record_body(&[1, 1, 0, 0, 0, 9], &mut map), Err(StorageError::Corrupt("unknown op tag 9".to_string())));
    assert_eq!(apply_record_body(&[1, 1, 0, 0], &mut map), Err(StorageError::Corrupt("unexpected eof".to_string())));
    assert_eq!(
        apply_record_body(&[1, 0, 0, 0, 0, 0], &mut map),
        Err(StorageError::Corrupt("trailing bytes in WAL body".to_string()))
    );
    assert_eq!(map.len(), 0);
}

#[test]
fn checkpoint_roundtrip() {
    let mut map = KvMap::new();
    map.put(b"k0".to_vec(), b"final".to_vec());
    map.put(b"k2".to_vec(), b"x".to_vec());
    let bytes = encode_checkpoint(&map, 42);
    assert_eq!(&bytes[0..4], b"CKPT");
    let (loaded, off) = load_checkpoint_bytes(&bytes).unwrap();
    assert_eq!(off, 42);
    assert_eq!(loaded.len(), 2);
    assert_eq!(loaded.get(b"k0"), Some(&b"final".to_vec()));
    assert_eq!(loaded.get(b"k2"), Some(&b"x".to_vec()));
}

#[test]
fn checkpoint_corruption_is_reported() {
    assert!(matches!(load_checkpoint_bytes(b"CKPT"), Err(StorageError::Corrupt(m)) if m == "checkpoint too short"));
    let map = KvMap::new();
    let mut bytes = encode_checkpoint(&map, 0);
    let last = bytes.len() - 1;
    bytes[last] ^= 1;
    assert!(matches!(load_checkpoint_bytes(&bytes), Err(StorageError::Corrupt(m)) if m == "checkpoint checksum mismatch"));
    let mut bytes = encode_checkpoint(&map, 0);
    bytes[0] = b'X';
    assert!(matches!(load_checkpoint_bytes(&bytes), Err(StorageError::Corrupt(m)) if m == "bad checkpoint magic"));
}

#[test]
fn wal_start_must_lie_in_file() {
    assert_eq!(check_wal_start(3, 10), Ok(()));
    assert_eq!(
        check_wal_start(11, 10),
        Err(StorageError::Corrupt("checkpoint wal offset 11 beyond file len 10".to_string()))
    );
}

struct MemLog {
    log: Vec<u8>,
    checkpoint: Option<Vec<u8>>,
}

impl LogSink for MemLog {
    fn append(&mut self, record: &[u8]) -> Result<(), StorageError> {
        self.log.extend_from_slice(record);
        Ok(())
    }

    fn write_checkpoint(&mut self, checkpoint: &[u8]) -> Result<(), StorageError> {
        self.checkpoint = Some(checkpoint.to_vec());
        self.log.clear();
        Ok(())
    }
}

#[test]
fn store_survives_recovery() {
    let mut store = WalStore::new(KvMap::new(), MemLog { log: Vec::new(), checkpoint: None }, 0);
    store.set_auto_compact_threshold(0);
    let mut b = WriteBatch::new();
    b.put(b"a".to_vec(), b"1".to_vec());
    b.put(b"b".to_vec(), b"2".to_vec());
    store.commit(b).unwrap();
    let mut b = WriteBatch::new();
    b.delete(b"a".to_vec());
    store.commit(b).unwrap();
    store.commit(WriteBatch::new()).unwrap();
    assert_eq!(store.get(b"b").unwrap(), Some(b"2".to_vec()));
    let log = store.sink().log.clone();
    let (map, start) = recover(None, &log).unwrap();
    assert_eq!(start, 0);
    assert_eq!(map.get(b"a"), None);
    assert_eq!(map.get(b"b"), Some(&b"2".to_vec()));

    store.compact().unwrap();
    assert!(store.sink().log.is_empty());
    let ckpt = store.sink().checkpoint.clone().unwrap();
    let (map, _) = recover(Some(&ckpt), &[]).unwrap();
    assert_eq!(map.len(), 1);
    assert_eq!(map.get(b"b"), Some(&b"2".to_vec()));
    assert_eq!(store.len(), 1);
}

#[test]
fn store_checkpoints_past_threshold() {
    let mut store = WalStore::new(KvMap::new(), MemLog { log: Vec::new(), checkpoint: None }, 0);
    store.set_auto_compact_threshold(30);
    for i in 0..5u8 {
        let mut b = WriteBatch::new();
        b.put(vec![b'k', i], vec![i]);
        store.commit(b).unwrap();
    }
    assert!(store.sink().checkpoint.is_some());
    assert!(store.sink().log.len() < 30);
    assert_eq!(store.scan_prefix(b"k").unwrap().len(), 5);
}

fn fresh_store() -> WalStore<MemLog> {
    let mut s = WalStore::new(KvMap::new(), MemLog { log: Vec::new(), checkpoint: None }, 0);
    s.set_auto_compact_threshold(0);
    s
}

/// Opens the store again from what its sink kept, as a restart would.
fn reopen(sink: MemLog) -> WalStore<MemLog> {
    let (map, _) = recover(sink.checkpoint.as_deref(), &sink.log).unwrap();
    let wal_bytes = sink.log.len() as u64;
    WalStore::new(map, sink, wal_bytes)
}

fn into_sink(s: WalStore<MemLog>) -> MemLog {
    MemLog { log: s.sink().log.clone(), checkpoint: s.sink().checkpoint.clone() }
}

#[test]
fn durable_across_reopen() {
    let mut s = fresh_store();
    let mut b = WriteBatch::new();
    b.put(b"k".to_vec(), b"v".to_vec());
    s.commit(b).unwrap();
    let s = reopen(into_sink(s));
    assert_eq!(s.get(b"k").unwrap(), Some(b"v".to_vec()));
}

#[test]
fn truncated_tail_does_not_apply() {
    let mut s = fresh_store();
    let mut b = WriteBatch::new();
    b.put(b"ok".to_vec(), b"1".to_vec());
    s.commit(b).unwrap();
    let mut sink = into_sink(s);
    sink.log.extend_from_slice(b"ALEF");
    sink.log.extend_from_slice(&[1, 0, 0, 0, 50]);
    let s = reopen(sink);
    assert_eq!(s.get(b"ok").unwrap(), Some(b"1".to_vec()));
}

#[test]
fn compact_rewrites_and_survives() {
    let mut s = fresh_store();
    for i in 0..20 {
        let mut b = WriteBatch::new();
        b.put(format!("k{i}").into_bytes(), b"x".to_vec());
        s.commit(b).unwrap();
    }
    let mut b = WriteBatch::new();
    b.put(b"k0".to_vec(), b"final".to_vec());
    b.delete(b"k1".to_vec());
    s.commit(b).unwrap();
    s.compact().unwrap();
    assert!(s.sink().log.is_empty());
    let s = reopen(into_sink(s));
    assert_eq!(s.get(b"k0").unwrap(), Some(b"final".to_vec()));
    assert_eq!(s.get(b"k1").unwrap(), None);
    assert_eq!(s.get(b"k2").unwrap(), Some(b"x".to_vec()));
}

#[test]
fn delete_persists() {
    let mut s = fresh_store();
    let mut b = WriteBatch::new();
    b.put(b"a".to_vec(), b"1".to_vec());
    s.commit(b).unwrap();
    let mut b = WriteBatch::new();
    b.delete(b"a".to_vec());
    s.commit(b).unwrap();
    let s = reopen(into_sink(s));
    assert_eq!(s.get(b"a").unwrap(), None);
}

#[test]
fn many_writes_then_compact_bounds_wal() {
    let mut s = fresh_store();
    for i in 0..2_000 {
        let mut b = WriteBatch::new();
        b.put(format!("k{i}").into_bytes(), format!("v{i}").into_bytes());
        s.commit(b).unwrap();
    }
    assert!(s.sink().log.len() > 10_000, "expected large WAL before compact");
    s.compact().unwrap();
    assert_eq!(s.sink().log.len(), 0, "WAL truncated after compact");
    assert!(s.sink().checkpoint.is_some());
    assert_eq!(s.get(b"k1999").unwrap(), Some(b"v1999".to_vec()));
    let s = reopen(into_sink(s));
    assert_eq!(s.get(b"k0").unwrap(), Some(b"v0".to_vec()));
    assert_eq!(s.get(b"k1999").unwrap(), Some(b"v1999".to_vec()));
}

#[test]
fn corrupt_checksum_stops_replay_without_losing_prior() {
    let mut s = fresh_store();
    let mut b = WriteBatch::new();
    b.put(b"good".to_vec(), b"1".to_vec());
    s.commit(b).unwrap();
    let mut sink = into_sink(s);
    sink.log.extend_from_slice(b"ALEF");
    sink.log.extend_from_slice(&[1]);
    sink.log.extend_from_slice(&5u32.to_le_bytes());
    sink.log.extend_from_slice(&[1, 0, 0, 0, 0]);
    sink.log.extend_from_slice(&0u32.to_le_bytes());
    let s = reopen(sink);
    assert_eq!(s.get(b"good").unwrap(), Some(b"1".to_vec()));
}

#[test]
fn durable_namespace() {
    let mut db = Database::open(fresh_store()).unwrap();
    db.mkdir(&DbPath::parse("/a").unwrap()).unwrap();
    db.set(&DbPath::parse("/a/x").unwrap(), Value::integer(7)).unwrap();
    let store = reopen(into_sink(db.into_store()));
    let db = Database::open(store).unwrap();
    let e = db.get(&DbPath::parse("/a/x").unwrap()).unwrap();
    assert_eq!(e.value, Some(Value::integer(7)));
}

#[test]
fn txn_durable_single_commit() {
    let mut db = Database::open(fresh_store()).unwrap();
    db.apply_txn(&[
        TxnOp::Mkdir { path: DbPath::parse("/t").unwrap() },
        TxnOp::SetValue { path: DbPath::parse("/t/v").unwrap(), value: Value::string("ok") },
    ])
    .unwrap();
    let store = reopen(into_sink(db.into_store()));
    let db = Database::open(store).unwrap();
    assert_eq!(db.get(&DbPath::parse("/t/v").unwrap()).unwrap().value, Some(Value::string("ok")));
}
