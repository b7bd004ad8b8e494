use alefsdb::codec::{decode, encode};
use alefsdb::db::Database;
use alefsdb::export::{json_to_value, value_to_json};
use alefsdb::json::{parse_json_value, render_json, JsonVal};
use alefsdb::path::DbPath;
use alefsdb::storage::{BatchOp, KvMap, MemoryStorage};
use alefsdb::txn::TxnOp;
use alefsdb::value::{Scalar, ScalarMap, StrMap, Value};
use alefsdb::wal::{encode_checkpoint, encode_commit_record, load_checkpoint_bytes, replay_wal};
use alefsdb::wire::{encode_frame, frame_length};

fn p(s: &str) -> DbPath {
    DbPath::parse(s).unwrap()
}

#[test]
fn decode_inverts_encode_on_nested_values() {
    let mut h = StrMap::new();
    h.insert("b".to_string(), Value::SetOf(vec![Value::integer(1), Value::string("x")]));
    let mut t = ScalarMap::new();
    t.insert(Scalar::Bytes(vec![9]), Value::Hash(h));
    let v = Value::List(vec![Value::Tree(t), Value::null()]);
    assert_eq!(decode(&encode(&v)).unwrap(), v);
}

#[test]
fn transaction_equals_its_steps_applied_in_order() {
    let mut one = Database::open(MemoryStorage::new()).unwrap();
    one.apply_txn(&[
        TxnOp::Mkdir { path: p("/a") },
        TxnOp::HashSet { path: p("/a/h"), key: "k".to_string(), value: Value::integer(1) },
        TxnOp::ListPush { path: p("/a/l"), value: Value::bool(true) },
        TxnOp::Delete { path: p("/a/l") },
    ])
    .unwrap();
    let mut two = Database::open(MemoryStorage::new()).unwrap();
    two.mkdir(&p("/a")).unwrap();
    two.hash_set(&p("/a/h"), "k", Value::integer(1)).unwrap();
    two.list_push(&p("/a/l"), Value::bool(true)).unwrap();
    two.delete(&p("/a/l")).unwrap();
    assert_eq!(one.get(&p("/a/h")).unwrap().value, two.get(&p("/a/h")).unwrap().value);
    assert!(!one.exists_path(&p("/a/l")).unwrap());
    assert_eq!(one.list(&p("/a")).unwrap(), two.list(&p("/a")).unwrap());
}

#[test]
fn replayed_log_holds_every_commit() {
    let batches = vec![
        vec![BatchOp::Put { key: b"x".to_vec(), value: b"1".to_vec() }],
        vec![BatchOp::Put { key: b"y".to_vec(), value: b"2".to_vec() }, BatchOp::Delete { key: b"x".to_vec() }],
        vec![],
    ];
    let mut log = Vec::new();
    for b in &batches {
        log.extend(encode_commit_record(b));
    }
    let mut map = KvMap::new();
    replay_wal(&log, 0, &mut map).unwrap();
    assert_eq!(map.get(b"x"), None);
    assert_eq!(map.get(b"y"), Some(&b"2".to_vec()));
}

#[test]
fn checkpoint_restores_the_map() {
    let mut map = KvMap::new();
    for i in 0..20u8 {
        map.put(vec![b'k', i], vec![i; i as usize]);
    }
    let (back, off) = load_checkpoint_bytes(&encode_checkpoint(&map, 7)).unwrap();
    assert_eq!(off, 7);
    assert_eq!(back.len(), 20);
    for i in 0..20u8 {
        assert_eq!(back.get(&[b'k', i]), Some(&vec![i; i as usize]));
    }
}

#[test]
fn frame_header_announces_payload() {
    let payload = vec![7u8; 300];
    let f = encode_frame(&payload);
    assert_eq!(frame_length(&f[0..4]).unwrap(), 300);
    assert_eq!(&f[4..], &payload[..]);
}

#[test]
fn json_text_reads_back() {
    let doc = JsonVal::Object(vec![
        ("name".to_string(), JsonVal::Str("a \"quoted\" \\ path\nline".to_string())),
        ("n".to_string(), JsonVal::Number(i64::MIN)),
        ("m".to_string(), JsonVal::Number(42)),
        (
            "list".to_string(),
            JsonVal::Array(vec![
                JsonVal::Null,
                JsonVal::Bool(true),
                JsonVal::Bool(false),
                JsonVal::Array(vec![]),
                JsonVal::Object(vec![]),
            ]),
        ),
    ]);
    let text = render_json(&doc);
    let back = parse_json_value(&text).unwrap();
    assert_eq!(format!("{:?}", back), format!("{:?}", doc));
    assert_eq!(render_json(&back), text);
}

#[test]
fn exported_value_reads_back() {
    let mut h = StrMap::new();
    h.insert("b".to_string(), Value::bytes(vec![0, 15, 16, 255]));
    h.insert("a".to_string(), Value::List(vec![Value::integer(-7), Value::null()]));
    let mut t = ScalarMap::new();
    t.insert(Scalar::Int(3), Value::bool(true));
    t.insert(Scalar::String("key".to_string()), Value::string("v \"q\""));
    t.insert(Scalar::Bytes(vec![1, 2]), Value::integer(0));
    let v = Value::List(vec![
        Value::Hash(h),
        Value::Tree(t),
        Value::SetOf(vec![Value::integer(1), Value::string("x")]),
    ]);
    let texts: Vec<(u64, String)> = Vec::new();
    let bits: Vec<(String, u64)> = Vec::new();
    let text = render_json(&value_to_json(&v, &texts));
    let doc = parse_json_value(&text).unwrap();
    assert_eq!(json_to_value(&doc, &bits).unwrap(), v);
}

#[test]
fn torn_commit_is_not_applied() {
    let first = vec![BatchOp::Put { key: b"a".to_vec(), value: b"1".to_vec() }];
    let torn = vec![
        BatchOp::Put { key: b"b".to_vec(), value: b"2".to_vec() },
        BatchOp::Delete { key: b"a".to_vec() },
    ];
    let head = encode_commit_record(&first);
    let next = encode_commit_record(&torn);
    for k in 0..next.len() {
        let mut log = head.clone();
        log.extend_from_slice(&next[..k]);
        let mut map = KvMap::new();
        replay_wal(&log, 0, &mut map).unwrap();
        assert_eq!(map.get(b"a"), Some(&b"1".to_vec()));
        assert_eq!(map.get(b"b"), None);
    }
    let mut log = head.clone();
    log.extend_from_slice(&next);
    let mut map = KvMap::new();
    replay_wal(&log, 0, &mut map).unwrap();
    assert_eq!(map.get(b"a"), None);
    assert_eq!(map.get(b"b"), Some(&b"2".to_vec()));
}

#[test]
fn each_path_has_its_own_node() {
    let p = |s: &str| DbPath::parse(s).unwrap();
    let mut db = Database::open(MemoryStorage::new()).unwrap();
    db.mkdir(&p("/a")).unwrap();
    db.mkdir(&p("/b")).unwrap();
    db.set(&p("/a/x"), Value::integer(1)).unwrap();
    db.set(&p("/b/x"), Value::integer(2)).unwrap();
    db.set(&p("/a/x"), Value::integer(3)).unwrap();
    assert_eq!(db.get(&p("/b/x")).unwrap().value, Some(Value::integer(2)));
    db.delete(&p("/a/x")).unwrap();
    db.mkdir(&p("/a/x")).unwrap();
    assert_eq!(db.get(&p("/b/x")).unwrap().value, Some(Value::integer(2)));
    assert_eq!(db.get(&p("/a/x")).unwrap().value, None);
}

#[test]
fn set_then_delete_of_a_new_path_restores_reads() {
    let mut db = Database::open(MemoryStorage::new()).unwrap();
    db.mkdir(&p("/a")).unwrap();
    db.set(&p("/a/y"), Value::string("keep")).unwrap();
    let before_a = db.get(&p("/a")).unwrap();
    let before_y = db.get(&p("/a/y")).unwrap();
    let before_x = db.get(&p("/a/x")).unwrap_err();
    db.set(&p("/a/x"), Value::integer(9)).unwrap();
    db.delete(&p("/a/x")).unwrap();
    let after_a = db.get(&p("/a")).unwrap();
    let after_y = db.get(&p("/a/y")).unwrap();
    assert_eq!((after_a.kind, after_a.value), (before_a.kind, before_a.value));
    assert_eq!((after_y.kind, after_y.value), (before_y.kind, before_y.value));
    assert_eq!(db.get(&p("/a/x")).unwrap_err(), before_x);
    assert_eq!(db.exists_path(&p("/a/x")), Ok(false));
}

#[test]
fn type_index_follows_every_change() {
    let mut db = Database::open(MemoryStorage::new()).unwrap();
    db.mkdir(&p("/a")).unwrap();
    db.set(&p("/a/x"), Value::integer(1)).unwrap();
    db.set(&p("/a/y"), Value::integer(2)).unwrap();
    db.set(&p("/a/x"), Value::string("s")).unwrap();
    db.delete(&p("/a/y")).unwrap();
    db.set(&p("/b"), Value::integer(3)).unwrap();
    db.apply_txn(&[
        TxnOp::Mkdir { path: p("/c") },
        TxnOp::SetValue { path: p("/c/z"), value: Value::integer(4) },
        TxnOp::ListPush { path: p("/c/l"), value: Value::bool(true) },
    ])
    .unwrap();
    let names = |t: &str| -> Vec<String> { db.paths_with_type(t).unwrap().iter().map(|q| q.as_str()).collect() };
    assert_eq!(names("int"), vec!["/b".to_string(), "/c/z".to_string()]);
    assert_eq!(names("string"), vec!["/a/x".to_string()]);
    assert_eq!(names("list"), vec!["/c/l".to_string()]);
    assert_eq!(names("directory"), vec!["/".to_string(), "/a".to_string(), "/c".to_string()]);
}

#[test]
fn record_with_bad_checksum_ends_the_replay() {
    let first = vec![BatchOp::Put { key: b"a".to_vec(), value: b"1".to_vec() }];
    let second = vec![BatchOp::Put { key: b"b".to_vec(), value: b"2".to_vec() }];
    let third = vec![BatchOp::Put { key: b"c".to_vec(), value: b"3".to_vec() }];
    let mut log = encode_commit_record(&first);
    let mut bad = encode_commit_record(&second);
    let last = bad.len() - 1;
    bad[last] ^= 0xff;
    log.extend(bad);
    log.extend(encode_commit_record(&third));
    let mut map = KvMap::new();
    replay_wal(&log, 0, &mut map).unwrap();
    assert_eq!(map.get(b"a"), Some(&b"1".to_vec()));
    assert_eq!(map.get(b"b"), None);
    assert_eq!(map.get(b"c"), None);
}

#[test]
fn set_then_delete_of_a_new_path_restores_listings() {
    let mut db = Database::open(MemoryStorage::new()).unwrap();
    db.mkdir(&p("/a")).unwrap();
    db.set(&p("/a/y"), Value::string("keep")).unwrap();
    let before_root = db.list(&p("/")).unwrap();
    let before_a = db.list(&p("/a")).unwrap();
    db.set(&p("/a/x"), Value::integer(9)).unwrap();
    db.delete(&p("/a/x")).unwrap();
    assert_eq!(db.list(&p("/")).unwrap(), before_root);
    assert_eq!(db.list(&p("/a")).unwrap(), before_a);
    assert!(db.paths_with_type("int").unwrap().is_empty());
}
