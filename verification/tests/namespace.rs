use alefsdb::db::{Database, EntryKind};
use alefsdb::errors::NsError;
use alefsdb::path::DbPath;
use alefsdb::storage::MemoryStorage;
use alefsdb::txn::TxnOp;
use alefsdb::value::{Scalar, Value};

fn p(s: &str) -> DbPath {
    DbPath::parse(s).unwrap()
}

fn fresh() -> Database<MemoryStorage> {
    Database::open(MemoryStorage::new()).unwrap()
}

#[test]
fn mkdir_set_get_list_scalar() {
    let mut db = fresh();
    let users = p("/users");
    db.mkdir(&users).unwrap();
    let alice = p("/users/alice");
    db.set(&alice, Value::string("hi")).unwrap();
    let e = db.get(&alice).unwrap();
    assert_eq!(e.value, Some(Value::string("hi")));
    let kids = db.list(&users).unwrap();
    assert_eq!(kids.len(), 1);
    assert_eq!(kids[0].0, "alice");
}

#[test]
fn explicit_mkdir_required() {
    let mut db = fresh();
    let path = p("/nope/x");
    let err = db.set(&path, Value::integer(1)).unwrap_err();
    assert!(matches!(err, NsError::ParentMissing(_)));
}

#[test]
fn hash_list_set_tree_ops() {
    let mut db = fresh();
    let h = p("/h");
    db.hash_set(&h, "k", Value::integer(1)).unwrap();
    assert_eq!(db.hash_get(&h, "k").unwrap(), Some(Value::integer(1)));

    let l = p("/l");
    db.list_push(&l, Value::string("a")).unwrap();
    db.list_push(&l, Value::string("b")).unwrap();
    match db.get(&l).unwrap().value.unwrap() {
        Value::List(v) => assert_eq!(v.len(), 2),
        _ => panic!(),
    }

    let s = p("/s");
    db.set_add(&s, Value::integer(1)).unwrap();
    db.set_add(&s, Value::integer(1)).unwrap();
    db.set_add(&s, Value::integer(2)).unwrap();
    match db.get(&s).unwrap().value.unwrap() {
        Value::SetOf(v) => assert_eq!(v.len(), 2),
        _ => panic!(),
    }

    let t = p("/t");
    db.tree_set(&t, Scalar::Int(10), Value::bool(true)).unwrap();
    match db.get(&t).unwrap().value.unwrap() {
        Value::Tree(m) => assert!(m.contains_key(&Scalar::Int(10))),
        _ => panic!(),
    }
}

#[test]
fn export_import_roundtrip() {
    let mut db = fresh();
    db.mkdir(&p("/d")).unwrap();
    db.set(&p("/d/x"), Value::string("z")).unwrap();
    let json = db.export_json(&vec![]).unwrap();
    let mut db2 = fresh();
    db2.import_json(&json, &vec![]).unwrap();
    assert_eq!(db2.get(&p("/d/x")).unwrap().value.unwrap(), Value::string("z"));
}

#[test]
fn type_index_lists_paths() {
    let mut db = fresh();
    db.mkdir(&p("/a")).unwrap();
    db.set(&p("/a/x"), Value::integer(1)).unwrap();
    db.set(&p("/a/y"), Value::string("s")).unwrap();
    let ints = db.paths_with_type("int").unwrap();
    assert_eq!(ints.len(), 1);
    assert_eq!(ints[0].as_str(), "/a/x");
    let strings = db.paths_with_type("string").unwrap();
    assert!(strings.iter().any(|q| q.as_str() == "/a/y"));
}

#[test]
fn txn_atomic_mkdir_and_set() {
    let mut db = fresh();
    db.apply_txn(&[
        TxnOp::Mkdir { path: p("/a") },
        TxnOp::SetValue { path: p("/a/x"), value: Value::integer(1) },
    ])
    .unwrap();
    assert_eq!(db.get(&p("/a/x")).unwrap().value.unwrap(), Value::integer(1));
}

#[test]
fn txn_rolls_back_on_error() {
    let mut db = fresh();
    let err = db
        .apply_txn(&[
            TxnOp::Mkdir { path: p("/a") },
            TxnOp::SetValue { path: p("/missing/x"), value: Value::integer(1) },
        ])
        .unwrap_err();
    assert!(matches!(err, NsError::ParentMissing(_)));
    assert!(!db.exists_path(&p("/a")).unwrap());
}

#[test]
fn get_after_set_reads_the_value_back() {
    let mut db = fresh();
    db.mkdir(&p("/a")).unwrap();
    db.set(&p("/a/v"), Value::integer(5)).unwrap();
    db.set(&p("/a/v"), Value::string("again")).unwrap();
    let e = db.get(&p("/a/v")).unwrap();
    assert_eq!(e.kind, EntryKind::Value);
    assert_eq!(e.value, Some(Value::string("again")));
}

#[test]
fn get_after_mkdir_is_a_directory() {
    let mut db = fresh();
    db.mkdir(&p("/a")).unwrap();
    db.mkdir(&p("/a/b")).unwrap();
    let e = db.get(&p("/a/b")).unwrap();
    assert_eq!(e.kind, EntryKind::Directory);
    assert_eq!(e.value, None);
    assert!(matches!(db.mkdir(&p("/a/b")), Err(NsError::AlreadyExists(_))));
}

#[test]
fn deleted_entry_is_gone() {
    let mut db = fresh();
    db.mkdir(&p("/a")).unwrap();
    db.set(&p("/a/v"), Value::integer(5)).unwrap();
    db.delete(&p("/a/v")).unwrap();
    assert!(!db.exists_path(&p("/a/v")).unwrap());
    assert!(matches!(db.get(&p("/a/v")), Err(NsError::NotFound(_))));
    assert!(db.paths_with_type("int").unwrap().is_empty());
}

#[test]
fn delete_refuses_non_empty_directory() {
    let mut db = fresh();
    db.mkdir(&p("/a")).unwrap();
    db.set(&p("/a/v"), Value::integer(5)).unwrap();
    assert!(db.delete(&p("/a")).is_err());
    assert!(db.exists_path(&p("/a/v")).unwrap());
}

#[test]
fn listing_is_sorted_by_name() {
    let mut db = fresh();
    db.mkdir(&p("/d")).unwrap();
    db.set(&p("/d/zeta"), Value::integer(1)).unwrap();
    db.mkdir(&p("/d/alpha")).unwrap();
    db.set(&p("/d/mid"), Value::null()).unwrap();
    let kids = db.list(&p("/d")).unwrap();
    let names: Vec<&str> = kids.iter().map(|k| k.0.as_str()).collect();
    assert_eq!(names, vec!["alpha", "mid", "zeta"]);
    assert_eq!(kids[0].1, EntryKind::Directory);
    assert_eq!(kids[1].1, EntryKind::Value);
}

#[test]
fn wrong_structure_type_is_a_mismatch() {
    let mut db = fresh();
    db.set(&p("/n"), Value::integer(3)).unwrap();
    assert!(matches!(db.list_push(&p("/n"), Value::integer(1)), Err(NsError::TypeMismatch(_))));
    assert!(matches!(db.hash_get(&p("/n"), "k"), Err(NsError::TypeMismatch(_))));
}

#[test]
fn walk_values_visits_values_in_name_order() {
    let mut db = fresh();
    db.mkdir(&p("/b")).unwrap();
    db.set(&p("/b/y"), Value::integer(2)).unwrap();
    db.set(&p("/a"), Value::integer(1)).unwrap();
    let vs = db.walk_values().unwrap();
    let got: Vec<String> = vs.iter().map(|(q, _)| q.as_str()).collect();
    assert_eq!(got, vec!["/a".to_string(), "/b/y".to_string()]);
}

#[test]
fn rebuilt_index_matches_contents() {
    let mut db = fresh();
    db.mkdir(&p("/a")).unwrap();
    db.set(&p("/a/x"), Value::integer(1)).unwrap();
    db.rebuild_type_index().unwrap();
    let ints = db.paths_with_type("int").unwrap();
    assert_eq!(ints.len(), 1);
    assert_eq!(ints[0].as_str(), "/a/x");
    let dirs = db.paths_with_type("directory").unwrap();
    assert!(dirs.iter().any(|q| q.as_str() == "/a"));
}

#[test]
fn txn_of_no_ops_changes_nothing() {
    let mut db = fresh();
    db.apply_txn(&[]).unwrap();
    assert!(db.list(&DbPath::root()).unwrap().is_empty());
}

#[test]
fn import_rejects_non_object_root() {
    let mut db = fresh();
    assert!(matches!(db.import_json("[1, 2]", &vec![]), Err(NsError::Invalid(_))));
    assert!(matches!(db.import_json("{", &vec![]), Err(NsError::Invalid(_))));
}

#[test]
fn export_shows_floats_by_their_text() {
    let mut db = fresh();
    let bits = 1.5f64.to_bits();
    db.set(&p("/f"), Value::Scalar(Scalar::Float(bits))).unwrap();
    let json = db.export_json(&vec![(bits, "1.5".to_string())]).unwrap();
    assert!(json.contains("1.5"), "{json}");
    let mut db2 = fresh();
    db2.import_json(&json, &vec![("1.5".to_string(), bits)]).unwrap();
    assert_eq!(db2.get(&p("/f")).unwrap().value, Some(Value::Scalar(Scalar::Float(bits))));
}
