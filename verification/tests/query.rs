use alefsdb::db::Database;
use alefsdb::eval::{execute, glob_match, EvalError};
use alefsdb::path::DbPath;
use alefsdb::query::{parse_query, CmpOp, Expr, Predicate};
use alefsdb::storage::MemoryStorage;
use alefsdb::txn::TxnOp;
use alefsdb::value::{Scalar, ScalarMap, StrMap, Value};

fn p(s: &str) -> DbPath {
    DbPath::parse(s).unwrap()
}

fn golden_db() -> Database<MemoryStorage> {
    let mut db = Database::open(MemoryStorage::new()).unwrap();
    db.mkdir(&p("/d")).unwrap();
    db.set(&p("/d/s"), Value::string("hello")).unwrap();
    db.set(&p("/d/i"), Value::integer(42)).unwrap();
    db.set(&p("/d/b"), Value::bool(true)).unwrap();
    let mut h = StrMap::new();
    h.insert("email".to_string(), Value::string("a@b.c"));
    h.insert("age".to_string(), Value::integer(3));
    db.set(&p("/d/h"), Value::Hash(h)).unwrap();
    db.set(&p("/d/l"), Value::List(vec![Value::string("login"), Value::integer(1)])).unwrap();
    db.set(&p("/d/set"), Value::SetOf(vec![Value::string("admin"), Value::string("user")])).unwrap();
    let mut t = ScalarMap::new();
    t.insert(Scalar::Int(10), Value::string("ten"));
    t.insert(Scalar::Int(20), Value::string("twenty"));
    db.set(&p("/d/t"), Value::Tree(t)).unwrap();
    db.set(&p("/d/tmp.bak"), Value::string("x")).unwrap();
    db
}

fn paths(q: &str) -> Vec<String> {
    let db = golden_db();
    execute(&db, q, &vec![]).unwrap().into_iter().map(|h| h.path.as_str()).collect()
}

fn setup_users() -> Database<MemoryStorage> {
    let mut db = Database::open(MemoryStorage::new()).unwrap();
    db.mkdir(&p("/users")).unwrap();
    let mut map = StrMap::new();
    map.insert("email".to_string(), Value::string("a@b.c"));
    db.set(&p("/users/alice"), Value::Hash(map)).unwrap();
    db.set(&p("/n"), Value::integer(3)).unwrap();
    db
}

#[test]
fn query_hash_has() {
    let db = setup_users();
    let hits = execute(&db, r#"path /users/** AND type hash AND has "email""#, &vec![]).unwrap();
    assert_eq!(hits.len(), 1);
    assert_eq!(hits[0].path.as_str(), "/users/alice");
}

#[test]
fn query_value() {
    let db = setup_users();
    let hits = execute(&db, "type int AND value = 3", &vec![]).unwrap();
    assert_eq!(hits.len(), 1);
}

#[test]
fn path_glob() {
    let got = paths("path /d/*");
    assert!(got.contains(&"/d/s".into()));
    assert!(!got.iter().any(|x| x == "/"));
}

#[test]
fn type_filters() {
    assert_eq!(paths("type int"), vec!["/d/i".to_string()]);
    assert!(paths("type hash").contains(&"/d/h".into()));
    assert!(paths("type scalar").contains(&"/d/s".into()));
}

#[test]
fn value_cmp() {
    assert_eq!(paths("type int AND value = 42"), vec!["/d/i".to_string()]);
    assert!(paths("value = 999").is_empty());
}

#[test]
fn has_and_contains() {
    assert_eq!(paths(r#"type hash AND has "email""#), vec!["/d/h".to_string()]);
    assert!(paths(r#"type set AND contains "admin""#).contains(&"/d/set".into()));
    assert!(paths(r#"type list AND contains "login""#).contains(&"/d/l".into()));
}

#[test]
fn at_and_key_and_size() {
    assert!(paths(r#"type list AND at 0 = "login""#).contains(&"/d/l".into()));
    assert!(paths("type tree AND key >= 15").contains(&"/d/t".into()));
    assert!(paths("type set AND size = 2").contains(&"/d/set".into()));
}

#[test]
fn name_glob_and_not() {
    assert!(paths(r#"name "*.bak""#).contains(&"/d/tmp.bak".into()));
    let got = paths("NOT type scalar");
    assert!(got.contains(&"/d/h".into()));
    assert!(!got.contains(&"/d/s".into()));
}

#[test]
fn wrong_type_is_no_match() {
    assert!(paths(r#"path /d/s AND has "x""#).is_empty());
    assert!(paths(r#"path /d/s AND at 0 = 1"#).is_empty());
    assert!(paths(r#"path /d/s AND key = 1"#).is_empty());
}

#[test]
fn boolean_composition() {
    let got = paths(r#"type int OR type bool"#);
    assert!(got.contains(&"/d/i".into()));
    assert!(got.contains(&"/d/b".into()));
    let got = paths(r#"type hash AND has "email" AND path /d/**"#);
    assert_eq!(got, vec!["/d/h".to_string()]);
}

#[test]
fn parse_simple() {
    let e = parse_query(r#"path /users/** AND type hash AND has "email""#, &vec![]).unwrap();
    assert!(matches!(e, Expr::And(_, _)));
}

#[test]
fn parse_not_or() {
    let e = parse_query(r#"NOT type scalar OR name "*.tmp""#, &vec![]).unwrap();
    assert!(matches!(e, Expr::Or(_, _)));
}

#[test]
fn parse_size() {
    let e = parse_query("size > 0", &vec![]).unwrap();
    match e {
        Expr::Pred(Predicate::SizeCmp(CmpOp::Gt, 0)) => {}
        other => panic!("{other:?}"),
    }
}

#[test]
fn parse_error_is_reported() {
    let db = golden_db();
    match execute(&db, "type", &vec![]) {
        Err(EvalError::Parse(e)) => assert!(!e.message.is_empty()),
        other => panic!("{other:?}"),
    }
    assert!(parse_query("path /a AND", &vec![]).is_err());
    assert!(parse_query("bogus 1", &vec![]).is_err());
}

#[test]
fn hits_carry_type_labels_in_walk_order() {
    let db = golden_db();
    let hits = execute(&db, "path /d/*", &vec![]).unwrap();
    let got: Vec<(String, String)> = hits.iter().map(|h| (h.path.as_str(), h.typename.clone())).collect();
    assert_eq!(got[0], ("/d/b".to_string(), "bool".to_string()));
    assert!(got.contains(&("/d/h".to_string(), "hash".to_string())));
    let all = execute(&db, "NOT name \"zzz\"", &vec![]).unwrap();
    assert_eq!(all[0].path.as_str(), "/");
    assert_eq!(all[0].typename, "directory");
}

#[test]
fn glob_star_and_question_mark() {
    assert!(glob_match("*.bak", "tmp.bak"));
    assert!(glob_match("a?c", "abc"));
    assert!(!glob_match("a?c", "ac"));
    assert!(glob_match("*", ""));
    assert!(!glob_match("x*", "yx"));
}

#[test]
fn size_of_string_counts_bytes() {
    let mut db = Database::open(MemoryStorage::new()).unwrap();
    db.set(&p("/e"), Value::string("é")).unwrap();
    let hits = execute(&db, "size = 2", &vec![]).unwrap();
    assert_eq!(hits.len(), 1);
    assert_eq!(hits[0].path.as_str(), "/e");
}

#[test]
fn float_literal_takes_bits_from_table() {
    let mut db = Database::open(MemoryStorage::new()).unwrap();
    let bits = 2.5f64.to_bits();
    db.set(&p("/f"), Value::Scalar(Scalar::Float(bits))).unwrap();
    let hits = execute(&db, "value = 2.5", &vec![("2.5".to_string(), bits)]).unwrap();
    assert_eq!(hits.len(), 1);
}

#[test]
fn string_values_match_as_globs() {
    assert_eq!(paths(r#"value = "hel*""#), vec!["/d/s".to_string()]);
    assert_eq!(paths(r#"value = "h?llo""#), vec!["/d/s".to_string()]);
    assert!(paths(r#"value = "hel""#).is_empty());
    assert!(!paths(r#"value != "hel*""#).contains(&"/d/s".to_string()));
}

#[test]
fn type_query_sees_transaction_writes() {
    let mut db = Database::open(MemoryStorage::new()).unwrap();
    db.apply_txn(&[
        TxnOp::Mkdir { path: p("/a") },
        TxnOp::SetValue { path: p("/a/x"), value: Value::integer(1) },
    ])
    .unwrap();
    assert_eq!(db.paths_with_type("int").unwrap(), vec![p("/a/x")]);
    let hits = execute(&db, "type int", &vec![]).unwrap();
    assert_eq!(hits.len(), 1);
    assert_eq!(hits[0].path.as_str(), "/a/x");
    db.apply_txn(&[TxnOp::Delete { path: p("/a/x") }]).unwrap();
    assert!(db.paths_with_type("int").unwrap().is_empty());
    assert!(execute(&db, "type int", &vec![]).unwrap().is_empty());
}
