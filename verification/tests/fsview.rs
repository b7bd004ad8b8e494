use alefsdb::db::{Database, EntryKind};
use alefsdb::fsview::{
    child_path, format_member_hint, fs_commit, fs_create, fs_getattr, fs_getxattr, fs_lookup, fs_mkdir,
    fs_read, fs_readdir, fs_unlink, node_attr, parse_scalar_text, project_child_bytes,
    project_child_value, project_listing, project_unlink, read_window, scalar_bytes, set_member_name,
    type_xattr, FsError, NodeKind,
};
use alefsdb::path::DbPath;
use alefsdb::storage::MemoryStorage;
use alefsdb::value::{Scalar, ScalarMap, StrMap, Value};

fn p(s: &str) -> DbPath {
    DbPath::parse(s).unwrap()
}

fn sample() -> Database<MemoryStorage> {
    let mut db = Database::open(MemoryStorage::new()).unwrap();
    db.mkdir(&p("/d")).unwrap();
    db.set(&p("/d/x"), Value::string("hello")).unwrap();
    let mut h = StrMap::new();
    h.insert("name".to_string(), Value::string("ann"));
    h.insert("tags".to_string(), Value::List(vec![]));
    db.set(&p("/d/h"), Value::Hash(h)).unwrap();
    db.set(&p("/d/l"), Value::List(vec![Value::integer(7), Value::null()])).unwrap();
    db
}

#[test]
fn scalars_show_as_their_text() {
    assert_eq!(scalar_bytes(&Scalar::Int(-5), &vec![]), b"-5".to_vec());
    assert_eq!(scalar_bytes(&Scalar::Bool(false), &vec![]), b"false".to_vec());
    assert_eq!(scalar_bytes(&Scalar::Null, &vec![]), b"null".to_vec());
    assert_eq!(scalar_bytes(&Scalar::Bytes(vec![0, 255]), &vec![]), vec![0, 255]);
    let bits = 2.0f64.to_bits();
    assert_eq!(scalar_bytes(&Scalar::Float(bits), &vec![(bits, "2".to_string())]), b"2".to_vec());
}

#[test]
fn written_text_keeps_the_type() {
    assert_eq!(parse_scalar_text(&Scalar::Int(0), b" 12\n", &vec![]), Ok(Scalar::Int(12)));
    assert_eq!(parse_scalar_text(&Scalar::Int(0), b"x", &vec![]), Err(()));
    assert_eq!(parse_scalar_text(&Scalar::Bool(false), b"1", &vec![]), Ok(Scalar::Bool(true)));
    assert_eq!(parse_scalar_text(&Scalar::Null, b"  ", &vec![]), Ok(Scalar::Null));
    assert_eq!(parse_scalar_text(&Scalar::String(String::new()), b" a ", &vec![]), Ok(Scalar::String(" a ".to_string())));
    assert_eq!(parse_scalar_text(&Scalar::String(String::new()), &[0xff], &vec![]), Err(()));
    assert_eq!(parse_scalar_text(&Scalar::Bytes(vec![]), &[0xff], &vec![]), Ok(Scalar::Bytes(vec![0xff])));
}

#[test]
fn structure_members_as_files() {
    let mut h = StrMap::new();
    h.insert("k".to_string(), Value::integer(1));
    let hv = Value::Hash(h);
    assert_eq!(project_child_value(&hv, "k"), Some(Value::integer(1)));
    assert_eq!(project_child_value(&hv, "zz"), None);
    let lv = Value::List(vec![Value::string("a"), Value::string("b")]);
    assert_eq!(project_child_value(&lv, "1"), Some(Value::string("b")));
    assert_eq!(project_child_value(&lv, "+0"), Some(Value::string("a")));
    assert_eq!(project_child_value(&lv, "2"), None);
    assert_eq!(project_child_bytes(&lv, "0", &vec![]), Some(b"a".to_vec()));
    let mut t = ScalarMap::new();
    t.insert(Scalar::Int(5), Value::string("five"));
    t.insert(Scalar::String("5x".to_string()), Value::string("str"));
    let tv = Value::Tree(t);
    assert_eq!(project_child_value(&tv, "5"), Some(Value::string("five")));
    assert_eq!(project_child_value(&tv, "5x"), Some(Value::string("str")));
    let sv = Value::SetOf(vec![Value::string("m")]);
    let name = set_member_name(&Value::string("m"));
    assert_eq!(name.len(), 16);
    assert_eq!(project_child_value(&sv, &name), Some(Value::string("m")));
}

#[test]
fn unlinking_members() {
    let lv = Value::List(vec![Value::integer(1), Value::integer(2), Value::integer(3)]);
    assert_eq!(project_unlink(lv, "1"), Some(Value::List(vec![Value::integer(1), Value::integer(3)])));
    let lv = Value::List(vec![Value::integer(1)]);
    assert_eq!(project_unlink(lv, "5"), None);
    let mut t = ScalarMap::new();
    t.insert(Scalar::Int(5), Value::null());
    assert_eq!(project_unlink(Value::Tree(t), "6"), None);
    let sv = Value::SetOf(vec![Value::string("m"), Value::string("n")]);
    let name = set_member_name(&Value::string("m"));
    assert_eq!(project_unlink(sv, &name), Some(Value::SetOf(vec![Value::string("n")])));
    assert_eq!(project_unlink(Value::integer(1), "x"), None);
}

#[test]
fn listings_of_structures() {
    let lv = Value::List(vec![Value::integer(1), Value::List(vec![])]);
    assert_eq!(
        project_listing(&lv),
        vec![("0".to_string(), NodeKind::RegularFile), ("1".to_string(), NodeKind::Directory)]
    );
    let mut t = ScalarMap::new();
    t.insert(Scalar::Bool(true), Value::null());
    t.insert(Scalar::Int(-2), Value::null());
    t.insert(Scalar::Bytes(vec![1, 2]), Value::null());
    let names: Vec<String> = project_listing(&Value::Tree(t)).into_iter().map(|e| e.0).collect();
    assert!(names.contains(&"Bool(true)".to_string()));
    assert!(names.contains(&"-2".to_string()));
    assert!(names.contains(&"Bytes([1, 2])".to_string()));
}

#[test]
fn labels_and_hints() {
    assert_eq!(type_xattr(None, EntryKind::Directory), "directory");
    assert_eq!(type_xattr(Some(&Value::integer(1)), EntryKind::Value), "int");
    assert_eq!(type_xattr(None, EntryKind::Value), "unknown");
    assert_eq!(format_member_hint(&Value::bytes(vec![1]), &vec![]), "bytes[1]");
    assert_eq!(format_member_hint(&Value::List(vec![]), &vec![]), "<list>");
    assert_eq!(node_attr(EntryKind::Value, Some(&Value::string("abc")), &vec![]), (NodeKind::RegularFile, 3));
    assert_eq!(node_attr(EntryKind::Value, Some(&Value::List(vec![])), &vec![]), (NodeKind::Directory, 0));
    assert_eq!(child_path("/", "a"), "/a");
    assert_eq!(child_path("/a", "b"), "/a/b");
}

#[test]
fn read_windows() {
    assert_eq!(read_window(b"hello", 1, 3), b"ell".to_vec());
    assert_eq!(read_window(b"hello", 4, 10), b"o".to_vec());
    assert_eq!(read_window(b"hello", 5, 1), Vec::<u8>::new());
    assert_eq!(read_window(b"hello", -1, 1), Vec::<u8>::new());
}

#[test]
fn file_system_reads() {
    let db = sample();
    assert_eq!(fs_lookup(&db, "/d", "x", &vec![]), Ok(("/d/x".to_string(), NodeKind::RegularFile, 5)));
    assert_eq!(fs_lookup(&db, "/d/h", "name", &vec![]), Ok(("/d/h/name".to_string(), NodeKind::RegularFile, 3)));
    assert_eq!(fs_lookup(&db, "/d", "nope", &vec![]), Err(FsError::NotFound));
    assert_eq!(fs_getattr(&db, "/d/h", &vec![]), Ok((NodeKind::Directory, 0)));
    assert_eq!(fs_getattr(&db, "/d/l/0", &vec![]), Ok((NodeKind::RegularFile, 1)));
    assert_eq!(fs_read(&db, "/d/x", 0, 100, &vec![]), Ok(b"hello".to_vec()));
    assert_eq!(fs_read(&db, "/d/h/name", 1, 100, &vec![]), Ok(b"nn".to_vec()));
    assert_eq!(fs_read(&db, "/d", 0, 100, &vec![]), Err(FsError::IsDirectory));
    assert_eq!(
        fs_readdir(&db, "/d"),
        Ok(vec![
            ("h".to_string(), NodeKind::Directory),
            ("l".to_string(), NodeKind::Directory),
            ("x".to_string(), NodeKind::RegularFile),
        ])
    );
    assert_eq!(
        fs_readdir(&db, "/d/h"),
        Ok(vec![("name".to_string(), NodeKind::RegularFile), ("tags".to_string(), NodeKind::Directory)])
    );
    assert_eq!(fs_getxattr(&db, "/d/h", "user.alefs.type", &vec![]), Ok("hash".to_string()));
    assert_eq!(fs_getxattr(&db, "/d/h/name", "user.alefs.type", &vec![]), Ok("string".to_string()));
    assert_eq!(fs_getxattr(&db, "/d/x", "user.other", &vec![]), Err(FsError::NoData));
}

#[test]
fn file_system_changes() {
    let mut db = sample();
    assert_eq!(fs_mkdir(&mut db, "/d", "sub"), Ok("/d/sub".to_string()));
    assert_eq!(fs_create(&mut db, "/d/h", "new"), Ok("/d/h/new".to_string()));
    assert_eq!(fs_read(&db, "/d/h/new", 0, 10, &vec![]), Ok(Vec::new()));
    assert_eq!(fs_commit(&mut db, "/d/h/new", b"filled", &vec![]), Ok(()));
    assert_eq!(fs_read(&db, "/d/h/new", 0, 10, &vec![]), Ok(b"filled".to_vec()));
    assert_eq!(fs_commit(&mut db, "/d/x", b"world", &vec![]), Ok(()));
    assert_eq!(db.get(&p("/d/x")).unwrap().value, Some(Value::string("world")));
    assert_eq!(fs_commit(&mut db, "/d/h", b"x", &vec![]), Err(FsError::NotPermitted));
    assert_eq!(fs_unlink(&mut db, "/d/h", "name"), Ok(()));
    assert_eq!(fs_lookup(&db, "/d/h", "name", &vec![]), Err(FsError::NotFound));
    assert_eq!(fs_unlink(&mut db, "/d", "x"), Ok(()));
    assert!(!db.exists_path(&p("/d/x")).unwrap());
    assert_eq!(fs_create(&mut db, "/d", "y"), Ok("/d/y".to_string()));
    assert_eq!(db.get(&p("/d/y")).unwrap().value, Some(Value::string("")));
}

#[test]
fn unlink_removes_a_string_tree_key_that_reads_as_a_number() {
    let mut t = ScalarMap::new();
    t.insert(Scalar::String("10".to_string()), Value::integer(1));
    assert_eq!(project_unlink(Value::Tree(t), "10"), Some(Value::Tree(ScalarMap::new())));
    let mut both = ScalarMap::new();
    both.insert(Scalar::String("10".to_string()), Value::integer(1));
    both.insert(Scalar::Int(10), Value::integer(2));
    let mut left = ScalarMap::new();
    left.insert(Scalar::String("10".to_string()), Value::integer(1));
    assert_eq!(project_unlink(Value::Tree(both), "10"), Some(Value::Tree(left)));
}

#[test]
fn shown_scalar_text_reads_back_as_the_same_scalar() {
    for x in [
        Scalar::Null,
        Scalar::Bool(true),
        Scalar::Bool(false),
        Scalar::Int(-42),
        Scalar::Int(i64::MIN),
        Scalar::String("hello".to_string()),
        Scalar::Bytes(vec![1, 2, 255]),
    ] {
        let shown = scalar_bytes(&x, &vec![]);
        assert_eq!(parse_scalar_text(&x, &shown, &vec![]), Ok(x.clone()));
    }
}
