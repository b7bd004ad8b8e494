use alefsdb::db::Database;
use alefsdb::server::{dispatch, format_value, parse_value, render_response, ListEntry, Mutation, Request, Response};
use alefsdb::storage::MemoryStorage;
use alefsdb::value::{Scalar, Value};
use alefsdb::wire::{
    default_socket_path, encode_frame, frame_length, header_outcome, payload_outcome, read_message, write_message,
    ClientError, ReadStatus, ServeError,
};

fn db() -> Database<MemoryStorage> {
    Database::open(MemoryStorage::new()).unwrap()
}

fn req_set(path: &str, ty: &str, value: &str) -> Request {
    Request::SetValue { path: path.into(), typename: ty.into(), value: value.into() }
}

#[test]
fn framing_roundtrip() {
    let mut buf = Vec::new();
    write_message(&mut buf, b"hello").unwrap();
    let mut cur = std::io::Cursor::new(buf);
    let msg = read_message(&mut cur).unwrap().unwrap();
    assert_eq!(msg, b"hello");
}

#[test]
fn framing_end_of_stream_and_oversize() {
    let mut empty = std::io::Cursor::new(Vec::<u8>::new());
    assert_eq!(read_message(&mut empty).unwrap(), None);
    let frame = encode_frame(b"abc");
    assert_eq!(frame, vec![3, 0, 0, 0, b'a', b'b', b'c']);
    assert_eq!(frame_length(&[3, 0, 0, 0]).unwrap(), 3);
    assert_eq!(
        frame_length(&[0, 0, 0, 0x10]),
        Err(ServeError::Internal("message too large".to_string()))
    );
    let mut short = std::io::Cursor::new(vec![5u8, 0, 0, 0, 1]);
    assert!(matches!(read_message(&mut short), Err(ServeError::Io(_))));
}

#[test]
fn dispatch_mkdir_set_get() {
    let mut d = db();
    let floats = vec![];
    let texts = vec![];
    let r = dispatch(&mut d, Request::Mkdir { path: "/a".into() }, &floats, &texts);
    assert_eq!(r, Response::Success { message: "ok /a".into() });
    let r = dispatch(&mut d, req_set("/a/x", "string", "hi"), &floats, &texts);
    assert!(matches!(r, Response::Success { .. }), "{r:?}");
    let r = dispatch(&mut d, Request::Get { path: "/a/x".into() }, &floats, &texts);
    assert_eq!(r, Response::Value { typename: "string".into(), display: "hi".into() });
    let r = dispatch(&mut d, Request::Get { path: "/a".into() }, &floats, &texts);
    assert_eq!(r, Response::Value { typename: "directory".into(), display: "/a".into() });
}

#[test]
fn dispatch_reports_errors_as_text() {
    let mut d = db();
    let r = dispatch(&mut d, Request::Get { path: "/missing".into() }, &vec![], &vec![]);
    assert_eq!(r, Response::Failure { message: "not found: /missing".into() });
    let r = dispatch(&mut d, Request::Mkdir { path: "rel".into() }, &vec![], &vec![]);
    assert_eq!(r, Response::Failure { message: "path must be absolute (start with /)".into() });
    let r = dispatch(&mut d, req_set("/x", "int", "12a"), &vec![], &vec![]);
    assert_eq!(r, Response::Failure { message: "invalid digit found in string".into() });
    let r = dispatch(&mut d, req_set("/x", "widget", "1"), &vec![], &vec![]);
    assert_eq!(r, Response::Failure { message: "unknown type widget".into() });
    let r = dispatch(&mut d, Request::Query { query: "type".into() }, &vec![], &vec![]);
    assert!(matches!(r, Response::Failure { ref message } if message.starts_with("parse error: ")), "{r:?}");
}

#[test]
fn dispatch_structures_listing_and_query() {
    let mut d = db();
    let f = vec![];
    let t = vec![];
    assert_eq!(dispatch(&mut d, Request::Ping, &f, &t), Response::Success { message: "pong".into() });
    dispatch(&mut d, Request::Mkdir { path: "/d".into() }, &f, &t);
    let r = dispatch(&mut d, Request::Hset { path: "/d/h".into(), key: "k".into(), typename: "int".into(), value: "7".into() }, &f, &t);
    assert_eq!(r, Response::Success { message: "ok".into() });
    dispatch(&mut d, Request::Lpush { path: "/d/l".into(), typename: "bool".into(), value: "true".into() }, &f, &t);
    dispatch(&mut d, Request::Sadd { path: "/d/s".into(), typename: "string".into(), value: "a".into() }, &f, &t);
    dispatch(&mut d, Request::Tset { path: "/d/t".into(), key: "5".into(), typename: "null".into(), value: "".into() }, &f, &t);
    let r = dispatch(&mut d, Request::Get { path: "/d/h".into() }, &f, &t);
    assert_eq!(r, Response::Value { typename: "hash".into(), display: "hash({1})".into() });
    let r = dispatch(&mut d, Request::Get { path: "/d/t".into() }, &f, &t);
    assert_eq!(r, Response::Value { typename: "tree".into(), display: "tree({1})".into() });
    let r = dispatch(&mut d, Request::Ls { path: "/d".into() }, &f, &t);
    assert_eq!(
        r,
        Response::List {
            entries: vec![
                ListEntry { name: "h".into(), kind: "val".into() },
                ListEntry { name: "l".into(), kind: "val".into() },
                ListEntry { name: "s".into(), kind: "val".into() },
                ListEntry { name: "t".into(), kind: "val".into() },
            ]
        }
    );
    match dispatch(&mut d, Request::Query { query: "type list".into() }, &f, &t) {
        Response::Query { hits } => {
            assert_eq!(hits.len(), 1);
            assert_eq!(hits[0].path, "/d/l");
            assert_eq!(hits[0].typename, "list");
        }
        other => panic!("{other:?}"),
    }
    let r = dispatch(&mut d, Request::Rm { path: "/d/l".into() }, &f, &t);
    assert_eq!(r, Response::Success { message: "ok /d/l".into() });
    assert_eq!(dispatch(&mut d, Request::Compact, &f, &t), Response::Success { message: "ok compacted".into() });
}

#[test]
fn dispatch_export_then_import() {
    let mut d = db();
    dispatch(&mut d, req_set("/x", "int", "3"), &vec![], &vec![]);
    let json = match dispatch(&mut d, Request::Export, &vec![], &vec![]) {
        Response::Export { json } => json,
        other => panic!("{other:?}"),
    };
    let mut d2 = db();
    let r = dispatch(&mut d2, Request::Import { json }, &vec![], &vec![]);
    assert_eq!(r, Response::Success { message: "ok imported".into() });
    let r = dispatch(&mut d2, Request::Get { path: "/x".into() }, &vec![], &vec![]);
    assert_eq!(r, Response::Value { typename: "int".into(), display: "3".into() });
}

#[test]
fn parse_value_by_type() {
    let none = vec![];
    assert_eq!(parse_value("bool", "true", &none), Ok(Value::bool(true)));
    assert_eq!(parse_value("bool", "yes", &none), Err("provided string was not `true` or `false`".to_string()));
    assert_eq!(parse_value("int", "-17", &none), Ok(Value::integer(-17)));
    assert_eq!(parse_value("int", "", &none), Err("cannot parse integer from empty string".to_string()));
    assert_eq!(parse_value("int", "99999999999999999999", &none), Err("number too large to fit in target type".to_string()));
    assert_eq!(parse_value("int", "-99999999999999999999", &none), Err("number too small to fit in target type".to_string()));
    assert_eq!(parse_value("int", "-", &none), Err("invalid digit found in string".to_string()));
    assert_eq!(parse_value("bytes", "ab", &none), Ok(Value::bytes(vec![b'a', b'b'])));
    assert_eq!(parse_value("float", "", &none), Err("cannot parse float from empty string".to_string()));
    assert_eq!(parse_value("float", "x", &none), Err("invalid float literal".to_string()));
    let bits = 0.5f64.to_bits();
    assert_eq!(parse_value("float", "0.5", &vec![("0.5".to_string(), bits)]), Ok(Value::Scalar(Scalar::Float(bits))));
    assert!(matches!(parse_value("set", "", &none), Ok(Value::SetOf(ref v)) if v.is_empty()));
}

#[test]
fn format_value_shows_scalars_and_sizes() {
    assert_eq!(format_value(&Value::integer(-3), &vec![]), "-3");
    assert_eq!(format_value(&Value::bytes(vec![1, 2, 3]), &vec![]), "bytes[3]");
    assert_eq!(format_value(&Value::List(vec![Value::null()]), &vec![]), "list[1]");
    assert_eq!(format_value(&Value::SetOf(vec![]), &vec![]), "set(0)");
    let bits = 1.25f64.to_bits();
    assert_eq!(format_value(&Value::Scalar(Scalar::Float(bits)), &vec![(bits, "1.25".to_string())]), "1.25");
}

#[test]
fn render_response_lines() {
    assert_eq!(render_response(&Response::Success { message: "ok".into() }), Ok("ok\n".to_string()));
    assert_eq!(
        render_response(&Response::Value { typename: "int".into(), display: "3".into() }),
        Ok("int 3\n".to_string())
    );
    assert_eq!(
        render_response(&Response::List { entries: vec![ListEntry { name: "a".into(), kind: "dir".into() }] }),
        Ok("dir\ta\n".to_string())
    );
    assert_eq!(render_response(&Response::Failure { message: "no".into() }), Err("no".to_string()));
}

#[test]
fn error_texts() {
    assert_eq!(ServeError::Io("x".into()).message(), "i/o: x");
    assert_eq!(ClientError::Protocol("bad".into()).message(), "protocol: bad");
    assert_eq!(ClientError::from_serve(ServeError::Internal("m".into())), ClientError::Io("m".into()));
    assert_eq!(default_socket_path("/var/db"), "/var/db/alefs.sock");
    assert_eq!(default_socket_path("/var/db/"), "/var/db/alefs.sock");
    assert_eq!(default_socket_path(""), "alefs.sock");
}

#[test]
fn batch_applies_all_or_nothing() {
    let mut d = db();
    let floats = vec![];
    let texts = vec![];
    let ops = vec![
        Mutation::Mkdir { path: "/acct".into() },
        Mutation::SetValue { path: "/acct/balance".into(), typename: "int".into(), value: "100".into() },
        Mutation::Hset { path: "/acct/meta".into(), key: "currency".into(), typename: "string".into(), value: "USD".into() },
    ];
    let r = dispatch(&mut d, Request::Batch { ops }, &floats, &texts);
    assert_eq!(r, Response::Success { message: "ok".into() });
    assert_eq!(d.get(&alefsdb::path::DbPath::parse("/acct/balance").unwrap()).unwrap().value, Some(Value::integer(100)));
    let bad = vec![
        Mutation::Mkdir { path: "/other".into() },
        Mutation::SetValue { path: "/missing/x".into(), typename: "int".into(), value: "1".into() },
    ];
    let r = dispatch(&mut d, Request::Batch { ops: bad }, &floats, &texts);
    assert!(matches!(r, Response::Failure { .. }));
    assert!(!d.exists_path(&alefsdb::path::DbPath::parse("/other").unwrap()).unwrap());
    let r = dispatch(
        &mut d,
        Request::Batch { ops: vec![Mutation::SetValue { path: "/acct/n".into(), typename: "int".into(), value: "x".into() }] },
        &floats,
        &texts,
    );
    assert!(matches!(r, Response::Failure { .. }));
}

#[test]
fn header_and_payload_outcomes() {
    let h = [5u8, 0, 0, 0];
    assert_eq!(header_outcome(&ReadStatus::Filled, &h), Ok(Some(5)));
    assert_eq!(header_outcome(&ReadStatus::EndOfStream("eof".into()), &h), Ok(None));
    assert_eq!(header_outcome(&ReadStatus::Failed("boom".into()), &h), Err(ServeError::Io("boom".into())));
    let big = [0u8, 0, 0, 5];
    assert_eq!(header_outcome(&ReadStatus::Filled, &big), Err(ServeError::Internal("message too large".into())));
    assert_eq!(payload_outcome(ReadStatus::Filled, vec![1, 2]), Ok(Some(vec![1, 2])));
    assert_eq!(payload_outcome(ReadStatus::EndOfStream("eof".into()), vec![0]), Err(ServeError::Io("eof".into())));
    assert_eq!(payload_outcome(ReadStatus::Failed("x".into()), vec![]), Err(ServeError::Io("x".into())));
}
