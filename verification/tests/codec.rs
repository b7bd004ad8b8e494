use alefsdb::codec::{decode, encode, CodecError};
use alefsdb::value::{Scalar, ScalarMap, StrMap, Value};

fn rt(v: &Value) -> Value {
    decode(&encode(v)).expect("round-trip")
}

#[test]
fn round_trip_scalars() {
    assert_eq!(rt(&Value::null()), Value::null());
    assert_eq!(rt(&Value::bool(true)), Value::bool(true));
    assert_eq!(rt(&Value::bool(false)), Value::bool(false));
    assert_eq!(rt(&Value::integer(-42)), Value::integer(-42));
    let f = Value::Scalar(Scalar::Float(1.5f64.to_bits()));
    assert_eq!(rt(&f), Value::Scalar(Scalar::Float(1.5f64.to_bits())));
    assert_eq!(rt(&Value::string("hi")), Value::string("hi"));
    assert_eq!(rt(&Value::bytes(vec![0, 1, 2])), Value::bytes(vec![0, 1, 2]));
}

#[test]
fn float_equality_is_by_bits() {
    let nan1 = Value::Scalar(Scalar::Float(f64::NAN.to_bits()));
    let nan2 = Value::Scalar(Scalar::Float(f64::NAN.to_bits()));
    assert_eq!(encode(&nan1), encode(&nan2));
    assert_eq!(rt(&nan1.deep_clone()), nan2);
}

#[test]
fn round_trip_list_and_hash() {
    let mut map = StrMap::new();
    map.insert("b".to_string(), Value::integer(2));
    map.insert("a".to_string(), Value::integer(1));
    let v = Value::List(vec![Value::Hash(map), Value::string("x")]);
    assert_eq!(rt(&v.deep_clone()), v);
}

#[test]
fn hash_encoding_is_key_order_independent() {
    let mut a = StrMap::new();
    a.insert("z".to_string(), Value::integer(1));
    a.insert("a".to_string(), Value::integer(2));
    let mut b = StrMap::new();
    b.insert("a".to_string(), Value::integer(2));
    b.insert("z".to_string(), Value::integer(1));
    assert_eq!(encode(&Value::Hash(a)), encode(&Value::Hash(b)));
}

#[test]
fn set_dedupes_and_orders_by_encoding() {
    let v = Value::SetOf(vec![
        Value::integer(2),
        Value::integer(1),
        Value::integer(2),
        Value::string("a"),
    ]);
    let decoded = rt(&v);
    match decoded {
        Value::SetOf(members) => {
            assert_eq!(members.len(), 3);
            assert_eq!(members[0], Value::integer(1));
            assert_eq!(members[1], Value::integer(2));
            assert_eq!(members[2], Value::string("a"));
        }
        other => panic!("expected set, got {other:?}"),
    }
}

#[test]
fn round_trip_tree() {
    let mut map = ScalarMap::new();
    map.insert(Scalar::Int(1), Value::string("one"));
    map.insert(Scalar::String("k".into()), Value::bool(true));
    let v = Value::Tree(map);
    assert_eq!(rt(&v.deep_clone()), v);
}

#[test]
fn rejects_bad_version() {
    let mut bytes = encode(&Value::integer(1));
    bytes[0] = 99;
    assert!(matches!(decode(&bytes), Err(CodecError::UnsupportedVersion(99))));
}

#[test]
fn rejects_empty() {
    assert_eq!(decode(&[]), Err(CodecError::EmptyInput));
}

#[test]
fn encode_is_deterministic_for_nested() {
    let v = Value::List(vec![Value::SetOf(vec![Value::integer(3), Value::integer(1)]), Value::null()]);
    assert_eq!(encode(&v), encode(&v));
    assert_eq!(rt(&v.deep_clone()), rt(&v));
}

#[test]
fn integer_layout_is_tag_then_little_endian() {
    let bytes = encode(&Value::integer(1));
    assert_eq!(bytes.len(), 10);
    assert_eq!(bytes[0], 1);
    assert_eq!(bytes[1], 2);
    assert_eq!(&bytes[2..], &[1, 0, 0, 0, 0, 0, 0, 0]);
}

#[test]
fn decode_errors_name_their_cause() {
    assert_eq!(decode(&[1]), Err(CodecError::UnexpectedEof));
    assert_eq!(decode(&[1, 0xee]), Err(CodecError::UnknownTag(0xee)));
    let mut bytes = encode(&Value::null());
    bytes.push(0);
    assert_eq!(decode(&bytes), Err(CodecError::TrailingBytes));
}

#[test]
fn tree_encoding_is_key_order_independent() {
    let mut a = ScalarMap::new();
    a.insert(Scalar::Int(10), Value::string("ten"));
    a.insert(Scalar::String("k".to_string()), Value::null());
    a.insert(Scalar::Int(-3), Value::bool(true));
    let mut b = ScalarMap::new();
    b.insert(Scalar::Int(-3), Value::bool(true));
    b.insert(Scalar::Int(10), Value::string("ten"));
    b.insert(Scalar::String("k".to_string()), Value::null());
    assert_eq!(encode(&Value::Tree(a)), encode(&Value::Tree(b)));
}

#[test]
fn set_encoding_ignores_member_order_and_repeats() {
    let a = Value::SetOf(vec![Value::string("a"), Value::integer(2), Value::integer(1)]);
    let b = Value::SetOf(vec![
        Value::integer(1),
        Value::integer(2),
        Value::integer(1),
        Value::string("a"),
        Value::string("a"),
    ]);
    assert_eq!(encode(&a), encode(&b));
}

#[test]
fn extra_bytes_after_any_value_are_refused() {
    for v in [Value::null(), Value::integer(7), Value::string("s"), Value::List(vec![Value::bool(true)])] {
        let mut b = encode(&v);
        b.push(0);
        assert_eq!(decode(&b), Err(CodecError::TrailingBytes));
        b.push(9);
        assert_eq!(decode(&b), Err(CodecError::TrailingBytes));
    }
}

#[test]
fn decoded_maps_come_out_sorted() {
    // A hash written with its keys out of order, and "b" twice.
    let mut b = vec![1u8, 0x10, 3, 0, 0, 0];
    for (k, n) in [("b", 1u8), ("a", 2u8), ("b", 3u8)] {
        b.extend_from_slice(&[1, 0, 0, 0]);
        b.extend_from_slice(k.as_bytes());
        b.extend_from_slice(&[0x02, n, 0, 0, 0, 0, 0, 0, 0]);
    }
    let v = decode(&b).unwrap();
    let mut expect = StrMap::new();
    expect.insert("a".to_string(), Value::integer(2));
    expect.insert("b".to_string(), Value::integer(3));
    // Equal maps hold their entries in the same order: sorted by key.
    assert_eq!(v, Value::Hash(expect));
}
