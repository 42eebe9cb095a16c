use guest_abi::codec::encode_value;
use guest_abi::codec::parse_document;
use guest_abi::value::Value;

fn obj(members: Vec<(&str, Value)>) -> Value {
    Value::Object(
        members
            .into_iter()
            .map(|(k, v)| (k.as_bytes().to_vec(), v))
            .collect(),
    )
}

#[test]
fn encodes_scalars_canonically() {
    assert_eq!(encode_value(&Value::Null), b"null".to_vec());
    assert_eq!(encode_value(&Value::Bool(true)), b"true".to_vec());
    assert_eq!(encode_value(&Value::Bool(false)), b"false".to_vec());
    assert_eq!(encode_value(&Value::Int(0)), b"0".to_vec());
    assert_eq!(encode_value(&Value::Int(42)), b"42".to_vec());
    assert_eq!(encode_value(&Value::Int(-7)), b"-7".to_vec());
    assert_eq!(
        encode_value(&Value::Int(i64::MAX)),
        b"9223372036854775807".to_vec()
    );
    assert_eq!(
        encode_value(&Value::Int(i64::MIN)),
        b"-9223372036854775808".to_vec()
    );
}

#[test]
fn encodes_string_escapes() {
    let v = Value::Str(b"a\"b\\c\n\t\x01".to_vec());
    assert_eq!(encode_value(&v), b"\"a\\\"b\\\\c\\n\\t\\u0001\"".to_vec());
}

#[test]
fn encodes_containers() {
    let v = Value::List(vec![Value::Int(1), Value::Null, Value::Str(b"x".to_vec())]);
    assert_eq!(encode_value(&v), b"[1,null,\"x\"]".to_vec());
    let o = obj(vec![("a", Value::Int(1)), ("b", Value::List(vec![]))]);
    assert_eq!(encode_value(&o), b"{\"a\":1,\"b\":[]}".to_vec());
}

#[test]
fn parses_documents_with_whitespace() {
    let parsed = parse_document(b" { \"a\" : [ 1 , 2 , null ] , \"b\" : \"x\" } \n").unwrap();
    let expected = obj(vec![
        (
            "a",
            Value::List(vec![Value::Int(1), Value::Int(2), Value::Null]),
        ),
        ("b", Value::Str(b"x".to_vec())),
    ]);
    assert_eq!(parsed, expected);
}

#[test]
fn parses_escapes() {
    let parsed = parse_document(b"\"a\\\"\\\\\\/\\n\\t\\r\\b\\f\\u0041\\u0009\"").unwrap();
    assert_eq!(parsed, Value::Str(b"a\"\\/\n\t\r\x08\x0CA\t".to_vec()));
}

#[test]
fn round_trips_nested_values() {
    let v = obj(vec![
        ("id", Value::Str(b"/a".to_vec())),
        ("n", Value::Int(-12034)),
        (
            "items",
            Value::List(vec![
                Value::Bool(false),
                obj(vec![("deep", Value::Null)]),
                Value::Str("h\u{00e9}llo \u{2603}".as_bytes().to_vec()),
            ]),
        ),
    ]);
    let bytes = encode_value(&v);
    assert_eq!(parse_document(&bytes), Some(v));
}

#[test]
fn round_trips_integer_extremes() {
    for i in [i64::MIN, i64::MIN + 1, -1, 0, 1, i64::MAX - 1, i64::MAX] {
        let bytes = encode_value(&Value::Int(i));
        assert_eq!(parse_document(&bytes), Some(Value::Int(i)));
    }
}

#[test]
fn rejects_malformed_documents() {
    assert_eq!(parse_document(b""), None);
    assert_eq!(parse_document(b"tru"), None);
    assert_eq!(parse_document(b"nul"), None);
    assert_eq!(parse_document(b"01"), None);
    assert_eq!(parse_document(b"-"), None);
    assert_eq!(parse_document(b"1.5"), None);
    assert_eq!(parse_document(b"[1,]"), None);
    assert_eq!(parse_document(b"[1 2]"), None);
    assert_eq!(parse_document(b"{\"a\":1"), None);
    assert_eq!(parse_document(b"{\"a\" 1}"), None);
    assert_eq!(parse_document(b"\"unterminated"), None);
    assert_eq!(parse_document(b"\"bad\\escape\""), None);
    assert_eq!(parse_document(b"null junk"), None);
    // one past the 64-bit range in either direction
    assert_eq!(parse_document(b"9223372036854775808"), None);
    assert_eq!(parse_document(b"-9223372036854775809"), None);
}

#[test]
fn keeps_repeated_keys_in_order() {
    let parsed = parse_document(b"{\"a\":1,\"a\":2}").unwrap();
    let expected = obj(vec![("a", Value::Int(1)), ("a", Value::Int(2))]);
    assert_eq!(parsed, expected);
}

#[test]
fn builds_text_values_from_strings() {
    assert_eq!(Value::text("hi"), Value::Str(b"hi".to_vec()));
    let encoded = encode_value(&Value::text("Hello, World!"));
    assert_eq!(encoded, b"\"Hello, World!\"".to_vec());
}
