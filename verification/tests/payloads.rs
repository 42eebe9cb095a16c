use guest_abi::dispatch::WasmRequest;
use guest_abi::dispatch::WasmResponse;
use guest_abi::value::Value;

#[test]
fn empty_body_decodes_to_empty_text() {
    let r: Result<String, _> = WasmRequest::decode(b"");
    assert_eq!(r.unwrap(), String::new());
}

#[test]
fn empty_body_decodes_to_no_value() {
    let r: Result<Value, _> = WasmRequest::decode(b"");
    assert_eq!(r.unwrap(), Value::Null);
}

#[test]
fn text_scalar_body_decodes_to_its_text() {
    let r: Result<String, _> = WasmRequest::decode(b"\"hi there\"");
    assert_eq!(r.unwrap(), "hi there".to_string());
}

#[test]
fn non_text_document_body_decodes_to_its_rendering() {
    let r: Result<String, _> = WasmRequest::decode(b"{ \"a\" : 1 }");
    assert_eq!(r.unwrap(), "{\"a\":1}".to_string());
}

#[test]
fn unparsable_body_decodes_as_raw_text() {
    let r: Result<String, _> = WasmRequest::decode(b"plain old text");
    assert_eq!(r.unwrap(), "plain old text".to_string());
}

#[test]
fn invalid_utf8_body_is_a_text_decode_error() {
    let r: Result<String, _> = WasmRequest::decode(b"\xFF\xFE");
    let e = r.unwrap_err();
    let message = String::from_utf8(e.message().clone()).unwrap();
    // the error carries the underlying cause after the fixed prefix
    let cause = message.strip_prefix("invalid utf-8 string: ").unwrap();
    assert!(cause.contains("invalid utf-8 sequence"));
    assert!(cause.contains("index 0"));
}

#[test]
fn invalid_utf8_inside_text_scalar_is_an_error() {
    let r: Result<String, _> = WasmRequest::decode(b"\"\xFF\"");
    let e = r.unwrap_err();
    let message = String::from_utf8(e.message().clone()).unwrap();
    assert!(message.starts_with("invalid utf-8 string: "));
    assert!(message.len() > "invalid utf-8 string: ".len());
}

#[test]
fn structured_body_must_parse() {
    let r: Result<Value, _> = WasmRequest::decode(b"nonsense");
    let e = r.unwrap_err();
    assert_eq!(e.message().as_slice(), b"unable to decode the request body");
}

#[test]
fn structured_body_decodes_to_its_document() {
    let r: Result<Value, _> = WasmRequest::decode(b"[1,\"two\"]");
    assert_eq!(
        r.unwrap(),
        Value::List(vec![Value::Int(1), Value::Str(b"two".to_vec())])
    );
}

#[test]
fn text_encodes_as_a_text_scalar() {
    let r = "Hello, World!".to_string().encode();
    assert_eq!(r.unwrap(), b"\"Hello, World!\"".to_vec());
}

#[test]
fn unit_encodes_as_the_no_value_token() {
    let r = ().encode();
    assert_eq!(r.unwrap(), b"null".to_vec());
}

#[test]
fn value_round_trips_through_encode_and_decode() {
    let v = Value::Object(vec![
        (b"k".to_vec(), Value::List(vec![Value::Int(7)])),
        (b"t".to_vec(), Value::Str(b"x\ny".to_vec())),
    ]);
    let bytes = v.encode().unwrap();
    let back: Result<Value, _> = WasmRequest::decode(&bytes);
    let expected = Value::Object(vec![
        (b"k".to_vec(), Value::List(vec![Value::Int(7)])),
        (b"t".to_vec(), Value::Str(b"x\ny".to_vec())),
    ]);
    assert_eq!(back.unwrap(), expected);
}

#[test]
fn text_round_trips_through_encode_and_decode() {
    let s = "two words, a \"quote\", a \\ and a newline\nplus snow \u{2603}".to_string();
    let bytes = s.clone().encode().unwrap();
    let back: Result<String, _> = WasmRequest::decode(&bytes);
    assert_eq!(back.unwrap(), s);
}
