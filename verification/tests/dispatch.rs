use guest_abi::arena::allocate;
use guest_abi::arena::leak_bytes;
use guest_abi::arena::read_bytes;
use guest_abi::arena::write_bytes;
use guest_abi::arena::Arena;
use guest_abi::dispatch::dispatch_get;
use guest_abi::dispatch::respond_bytes;
use guest_abi::dispatch::try_dispatch_get;
use guest_abi::dispatch::BasicTxn;
use guest_abi::dispatch::HandleGet;
use guest_abi::dispatch::TxnHeader;
use guest_abi::dispatch::WasmTransaction;
use guest_abi::error::Error;
use guest_abi::value::Value;

struct HelloHandler;

impl HandleGet<BasicTxn, String, String> for HelloHandler {
    fn get(&self, _txn: &BasicTxn, _request: String) -> Result<String, Error> {
        Ok("Hello, World!".to_string())
    }
}

struct EchoHandler;

impl HandleGet<BasicTxn, Value, Value> for EchoHandler {
    fn get(&self, _txn: &BasicTxn, request: Value) -> Result<Value, Error> {
        Ok(request)
    }
}

struct FailingHandler;

impl HandleGet<BasicTxn, String, String> for FailingHandler {
    fn get(&self, _txn: &BasicTxn, _request: String) -> Result<String, Error> {
        Err(Error::bad_request("the record does not exist"))
    }
}

struct RejectingTxn;

impl WasmTransaction for RejectingTxn {
    fn from_wasm_header(_header: TxnHeader) -> Result<RejectingTxn, Error> {
        Err(Error::bad_request("malformed claim"))
    }
}

impl HandleGet<RejectingTxn, String, String> for HelloHandler {
    fn get(&self, _txn: &RejectingTxn, _request: String) -> Result<String, Error> {
        Ok("unreachable".to_string())
    }
}

fn write_block(arena: &mut Arena, bytes: &[u8]) -> (i32, i32) {
    leak_bytes(arena, bytes.to_vec())
}

#[test]
fn empty_header_yields_the_missing_header_payload() {
    let mut arena = Arena::new();
    let (bp, bl) = write_block(&mut arena, b"\"ignored body\"");
    let (p, l) =
        dispatch_get::<_, BasicTxn, String, String>(&HelloHandler, &mut arena, 0, 0, bp, bl);
    assert!(p > 0);
    assert_eq!(
        read_bytes(&arena, p, l),
        b"{\"error\":\"missing transaction header\"}".to_vec()
    );
}

#[test]
fn unreadable_header_yields_the_header_error_payload() {
    let mut arena = Arena::new();
    let (hp, hl) = write_block(&mut arena, b"not a document");
    let (p, l) =
        dispatch_get::<_, BasicTxn, String, String>(&HelloHandler, &mut arena, hp, hl, 0, 0);
    assert_eq!(
        read_bytes(&arena, p, l),
        b"{\"error\":\"unable to decode the transaction header\"}".to_vec()
    );
}

#[test]
fn successful_call_returns_the_encoded_response() {
    let mut arena = Arena::new();
    let (hp, hl) = write_block(&mut arena, b"{\"id\":\"/txn/1\",\"time\":12}");
    let (p, l) =
        dispatch_get::<_, BasicTxn, String, String>(&HelloHandler, &mut arena, hp, hl, 0, 0);
    assert_eq!(read_bytes(&arena, p, l), b"\"Hello, World!\"".to_vec());
}

#[test]
fn handler_failure_returns_its_error_payload() {
    let mut arena = Arena::new();
    let (hp, hl) = write_block(&mut arena, b"{}");
    let (p, l) =
        dispatch_get::<_, BasicTxn, String, String>(&FailingHandler, &mut arena, hp, hl, 0, 0);
    assert_eq!(
        read_bytes(&arena, p, l),
        b"{\"error\":\"the record does not exist\"}".to_vec()
    );
}

#[test]
fn rejected_transaction_returns_its_error_payload() {
    let mut arena = Arena::new();
    let (hp, hl) = write_block(&mut arena, b"{}");
    let (p, l) =
        dispatch_get::<_, RejectingTxn, String, String>(&HelloHandler, &mut arena, hp, hl, 0, 0);
    assert_eq!(
        read_bytes(&arena, p, l),
        b"{\"error\":\"malformed claim\"}".to_vec()
    );
}

#[test]
fn undecodable_body_returns_its_error_payload() {
    let mut arena = Arena::new();
    let (hp, hl) = write_block(&mut arena, b"{}");
    let (bp, bl) = write_block(&mut arena, b"@@@");
    let (p, l) =
        dispatch_get::<_, BasicTxn, Value, Value>(&EchoHandler, &mut arena, hp, hl, bp, bl);
    assert_eq!(
        read_bytes(&arena, p, l),
        b"{\"error\":\"unable to decode the request body\"}".to_vec()
    );
}

#[test]
fn echoed_body_comes_back_canonically() {
    let mut arena = Arena::new();
    let (hp, hl) = write_block(&mut arena, b"{}");
    let (bp, bl) = write_block(&mut arena, b" { \"x\" : [ 1 , true ] } ");
    let (p, l) =
        dispatch_get::<_, BasicTxn, Value, Value>(&EchoHandler, &mut arena, hp, hl, bp, bl);
    assert_eq!(read_bytes(&arena, p, l), b"{\"x\":[1,true]}".to_vec());
}

#[test]
fn empty_body_reaches_the_handler_as_absent() {
    let mut arena = Arena::new();
    let (hp, hl) = write_block(&mut arena, b"{}");
    let (p, l) = dispatch_get::<_, BasicTxn, Value, Value>(&EchoHandler, &mut arena, hp, hl, 0, 0);
    assert_eq!(read_bytes(&arena, p, l), b"null".to_vec());
}

#[test]
fn try_dispatch_reports_the_error_itself() {
    let mut arena = Arena::new();
    let (bp, bl) = write_block(&mut arena, b"null");
    let r = try_dispatch_get::<_, BasicTxn, String, String>(&HelloHandler, &arena, 0, 0, bp, bl);
    let e = r.unwrap_err();
    assert_eq!(e.message().as_slice(), b"missing transaction header");
}

#[test]
fn try_dispatch_returns_the_encoded_response() {
    let mut arena = Arena::new();
    let (hp, hl) = write_block(&mut arena, b"{}");
    let r = try_dispatch_get::<_, BasicTxn, String, String>(&HelloHandler, &arena, hp, hl, 0, 0);
    assert_eq!(r.unwrap(), b"\"Hello, World!\"".to_vec());
}

#[test]
fn respond_wraps_a_failure_as_the_error_payload() {
    let out = respond_bytes(Err(Error::bad_request("boom")));
    assert_eq!(out, b"{\"error\":\"boom\"}".to_vec());
}

#[test]
fn respond_passes_success_bytes_through() {
    let out = respond_bytes(Ok(b"\"fine\"".to_vec()));
    assert_eq!(out, b"\"fine\"".to_vec());
}

#[test]
fn host_flow_allocate_write_dispatch() {
    let mut arena = Arena::new();
    let header = b"{\"id\":\"/txn/2\"}";
    let hp = allocate(&mut arena, header.len() as i32);
    write_bytes(&mut arena, hp, header);
    let (p, l) = dispatch_get::<_, BasicTxn, String, String>(
        &HelloHandler,
        &mut arena,
        hp,
        header.len() as i32,
        0,
        0,
    );
    assert_eq!(read_bytes(&arena, p, l), b"\"Hello, World!\"".to_vec());
}
