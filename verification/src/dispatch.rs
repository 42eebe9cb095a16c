//! The dispatcher: the generic call path across the boundary.
//!
//! The host hands a route's exported function two raw (pointer, length)
//! pairs — the transaction header and the request body.  The dispatcher
//! reads and decodes both, builds the guest's transaction context, invokes
//! the handler, and hands a single buffer back through the arena: the
//! encoded response on success, the encoded error payload on any failure.
//! The boundary has exactly one return shape; the host tells success from
//! failure only by the buffer's content.
//!
//! The transaction constructor and the handler are supplied by the guest
//! module, so the dispatcher's contract pins everything the library itself
//! decides — which inputs reach the handler, and the exact payload on each
//! of its own failure paths — and states of the handler's outcome that the
//! returned buffer is exactly its encoding.

use crate::arena::Arena;
use crate::arena::leak_bytes;
use crate::arena::read_bytes;
use crate::arena::spec_read;
use crate::codec::enc_doc;
use crate::codec::encode_value;
use crate::codec::lemma_esc_bytes_len;
use crate::codec::parse_doc;
use crate::codec::parse_document;
use crate::error::encode_error;
use crate::error::error_doc;
use crate::error::lemma_error_payload_len;
use crate::error::Error;
use crate::value::doc_of;
use crate::value::Doc;
use crate::value::Value;
use vstd::prelude::*;
use vstd::slice::slice_to_vec;
use vstd::string::StrSliceExecFns;
use vstd::utf8::decode_utf8;
use vstd::utf8::encode_utf8;
use vstd::utf8::encode_utf8_decode_utf8;
use vstd::utf8::encode_utf8_valid_utf8;
use vstd::utf8::valid_utf8;

verus! {

/// The text of std's description of why a byte string is not UTF-8; it
/// depends on the bytes alone.
pub uninterp spec fn utf8_error_text(bytes: Seq<u8>) -> Seq<u8>;

/// Relies on `String::from_utf8`: it succeeds exactly on UTF-8 input, and
/// the string it returns holds the characters those bytes encode.  On any
/// other input it yields the bytes of the error's description, a function
/// of the input alone.
#[verifier::external_body]
fn utf8_to_string(bytes: Vec<u8>) -> (r: Result<String, Vec<u8>>)
    ensures
        match r {
            Ok(s) => valid_utf8(bytes@) && s@ == decode_utf8(bytes@),
            Err(c) => !valid_utf8(bytes@) && c@ == utf8_error_text(bytes@),
        },
{
    match String::from_utf8(bytes) {
        Ok(s) => Ok(s),
        Err(e) => Err(e.to_string().into_bytes()),
    }
}

/// The bytes of the message "missing transaction header".
pub open spec fn msg_missing_header() -> Seq<u8> {
    seq![0x6Du8, 0x69u8, 0x73u8, 0x73u8, 0x69u8, 0x6Eu8, 0x67u8, 0x20u8, 0x74u8, 0x72u8, 0x61u8, 0x6Eu8, 0x73u8, 0x61u8, 0x63u8, 0x74u8, 0x69u8, 0x6Fu8, 0x6Eu8, 0x20u8, 0x68u8, 0x65u8, 0x61u8, 0x64u8, 0x65u8, 0x72u8]
}

fn msg_missing_header_bytes() -> (r: Vec<u8>)
    ensures
        r@ == msg_missing_header(),
{
    let mut m: Vec<u8> = Vec::new();
    m.push(0x6D);
    m.push(0x69);
    m.push(0x73);
    m.push(0x73);
    m.push(0x69);
    m.push(0x6E);
    m.push(0x67);
    m.push(0x20);
    m.push(0x74);
    m.push(0x72);
    m.push(0x61);
    m.push(0x6E);
    m.push(0x73);
    m.push(0x61);
    m.push(0x63);
    m.push(0x74);
    m.push(0x69);
    m.push(0x6F);
    m.push(0x6E);
    m.push(0x20);
    m.push(0x68);
    m.push(0x65);
    m.push(0x61);
    m.push(0x64);
    m.push(0x65);
    m.push(0x72);
    proof {
        assert(m@ =~= msg_missing_header());
    }
    m
}

/// The bytes of the message "unable to decode the transaction header".
pub open spec fn msg_invalid_header() -> Seq<u8> {
    seq![0x75u8, 0x6Eu8, 0x61u8, 0x62u8, 0x6Cu8, 0x65u8, 0x20u8, 0x74u8, 0x6Fu8, 0x20u8, 0x64u8, 0x65u8, 0x63u8, 0x6Fu8, 0x64u8, 0x65u8, 0x20u8, 0x74u8, 0x68u8, 0x65u8, 0x20u8, 0x74u8, 0x72u8, 0x61u8, 0x6Eu8, 0x73u8, 0x61u8, 0x63u8, 0x74u8, 0x69u8, 0x6Fu8, 0x6Eu8, 0x20u8, 0x68u8, 0x65u8, 0x61u8, 0x64u8, 0x65u8, 0x72u8]
}

fn msg_invalid_header_bytes() -> (r: Vec<u8>)
    ensures
        r@ == msg_invalid_header(),
{
    let mut m: Vec<u8> = Vec::new();
    m.push(0x75);
    m.push(0x6E);
    m.push(0x61);
    m.push(0x62);
    m.push(0x6C);
    m.push(0x65);
    m.push(0x20);
    m.push(0x74);
    m.push(0x6F);
    m.push(0x20);
    m.push(0x64);
    m.push(0x65);
    m.push(0x63);
    m.push(0x6F);
    m.push(0x64);
    m.push(0x65);
    m.push(0x20);
    m.push(0x74);
    m.push(0x68);
    m.push(0x65);
    m.push(0x20);
    m.push(0x74);
    m.push(0x72);
    m.push(0x61);
    m.push(0x6E);
    m.push(0x73);
    m.push(0x61);
    m.push(0x63);
    m.push(0x74);
    m.push(0x69);
    m.push(0x6F);
    m.push(0x6E);
    m.push(0x20);
    m.push(0x68);
    m.push(0x65);
    m.push(0x61);
    m.push(0x64);
    m.push(0x65);
    m.push(0x72);
    proof {
        assert(m@ =~= msg_invalid_header());
    }
    m
}

/// The bytes of the message "invalid utf-8 string".
pub open spec fn msg_invalid_utf8() -> Seq<u8> {
    seq![0x69u8, 0x6Eu8, 0x76u8, 0x61u8, 0x6Cu8, 0x69u8, 0x64u8, 0x20u8, 0x75u8, 0x74u8, 0x66u8, 0x2Du8, 0x38u8, 0x20u8, 0x73u8, 0x74u8, 0x72u8, 0x69u8, 0x6Eu8, 0x67u8]
}

fn msg_invalid_utf8_bytes() -> (r: Vec<u8>)
    ensures
        r@ == msg_invalid_utf8(),
{
    let mut m: Vec<u8> = Vec::new();
    m.push(0x69);
    m.push(0x6E);
    m.push(0x76);
    m.push(0x61);
    m.push(0x6C);
    m.push(0x69);
    m.push(0x64);
    m.push(0x20);
    m.push(0x75);
    m.push(0x74);
    m.push(0x66);
    m.push(0x2D);
    m.push(0x38);
    m.push(0x20);
    m.push(0x73);
    m.push(0x74);
    m.push(0x72);
    m.push(0x69);
    m.push(0x6E);
    m.push(0x67);
    proof {
        assert(m@ =~= msg_invalid_utf8());
    }
    m
}

/// The bytes of the message "unable to decode the request body".
pub open spec fn msg_invalid_document() -> Seq<u8> {
    seq![0x75u8, 0x6Eu8, 0x61u8, 0x62u8, 0x6Cu8, 0x65u8, 0x20u8, 0x74u8, 0x6Fu8, 0x20u8, 0x64u8, 0x65u8, 0x63u8, 0x6Fu8, 0x64u8, 0x65u8, 0x20u8, 0x74u8, 0x68u8, 0x65u8, 0x20u8, 0x72u8, 0x65u8, 0x71u8, 0x75u8, 0x65u8, 0x73u8, 0x74u8, 0x20u8, 0x62u8, 0x6Fu8, 0x64u8, 0x79u8]
}

fn msg_invalid_document_bytes() -> (r: Vec<u8>)
    ensures
        r@ == msg_invalid_document(),
{
    let mut m: Vec<u8> = Vec::new();
    m.push(0x75);
    m.push(0x6E);
    m.push(0x61);
    m.push(0x62);
    m.push(0x6C);
    m.push(0x65);
    m.push(0x20);
    m.push(0x74);
    m.push(0x6F);
    m.push(0x20);
    m.push(0x64);
    m.push(0x65);
    m.push(0x63);
    m.push(0x6F);
    m.push(0x64);
    m.push(0x65);
    m.push(0x20);
    m.push(0x74);
    m.push(0x68);
    m.push(0x65);
    m.push(0x20);
    m.push(0x72);
    m.push(0x65);
    m.push(0x71);
    m.push(0x75);
    m.push(0x65);
    m.push(0x73);
    m.push(0x74);
    m.push(0x20);
    m.push(0x62);
    m.push(0x6F);
    m.push(0x64);
    m.push(0x79);
    proof {
        assert(m@ =~= msg_invalid_document());
    }
    m
}

/// The bytes of the message "internal".
pub open spec fn msg_internal() -> Seq<u8> {
    seq![0x69u8, 0x6Eu8, 0x74u8, 0x65u8, 0x72u8, 0x6Eu8, 0x61u8, 0x6Cu8]
}

fn msg_internal_bytes() -> (r: Vec<u8>)
    ensures
        r@ == msg_internal(),
{
    let mut m: Vec<u8> = Vec::new();
    m.push(0x69);
    m.push(0x6E);
    m.push(0x74);
    m.push(0x65);
    m.push(0x72);
    m.push(0x6E);
    m.push(0x61);
    m.push(0x6C);
    proof {
        assert(m@ =~= msg_internal());
    }
    m
}
/// The full message rejecting text that is not UTF-8: the fixed prefix,
/// a separating colon, and the underlying cause.
pub open spec fn msg_invalid_utf8_with(cause: Seq<u8>) -> Seq<u8> {
    msg_invalid_utf8() + seq![0x3Au8, 0x20u8] + cause
}

/// Builds the invalid-UTF-8 error around the cause's description.
fn invalid_utf8_error(cause: Vec<u8>) -> (e: Error)
    ensures
        e@ == msg_invalid_utf8_with(cause@),
{
    let mut m = msg_invalid_utf8_bytes();
    m.push(0x3A);
    m.push(0x20);
    let mut c = cause;
    m.append(&mut c);
    proof {
        assert(m@ =~= msg_invalid_utf8_with(cause@));
    }
    Error::from_bytes(m)
}

/// A block argument as the host may pass it: either the null/empty signal
/// or a live block of exactly the stated length.
pub open spec fn block_arg(m: Map<int, Seq<u8>>, ptr: int, len: int) -> bool {
    ptr != 0 && len > 0 ==> m.contains_key(ptr) && m[ptr].len() == len
}

/// A request payload: a typed value decoded from the raw body bytes the
/// host wrote into guest memory.
pub trait WasmRequest: View + Sized {
    /// What decoding yields for every body: the decoded value, or the
    /// message rejecting the body.
    spec fn spec_decode(bytes: Seq<u8>) -> Result<Self::V, Seq<u8>>;

    /// Decodes a body.  An empty body is the type's "absent" value, never
    /// an error.
    fn decode(bytes: &[u8]) -> (r: Result<Self, Error>)
        ensures
            match (r, Self::spec_decode(bytes@)) {
                (Ok(v), Ok(dv)) => v@ == dv,
                (Err(e), Err(m)) => e@ == m,
                _ => false,
            },
    ;
}

/// A response payload: a typed value encoded into the buffer handed back
/// to the host.
pub trait WasmResponse: View + Sized {
    /// What encoding yields for every value of the type.
    spec fn spec_encode(v: Self::V) -> Result<Seq<u8>, Seq<u8>>;

    /// Encodes the response.  A failure here is reported to the host as an
    /// error payload by the dispatcher.
    fn encode(self) -> (r: Result<Vec<u8>, Error>)
        ensures
            match (r, Self::spec_encode(self@)) {
                (Ok(b), Ok(sb)) => b@ == sb,
                (Err(e), Err(m)) => e@ == m,
                _ => false,
            },
    ;
}

impl WasmRequest for String {
    /// Text decoding is two-tiered: a body that parses as a wire document
    /// yields the text scalar it is, or the rendering of the non-text
    /// document it is; a body that does not parse is taken as raw UTF-8
    /// text, and only invalid UTF-8 is an error, carrying the underlying
    /// cause after the fixed prefix.
    open spec fn spec_decode(bytes: Seq<u8>) -> Result<Seq<char>, Seq<u8>> {
        if bytes.len() == 0 {
            Ok(Seq::empty())
        } else {
            match parse_doc(bytes) {
                Some(Doc::Str(t)) => if valid_utf8(t) {
                    Ok(decode_utf8(t))
                } else {
                    Err(msg_invalid_utf8_with(utf8_error_text(t)))
                },
                Some(d) => if valid_utf8(enc_doc(d)) {
                    Ok(decode_utf8(enc_doc(d)))
                } else {
                    Err(msg_invalid_utf8_with(utf8_error_text(enc_doc(d))))
                },
                None => if valid_utf8(bytes) {
                    Ok(decode_utf8(bytes))
                } else {
                    Err(msg_invalid_utf8_with(utf8_error_text(bytes)))
                },
            }
        }
    }

    fn decode(bytes: &[u8]) -> (r: Result<String, Error>) {
        if bytes.len() == 0 {
            return Ok(String::new());
        }
        match parse_document(bytes) {
            Some(v) => match v {
                Value::Str(t) => match utf8_to_string(t) {
                    Ok(s) => Ok(s),
                    Err(c) => Err(invalid_utf8_error(c)),
                },
                other => {
                    proof {
                        lemma_doc_of_str(other);
                    }
                    let rendered = encode_value(&other);
                    match utf8_to_string(rendered) {
                        Ok(s) => Ok(s),
                        Err(c) => Err(invalid_utf8_error(c)),
                    }
                },
            },
            None => {
                let copy = slice_to_vec(bytes);
                match utf8_to_string(copy) {
                    Ok(s) => Ok(s),
                    Err(c) => Err(invalid_utf8_error(c)),
                }
            },
        }
    }
}

/// A value is a text scalar exactly when its document is one.
proof fn lemma_doc_of_str(v: Value)
    ensures
        (doc_of(v) is Str) <==> (v is Str),
{
    match v {
        Value::Null => {},
        Value::Bool(_) => {},
        Value::Int(_) => {},
        Value::Str(_) => {},
        Value::List(_) => {},
        Value::Object(_) => {},
    }
}

impl WasmRequest for Value {
    /// A structured body must be a wire document; an empty body is the
    /// "no value" scalar.
    open spec fn spec_decode(bytes: Seq<u8>) -> Result<Doc, Seq<u8>> {
        if bytes.len() == 0 {
            Ok(Doc::Null)
        } else {
            match parse_doc(bytes) {
                Some(d) => Ok(d),
                None => Err(msg_invalid_document()),
            }
        }
    }

    fn decode(bytes: &[u8]) -> (r: Result<Value, Error>) {
        if bytes.len() == 0 {
            return Ok(Value::Null);
        }
        match parse_document(bytes) {
            Some(v) => Ok(v),
            None => Err(Error::from_bytes(msg_invalid_document_bytes())),
        }
    }
}

impl WasmResponse for String {
    /// Text is rendered as a wire text scalar; this never fails.
    open spec fn spec_encode(v: Seq<char>) -> Result<Seq<u8>, Seq<u8>> {
        Ok(enc_doc(Doc::Str(encode_utf8(v))))
    }

    fn encode(self) -> (r: Result<Vec<u8>, Error>) {
        let b = self.as_str().as_bytes_vec();
        Ok(encode_value(&Value::Str(b)))
    }
}

impl WasmResponse for Value {
    /// A structured value is rendered as the wire document it stands for;
    /// this never fails.
    open spec fn spec_encode(v: Doc) -> Result<Seq<u8>, Seq<u8>> {
        Ok(enc_doc(v))
    }

    fn encode(self) -> (r: Result<Vec<u8>, Error>) {
        Ok(encode_value(&self))
    }
}

impl WasmResponse for () {
    /// A unit response is rendered as the canonical "no value" token.
    open spec fn spec_encode(v: ()) -> Result<Seq<u8>, Seq<u8>> {
        Ok(enc_doc(Doc::Null))
    }

    fn encode(self) -> (r: Result<Vec<u8>, Error>) {
        Ok(encode_value(&Value::Null))
    }
}

/// The transaction header the host writes before every call: a wire
/// document whose meaning is the host's.  The boundary only carries it; its
/// view is the document itself.
#[derive(Debug)]
pub struct TxnHeader {
    /// The decoded header document.
    pub contents: Value,
}

impl View for TxnHeader {
    type V = Doc;

    open spec fn view(&self) -> Doc {
        self.contents@
    }
}

/// A guest transaction context, built from a decoded header.  The
/// host-defined contract may reject a header, which ends the call.
pub trait WasmTransaction: Sized {
    /// Builds the transaction from the header, or rejects it.
    fn from_wasm_header(header: TxnHeader) -> Result<Self, Error>;
}

/// A minimal transaction context: it keeps the header and accepts every
/// one.
pub struct BasicTxn {
    /// The header the transaction was built from.
    pub header: TxnHeader,
}

impl WasmTransaction for BasicTxn {
    fn from_wasm_header(header: TxnHeader) -> Result<BasicTxn, Error> {
        Ok(BasicTxn { header })
    }
}

/// A route's handler: one operation from a transaction and a request to a
/// response.  The guest module implements one per route; its deferred
/// computation is driven to completion before the call returns.
pub trait HandleGet<Txn, Req, Res> {
    /// Handles one call.
    fn get(&self, txn: &Txn, request: Req) -> Result<Res, Error>;
}

/// What decoding the header block yields: the header document, or the
/// exact message for an absent or unreadable header.
pub open spec fn spec_decode_header(hb: Seq<u8>) -> Result<Doc, Seq<u8>> {
    if hb.len() == 0 {
        Err(msg_missing_header())
    } else {
        match parse_doc(hb) {
            Some(d) => Ok(d),
            None => Err(msg_invalid_header()),
        }
    }
}

/// Reads and decodes the transaction header block.  An empty block is an
/// error: no transaction can be built without a header.
fn decode_header(arena: &Arena, ptr: i32, len: i32) -> (r: Result<TxnHeader, Error>)
    requires
        block_arg(arena@, ptr as int, len as int),
    ensures
        match (r, spec_decode_header(spec_read(arena@, ptr as int, len as int))) {
            (Ok(h), Ok(d)) => h@ == d,
            (Err(e), Err(m)) => e@ == m,
            _ => false,
        },
{
    let bytes = read_bytes(arena, ptr, len);
    if bytes.len() == 0 {
        return Err(Error::from_bytes(msg_missing_header_bytes()));
    }
    match parse_document(bytes.as_slice()) {
        Some(v) => Ok(TxnHeader { contents: v }),
        None => Err(Error::from_bytes(msg_invalid_header_bytes())),
    }
}

/// Runs one call up to the encoded result: decode the header, build the
/// transaction, decode the body, invoke the handler, encode its response.
/// Any failure comes back as the error to report.
pub fn try_dispatch_get<H, Txn, Req, Res>(
    handler: &H,
    arena: &Arena,
    header_ptr: i32,
    header_len: i32,
    body_ptr: i32,
    body_len: i32,
) -> (r: Result<Vec<u8>, Error>) where
    Txn: WasmTransaction,
    Req: WasmRequest,
    Res: WasmResponse,
    H: HandleGet<Txn, Req, Res>,

    requires
        block_arg(arena@, header_ptr as int, header_len as int),
        block_arg(arena@, body_ptr as int, body_len as int),
    ensures
        ({
            let hb = spec_read(arena@, header_ptr as int, header_len as int);
            let bb = spec_read(arena@, body_ptr as int, body_len as int);
            &&& hb.len() == 0 ==> (r matches Err(e) && e@ == msg_missing_header())
            &&& hb.len() > 0 && parse_doc(hb) is None ==> (r matches Err(e) && e@
                == msg_invalid_header())
            &&& r matches Ok(out) ==> {
                &&& hb.len() > 0
                &&& parse_doc(hb) is Some
                &&& Req::spec_decode(bb) is Ok
                &&& exists|rv: Res::V| Res::spec_encode(rv) == Ok::<Seq<u8>, Seq<u8>>(out@)
            }
        }),
{
    let header = match decode_header(arena, header_ptr, header_len) {
        Ok(h) => h,
        Err(e) => {
            return Err(e);
        },
    };
    let txn = match Txn::from_wasm_header(header) {
        Ok(t) => t,
        Err(e) => {
            return Err(e);
        },
    };
    let body = read_bytes(arena, body_ptr, body_len);
    let request = match Req::decode(body.as_slice()) {
        Ok(q) => q,
        Err(e) => {
            return Err(e);
        },
    };
    let response = match handler.get(&txn, request) {
        Ok(res) => res,
        Err(e) => {
            return Err(e);
        },
    };
    let ghost rv = response@;
    match response.encode() {
        Ok(out) => {
            proof {
                assert(Res::spec_encode(rv) == Ok::<Seq<u8>, Seq<u8>>(out@));
            }
            Ok(out)
        },
        Err(e) => Err(e),
    }
}

/// The boundary's single return shape, from a call's outcome: the encoded
/// response of a call that succeeded, or the rendered `{"error": ..}`
/// payload of one that failed — the host tells the two apart only by
/// looking at the content.
pub fn respond_bytes(result: Result<Vec<u8>, Error>) -> (r: Vec<u8>)
    ensures
        r@ == match result {
            Ok(b) => b@,
            Err(e) => enc_doc(error_doc(e@)),
        },
{
    match result {
        Ok(bytes) => bytes,
        Err(e) => encode_error(e),
    }
}

/// One exported route call: runs the pipeline and hands exactly one buffer
/// back through the arena — the encoded response, or the encoded error
/// payload.  The buffer's ownership passes to the host, which must release
/// it.  If a payload cannot fit the boundary's length field, the fixed
/// `{"error":"internal"}` payload is returned instead, so the call always
/// yields a valid buffer.
pub fn dispatch_get<H, Txn, Req, Res>(
    handler: &H,
    arena: &mut Arena,
    header_ptr: i32,
    header_len: i32,
    body_ptr: i32,
    body_len: i32,
) -> (r: (i32, i32)) where
    Txn: WasmTransaction,
    Req: WasmRequest,
    Res: WasmResponse,
    H: HandleGet<Txn, Req, Res>,

    requires
        old(arena).can_alloc(),
        block_arg(old(arena)@, header_ptr as int, header_len as int),
        block_arg(old(arena)@, body_ptr as int, body_len as int),
    ensures
        ({
            let hb = spec_read(old(arena)@, header_ptr as int, header_len as int);
            let out = final(arena)@[r.0 as int];
            &&& r.0 > 0
            &&& r.1 == out.len()
            &&& 0 < out.len() <= 0x7FFF_FFFF
            &&& !old(arena)@.contains_key(r.0 as int)
            &&& final(arena)@ == old(arena)@.insert(r.0 as int, out)
            &&& hb.len() == 0 ==> out == enc_doc(error_doc(msg_missing_header()))
            &&& hb.len() > 0 && parse_doc(hb) is None ==> out == enc_doc(
                error_doc(msg_invalid_header()),
            )
            &&& (exists|rv: Res::V| Res::spec_encode(rv) == Ok::<Seq<u8>, Seq<u8>>(out)) || (
            exists|m: Seq<u8>| out == enc_doc(error_doc(m)))
        }),
{
    let result = try_dispatch_get::<H, Txn, Req, Res>(
        handler,
        arena,
        header_ptr,
        header_len,
        body_ptr,
        body_len,
    );
    let out = respond_bytes(result);
    let out = if 0 < out.len() && out.len() <= 0x7FFF_FFFF {
        out
    } else {
        proof {
            lemma_error_payload_len(msg_internal());
            lemma_esc_bytes_len(msg_internal());
        }
        encode_error(Error::from_bytes(msg_internal_bytes()))
    };
    proof {
        lemma_error_payload_len(msg_missing_header());
        lemma_esc_bytes_len(msg_missing_header());
        lemma_error_payload_len(msg_invalid_header());
        lemma_esc_bytes_len(msg_invalid_header());
        crate::codec::lemma_enc_first(error_doc(msg_missing_header()));
        crate::codec::lemma_enc_first(error_doc(msg_invalid_header()));
    }
    leak_bytes(arena, out)
}


/// Round trip for the generic document type: any value, encoded as a
/// response, decodes back as a request to exactly itself.
pub proof fn lemma_value_round_trip(v: Value)
    ensures
        <Value as WasmResponse>::spec_encode(v@) == Ok::<Seq<u8>, Seq<u8>>(enc_doc(v@)),
        <Value as WasmRequest>::spec_decode(enc_doc(v@)) == Ok::<Doc, Seq<u8>>(v@),
{
    crate::value::lemma_view_wf(v);
    crate::codec::lemma_round_trip(v@);
    crate::codec::lemma_enc_first(v@);
}

/// Round trip for text: any string, encoded as a response, decodes back as
/// a request to exactly itself.
pub proof fn lemma_text_round_trip(s: Seq<char>)
    ensures
        <String as WasmResponse>::spec_encode(s) == Ok::<Seq<u8>, Seq<u8>>(
            enc_doc(Doc::Str(encode_utf8(s))),
        ),
        <String as WasmRequest>::spec_decode(enc_doc(Doc::Str(encode_utf8(s))))
            == Ok::<Seq<char>, Seq<u8>>(s),
{
    let t = encode_utf8(s);
    assert(crate::value::doc_wf(Doc::Str(t)));
    crate::codec::lemma_round_trip(Doc::Str(t));
    crate::codec::lemma_enc_first(Doc::Str(t));
    encode_utf8_valid_utf8(s);
    encode_utf8_decode_utf8(s);
}

} // verus!
