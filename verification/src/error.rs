//! The boundary's error type and the error payload rendering.
//!
//! Every recoverable failure at the boundary is carried as a human-readable
//! message and crosses back to the host as the single-member document
//! `{"error":"<message>"}`.  Building that payload is a total operation: it
//! cannot itself fail, so a call across the boundary always has a buffer to
//! return.

use crate::codec::enc_doc;
use crate::codec::encode_value;
use crate::value::Doc;
use crate::value::Value;
use vstd::prelude::*;
use vstd::string::StrSliceExecFns;
use vstd::string::StringSliceAdditionalSpecFns;

verus! {

/// A recoverable failure, as the bytes of its human-readable message.
///
/// Its view is the message's byte sequence.
#[derive(Debug)]
pub struct Error {
    message: Vec<u8>,
}

impl View for Error {
    type V = Seq<u8>;

    closed spec fn view(&self) -> Seq<u8> {
        self.message@
    }
}

impl Error {
    /// An error that rejects the caller's input, with the given message.
    pub fn bad_request(msg: &str) -> (r: Error)
        ensures
            r@ == msg.spec_bytes(),
    {
        Error { message: msg.as_bytes_vec() }
    }

    /// An error whose message is given as raw bytes.
    pub fn from_bytes(msg: Vec<u8>) -> (r: Error)
        ensures
            r@ == msg@,
    {
        Error { message: msg }
    }

    /// The error's message bytes.
    pub fn message(&self) -> (r: &Vec<u8>)
        ensures
            r@ == self@,
    {
        &self.message
    }
}

/// The bytes of the error payload's single key.
pub open spec fn err_key() -> Seq<u8> {
    seq![0x65u8, 0x72u8, 0x72u8, 0x6Fu8, 0x72u8]
}

/// The error payload document for message `m`: `{"error":"<m>"}`.
pub open spec fn error_doc(m: Seq<u8>) -> Doc {
    Doc::Obj(seq![(err_key(), Doc::Str(m))])
}

/// Renders the error payload for `err`.  This path is total: whatever the
/// message holds, the exact rendering of `{"error":"<message>"}` comes back.
pub fn encode_error(err: Error) -> (r: Vec<u8>)
    ensures
        r@ == enc_doc(error_doc(err@)),
{
    let ghost m = err@;
    let mut key: Vec<u8> = Vec::new();
    key.push(0x65);
    key.push(0x72);
    key.push(0x72);
    key.push(0x6F);
    key.push(0x72);
    let mut members: Vec<(Vec<u8>, Value)> = Vec::new();
    members.push((key, Value::Str(err.message)));
    let v = Value::Object(members);
    proof {
        assert(members@[0].0@ =~= err_key());
        assert(members@[0].1@ == Doc::Str(m));
        assert(v@->Obj_0 =~= seq![(err_key(), Doc::Str(m))]);
        assert(v@ == error_doc(m));
    }
    encode_value(&v)
}


/// The error payload is well formed, and its rendering is the message's
/// escaped length plus the fixed frame around it.
pub proof fn lemma_error_payload_len(m: Seq<u8>)
    ensures
        crate::value::doc_wf(error_doc(m)),
        enc_doc(error_doc(m)).len() == 12 + crate::codec::esc_bytes(m).len(),
{
    let ms = seq![(err_key(), Doc::Str(m))];
    assert forall|k: int| 0 <= k < ms.len() implies crate::value::doc_wf((#[trigger] ms[k]).1) by {
        assert(ms[k].1 == Doc::Str(m));
    }
    assert(ms.drop_first() =~= Seq::<(Seq<u8>, Doc)>::empty());
    assert(crate::codec::enc_more_members(Seq::<(Seq<u8>, Doc)>::empty()) == Seq::<u8>::empty());
    assert(crate::codec::esc_bytes(err_key()).len() == 5) by {
        reveal_with_fuel(crate::codec::esc_bytes, 7);
        assert(err_key().drop_first() =~= seq![0x72u8, 0x72u8, 0x6Fu8, 0x72u8]);
        assert(seq![0x72u8, 0x72u8, 0x6Fu8, 0x72u8].drop_first() =~= seq![0x72u8, 0x6Fu8, 0x72u8]);
        assert(seq![0x72u8, 0x6Fu8, 0x72u8].drop_first() =~= seq![0x6Fu8, 0x72u8]);
        assert(seq![0x6Fu8, 0x72u8].drop_first() =~= seq![0x72u8]);
        assert(seq![0x72u8].drop_first() =~= Seq::<u8>::empty());
    }
    assert(enc_doc(Doc::Str(m)) == seq![0x22u8] + crate::codec::esc_bytes(m) + seq![0x22u8]);
    assert(crate::codec::enc_members(ms) == crate::codec::enc_member(err_key(), Doc::Str(m)));
}

} // verus!
