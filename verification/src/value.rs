//! The structured document model carried on the wire.
//!
//! Every payload that crosses the boundary — headers, requests, responses,
//! the manifest, error payloads — is a document of this shape: null, a
//! boolean, an integer, a string of bytes, an array, or an object of
//! string-keyed members.  [`Value`] is the executable form; its view is the
//! mathematical form [`Doc`], which the codec's contracts are stated over.
//!
//! String content is kept as raw bytes: the codec passes bytes at or above
//! `0x20` through unchanged, so text in any byte encoding survives a round
//! trip untouched.

use vstd::prelude::*;
use vstd::string::StrSliceExecFns;
use vstd::string::StringSliceAdditionalSpecFns;

verus! {

/// Mathematical model of a wire document.
#[verifier::ext_equal]
pub enum Doc {
    /// The canonical "no value" token.
    Null,
    /// A boolean scalar.
    Bool(bool),
    /// An integer scalar; the wire format carries no fractions.
    Int(int),
    /// A text scalar, as the bytes of its content.
    Str(Seq<u8>),
    /// An ordered sequence of documents.
    Arr(Seq<Doc>),
    /// An ordered sequence of string-keyed members.
    Obj(Seq<(Seq<u8>, Doc)>),
}

/// A document every one of whose integers fits the wire's 64-bit signed
/// range.  Views of executable [`Value`]s always satisfy this.
pub open spec fn doc_wf(d: Doc) -> bool
    decreases d,
{
    match d {
        Doc::Null => true,
        Doc::Bool(_) => true,
        Doc::Int(i) => -0x8000_0000_0000_0000 <= i <= 0x7FFF_FFFF_FFFF_FFFF,
        Doc::Str(_) => true,
        Doc::Arr(ds) => forall|i: int| 0 <= i < ds.len() ==> doc_wf(#[trigger] ds[i]),
        Doc::Obj(ms) => forall|i: int| 0 <= i < ms.len() ==> doc_wf((#[trigger] ms[i]).1),
    }
}

/// A structured value in memory: the executable form of a wire document.
#[derive(Debug, PartialEq, Eq)]
pub enum Value {
    /// The "no value" scalar.
    Null,
    /// A boolean scalar.
    Bool(bool),
    /// An integer scalar.
    Int(i64),
    /// A text scalar, as the bytes of its content.
    Str(Vec<u8>),
    /// An ordered sequence of values.
    List(Vec<Value>),
    /// An ordered sequence of string-keyed members.
    Object(Vec<(Vec<u8>, Value)>),
}

/// The document a [`Value`] stands for.
pub open spec fn doc_of(v: Value) -> Doc
    decreases v,
{
    match v {
        Value::Null => Doc::Null,
        Value::Bool(b) => Doc::Bool(b),
        Value::Int(i) => Doc::Int(i as int),
        Value::Str(s) => Doc::Str(s@),
        Value::List(xs) => Doc::Arr(
            Seq::new(
                xs@.len(),
                |i: int|
                    if 0 <= i < xs@.len() {
                        doc_of(xs@[i])
                    } else {
                        Doc::Null
                    },
            ),
        ),
        Value::Object(ms) => Doc::Obj(
            Seq::new(
                ms@.len(),
                |i: int|
                    if 0 <= i < ms@.len() {
                        (ms@[i].0@, doc_of(ms@[i].1))
                    } else {
                        (Seq::empty(), Doc::Null)
                    },
            ),
        ),
    }
}

impl View for Value {
    type V = Doc;

    open spec fn view(&self) -> Doc {
        doc_of(*self)
    }
}

/// The view of every executable value is a well-formed document.
pub proof fn lemma_view_wf(v: Value)
    ensures
        doc_wf(doc_of(v)),
    decreases v,
{
    match v {
        Value::List(xs) => {
            let ds = doc_of(v)->Arr_0;
            assert forall|i: int| 0 <= i < ds.len() implies doc_wf(#[trigger] ds[i]) by {
                lemma_view_wf(xs@[i]);
                assert(ds[i] == doc_of(xs@[i]));
            }
        },
        Value::Object(ms) => {
            let mems = doc_of(v)->Obj_0;
            assert forall|i: int| 0 <= i < mems.len() implies doc_wf((#[trigger] mems[i]).1) by {
                lemma_view_wf(ms@[i].1);
                assert(mems[i].1 == doc_of(ms@[i].1));
            }
        },
        _ => {},
    }
}

impl Value {
    /// Builds a text scalar from a string, carrying its bytes.
    pub fn text(s: &str) -> (r: Value)
        ensures
            r@ == Doc::Str(s.spec_bytes()),
    {
        Value::Str(s.as_bytes_vec())
    }
}

} // verus!
