//! The wire codec: the textual structured format every payload crosses the
//! boundary in.
//!
//! A document is rendered as UTF-8-compatible bytes in the familiar
//! object/array/scalar notation: `null`, `true`/`false`, decimal integers,
//! quoted strings, `[...]` arrays and `{"key":value}` objects.  The encoder
//! is canonical (no whitespace, shortest escapes); the parser additionally
//! accepts interior whitespace.  String content is carried byte-for-byte:
//! bytes at or above `0x20` pass through raw (`"` and `\` escaped), control
//! bytes are escaped, so any byte string survives the trip.
//!
//! The module proves the central codec law: parsing an encoded document
//! yields exactly the document that was encoded.

use crate::value::Doc;
use crate::value::doc_wf;
use crate::value::Value;
use vstd::prelude::*;

verus! {

// ---------------------------------------------------------------------------
// The encoder, as a mathematical function from documents to bytes.
// ---------------------------------------------------------------------------
/// The lowercase hexadecimal digit for `n`.
pub open spec fn hex_digit(n: int) -> u8 {
    if n < 10 {
        (0x30 + n) as u8
    } else {
        (0x57 + n) as u8
    }
}

/// How a single byte of string content is rendered: raw if printable-or-high,
/// a two-character escape for the common controls and `"` and `\`, and a
/// `\u00XX` escape for the remaining controls.
pub open spec fn esc_byte(b: u8) -> Seq<u8> {
    if b == 0x22 {
        seq![0x5Cu8, 0x22u8]
    } else if b == 0x5C {
        seq![0x5Cu8, 0x5Cu8]
    } else if b >= 0x20 {
        seq![b]
    } else if b == 0x08 {
        seq![0x5Cu8, 0x62u8]
    } else if b == 0x09 {
        seq![0x5Cu8, 0x74u8]
    } else if b == 0x0A {
        seq![0x5Cu8, 0x6Eu8]
    } else if b == 0x0C {
        seq![0x5Cu8, 0x66u8]
    } else if b == 0x0D {
        seq![0x5Cu8, 0x72u8]
    } else {
        seq![0x5Cu8, 0x75u8, 0x30u8, 0x30u8, hex_digit(b as int / 16), hex_digit(b as int % 16)]
    }
}

/// String content, escaped byte by byte.
pub open spec fn esc_bytes(t: Seq<u8>) -> Seq<u8>
    decreases t.len(),
{
    if t.len() == 0 {
        Seq::empty()
    } else {
        esc_byte(t[0]) + esc_bytes(t.drop_first())
    }
}

/// The decimal digits of a non-negative integer, most significant first.
pub open spec fn dec_digits(n: int) -> Seq<u8>
    recommends
        n >= 0,
    decreases n,
{
    if n < 10 {
        seq![(0x30 + n) as u8]
    } else {
        dec_digits(n / 10).push((0x30 + n % 10) as u8)
    }
}

/// An integer scalar: a minus sign for negatives, then decimal digits.
pub open spec fn enc_int(i: int) -> Seq<u8> {
    if i < 0 {
        seq![0x2Du8] + dec_digits(-i)
    } else {
        dec_digits(i)
    }
}

/// The canonical rendering of a document.
pub open spec fn enc_doc(d: Doc) -> Seq<u8>
    decreases d, 0int,
{
    match d {
        Doc::Null => seq![0x6Eu8, 0x75u8, 0x6Cu8, 0x6Cu8],
        Doc::Bool(b) => if b {
            seq![0x74u8, 0x72u8, 0x75u8, 0x65u8]
        } else {
            seq![0x66u8, 0x61u8, 0x6Cu8, 0x73u8, 0x65u8]
        },
        Doc::Int(i) => enc_int(i),
        Doc::Str(t) => seq![0x22u8] + esc_bytes(t) + seq![0x22u8],
        Doc::Arr(ds) => seq![0x5Bu8] + enc_elems(ds) + seq![0x5Du8],
        Doc::Obj(ms) => seq![0x7Bu8] + enc_members(ms) + seq![0x7Du8],
    }
}

/// The comma-separated renderings of an array's elements.
pub open spec fn enc_elems(ds: Seq<Doc>) -> Seq<u8>
    decreases ds, 1int,
{
    if ds.len() == 0 {
        Seq::empty()
    } else {
        enc_doc(ds[0]) + enc_more_elems(ds.drop_first())
    }
}

/// Every element of `ds` rendered with a leading comma.
pub open spec fn enc_more_elems(ds: Seq<Doc>) -> Seq<u8>
    decreases ds, 0int,
{
    if ds.len() == 0 {
        Seq::empty()
    } else {
        seq![0x2Cu8] + enc_doc(ds[0]) + enc_more_elems(ds.drop_first())
    }
}

/// One object member: a quoted key, a colon, and the member's value.
pub open spec fn enc_member(k: Seq<u8>, d: Doc) -> Seq<u8>
    decreases d, 2int,
{
    seq![0x22u8] + esc_bytes(k) + seq![0x22u8, 0x3Au8] + enc_doc(d)
}

/// The comma-separated renderings of an object's members.
pub open spec fn enc_members(ms: Seq<(Seq<u8>, Doc)>) -> Seq<u8>
    decreases ms, 1int,
{
    if ms.len() == 0 {
        Seq::empty()
    } else {
        enc_member(ms[0].0, ms[0].1) + enc_more_members(ms.drop_first())
    }
}

/// Every member of `ms` rendered with a leading comma.
pub open spec fn enc_more_members(ms: Seq<(Seq<u8>, Doc)>) -> Seq<u8>
    decreases ms, 0int,
{
    if ms.len() == 0 {
        Seq::empty()
    } else {
        seq![0x2Cu8] + enc_member(ms[0].0, ms[0].1) + enc_more_members(ms.drop_first())
    }
}

// ---------------------------------------------------------------------------
// Appending one item at the back of a rendering.
// ---------------------------------------------------------------------------
proof fn lemma_esc_bytes_push(t: Seq<u8>, b: u8)
    ensures
        esc_bytes(t.push(b)) == esc_bytes(t) + esc_byte(b),
    decreases t.len(),
{
    if t.len() == 0 {
        assert(esc_bytes(Seq::<u8>::empty()) == Seq::<u8>::empty());
        assert(t.push(b).drop_first() =~= Seq::<u8>::empty());
        assert(t.push(b)[0] == b);
        assert(esc_bytes(t.push(b)) =~= esc_byte(b));
        assert(esc_bytes(t) + esc_byte(b) =~= esc_byte(b));
    } else {
        assert(t.push(b).drop_first() =~= t.drop_first().push(b));
        lemma_esc_bytes_push(t.drop_first(), b);
        assert(esc_bytes(t.push(b)) =~= esc_bytes(t) + esc_byte(b));
    }
}

proof fn lemma_enc_more_elems_push(ds: Seq<Doc>, d: Doc)
    ensures
        enc_more_elems(ds.push(d)) == enc_more_elems(ds) + seq![0x2Cu8] + enc_doc(d),
    decreases ds.len(),
{
    if ds.len() == 0 {
        assert(enc_more_elems(Seq::<Doc>::empty()) == Seq::<u8>::empty());
        assert(ds.push(d).drop_first() =~= Seq::<Doc>::empty());
        assert(ds.push(d)[0] == d);
        assert(enc_more_elems(ds.push(d)) =~= enc_more_elems(ds) + seq![0x2Cu8] + enc_doc(d));
    } else {
        assert(ds.push(d).drop_first() =~= ds.drop_first().push(d));
        lemma_enc_more_elems_push(ds.drop_first(), d);
        assert(ds.push(d)[0] == ds[0]);
        assert(enc_more_elems(ds.push(d)) =~= enc_more_elems(ds) + seq![0x2Cu8] + enc_doc(d));
    }
}

proof fn lemma_enc_more_members_push(ms: Seq<(Seq<u8>, Doc)>, k: Seq<u8>, d: Doc)
    ensures
        enc_more_members(ms.push((k, d))) == enc_more_members(ms) + seq![0x2Cu8] + enc_member(k, d),
    decreases ms.len(),
{
    if ms.len() == 0 {
        assert(enc_more_members(Seq::<(Seq<u8>, Doc)>::empty()) == Seq::<u8>::empty());
        assert(ms.push((k, d)).drop_first() =~= Seq::<(Seq<u8>, Doc)>::empty());
        assert(ms.push((k, d))[0] == (k, d));
        assert(enc_more_members(ms.push((k, d))) =~= enc_more_members(ms) + seq![0x2Cu8]
            + enc_member(k, d));
    } else {
        assert(ms.push((k, d)).drop_first() =~= ms.drop_first().push((k, d)));
        lemma_enc_more_members_push(ms.drop_first(), k, d);
        assert(ms.push((k, d))[0] == ms[0]);
        assert(enc_more_members(ms.push((k, d))) =~= enc_more_members(ms) + seq![0x2Cu8]
            + enc_member(k, d));
    }
}

// ---------------------------------------------------------------------------
// The executable encoder.
// ---------------------------------------------------------------------------
fn emit_esc_byte(out: &mut Vec<u8>, b: u8)
    ensures
        final(out)@ == old(out)@ + esc_byte(b),
{
    if b == 0x22 {
        out.push(0x5C);
        out.push(0x22);
    } else if b == 0x5C {
        out.push(0x5C);
        out.push(0x5C);
    } else if b >= 0x20 {
        out.push(b);
    } else if b == 0x08 {
        out.push(0x5C);
        out.push(0x62);
    } else if b == 0x09 {
        out.push(0x5C);
        out.push(0x74);
    } else if b == 0x0A {
        out.push(0x5C);
        out.push(0x6E);
    } else if b == 0x0C {
        out.push(0x5C);
        out.push(0x66);
    } else if b == 0x0D {
        out.push(0x5C);
        out.push(0x72);
    } else {
        out.push(0x5C);
        out.push(0x75);
        out.push(0x30);
        out.push(0x30);
        let hi = b / 16;
        let lo = b % 16;
        out.push(if hi < 10 { 0x30 + hi } else { 0x57 + hi });
        out.push(if lo < 10 { 0x30 + lo } else { 0x57 + lo });
    }
    proof {
        assert(final(out)@ =~= old(out)@ + esc_byte(b));
    }
}

fn emit_str(out: &mut Vec<u8>, t: &Vec<u8>)
    ensures
        final(out)@ == old(out)@ + seq![0x22u8] + esc_bytes(t@) + seq![0x22u8],
{
    out.push(0x22);
    let n = t.len();
    let mut i: usize = 0;
    proof {
        assert(t@.subrange(0, 0) =~= Seq::<u8>::empty());
        assert(out@ =~= old(out)@ + seq![0x22u8] + esc_bytes(t@.subrange(0, 0)));
    }
    while i < n
        invariant
            i <= n,
            n == t@.len(),
            out@ == old(out)@ + seq![0x22u8] + esc_bytes(t@.subrange(0, i as int)),
        decreases n - i,
    {
        emit_esc_byte(out, t[i]);
        proof {
            assert(t@.subrange(0, i + 1) =~= t@.subrange(0, i as int).push(t@[i as int]));
            lemma_esc_bytes_push(t@.subrange(0, i as int), t@[i as int]);
        }
        i = i + 1;
    }
    proof {
        assert(t@.subrange(0, n as int) =~= t@);
    }
    out.push(0x22);
    proof {
        assert(final(out)@ =~= old(out)@ + seq![0x22u8] + esc_bytes(t@) + seq![0x22u8]);
    }
}

fn emit_digits(out: &mut Vec<u8>, m: u64)
    ensures
        final(out)@ == old(out)@ + dec_digits(m as int),
    decreases m,
{
    if m < 10 {
        out.push(0x30 + m as u8);
        proof {
            assert(final(out)@ =~= old(out)@ + dec_digits(m as int));
        }
    } else {
        emit_digits(out, m / 10);
        out.push(0x30 + (m % 10) as u8);
        proof {
            assert(final(out)@ =~= old(out)@ + dec_digits(m as int));
        }
    }
}

fn emit_int(out: &mut Vec<u8>, i: i64)
    ensures
        final(out)@ == old(out)@ + enc_int(i as int),
{
    if i >= 0 {
        emit_digits(out, i as u64);
    } else {
        out.push(0x2D);
        let m: u64 = if i == i64::MIN {
            0x8000_0000_0000_0000u64
        } else {
            (-i) as u64
        };
        emit_digits(out, m);
        proof {
            assert(final(out)@ =~= old(out)@ + enc_int(i as int));
        }
    }
}

#[verifier::loop_isolation(false)]
#[verifier::rlimit(50)]
fn emit_value(out: &mut Vec<u8>, v: &Value)
    ensures
        final(out)@ == old(out)@ + enc_doc(v@),
    decreases v,
{
    match v {
        Value::Null => {
            out.push(0x6E);
            out.push(0x75);
            out.push(0x6C);
            out.push(0x6C);
            proof {
                assert(final(out)@ =~= old(out)@ + enc_doc(v@));
            }
        },
        Value::Bool(b) => {
            if *b {
                out.push(0x74);
                out.push(0x72);
                out.push(0x75);
                out.push(0x65);
            } else {
                out.push(0x66);
                out.push(0x61);
                out.push(0x6C);
                out.push(0x73);
                out.push(0x65);
            }
            proof {
                assert(final(out)@ =~= old(out)@ + enc_doc(v@));
            }
        },
        Value::Int(i) => {
            emit_int(out, *i);
        },
        Value::Str(t) => {
            emit_str(out, t);
            proof {
                assert(old(out)@ + seq![0x22u8] + esc_bytes(t@) + seq![0x22u8] =~= old(out)@ + (
                seq![0x22u8] + esc_bytes(t@) + seq![0x22u8]));
            }
        },
        Value::List(xs) => {
            let ghost ds = v@->Arr_0;
            out.push(0x5B);
            let n = xs.len();
            let mut i: usize = 0;
            while i < n
                invariant
                    i <= n,
                    n == xs@.len(),
                    ds == v@->Arr_0,
                    ds.len() == n,
                    forall|k: int| 0 <= k < n ==> ds[k] == crate::value::doc_of(xs@[k]),
                    i == 0 ==> out@ == old(out)@ + seq![0x5Bu8],
                    i >= 1 ==> out@ == old(out)@ + seq![0x5Bu8] + enc_doc(ds[0]) + enc_more_elems(
                        ds.subrange(1, i as int),
                    ),
                decreases n - i,
            {
                if i > 0 {
                    out.push(0x2C);
                    emit_value(out, &xs[i]);
                    proof {
                        assert(ds.subrange(1, i + 1) =~= ds.subrange(1, i as int).push(
                            ds[i as int],
                        ));
                        lemma_enc_more_elems_push(ds.subrange(1, i as int), ds[i as int]);
                        assert(out@ =~= old(out)@ + seq![0x5Bu8] + enc_doc(ds[0])
                            + enc_more_elems(ds.subrange(1, i + 1)));
                    }
                } else {
                    emit_value(out, &xs[i]);
                    proof {
                        assert(ds.subrange(1, 1) =~= Seq::<Doc>::empty());
                        assert(out@ =~= old(out)@ + seq![0x5Bu8] + enc_doc(ds[0])
                            + enc_more_elems(ds.subrange(1, 1)));
                    }
                }
                i = i + 1;
            }
            out.push(0x5D);
            proof {
                if n == 0 {
                    assert(enc_elems(ds) =~= Seq::<u8>::empty());
                } else {
                    assert(ds.subrange(1, n as int) =~= ds.drop_first());
                }
                assert(final(out)@ =~= old(out)@ + enc_doc(v@));
            }
        },
        Value::Object(ms) => {
            let ghost mems = v@->Obj_0;
            out.push(0x7B);
            let n = ms.len();
            let mut i: usize = 0;
            while i < n
                invariant
                    i <= n,
                    n == ms@.len(),
                    mems == v@->Obj_0,
                    mems.len() == n,
                    forall|k: int|
                        0 <= k < n ==> (#[trigger] mems[k]) == (
                        ms@[k].0@,
                        crate::value::doc_of(ms@[k].1),
                        ),
                    i == 0 ==> out@ == old(out)@ + seq![0x7Bu8],
                    i >= 1 ==> out@ == old(out)@ + seq![0x7Bu8] + enc_member(mems[0].0, mems[0].1)
                        + enc_more_members(mems.subrange(1, i as int)),
                decreases n - i,
            {
                if i > 0 {
                    out.push(0x2C);
                }
                emit_str(out, &ms[i].0);
                out.push(0x3A);
                emit_value(out, &ms[i].1);
                proof {
                    let m_i = mems[i as int];
                    if i == 0 {
                        assert(mems.subrange(1, 1) =~= Seq::<(Seq<u8>, Doc)>::empty());
                        assert(out@ =~= old(out)@ + seq![0x7Bu8] + enc_member(mems[0].0, mems[0].1)
                            + enc_more_members(mems.subrange(1, 1)));
                    } else {
                        assert(mems.subrange(1, i + 1) =~= mems.subrange(1, i as int).push(m_i));
                        lemma_enc_more_members_push(mems.subrange(1, i as int), m_i.0, m_i.1);
                        assert(out@ =~= old(out)@ + seq![0x7Bu8] + enc_member(mems[0].0, mems[0].1)
                            + enc_more_members(mems.subrange(1, i + 1)));
                    }
                }
                i = i + 1;
            }
            out.push(0x7D);
            proof {
                if n == 0 {
                    assert(enc_members(mems) =~= Seq::<u8>::empty());
                } else {
                    assert(mems.subrange(1, n as int) =~= mems.drop_first());
                }
                assert(final(out)@ =~= old(out)@ + enc_doc(v@));
            }
        },
    }
}

/// Renders a value into the wire format.  The rendering is canonical: the
/// encoder emits no whitespace and the shortest escape for every byte.
pub fn encode_value(v: &Value) -> (r: Vec<u8>)
    ensures
        r@ == enc_doc(v@),
{
    let mut out: Vec<u8> = Vec::new();
    emit_value(&mut out, v);
    out
}

// ---------------------------------------------------------------------------
// The parser, as a mathematical function from bytes to documents.
//
// Each function returns the parsed item together with the number of bytes it
// consumed, or nothing if the input is not in the format's grammar.  The
// parser accepts whitespace between tokens; inside strings it accepts raw
// bytes at or above `0x20`, the short escapes, and `\u00XX` escapes below
// `0x80`.
// ---------------------------------------------------------------------------
/// Whitespace between tokens: space, tab, line feed, carriage return.
pub open spec fn is_ws(b: u8) -> bool {
    b == 0x20 || b == 0x09 || b == 0x0A || b == 0x0D
}

/// A decimal digit.
pub open spec fn is_digit(b: u8) -> bool {
    0x30 <= b <= 0x39
}

/// A hexadecimal digit, either case.
pub open spec fn is_hex(b: u8) -> bool {
    is_digit(b) || 0x61 <= b <= 0x66 || 0x41 <= b <= 0x46
}

/// The value of a hexadecimal digit.
pub open spec fn hex_val(b: u8) -> int {
    if is_digit(b) {
        b - 0x30
    } else if 0x61 <= b <= 0x66 {
        b - 0x57
    } else {
        b - 0x37
    }
}

/// The input remaining at position `i`: the termination measure of the
/// parser's recursion.
pub open spec fn rem(s: Seq<u8>, i: int) -> int {
    if s.len() - i >= 0 {
        s.len() - i
    } else {
        0
    }
}

/// The literal `lit` occurs in `s` at position `i`.
pub open spec fn has_lit(s: Seq<u8>, i: int, lit: Seq<u8>) -> bool {
    0 <= i && i + lit.len() <= s.len() && s.subrange(i, i + lit.len()) == lit
}

/// How many decimal digits follow from position `i`.
pub open spec fn digits_len(s: Seq<u8>, i: int) -> nat
    decreases rem(s, i),
{
    if 0 <= i < s.len() && is_digit(s[i]) {
        1 + digits_len(s, i + 1)
    } else {
        0
    }
}

/// The value of the `n` digits starting at position `i`.
pub open spec fn val_of(s: Seq<u8>, i: int, n: nat) -> int
    decreases n,
{
    if n == 0 {
        0
    } else {
        val_of(s, i, (n - 1) as nat) * 10 + (s[i + n - 1] - 0x30)
    }
}

/// Only whitespace (or nothing) remains from position `i`.
pub open spec fn all_ws_from(s: Seq<u8>, i: int) -> bool
    decreases rem(s, i),
{
    if 0 <= i < s.len() {
        is_ws(s[i]) && all_ws_from(s, i + 1)
    } else {
        true
    }
}

/// Parses one document at position `i`, leading whitespace included.
pub open spec fn parse_value(s: Seq<u8>, i: int) -> Option<(Doc, nat)>
    decreases rem(s, i), 0int,
{
    if i < 0 || i >= s.len() {
        None
    } else if is_ws(s[i]) {
        match parse_value(s, i + 1) {
            Some((d, n)) => Some((d, (n + 1) as nat)),
            None => None,
        }
    } else if s[i] == 0x6E {
        if has_lit(s, i, seq![0x6Eu8, 0x75u8, 0x6Cu8, 0x6Cu8]) {
            Some((Doc::Null, 4))
        } else {
            None
        }
    } else if s[i] == 0x74 {
        if has_lit(s, i, seq![0x74u8, 0x72u8, 0x75u8, 0x65u8]) {
            Some((Doc::Bool(true), 4))
        } else {
            None
        }
    } else if s[i] == 0x66 {
        if has_lit(s, i, seq![0x66u8, 0x61u8, 0x6Cu8, 0x73u8, 0x65u8]) {
            Some((Doc::Bool(false), 5))
        } else {
            None
        }
    } else if s[i] == 0x22 {
        match parse_str_body(s, i + 1) {
            Some((t, n)) => Some((Doc::Str(t), (n + 1) as nat)),
            None => None,
        }
    } else if s[i] == 0x2D {
        let n = digits_len(s, i + 1);
        if n == 0 {
            None
        } else if s[i + 1] == 0x30 && n > 1 {
            None
        } else {
            let v = val_of(s, i + 1, n);
            if v > 0x8000_0000_0000_0000 {
                None
            } else {
                Some((Doc::Int(-v), (n + 1) as nat))
            }
        }
    } else if is_digit(s[i]) {
        let n = digits_len(s, i);
        if s[i] == 0x30 && n > 1 {
            None
        } else {
            let v = val_of(s, i, n);
            if v > 0x7FFF_FFFF_FFFF_FFFF {
                None
            } else {
                Some((Doc::Int(v), n))
            }
        }
    } else if s[i] == 0x5B {
        match parse_elems(s, i + 1) {
            Some((ds, n)) => Some((Doc::Arr(ds), (n + 1) as nat)),
            None => None,
        }
    } else if s[i] == 0x7B {
        match parse_members(s, i + 1) {
            Some((ms, n)) => Some((Doc::Obj(ms), (n + 1) as nat)),
            None => None,
        }
    } else {
        None
    }
}

/// Parses string content up to and including the closing quote.
pub open spec fn parse_str_body(s: Seq<u8>, i: int) -> Option<(Seq<u8>, nat)>
    decreases rem(s, i), 0int,
{
    if i < 0 || i >= s.len() {
        None
    } else if s[i] == 0x22 {
        Some((Seq::empty(), 1))
    } else if s[i] == 0x5C {
        if i + 1 >= s.len() {
            None
        } else {
            let e = s[i + 1];
            if e == 0x75 {
                if i + 5 < s.len() && s[i + 2] == 0x30 && s[i + 3] == 0x30 && is_hex(s[i + 4])
                    && is_hex(s[i + 5]) && hex_val(s[i + 4]) * 16 + hex_val(s[i + 5]) < 0x80 {
                    let b = (hex_val(s[i + 4]) * 16 + hex_val(s[i + 5])) as u8;
                    match parse_str_body(s, i + 6) {
                        Some((t, n)) => Some((seq![b] + t, (n + 6) as nat)),
                        None => None,
                    }
                } else {
                    None
                }
            } else {
                let b: u8 = if e == 0x22 {
                    0x22
                } else if e == 0x5C {
                    0x5C
                } else if e == 0x2F {
                    0x2F
                } else if e == 0x62 {
                    0x08
                } else if e == 0x74 {
                    0x09
                } else if e == 0x6E {
                    0x0A
                } else if e == 0x66 {
                    0x0C
                } else if e == 0x72 {
                    0x0D
                } else {
                    0
                };
                if b == 0 {
                    None
                } else {
                    match parse_str_body(s, i + 2) {
                        Some((t, n)) => Some((seq![b] + t, (n + 2) as nat)),
                        None => None,
                    }
                }
            }
        }
    } else if s[i] >= 0x20 {
        match parse_str_body(s, i + 1) {
            Some((t, n)) => Some((seq![s[i]] + t, (n + 1) as nat)),
            None => None,
        }
    } else {
        None
    }
}

/// Parses an array's inside after `[`: either the closing bracket at once,
/// or the elements, up to and including the closing bracket.
pub open spec fn parse_elems(s: Seq<u8>, i: int) -> Option<(Seq<Doc>, nat)>
    decreases rem(s, i), 2int,
{
    if i < 0 || i >= s.len() {
        None
    } else if is_ws(s[i]) {
        match parse_elems(s, i + 1) {
            Some((ds, n)) => Some((ds, (n + 1) as nat)),
            None => None,
        }
    } else if s[i] == 0x5D {
        Some((Seq::empty(), 1))
    } else {
        match parse_value(s, i) {
            Some((d, n)) => match parse_elems_rest(s, i + n) {
                Some((ds, m)) => Some((seq![d] + ds, (n + m) as nat)),
                None => None,
            },
            None => None,
        }
    }
}

/// After one array element: a comma and another element, or the closing
/// bracket.
pub open spec fn parse_elems_rest(s: Seq<u8>, i: int) -> Option<(Seq<Doc>, nat)>
    decreases rem(s, i), 1int,
{
    if i < 0 || i >= s.len() {
        None
    } else if is_ws(s[i]) {
        match parse_elems_rest(s, i + 1) {
            Some((ds, n)) => Some((ds, (n + 1) as nat)),
            None => None,
        }
    } else if s[i] == 0x5D {
        Some((Seq::empty(), 1))
    } else if s[i] == 0x2C {
        match parse_value(s, i + 1) {
            Some((d, n)) => match parse_elems_rest(s, i + 1 + n) {
                Some((ds, m)) => Some((seq![d] + ds, (1 + n + m) as nat)),
                None => None,
            },
            None => None,
        }
    } else {
        None
    }
}

/// After an object member's key: whitespace, the colon, and the member's
/// value.
pub open spec fn parse_member_val(s: Seq<u8>, i: int) -> Option<(Doc, nat)>
    decreases rem(s, i), 1int,
{
    if i < 0 || i >= s.len() {
        None
    } else if is_ws(s[i]) {
        match parse_member_val(s, i + 1) {
            Some((d, n)) => Some((d, (n + 1) as nat)),
            None => None,
        }
    } else if s[i] == 0x3A {
        match parse_value(s, i + 1) {
            Some((d, n)) => Some((d, (n + 1) as nat)),
            None => None,
        }
    } else {
        None
    }
}

/// One object member: a quoted key, then a colon and a value.
pub open spec fn parse_member(s: Seq<u8>, i: int) -> Option<((Seq<u8>, Doc), nat)>
    decreases rem(s, i), 1int,
{
    if i < 0 || i >= s.len() {
        None
    } else if is_ws(s[i]) {
        match parse_member(s, i + 1) {
            Some((m, n)) => Some((m, (n + 1) as nat)),
            None => None,
        }
    } else if s[i] == 0x22 {
        match parse_str_body(s, i + 1) {
            Some((k, nk)) => match parse_member_val(s, i + 1 + nk) {
                Some((d, nv)) => Some(((k, d), (1 + nk + nv) as nat)),
                None => None,
            },
            None => None,
        }
    } else {
        None
    }
}

/// Parses an object's inside after `{`, up to and including the closing
/// brace.
pub open spec fn parse_members(s: Seq<u8>, i: int) -> Option<(Seq<(Seq<u8>, Doc)>, nat)>
    decreases rem(s, i), 2int,
{
    if i < 0 || i >= s.len() {
        None
    } else if is_ws(s[i]) {
        match parse_members(s, i + 1) {
            Some((ms, n)) => Some((ms, (n + 1) as nat)),
            None => None,
        }
    } else if s[i] == 0x7D {
        Some((Seq::empty(), 1))
    } else {
        match parse_member(s, i) {
            Some((m, n)) => match parse_members_rest(s, i + n) {
                Some((ms, mm)) => Some((seq![m] + ms, (n + mm) as nat)),
                None => None,
            },
            None => None,
        }
    }
}

/// After one object member: a comma and another member, or the closing
/// brace.
pub open spec fn parse_members_rest(s: Seq<u8>, i: int) -> Option<(Seq<(Seq<u8>, Doc)>, nat)>
    decreases rem(s, i), 1int,
{
    if i < 0 || i >= s.len() {
        None
    } else if is_ws(s[i]) {
        match parse_members_rest(s, i + 1) {
            Some((ms, n)) => Some((ms, (n + 1) as nat)),
            None => None,
        }
    } else if s[i] == 0x7D {
        Some((Seq::empty(), 1))
    } else if s[i] == 0x2C {
        match parse_member(s, i + 1) {
            Some((m, n)) => match parse_members_rest(s, i + 1 + n) {
                Some((ms, mm)) => Some((seq![m] + ms, (1 + n + mm) as nat)),
                None => None,
            },
            None => None,
        }
    } else {
        None
    }
}

/// Parses a whole input: one document, possibly surrounded by whitespace,
/// and nothing else.
pub open spec fn parse_doc(s: Seq<u8>) -> Option<Doc> {
    match parse_value(s, 0) {
        Some((d, n)) => if all_ws_from(s, n as int) {
            Some(d)
        } else {
            None
        },
        None => None,
    }
}

// ---------------------------------------------------------------------------
// Arithmetic facts about digit runs.
// ---------------------------------------------------------------------------
/// The `n`-th power of ten.
pub open spec fn pow10(n: nat) -> int
    decreases n,
{
    if n == 0 {
        1int
    } else {
        10 * pow10((n - 1) as nat)
    }
}

proof fn lemma_pow10_pos(n: nat)
    ensures
        pow10(n) >= 1,
    decreases n,
{
    if n > 0 {
        lemma_pow10_pos((n - 1) as nat);
    }
}

proof fn lemma_pow10_mono(a: nat, b: nat)
    requires
        a <= b,
    ensures
        pow10(a) <= pow10(b),
    decreases b,
{
    lemma_pow10_pos(a);
    if a < b {
        lemma_pow10_mono(a, (b - 1) as nat);
        lemma_pow10_pos((b - 1) as nat);
    }
}

proof fn lemma_pow10_values()
    ensures
        pow10(18) == 1_000_000_000_000_000_000,
        pow10(19) == 10_000_000_000_000_000_000,
{
    reveal_with_fuel(pow10, 21);
}

/// Every byte of a digit run is a digit, and the run stays inside the input.
proof fn lemma_digits_props(s: Seq<u8>, i: int)
    requires
        0 <= i,
    ensures
        i + digits_len(s, i) <= s.len() || digits_len(s, i) == 0,
        forall|k: int| 0 <= k < digits_len(s, i) ==> is_digit(#[trigger] s[i + k]),
    decreases rem(s, i),
{
    if 0 <= i < s.len() && is_digit(s[i]) {
        lemma_digits_props(s, i + 1);
        assert forall|k: int| 0 <= k < digits_len(s, i) implies is_digit(#[trigger] s[i + k]) by {
            if k > 0 {
                assert(is_digit(s[(i + 1) + (k - 1)]));
            }
        }
    }
}

proof fn lemma_val_bounds(s: Seq<u8>, i: int, n: nat)
    requires
        forall|k: int| 0 <= k < n ==> is_digit(#[trigger] s[i + k]),
    ensures
        0 <= val_of(s, i, n) < pow10(n),
    decreases n,
{
    if n > 0 {
        lemma_val_bounds(s, i, (n - 1) as nat);
        assert(is_digit(s[i + (n - 1)]));
    }
}

proof fn lemma_val_lower(s: Seq<u8>, i: int, n: nat)
    requires
        n >= 1,
        forall|k: int| 0 <= k < n ==> is_digit(#[trigger] s[i + k]),
        s[i] != 0x30,
    ensures
        val_of(s, i, n) >= pow10((n - 1) as nat),
    decreases n,
{
    assert(is_digit(s[i + 0]));
    if n == 1 {
        assert(val_of(s, i, 1) == val_of(s, i, 0) * 10 + (s[i] - 0x30));
    } else {
        lemma_val_lower(s, i, (n - 1) as nat);
        assert(is_digit(s[i + (n - 1)]));
        lemma_pow10_pos((n - 2) as nat);
    }
}

// ---------------------------------------------------------------------------
// The executable parser.  Each function mirrors one of the parsing functions
// above and is proved to return exactly what it does.
// ---------------------------------------------------------------------------
fn r_digits_len(s: &[u8], i: usize) -> (r: usize)
    requires
        i <= s@.len(),
    ensures
        r == digits_len(s@, i as int),
        i + r <= s@.len(),
    decreases s@.len() - i,
{
    if i < s.len() {
        let b = s[i];
        if 0x30 <= b && b <= 0x39 {
            let rest = r_digits_len(s, i + 1);
            return 1 + rest;
        }
    }
    0
}

#[verifier::loop_isolation(false)]
fn r_digits_val(s: &[u8], i: usize, n: usize) -> (r: u64)
    requires
        i + n <= s@.len(),
        n <= 19,
        forall|k: int| 0 <= k < n ==> is_digit(#[trigger] s@[i + k]),
    ensures
        r as int == val_of(s@, i as int, n as nat),
{
    let _cap = s.len();
    let mut acc: u64 = 0;
    let mut k: usize = 0;
    while k < n
        invariant
            k <= n,
            n <= 19,
            i + n <= s@.len(),
            forall|j: int| 0 <= j < n ==> is_digit(#[trigger] s@[i + j]),
            acc as int == val_of(s@, i as int, k as nat),
        decreases n - k,
    {
        proof {
            lemma_val_bounds(s@, i as int, k as nat);
            lemma_pow10_mono(k as nat, 18);
            lemma_pow10_values();
            assert(is_digit(s@[i + k]));
        }
        let d = s[i + k] - 0x30;
        acc = acc * 10 + d as u64;
        k = k + 1;
    }
    acc
}

/// Parses a number starting at the first digit (`neg` says whether a minus
/// sign preceded it); returns the value and the count of digits consumed.
fn r_number(s: &[u8], i: usize, neg: bool) -> (r: Option<(i64, usize)>)
    requires
        i < s@.len(),
        is_digit(s@[i as int]),
    ensures
        ({
            let dn = digits_len(s@, i as int);
            let limit: int = if neg {
                0x8000_0000_0000_0000
            } else {
                0x7FFF_FFFF_FFFF_FFFF
            };
            let v = val_of(s@, i as int, dn);
            if s@[i as int] == 0x30 && dn > 1 {
                r is None
            } else if v > limit {
                r is None
            } else {
                r matches Some((j, m)) && m == dn && i + m <= s@.len() && (j as int == if neg {
                    -v
                } else {
                    v
                })
            }
        }),
{
    let dn = r_digits_len(s, i);
    proof {
        lemma_digits_props(s@, i as int);
    }
    if s[i] == 0x30 && dn > 1 {
        return None;
    }
    let limit: u64 = if neg {
        0x8000_0000_0000_0000u64
    } else {
        0x7FFF_FFFF_FFFF_FFFFu64
    };
    if dn > 19 {
        proof {
            lemma_val_lower(s@, i as int, dn as nat);
            lemma_pow10_values();
            lemma_pow10_mono(19, (dn - 1) as nat);
        }
        return None;
    }
    let m = r_digits_val(s, i, dn);
    if m > limit {
        return None;
    }
    let j: i64 = if neg {
        if m == 0x8000_0000_0000_0000u64 {
            i64::MIN
        } else {
            -(m as i64)
        }
    } else {
        m as i64
    };
    Some((j, dn))
}

fn r_str_body(s: &[u8], i: usize) -> (r: Option<(Vec<u8>, usize)>)
    requires
        i <= s@.len(),
    ensures
        ({
            match (r, parse_str_body(s@, i as int)) {
                (Some((t, n)), Some((st, m))) => t@ == st && n == m && i + n <= s@.len(),
                (None, None) => true,
                _ => false,
            }
        }),
    decreases s@.len() - i,
{
    if i >= s.len() {
        return None;
    }
    let b0 = s[i];
    if b0 == 0x22 {
        return Some((Vec::new(), 1));
    }
    if b0 == 0x5C {
        if i + 1 >= s.len() {
            return None;
        }
        let e = s[i + 1];
        if e == 0x75 {
            if s.len() - i >= 6 {
                let h0 = s[i + 2];
                let h1 = s[i + 3];
                let h2 = s[i + 4];
                let h3 = s[i + 5];
                let hex2 = hex_digit_value(h2);
                let hex3 = hex_digit_value(h3);
                if h0 == 0x30 && h1 == 0x30 && hex2 < 16 && hex3 < 16 && hex2 * 16 + hex3 < 0x80 {
                    let b = (hex2 * 16 + hex3) as u8;
                    match r_str_body(s, i + 6) {
                        Some((t, n)) => {
                            let mut t2 = t;
                            t2.insert(0, b);
                            proof {
                                let st = (parse_str_body(s@, i + 6)->0).0;
                                assert(t2@ =~= seq![b] + st);
                            }
                            return Some((t2, n + 6));
                        },
                        None => {
                            return None;
                        },
                    }
                } else {
                    return None;
                }
            } else {
                return None;
            }
        }
        let b: u8 = if e == 0x22 {
            0x22
        } else if e == 0x5C {
            0x5C
        } else if e == 0x2F {
            0x2F
        } else if e == 0x62 {
            0x08
        } else if e == 0x74 {
            0x09
        } else if e == 0x6E {
            0x0A
        } else if e == 0x66 {
            0x0C
        } else if e == 0x72 {
            0x0D
        } else {
            0
        };
        if b == 0 {
            return None;
        }
        match r_str_body(s, i + 2) {
            Some((t, n)) => {
                let mut t2 = t;
                t2.insert(0, b);
                proof {
                    let st = (parse_str_body(s@, i + 2)->0).0;
                    assert(t2@ =~= seq![b] + st);
                }
                return Some((t2, n + 2));
            },
            None => {
                return None;
            },
        }
    }
    if b0 >= 0x20 {
        match r_str_body(s, i + 1) {
            Some((t, n)) => {
                let mut t2 = t;
                t2.insert(0, b0);
                proof {
                    let st = (parse_str_body(s@, i + 1)->0).0;
                    assert(t2@ =~= seq![b0] + st);
                }
                return Some((t2, n + 1));
            },
            None => {
                return None;
            },
        }
    }
    None
}

/// The value of a hexadecimal digit byte, or 16 for any other byte.
fn hex_digit_value(b: u8) -> (r: u8)
    ensures
        is_hex(b) <==> r < 16,
        is_hex(b) ==> r as int == hex_val(b),
{
    if 0x30 <= b && b <= 0x39 {
        b - 0x30
    } else if 0x61 <= b && b <= 0x66 {
        b - 0x57
    } else if 0x41 <= b && b <= 0x46 {
        b - 0x37
    } else {
        16
    }
}

fn r_value(s: &[u8], i: usize) -> (r: Option<(Value, usize)>)
    requires
        i <= s@.len(),
    ensures
        ({
            match (r, parse_value(s@, i as int)) {
                (Some((v, n)), Some((d, m))) => v@ == d && n == m && i + n <= s@.len(),
                (None, None) => true,
                _ => false,
            }
        }),
    decreases s@.len() - i, 0int,
{
    if i >= s.len() {
        return None;
    }
    let b0 = s[i];
    if b0 == 0x20 || b0 == 0x09 || b0 == 0x0A || b0 == 0x0D {
        return match r_value(s, i + 1) {
            Some((v, n)) => Some((v, n + 1)),
            None => None,
        };
    }
    if b0 == 0x6E {
        if s.len() - i >= 4 && s[i + 1] == 0x75 && s[i + 2] == 0x6C && s[i + 3] == 0x6C {
            proof {
                assert(s@.subrange(i as int, i + 4) =~= seq![0x6Eu8, 0x75u8, 0x6Cu8, 0x6Cu8]);
            }
            return Some((Value::Null, 4));
        } else {
            proof {
                lemma_lit_mismatch(s@, i as int, seq![0x6Eu8, 0x75u8, 0x6Cu8, 0x6Cu8]);
            }
            return None;
        }
    }
    if b0 == 0x74 {
        if s.len() - i >= 4 && s[i + 1] == 0x72 && s[i + 2] == 0x75 && s[i + 3] == 0x65 {
            proof {
                assert(s@.subrange(i as int, i + 4) =~= seq![0x74u8, 0x72u8, 0x75u8, 0x65u8]);
            }
            return Some((Value::Bool(true), 4));
        } else {
            proof {
                lemma_lit_mismatch(s@, i as int, seq![0x74u8, 0x72u8, 0x75u8, 0x65u8]);
            }
            return None;
        }
    }
    if b0 == 0x66 {
        if s.len() - i >= 5 && s[i + 1] == 0x61 && s[i + 2] == 0x6C && s[i + 3] == 0x73 && s[i + 4]
            == 0x65 {
            proof {
                assert(s@.subrange(i as int, i + 5) =~= seq![
                    0x66u8,
                    0x61u8,
                    0x6Cu8,
                    0x73u8,
                    0x65u8,
                ]);
            }
            return Some((Value::Bool(false), 5));
        } else {
            proof {
                lemma_lit_mismatch(s@, i as int, seq![0x66u8, 0x61u8, 0x6Cu8, 0x73u8, 0x65u8]);
            }
            return None;
        }
    }
    if b0 == 0x22 {
        return match r_str_body(s, i + 1) {
            Some((t, n)) => Some((Value::Str(t), n + 1)),
            None => None,
        };
    }
    if b0 == 0x2D {
        if i + 1 < s.len() && 0x30 <= s[i + 1] && s[i + 1] <= 0x39 {
            return match r_number(s, i + 1, true) {
                Some((j, m)) => Some((Value::Int(j), m + 1)),
                None => None,
            };
        } else {
            return None;
        }
    }
    if 0x30 <= b0 && b0 <= 0x39 {
        return match r_number(s, i, false) {
            Some((j, m)) => Some((Value::Int(j), m)),
            None => None,
        };
    }
    if b0 == 0x5B {
        return match r_elems(s, i + 1) {
            Some((vs, n)) => {
                let v = Value::List(vs);
                proof {
                    let ds = (parse_elems(s@, i + 1)->0).0;
                    assert(v@ == Doc::Arr(ds)) by {
                        assert(v@->Arr_0 =~= ds);
                    }
                }
                Some((v, n + 1))
            },
            None => None,
        };
    }
    if b0 == 0x7B {
        return match r_members(s, i + 1) {
            Some((mv, n)) => {
                let v = Value::Object(mv);
                proof {
                    let ms = (parse_members(s@, i + 1)->0).0;
                    assert(v@ == Doc::Obj(ms)) by {
                        assert(v@->Obj_0 =~= ms);
                    }
                }
                Some((v, n + 1))
            },
            None => None,
        };
    }
    None
}

/// If a literal's first byte matches at `i` but the later bytes or the
/// length do not, the literal does not occur at `i`.
proof fn lemma_lit_mismatch(s: Seq<u8>, i: int, lit: Seq<u8>)
    requires
        0 <= i <= s.len(),
        i + lit.len() > s.len() || exists|k: int|
            0 <= k < lit.len() && s[i + k] != #[trigger] lit[k],
    ensures
        !has_lit(s, i, lit),
{
    if i + lit.len() <= s.len() {
        let k = choose|k: int| 0 <= k < lit.len() && s[i + k] != #[trigger] lit[k];
        assert(s.subrange(i, i + lit.len())[k] == s[i + k]);
    }
}

fn r_elems(s: &[u8], i: usize) -> (r: Option<(Vec<Value>, usize)>)
    requires
        i <= s@.len(),
    ensures
        ({
            match (r, parse_elems(s@, i as int)) {
                (Some((vs, n)), Some((ds, m))) => n == m && i + n <= s@.len() && vs@.len()
                    == ds.len() && (forall|k: int| 0 <= k < ds.len() ==> (#[trigger] vs@[k])@ == ds[k]),
                (None, None) => true,
                _ => false,
            }
        }),
    decreases s@.len() - i, 2int,
{
    if i >= s.len() {
        return None;
    }
    let b0 = s[i];
    if b0 == 0x20 || b0 == 0x09 || b0 == 0x0A || b0 == 0x0D {
        return match r_elems(s, i + 1) {
            Some((vs, n)) => Some((vs, n + 1)),
            None => None,
        };
    }
    if b0 == 0x5D {
        return Some((Vec::new(), 1));
    }
    match r_value(s, i) {
        Some((v, n)) => match r_elems_rest(s, i + n) {
            Some((vs, m)) => {
                let mut vs2 = vs;
                vs2.insert(0, v);
                Some((vs2, n + m))
            },
            None => None,
        },
        None => None,
    }
}

fn r_elems_rest(s: &[u8], i: usize) -> (r: Option<(Vec<Value>, usize)>)
    requires
        i <= s@.len(),
    ensures
        ({
            match (r, parse_elems_rest(s@, i as int)) {
                (Some((vs, n)), Some((ds, m))) => n == m && i + n <= s@.len() && vs@.len()
                    == ds.len() && (forall|k: int| 0 <= k < ds.len() ==> (#[trigger] vs@[k])@ == ds[k]),
                (None, None) => true,
                _ => false,
            }
        }),
    decreases s@.len() - i, 1int,
{
    if i >= s.len() {
        return None;
    }
    let b0 = s[i];
    if b0 == 0x20 || b0 == 0x09 || b0 == 0x0A || b0 == 0x0D {
        return match r_elems_rest(s, i + 1) {
            Some((vs, n)) => Some((vs, n + 1)),
            None => None,
        };
    }
    if b0 == 0x5D {
        return Some((Vec::new(), 1));
    }
    if b0 == 0x2C {
        return match r_value(s, i + 1) {
            Some((v, n)) => match r_elems_rest(s, i + 1 + n) {
                Some((vs, m)) => {
                    let mut vs2 = vs;
                    vs2.insert(0, v);
                    Some((vs2, 1 + n + m))
                },
                None => None,
            },
            None => None,
        };
    }
    None
}

fn r_member_val(s: &[u8], i: usize) -> (r: Option<(Value, usize)>)
    requires
        i <= s@.len(),
    ensures
        ({
            match (r, parse_member_val(s@, i as int)) {
                (Some((v, n)), Some((d, m))) => v@ == d && n == m && i + n <= s@.len(),
                (None, None) => true,
                _ => false,
            }
        }),
    decreases s@.len() - i, 1int,
{
    if i >= s.len() {
        return None;
    }
    let b0 = s[i];
    if b0 == 0x20 || b0 == 0x09 || b0 == 0x0A || b0 == 0x0D {
        return match r_member_val(s, i + 1) {
            Some((v, n)) => Some((v, n + 1)),
            None => None,
        };
    }
    if b0 == 0x3A {
        return match r_value(s, i + 1) {
            Some((v, n)) => Some((v, n + 1)),
            None => None,
        };
    }
    None
}

fn r_member(s: &[u8], i: usize) -> (r: Option<((Vec<u8>, Value), usize)>)
    requires
        i <= s@.len(),
    ensures
        ({
            match (r, parse_member(s@, i as int)) {
                (Some(((k, v), n)), Some(((sk, d), m))) => k@ == sk && v@ == d && n == m && i + n
                    <= s@.len(),
                (None, None) => true,
                _ => false,
            }
        }),
    decreases s@.len() - i, 1int,
{
    if i >= s.len() {
        return None;
    }
    let b0 = s[i];
    if b0 == 0x20 || b0 == 0x09 || b0 == 0x0A || b0 == 0x0D {
        return match r_member(s, i + 1) {
            Some((m, n)) => Some((m, n + 1)),
            None => None,
        };
    }
    if b0 == 0x22 {
        return match r_str_body(s, i + 1) {
            Some((k, nk)) => match r_member_val(s, i + 1 + nk) {
                Some((v, nv)) => Some(((k, v), 1 + nk + nv)),
                None => None,
            },
            None => None,
        };
    }
    None
}

fn r_members(s: &[u8], i: usize) -> (r: Option<(Vec<(Vec<u8>, Value)>, usize)>)
    requires
        i <= s@.len(),
    ensures
        ({
            match (r, parse_members(s@, i as int)) {
                (Some((mv, n)), Some((ms, m))) => n == m && i + n <= s@.len() && mv@.len()
                    == ms.len() && (forall|k: int|
                    0 <= k < ms.len() ==> (#[trigger] mv@[k]).0@ == ms[k].0 && mv@[k].1@
                        == ms[k].1),
                (None, None) => true,
                _ => false,
            }
        }),
    decreases s@.len() - i, 2int,
{
    if i >= s.len() {
        return None;
    }
    let b0 = s[i];
    if b0 == 0x20 || b0 == 0x09 || b0 == 0x0A || b0 == 0x0D {
        return match r_members(s, i + 1) {
            Some((mv, n)) => Some((mv, n + 1)),
            None => None,
        };
    }
    if b0 == 0x7D {
        return Some((Vec::new(), 1));
    }
    match r_member(s, i) {
        Some((m0, n)) => match r_members_rest(s, i + n) {
            Some((mv, mm)) => {
                let mut mv2 = mv;
                mv2.insert(0, m0);
                Some((mv2, n + mm))
            },
            None => None,
        },
        None => None,
    }
}

fn r_members_rest(s: &[u8], i: usize) -> (r: Option<(Vec<(Vec<u8>, Value)>, usize)>)
    requires
        i <= s@.len(),
    ensures
        ({
            match (r, parse_members_rest(s@, i as int)) {
                (Some((mv, n)), Some((ms, m))) => n == m && i + n <= s@.len() && mv@.len()
                    == ms.len() && (forall|k: int|
                    0 <= k < ms.len() ==> (#[trigger] mv@[k]).0@ == ms[k].0 && mv@[k].1@
                        == ms[k].1),
                (None, None) => true,
                _ => false,
            }
        }),
    decreases s@.len() - i, 1int,
{
    if i >= s.len() {
        return None;
    }
    let b0 = s[i];
    if b0 == 0x20 || b0 == 0x09 || b0 == 0x0A || b0 == 0x0D {
        return match r_members_rest(s, i + 1) {
            Some((mv, n)) => Some((mv, n + 1)),
            None => None,
        };
    }
    if b0 == 0x7D {
        return Some((Vec::new(), 1));
    }
    if b0 == 0x2C {
        return match r_member(s, i + 1) {
            Some((m0, n)) => match r_members_rest(s, i + 1 + n) {
                Some((mv, mm)) => {
                    let mut mv2 = mv;
                    mv2.insert(0, m0);
                    Some((mv2, 1 + n + mm))
                },
                None => None,
            },
            None => None,
        };
    }
    None
}

/// Parses a whole buffer as one document.  Succeeds exactly on the inputs
/// the wire grammar accepts, and returns the document they denote.
#[verifier::loop_isolation(false)]
pub fn parse_document(bytes: &[u8]) -> (r: Option<Value>)
    ensures
        ({
            match (r, parse_doc(bytes@)) {
                (Some(v), Some(d)) => v@ == d,
                (None, None) => true,
                _ => false,
            }
        }),
{
    match r_value(bytes, 0) {
        Some((v, n)) => {
            let mut j = n;
            while j < bytes.len()
                invariant
                    n <= j <= bytes@.len(),
                    all_ws_from(bytes@, n as int) <==> all_ws_from(bytes@, j as int),
                decreases bytes@.len() - j,
            {
                let b = bytes[j];
                if !(b == 0x20 || b == 0x09 || b == 0x0A || b == 0x0D) {
                    proof {
                        assert(!all_ws_from(bytes@, j as int));
                    }
                    return None;
                }
                j = j + 1;
            }
            Some(v)
        },
        None => None,
    }
}

// ---------------------------------------------------------------------------
// The codec law: parsing a rendering yields the rendered document.
// ---------------------------------------------------------------------------
proof fn lemma_sub_index(s: Seq<u8>, i: int, x: Seq<u8>, j: int)
    requires
        has_lit(s, i, x),
        0 <= j < x.len(),
    ensures
        s[i + j] == x[j],
{
    assert(s.subrange(i, i + x.len())[j] == s[i + j]);
}

proof fn lemma_sub_sub(s: Seq<u8>, i: int, x: Seq<u8>, a: int, b: int)
    requires
        has_lit(s, i, x),
        0 <= a <= b <= x.len(),
    ensures
        s.subrange(i + a, i + b) == x.subrange(a, b),
{
    assert forall|j: int| 0 <= j < b - a implies s.subrange(i + a, i + b)[j] == x.subrange(a, b)[j]
        by {
        assert(s.subrange(i, i + x.len())[a + j] == s[i + a + j]);
    }
    assert(s.subrange(i + a, i + b) =~= x.subrange(a, b));
}

/// The digits of a rendered integer: at least one, all digits, and no
/// leading zero unless the number is a single digit.
proof fn lemma_dec_props(n: int)
    requires
        n >= 0,
    ensures
        dec_digits(n).len() >= 1,
        forall|k: int| 0 <= k < dec_digits(n).len() ==> is_digit(#[trigger] dec_digits(n)[k]),
        n >= 10 ==> dec_digits(n).len() > 1,
        dec_digits(n).len() > 1 ==> dec_digits(n)[0] != 0x30,
    decreases n,
{
    if n >= 10 {
        lemma_dec_props(n / 10);
        assert forall|k: int| 0 <= k < dec_digits(n).len() implies is_digit(
            #[trigger] dec_digits(n)[k],
        ) by {
            if k < dec_digits(n).len() - 1 {
                assert(dec_digits(n)[k] == dec_digits(n / 10)[k]);
            }
        }
        assert(dec_digits(n)[0] == dec_digits(n / 10)[0]);
        if n / 10 < 10 {
            assert(n / 10 >= 1);
            assert(dec_digits(n / 10) == seq![(0x30 + n / 10) as u8]);
        }
    }
}

/// A digit run surrounded by non-digits has exactly the length it shows.
proof fn lemma_digits_len_exact(s: Seq<u8>, i: int, l: int)
    requires
        0 <= i,
        i + l <= s.len(),
        0 <= l,
        forall|k: int| 0 <= k < l ==> is_digit(#[trigger] s[i + k]),
        i + l == s.len() || !is_digit(s[i + l]),
    ensures
        digits_len(s, i) == l,
    decreases l,
{
    if l == 0 {
    } else {
        assert(is_digit(s[i + 0]));
        assert forall|k: int| 0 <= k < l - 1 implies is_digit(#[trigger] s[(i + 1) + k]) by {
            assert(is_digit(s[i + (k + 1)]));
        }
        lemma_digits_len_exact(s, i + 1, l - 1);
    }
}

/// Reading back the digits of `n` yields `n`.
proof fn lemma_val_of_dec(n: int, s: Seq<u8>, i: int)
    requires
        n >= 0,
        has_lit(s, i, dec_digits(n)),
    ensures
        val_of(s, i, dec_digits(n).len() as nat) == n,
    decreases n,
{
    lemma_dec_props(n);
    let l = dec_digits(n).len() as int;
    if n < 10 {
        lemma_sub_index(s, i, dec_digits(n), 0);
        assert(val_of(s, i, 1) == val_of(s, i, 0) * 10 + (s[i] - 0x30));
    } else {
        lemma_dec_props(n / 10);
        let l0 = dec_digits(n / 10).len() as int;
        assert(l == l0 + 1);
        lemma_sub_sub(s, i, dec_digits(n), 0, l0);
        assert(dec_digits(n).subrange(0, l0) =~= dec_digits(n / 10));
        lemma_val_of_dec(n / 10, s, i);
        lemma_sub_index(s, i, dec_digits(n), l - 1);
        assert(dec_digits(n)[l - 1] == (0x30 + n % 10) as u8);
        assert(val_of(s, i, l as nat) == val_of(s, i, l0 as nat) * 10 + (s[i + l - 1] - 0x30));
    }
}

/// A rendering is never empty and never begins with whitespace, a comma, or
/// a closing bracket or brace.
pub proof fn lemma_enc_first(d: Doc)
    requires
        doc_wf(d),
    ensures
        enc_doc(d).len() >= 1,
        !is_ws(enc_doc(d)[0]),
        enc_doc(d)[0] != 0x5D,
        enc_doc(d)[0] != 0x7D,
        enc_doc(d)[0] != 0x2C,
        enc_doc(d)[0] != 0x3A,
{
    match d {
        Doc::Int(v) => {
            if v < 0 {
                lemma_dec_props(-v);
                assert(enc_doc(d)[0] == 0x2D);
            } else {
                lemma_dec_props(v);
                assert(enc_doc(d)[0] == dec_digits(v)[0]);
                assert(is_digit(dec_digits(v)[0]));
            }
        },
        _ => {},
    }
}

/// Parsing an integer rendering yields the integer.
proof fn lemma_parse_enc_int(v: int, s: Seq<u8>, i: int)
    requires
        -0x8000_0000_0000_0000 <= v <= 0x7FFF_FFFF_FFFF_FFFF,
        has_lit(s, i, enc_int(v)),
        i + enc_int(v).len() == s.len() || !is_digit(s[i + enc_int(v).len()]),
    ensures
        parse_value(s, i) == Some((Doc::Int(v), enc_int(v).len() as nat)),
{
    if v >= 0 {
        let l = dec_digits(v).len() as int;
        lemma_dec_props(v);
        lemma_sub_index(s, i, enc_int(v), 0);
        assert(is_digit(s[i]));
        assert forall|k: int| 0 <= k < l implies is_digit(#[trigger] s[i + k]) by {
            lemma_sub_index(s, i, enc_int(v), k);
        }
        lemma_digits_len_exact(s, i, l);
        lemma_val_of_dec(v, s, i);
        if l > 1 {
            assert(s[i + 0] == dec_digits(v)[0]);
        }
    } else {
        let l = dec_digits(-v).len() as int;
        lemma_dec_props(-v);
        lemma_sub_index(s, i, enc_int(v), 0);
        assert(s[i] == 0x2D);
        lemma_sub_sub(s, i, enc_int(v), 1, 1 + l);
        assert(enc_int(v).subrange(1, 1 + l) =~= dec_digits(-v));
        assert(has_lit(s, i + 1, dec_digits(-v)));
        assert forall|k: int| 0 <= k < l implies is_digit(#[trigger] s[i + 1 + k]) by {
            lemma_sub_index(s, i + 1, dec_digits(-v), k);
        }
        lemma_digits_len_exact(s, i + 1, l);
        lemma_val_of_dec(-v, s, i + 1);
        if l > 1 {
            assert(s[i + 1 + 0] == dec_digits(-v)[0]);
        }
        assert(is_digit(s[i + 1 + 0]));
        assert(!is_ws(s[i]) && s[i] != 0x6E && s[i] != 0x74 && s[i] != 0x66 && s[i] != 0x22);
    }
}

/// Parsing an escaped string rendering yields the string's bytes.
proof fn lemma_parse_enc_str(t: Seq<u8>, s: Seq<u8>, i: int)
    requires
        has_lit(s, i, esc_bytes(t) + seq![0x22u8]),
    ensures
        parse_str_body(s, i) == Some((t, (esc_bytes(t).len() + 1) as nat)),
    decreases t.len(),
{
    let x = esc_bytes(t) + seq![0x22u8];
    if t.len() == 0 {
        lemma_sub_index(s, i, x, 0);
        assert(s[i] == 0x22);
    } else {
        let b = t[0];
        let e0 = esc_byte(b);
        let restx = esc_bytes(t.drop_first()) + seq![0x22u8];
        assert(x =~= e0 + restx);
        assert forall|k: int| 0 <= k < e0.len() implies s[i + k] == e0[k] by {
            lemma_sub_index(s, i, x, k);
        }
        lemma_sub_sub(s, i, x, e0.len() as int, x.len() as int);
        assert(x.subrange(e0.len() as int, x.len() as int) =~= restx);
        assert(has_lit(s, i + e0.len() as int, restx));
        lemma_parse_enc_str(t.drop_first(), s, i + e0.len() as int);
        assert(seq![b] + t.drop_first() =~= t);
        if b == 0x22 || b == 0x5C {
            assert(s[i] == 0x5C && s[i + 1] == b);
        } else if b >= 0x20 {
            assert(s[i] == b);
        } else if b == 0x08 || b == 0x09 || b == 0x0A || b == 0x0C || b == 0x0D {
            assert(s[i] == 0x5C);
        } else {
            assert(s[i] == 0x5C && s[i + 1] == 0x75);
            assert(s[i + 2] == 0x30 && s[i + 3] == 0x30);
            assert(s[i + 4] == hex_digit(b as int / 16) && s[i + 5] == hex_digit(b as int % 16));
            assert(is_hex(hex_digit(b as int / 16)) && hex_val(hex_digit(b as int / 16)) == b as int
                / 16);
            assert(is_hex(hex_digit(b as int % 16)) && hex_val(hex_digit(b as int % 16)) == b as int
                % 16);
            assert(hex_val(s[i + 4]) * 16 + hex_val(s[i + 5]) == b as int);
        }
    }
}

/// Parsing the rendering of a document yields that document and consumes
/// exactly the rendering.
pub proof fn lemma_parse_enc(d: Doc, s: Seq<u8>, i: int)
    requires
        doc_wf(d),
        has_lit(s, i, enc_doc(d)),
        i + enc_doc(d).len() == s.len() || !is_digit(s[i + enc_doc(d).len()]),
    ensures
        parse_value(s, i) == Some((d, enc_doc(d).len() as nat)),
    decreases d, 0int,
{
    let x = enc_doc(d);
    lemma_enc_first(d);
    lemma_sub_index(s, i, x, 0);
    match d {
        Doc::Null => {
            assert(x =~= seq![0x6Eu8, 0x75u8, 0x6Cu8, 0x6Cu8]);
            assert(s[i] == 0x6E);
        },
        Doc::Bool(b) => {
            if b {
                assert(x =~= seq![0x74u8, 0x72u8, 0x75u8, 0x65u8]);
            } else {
                assert(x =~= seq![0x66u8, 0x61u8, 0x6Cu8, 0x73u8, 0x65u8]);
            }
        },
        Doc::Int(v) => {
            lemma_parse_enc_int(v, s, i);
        },
        Doc::Str(t) => {
            assert(s[i] == 0x22);
            lemma_sub_sub(s, i, x, 1, x.len() as int);
            assert(x.subrange(1, x.len() as int) =~= esc_bytes(t) + seq![0x22u8]);
            lemma_parse_enc_str(t, s, i + 1);
        },
        Doc::Arr(ds) => {
            assert(s[i] == 0x5B);
            if ds.len() == 0 {
                lemma_sub_index(s, i, x, 1);
                assert(x[1] == 0x5D);
                assert(parse_elems(s, i + 1) == Some((Seq::<Doc>::empty(), 1nat)));
                assert(Seq::<Doc>::empty() =~= ds);
            } else {
                let d0 = ds[0];
                let e0 = enc_doc(d0);
                let morex = enc_more_elems(ds.drop_first()) + seq![0x5Du8];
                assert(x =~= seq![0x5Bu8] + e0 + morex);
                lemma_sub_sub(s, i, x, 1, 1 + e0.len() as int);
                assert(x.subrange(1, 1 + e0.len() as int) =~= e0);
                lemma_sub_sub(s, i, x, 1 + e0.len() as int, x.len() as int);
                assert(x.subrange(1 + e0.len() as int, x.len() as int) =~= morex);
                assert(doc_wf(d0));
                lemma_enc_first(d0);
                lemma_sub_index(s, i + 1 + e0.len() as int, morex, 0);
                assert(morex[0] == 0x2C || morex[0] == 0x5D);
                lemma_parse_enc(d0, s, i + 1);
                assert forall|k: int| 0 <= k < ds.drop_first().len() implies doc_wf(
                    #[trigger] ds.drop_first()[k],
                ) by {
                    assert(doc_wf(ds[k + 1]));
                }
                lemma_parse_enc_more_elems(ds.drop_first(), s, i + 1 + e0.len() as int);
                assert(seq![d0] + ds.drop_first() =~= ds);
                lemma_sub_index(s, i + 1, e0, 0);
                assert(!is_ws(s[i + 1]) && s[i + 1] != 0x5D);
            }
        },
        Doc::Obj(ms) => {
            assert(s[i] == 0x7B);
            if ms.len() == 0 {
                lemma_sub_index(s, i, x, 1);
                assert(x[1] == 0x7D);
                assert(parse_members(s, i + 1) == Some((Seq::<(Seq<u8>, Doc)>::empty(), 1nat)));
                assert(Seq::<(Seq<u8>, Doc)>::empty() =~= ms);
            } else {
                let m0 = ms[0];
                let e0 = enc_member(m0.0, m0.1);
                let morex = enc_more_members(ms.drop_first()) + seq![0x7Du8];
                assert(x =~= seq![0x7Bu8] + e0 + morex);
                lemma_sub_sub(s, i, x, 1, 1 + e0.len() as int);
                assert(x.subrange(1, 1 + e0.len() as int) =~= e0);
                lemma_sub_sub(s, i, x, 1 + e0.len() as int, x.len() as int);
                assert(x.subrange(1 + e0.len() as int, x.len() as int) =~= morex);
                assert(doc_wf(m0.1));
                lemma_sub_index(s, i + 1 + e0.len() as int, morex, 0);
                assert(morex[0] == 0x2C || morex[0] == 0x7D);
                lemma_parse_enc_member(m0.0, m0.1, s, i + 1);
                assert forall|k: int| 0 <= k < ms.drop_first().len() implies doc_wf(
                    (#[trigger] ms.drop_first()[k]).1,
                ) by {
                    assert(doc_wf(ms[k + 1].1));
                }
                lemma_parse_enc_more_members(ms.drop_first(), s, i + 1 + e0.len() as int);
                assert(seq![m0] + ms.drop_first() =~= ms);
                lemma_sub_index(s, i + 1, e0, 0);
                assert(s[i + 1] == 0x22);
            }
        },
    }
}

/// Parsing the comma-led renderings of the remaining elements, followed by
/// the closing bracket, yields those elements.
proof fn lemma_parse_enc_more_elems(ds: Seq<Doc>, s: Seq<u8>, i: int)
    requires
        forall|k: int| 0 <= k < ds.len() ==> doc_wf(#[trigger] ds[k]),
        has_lit(s, i, enc_more_elems(ds) + seq![0x5Du8]),
    ensures
        parse_elems_rest(s, i) == Some((ds, (enc_more_elems(ds).len() + 1) as nat)),
    decreases ds, 0int,
{
    let x = enc_more_elems(ds) + seq![0x5Du8];
    lemma_sub_index(s, i, x, 0);
    if ds.len() == 0 {
        assert(s[i] == 0x5D);
    } else {
        let d0 = ds[0];
        assert(doc_wf(d0));
        let e0 = enc_doc(d0);
        let morex = enc_more_elems(ds.drop_first()) + seq![0x5Du8];
        assert(x =~= seq![0x2Cu8] + e0 + morex);
        assert(s[i] == 0x2C);
        lemma_sub_sub(s, i, x, 1, 1 + e0.len() as int);
        assert(x.subrange(1, 1 + e0.len() as int) =~= e0);
        lemma_sub_sub(s, i, x, 1 + e0.len() as int, x.len() as int);
        assert(x.subrange(1 + e0.len() as int, x.len() as int) =~= morex);
        lemma_sub_index(s, i + 1 + e0.len() as int, morex, 0);
        assert(morex[0] == 0x2C || morex[0] == 0x5D);
        lemma_parse_enc(d0, s, i + 1);
        assert forall|k: int| 0 <= k < ds.drop_first().len() implies doc_wf(
            #[trigger] ds.drop_first()[k],
        ) by {
            assert(doc_wf(ds[k + 1]));
        }
        lemma_parse_enc_more_elems(ds.drop_first(), s, i + 1 + e0.len() as int);
        assert(seq![d0] + ds.drop_first() =~= ds);
    }
}

/// Parsing a member rendering yields the member.
proof fn lemma_parse_enc_member(k: Seq<u8>, d: Doc, s: Seq<u8>, i: int)
    requires
        doc_wf(d),
        has_lit(s, i, enc_member(k, d)),
        i + enc_member(k, d).len() == s.len() || !is_digit(s[i + enc_member(k, d).len()]),
    ensures
        parse_member(s, i) == Some(((k, d), enc_member(k, d).len() as nat)),
    decreases d, 1int,
{
    let x = enc_member(k, d);
    let ek = esc_bytes(k);
    lemma_sub_index(s, i, x, 0);
    assert(s[i] == 0x22);
    lemma_sub_sub(s, i, x, 1, 2 + ek.len() as int);
    assert(x.subrange(1, 2 + ek.len() as int) =~= ek + seq![0x22u8]);
    lemma_parse_enc_str(k, s, i + 1);
    lemma_sub_index(s, i, x, 2 + ek.len() as int);
    assert(x[2 + ek.len() as int] == 0x3A);
    lemma_sub_sub(s, i, x, 3 + ek.len() as int, x.len() as int);
    assert(x.subrange(3 + ek.len() as int, x.len() as int) =~= enc_doc(d));
    lemma_parse_enc(d, s, i + 3 + ek.len() as int);
    assert(parse_str_body(s, i + 1) == Some((k, (ek.len() + 1) as nat)));
    assert(parse_member_val(s, i + 2 + ek.len() as int) == Some((d, (enc_doc(d).len() + 1) as nat)));
}

/// Parsing the comma-led renderings of the remaining members, followed by
/// the closing brace, yields those members.
proof fn lemma_parse_enc_more_members(ms: Seq<(Seq<u8>, Doc)>, s: Seq<u8>, i: int)
    requires
        forall|k: int| 0 <= k < ms.len() ==> doc_wf((#[trigger] ms[k]).1),
        has_lit(s, i, enc_more_members(ms) + seq![0x7Du8]),
    ensures
        parse_members_rest(s, i) == Some((ms, (enc_more_members(ms).len() + 1) as nat)),
    decreases ms, 0int,
{
    let x = enc_more_members(ms) + seq![0x7Du8];
    lemma_sub_index(s, i, x, 0);
    if ms.len() == 0 {
        assert(s[i] == 0x7D);
    } else {
        let m0 = ms[0];
        assert(doc_wf(m0.1));
        let e0 = enc_member(m0.0, m0.1);
        let morex = enc_more_members(ms.drop_first()) + seq![0x7Du8];
        assert(x =~= seq![0x2Cu8] + e0 + morex);
        assert(s[i] == 0x2C);
        lemma_sub_sub(s, i, x, 1, 1 + e0.len() as int);
        assert(x.subrange(1, 1 + e0.len() as int) =~= e0);
        lemma_sub_sub(s, i, x, 1 + e0.len() as int, x.len() as int);
        assert(x.subrange(1 + e0.len() as int, x.len() as int) =~= morex);
        lemma_sub_index(s, i + 1 + e0.len() as int, morex, 0);
        assert(morex[0] == 0x2C || morex[0] == 0x7D);
        lemma_parse_enc_member(m0.0, m0.1, s, i + 1);
        assert forall|j: int| 0 <= j < ms.drop_first().len() implies doc_wf(
            (#[trigger] ms.drop_first()[j]).1,
        ) by {
            assert(doc_wf(ms[j + 1].1));
        }
        lemma_parse_enc_more_members(ms.drop_first(), s, i + 1 + e0.len() as int);
        assert(seq![m0] + ms.drop_first() =~= ms);
        lemma_sub_index(s, i + 1, e0, 0);
        assert(s[i + 1] == 0x22);
    }
}

/// The codec law: a well-formed document, rendered and parsed back, is
/// itself.  Well-formedness only bounds the integers, and every document a
/// [`Value`] stands for is well-formed.
pub proof fn lemma_round_trip(d: Doc)
    requires
        doc_wf(d),
    ensures
        parse_doc(enc_doc(d)) == Some(d),
{
    let s = enc_doc(d);
    assert(s.subrange(0, s.len() as int) =~= s);
    lemma_parse_enc(d, s, 0);
}


/// Escaping at most six-folds a string's length.
pub proof fn lemma_esc_bytes_len(t: Seq<u8>)
    ensures
        esc_bytes(t).len() <= 6 * t.len(),
    decreases t.len(),
{
    if t.len() > 0 {
        lemma_esc_bytes_len(t.drop_first());
    }
}

} // verus!
