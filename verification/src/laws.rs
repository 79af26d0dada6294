//! The laws of the codec, stated and proved over the model: encoding
//! followed by parsing is the identity, feeding a stream in fragments
//! yields the same values as feeding it whole, a call that yields nothing
//! consumes nothing, the configured limits are enforced, and the null
//! values are distinct from the empty array.

use vstd::prelude::*;

use crate::buffer::{lemma_find_cr_is, spec_read_line, spec_read_size, SpecLine, SpecSize};
use crate::decode::{
    lemma_drain_extend, lemma_drain_props, parse_elems, parse_value, spec_drain, spec_read,
    tail_from, DrainStep, ElemsStep, ValueStep,
};
use crate::errors::ParserError;
use crate::model::{
    bytes_crlf_free, crlf, dec_of_int, fits, lemma_dec_of_int_i64, lemma_encode_utf8_crlf_free,
    spec_encode, spec_encode_seq, wf_val, RespVal, CR, LF, TOK_ARRAY, TOK_BULK, TOK_ERROR,
    TOK_INTEGER, TOK_SIMPLE,
};

verus! {

broadcast use vstd::seq::group_seq_axioms;

/// A line frame built as `tok ++ payload ++ CRLF ++ rest`, with a clean
/// payload, reads back as exactly that payload.
proof fn lemma_line_encoded(tok: u8, payload: Seq<u8>, rest: Seq<u8>)
    requires
        bytes_crlf_free(payload),
        vstd::utf8::valid_utf8(payload),
    ensures
        spec_read_line(seq![tok] + payload + crlf() + rest, 1, 1) == (SpecLine::Line {
            content: payload,
            next: 3 + payload.len() as int,
        }),
{
    let b = seq![tok] + payload + crlf() + rest;
    let plen = payload.len() as int;
    assert(b.len() == 3 + plen + rest.len());
    assert(b[1 + plen] == CR);
    assert(b[2 + plen] == LF);
    assert forall|m: int| 1 <= m < 1 + plen implies b[m] != CR by {
        assert(b[m] == payload[m - 1]);
    }
    lemma_find_cr_is(b, 1, 1 + plen);
    assert(b.subrange(1, 1 + plen) =~= payload);
}

/// Parsing the encoding of a well-formed value that fits the limit
/// yields that value, whatever bytes follow.
pub proof fn lemma_parse_encode(v: RespVal, ext: Seq<u8>, max: int)
    requires
        wf_val(v),
        fits(v, max),
        0 <= max <= i64::MAX,
        max <= usize::MAX,
    ensures
        parse_value(spec_encode(v) + ext, max) == (ValueStep::Fin {
            v,
            n: spec_encode(v).len() as int,
        }),
    decreases v, 0nat,
{
    let e = spec_encode(v);
    let b = e + ext;
    match v {
        RespVal::SimpleString(s) => {
            let payload = vstd::utf8::encode_utf8(s);
            lemma_encode_utf8_crlf_free(s);
            vstd::utf8::encode_utf8_valid_utf8(s);
            assert(b =~= seq![TOK_SIMPLE] + payload + crlf() + ext);
            lemma_line_encoded(TOK_SIMPLE, payload, ext);
            vstd::utf8::encode_utf8_decode_utf8(s);
            assert(b[0] == TOK_SIMPLE);
        },
        RespVal::Error(s) => {
            let payload = vstd::utf8::encode_utf8(s);
            lemma_encode_utf8_crlf_free(s);
            vstd::utf8::encode_utf8_valid_utf8(s);
            assert(b =~= seq![TOK_ERROR] + payload + crlf() + ext);
            lemma_line_encoded(TOK_ERROR, payload, ext);
            vstd::utf8::encode_utf8_decode_utf8(s);
            assert(b[0] == TOK_ERROR);
        },
        RespVal::Integer(i) => {
            let payload = dec_of_int(i);
            lemma_dec_of_int_i64(i);
            assert(b =~= seq![TOK_INTEGER] + payload + crlf() + ext);
            lemma_line_encoded(TOK_INTEGER, payload, ext);
            assert(b[0] == TOK_INTEGER);
        },
        RespVal::BulkString(p) => {
            let d = dec_of_int(p.len() as int);
            lemma_dec_of_int_i64(p.len() as int);
            let after = p + crlf() + ext;
            assert(b =~= seq![TOK_BULK] + d + crlf() + after);
            lemma_line_encoded(TOK_BULK, d, after);
            assert(b[0] == TOK_BULK);
            let end = 3 + d.len() as int;
            assert(spec_read_size(b, 1, 1) == (SpecSize::Size { end, size: p.len() as int }));
            assert(end + p.len() + 2 <= b.len());
            assert(b.subrange(end, end + p.len() as int) =~= p);
            assert(e.len() == end + p.len() + 2);
        },
        RespVal::Array(vs) => {
            let d = dec_of_int(vs.len() as int);
            lemma_dec_of_int_i64(vs.len() as int);
            let after = spec_encode_seq(vs) + ext;
            assert(b =~= seq![TOK_ARRAY] + d + crlf() + after);
            lemma_line_encoded(TOK_ARRAY, d, after);
            assert(b[0] == TOK_ARRAY);
            let end = 3 + d.len() as int;
            assert(spec_read_size(b, 1, 1) == (SpecSize::Size { end, size: vs.len() as int }));
            if vs.len() == 0 {
                assert(vs =~= Seq::<RespVal>::empty());
                assert(spec_encode_seq(vs) == Seq::<u8>::empty());
                assert(e.len() == end);
            } else {
                assert(tail_from(b, end) =~= after);
                lemma_parse_encode_seq(vs, ext, max);
                assert(e.len() == end + spec_encode_seq(vs).len());
            }
        },
        RespVal::Null => {
            let payload = dec_of_int(-1);
            lemma_dec_of_int_i64(-1);
            assert(payload =~= seq![TOK_ERROR, (crate::model::DIGIT_ZERO + 1) as u8]);
            assert(b =~= seq![TOK_BULK] + payload + crlf() + ext);
            lemma_line_encoded(TOK_BULK, payload, ext);
            assert(b[0] == TOK_BULK);
            assert(spec_read_size(b, 1, 1) == (SpecSize::Null { end: 5 }));
            assert(e.len() == 5);
        },
        RespVal::NullArray => {
            let payload = dec_of_int(-1);
            lemma_dec_of_int_i64(-1);
            assert(payload =~= seq![TOK_ERROR, (crate::model::DIGIT_ZERO + 1) as u8]);
            assert(b =~= seq![TOK_ARRAY] + payload + crlf() + ext);
            lemma_line_encoded(TOK_ARRAY, payload, ext);
            assert(b[0] == TOK_ARRAY);
            assert(spec_read_size(b, 1, 1) == (SpecSize::Null { end: 5 }));
            assert(e.len() == 5);
        },
    }
}

/// Parsing the concatenated encodings of well-formed values that fit the
/// limit yields those values, whatever bytes follow.
pub proof fn lemma_parse_encode_seq(vs: Seq<RespVal>, ext: Seq<u8>, max: int)
    requires
        forall|i: int| 0 <= i < vs.len() ==> wf_val(#[trigger] vs[i]) && fits(vs[i], max),
        0 <= max <= i64::MAX,
        max <= usize::MAX,
    ensures
        parse_elems(spec_encode_seq(vs) + ext, vs.len() as int, max) == (ElemsStep::FinSeq {
            vs,
            n: spec_encode_seq(vs).len() as int,
        }),
    decreases vs, vs.len(),
{
    let b = spec_encode_seq(vs) + ext;
    if vs.len() == 0 {
        assert(vs =~= Seq::<RespVal>::empty());
        assert(parse_elems(b, 0, max) == (ElemsStep::FinSeq { vs: Seq::<RespVal>::empty(), n: 0 }));
    } else {
        let v0 = vs[0];
        let rest = vs.drop_first();
        let e0 = spec_encode(v0);
        assert(spec_encode_seq(vs) == e0 + spec_encode_seq(rest));
        assert(b =~= e0 + (spec_encode_seq(rest) + ext));
        lemma_parse_encode(v0, spec_encode_seq(rest) + ext, max);
        assert(parse_value(b, max) == (ValueStep::Fin { v: v0, n: e0.len() as int }));
        assert(tail_from(b, e0.len() as int) =~= spec_encode_seq(rest) + ext);
        assert forall|i: int| 0 <= i < rest.len() implies wf_val(#[trigger] rest[i]) && fits(
            rest[i],
            max,
        ) by {
            assert(rest[i] == vs[i + 1]);
        }
        lemma_parse_encode_seq(rest, ext, max);
        assert(seq![v0] + rest =~= vs);
    }
}

// ------------------------------------------------------------------
// The laws.
// ------------------------------------------------------------------

/// Round trip: a value built by the guarded constructors, fed back
/// through the parser, comes out alone and unchanged, with nothing left
/// in the staging buffer.
pub proof fn lemma_round_trip(v: RespVal, max_value: int, max_buffer: int)
    requires
        wf_val(v),
        fits(v, max_value),
        0 <= max_value <= i64::MAX,
        max_value <= usize::MAX,
        spec_encode(v).len() <= max_buffer,
    ensures
        spec_read(Seq::empty(), spec_encode(v), max_value, max_buffer) == (
        Ok::<Seq<RespVal>, ParserError>(seq![v]), Seq::<u8>::empty()),
{
    let e = spec_encode(v);
    lemma_parse_encode(v, Seq::empty(), max_value);
    assert(e + Seq::<u8>::empty() =~= e);
    assert(Seq::<u8>::empty() + e =~= e);
    assert(parse_value(e, max_value) == (ValueStep::Fin { v, n: e.len() as int }));
    assert(tail_from(e, e.len() as int) =~= Seq::<u8>::empty());
    assert(parse_value(Seq::<u8>::empty(), max_value) is More);
    assert(spec_drain(Seq::<u8>::empty(), max_value) == (DrainStep::Vals {
        vs: Seq::<RespVal>::empty(),
        rest: Seq::<u8>::empty(),
    }));
    assert(seq![v] + Seq::<RespVal>::empty() =~= seq![v]);
}

/// Every value drained from a buffer is well formed.
proof fn lemma_drain_wf(b: Seq<u8>, max: int)
    ensures
        spec_drain(b, max) matches DrainStep::Vals { vs, rest } ==> forall|i: int|
            0 <= i < vs.len() ==> wf_val(#[trigger] vs[i]),
    decreases b.len(),
{
    crate::decode::lemma_parse_value_consumes(b, max);
    crate::decode::lemma_parse_value_wf(b, max);
    if let ValueStep::Fin { v, n } = parse_value(b, max) {
        lemma_drain_wf(tail_from(b, n), max);
        if let DrainStep::Vals { vs: vs2, rest } = spec_drain(tail_from(b, n), max) {
            if forall|i: int| 0 <= i < vs2.len() ==> wf_val(#[trigger] vs2[i]) {
                assert forall|i: int| 0 <= i < (seq![v] + vs2).len() implies wf_val(
                    #[trigger] (seq![v] + vs2)[i],
                ) by {
                    if i > 0 {
                        assert((seq![v] + vs2)[i] == vs2[i - 1]);
                    }
                }
            }
        }
    }
}

/// The construction guards hold of parsed values too: every value a feed
/// returns could have been built by the guarded constructors, so no wire
/// input smuggles a `\r` or `\n` into a simple or error text.
pub proof fn lemma_emitted_values_wf(
    stash: Seq<u8>,
    input: Seq<u8>,
    max_value: int,
    max_buffer: int,
)
    ensures
        ({
            let out = spec_read(stash, input, max_value, max_buffer);
            out.0 matches Ok(vs) ==> forall|i: int|
                0 <= i < vs.len() ==> wf_val(#[trigger] vs[i])
        }),
{
    lemma_drain_wf(stash + input, max_value);
}

/// Fragmentation invariance: feeding `x` and then `y` yields, in order,
/// the same values and the same residue as feeding `x ++ y` at once, and
/// fails in the same way; provided the buffer limit admits the whole
/// stream, since a limit that only the unsplit feed exceeds can fail the
/// unsplit feed alone.
pub proof fn lemma_fragmentation_invariance(
    stash: Seq<u8>,
    x: Seq<u8>,
    y: Seq<u8>,
    max_value: int,
    max_buffer: int,
)
    requires
        (stash + x + y).len() <= max_buffer,
    ensures
        ({
            let first = spec_read(stash, x, max_value, max_buffer);
            let full = spec_read(stash, x + y, max_value, max_buffer);
            match first.0 {
                Ok(vs1) => ({
                    let second = spec_read(first.1, y, max_value, max_buffer);
                    match second.0 {
                        Ok(vs2) => full.0 == Ok::<Seq<RespVal>, ParserError>(vs1 + vs2) && full.1
                            == second.1,
                        Err(e) => full.0 == Err::<Seq<RespVal>, ParserError>(e) && full.1
                            == second.1,
                    }
                }),
                Err(e) => full == first,
            }
        }),
{
    let all_x = stash + x;
    let all = stash + (x + y);
    assert(all =~= all_x + y);
    lemma_drain_props(all_x, max_value);
    lemma_drain_extend(all_x, y, max_value);
    match spec_drain(all_x, max_value) {
        DrainStep::Vals { vs: vs1, rest: s1 } => {
            assert(s1.len() + y.len() <= max_buffer);
            match spec_drain(s1 + y, max_value) {
                DrainStep::Vals { vs: vs2, rest: r2 } => {},
                DrainStep::Broken(_) => {},
            }
        },
        DrainStep::Broken(_) => {},
    }
}

/// Residual progress: a call that yields no value drains nothing — the
/// staging buffer afterwards is exactly the old residue plus the new
/// bytes — and feeding nothing afterwards yields nothing and changes
/// nothing.
pub proof fn lemma_residual_progress(
    stash: Seq<u8>,
    input: Seq<u8>,
    max_value: int,
    max_buffer: int,
)
    ensures
        ({
            let out = spec_read(stash, input, max_value, max_buffer);
            out.0 == Ok::<Seq<RespVal>, ParserError>(Seq::empty()) ==> {
                &&& out.1 == stash + input
                &&& spec_read(out.1, Seq::empty(), max_value, max_buffer) == (
                Ok::<Seq<RespVal>, ParserError>(Seq::empty()), out.1)
            }
        }),
{
    let all = stash + input;
    lemma_drain_props(all, max_value);
    assert(all + Seq::<u8>::empty() =~= all);
}

/// Bounds, the staging-buffer half: when the buffered bytes would exceed
/// the configured ceiling, the call fails with the size error, no value
/// is returned, and the buffer is cleared.
pub proof fn lemma_buffer_bound(stash: Seq<u8>, input: Seq<u8>, max_value: int, max_buffer: int)
    requires
        (stash + input).len() > max_buffer,
    ensures
        spec_read(stash, input, max_value, max_buffer) == (
        Err::<Seq<RespVal>, ParserError>(ParserError::SizeExceededError), Seq::<u8>::empty()),
{
}

/// Bounds, the per-value half: a simple line longer than the limit, or a
/// bulk length or nonempty array count above it, parses to the size
/// error — and an erring feed returns no value.
pub proof fn lemma_value_bound(b: Seq<u8>, max: int)
    ensures
        (b.len() > 0 && (b[0] == TOK_SIMPLE || b[0] == TOK_ERROR || b[0] == TOK_INTEGER)
            && (spec_read_line(b, 1, 1) matches SpecLine::Line { content, next } && content.len()
            > max)) ==> parse_value(b, max) == ValueStep::Fail(ParserError::SizeExceededError),
        (b.len() > 0 && (b[0] == TOK_BULK || b[0] == TOK_ARRAY) && (spec_read_size(b, 1, 1)
            matches SpecSize::Size { end, size } && size > max && size != 0)) ==> parse_value(
            b,
            max,
        ) == ValueStep::Fail(ParserError::SizeExceededError),
{
}

/// Null distinctness: the null bulk string and the null array differ
/// from the empty array both as values and as encoded bytes.
pub proof fn lemma_null_distinctness()
    ensures
        RespVal::Null != RespVal::Array(Seq::<RespVal>::empty()),
        RespVal::NullArray != RespVal::Array(Seq::<RespVal>::empty()),
        spec_encode(RespVal::Null) != spec_encode(RespVal::Array(Seq::<RespVal>::empty())),
        spec_encode(RespVal::NullArray) != spec_encode(RespVal::Array(Seq::<RespVal>::empty())),
{
    let ea = spec_encode(RespVal::Array(Seq::<RespVal>::empty()));
    let en = spec_encode(RespVal::Null);
    let enn = spec_encode(RespVal::NullArray);
    assert(dec_of_int(0) == crate::model::dec_of_nat(0));
    assert(crate::model::dec_of_nat(0) == seq![crate::model::DIGIT_ZERO]);
    assert(spec_encode_seq(Seq::<RespVal>::empty()) == Seq::<u8>::empty());
    assert(ea.len() == 4);
    assert(en.len() == 5);
    assert(enn.len() == 5);
}

} // verus!

