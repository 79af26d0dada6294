//! The mathematical semantics of parsing: what one value, a run of array
//! elements, and a whole staging buffer parse to.  The executable parser in
//! [`crate::parser`] is specified against these functions, and the laws of
//! the format (fragmentation invariance, round trip) are theorems about
//! them.

use vstd::prelude::*;

use crate::buffer::{
    lemma_read_blob_extend, lemma_read_line_bounds, lemma_read_line_extend, lemma_read_size_bounds,
    lemma_read_size_extend, spec_read_blob, spec_read_line, spec_read_size, SpecLine, SpecSize,
};
use crate::errors::ParserError;
use crate::model::{
    is_i64_dec, signed_dec_val, RespVal, TOK_ARRAY, TOK_BULK, TOK_ERROR, TOK_INTEGER, TOK_SIMPLE,
};

verus! {

broadcast use vstd::seq::group_seq_axioms;

/// The outcome of parsing one value from the front of a buffer.
pub enum ValueStep {
    /// The bytes are malformed or over a limit.
    Fail(ParserError),
    /// The buffer holds no complete value yet.
    More,
    /// One value, occupying the first `n` bytes.
    Fin { v: RespVal, n: int },
}

/// The outcome of parsing a fixed number of consecutive values.
pub enum ElemsStep {
    /// Some element is malformed or over a limit.
    FailSeq(ParserError),
    /// The buffer ends before the last element does.
    MoreSeq,
    /// The requested values, occupying the first `n` bytes.
    FinSeq { vs: Seq<RespVal>, n: int },
}

/// The buffer with its first `n` bytes dropped.
pub open spec fn tail_from(b: Seq<u8>, n: int) -> Seq<u8> {
    if 0 <= n <= b.len() {
        b.skip(n)
    } else {
        Seq::empty()
    }
}

/// Parses one value from the front of `b`.  The first byte selects the
/// frame kind; `max` bounds a simple line's byte length, a bulk payload's
/// length, and an array's element count.
pub open spec fn parse_value(b: Seq<u8>, max: int) -> ValueStep
    decreases b.len(), 0nat, 0int,
        via parse_value_dec
{
    if b.len() == 0 {
        ValueStep::More
    } else {
        let t = b[0];
        if t == TOK_SIMPLE || t == TOK_ERROR || t == TOK_INTEGER {
            match spec_read_line(b, 1, 1) {
                SpecLine::More { .. } => ValueStep::More,
                SpecLine::Bad(e) => ValueStep::Fail(e),
                SpecLine::Line { content, next } => {
                    if content.len() > max {
                        ValueStep::Fail(ParserError::SizeExceededError)
                    } else if t == TOK_SIMPLE {
                        ValueStep::Fin {
                            v: RespVal::SimpleString(vstd::utf8::decode_utf8(content)),
                            n: next,
                        }
                    } else if t == TOK_ERROR {
                        ValueStep::Fin {
                            v: RespVal::Error(vstd::utf8::decode_utf8(content)),
                            n: next,
                        }
                    } else if is_i64_dec(content) {
                        ValueStep::Fin { v: RespVal::Integer(signed_dec_val(content)), n: next }
                    } else {
                        ValueStep::Fail(ParserError::IntegerError)
                    }
                },
            }
        } else if t == TOK_BULK {
            match spec_read_size(b, 1, 1) {
                SpecSize::More { .. } => ValueStep::More,
                SpecSize::Bad(e) => ValueStep::Fail(e),
                SpecSize::Null { end } => ValueStep::Fin { v: RespVal::Null, n: end },
                SpecSize::Size { end, size } => {
                    if size > max {
                        ValueStep::Fail(ParserError::SizeExceededError)
                    } else {
                        match spec_read_blob(b, end, size) {
                            Option::Some((data, after)) => ValueStep::Fin {
                                v: RespVal::BulkString(data),
                                n: after,
                            },
                            Option::None => ValueStep::More,
                        }
                    }
                },
            }
        } else if t == TOK_ARRAY {
            match spec_read_size(b, 1, 1) {
                SpecSize::More { .. } => ValueStep::More,
                SpecSize::Bad(e) => ValueStep::Fail(e),
                SpecSize::Null { end } => ValueStep::Fin { v: RespVal::NullArray, n: end },
                SpecSize::Size { end, size } => {
                    if size == 0 {
                        ValueStep::Fin { v: RespVal::Array(Seq::empty()), n: end }
                    } else if size > max {
                        ValueStep::Fail(ParserError::SizeExceededError)
                    } else {
                        match parse_elems(tail_from(b, end), size, max) {
                            ElemsStep::FailSeq(e) => ValueStep::Fail(e),
                            ElemsStep::MoreSeq => ValueStep::More,
                            ElemsStep::FinSeq { vs, n } => ValueStep::Fin {
                                v: RespVal::Array(vs),
                                n: end + n,
                            },
                        }
                    }
                },
            }
        } else {
            ValueStep::Fail(ParserError::TypeTokenError(t as char))
        }
    }
}

/// Parses exactly `need` consecutive values from the front of `b`.
pub open spec fn parse_elems(b: Seq<u8>, need: int, max: int) -> ElemsStep
    decreases b.len(), 1nat, need,
{
    if need <= 0 {
        ElemsStep::FinSeq { vs: Seq::empty(), n: 0 }
    } else {
        match parse_value(b, max) {
            ValueStep::Fail(e) => ElemsStep::FailSeq(e),
            ValueStep::More => ElemsStep::MoreSeq,
            ValueStep::Fin { v, n } => match parse_elems(tail_from(b, n), need - 1, max) {
                ElemsStep::FailSeq(e) => ElemsStep::FailSeq(e),
                ElemsStep::MoreSeq => ElemsStep::MoreSeq,
                ElemsStep::FinSeq { vs, n: m } => ElemsStep::FinSeq {
                    vs: seq![v] + vs,
                    n: n + m,
                },
            },
        }
    }
}

#[via_fn]
proof fn parse_value_dec(b: Seq<u8>, max: int) {
    if b.len() > 0 {
        lemma_read_size_bounds(b, 1, 1);
    }
}

/// A parsed value occupies at least one byte and no more than the buffer;
/// a parsed element run occupies no more than the buffer and yields
/// exactly the requested number of values.
pub proof fn lemma_parse_value_consumes(b: Seq<u8>, max: int)
    ensures
        parse_value(b, max) matches ValueStep::Fin { v, n } ==> 1 <= n <= b.len(),
    decreases b.len(), 0nat, 0int,
{
    if b.len() > 0 {
        let t = b[0];
        lemma_read_line_bounds(b, 1, 1);
        lemma_read_size_bounds(b, 1, 1);
        if t == TOK_ARRAY {
            if let SpecSize::Size { end, size } = spec_read_size(b, 1, 1) {
                if 1 <= size <= max {
                    lemma_parse_elems_consumes(tail_from(b, end), size, max);
                }
            }
        }
    }
}

/// See [`lemma_parse_value_consumes`].
pub proof fn lemma_parse_elems_consumes(b: Seq<u8>, need: int, max: int)
    ensures
        parse_elems(b, need, max) matches ElemsStep::FinSeq { vs, n } ==> 0 <= n <= b.len()
            && vs.len() == (if need <= 0 {
            0int
        } else {
            need
        }),
    decreases b.len(), 1nat, need,
{
    if need > 0 {
        lemma_parse_value_consumes(b, max);
        if let ValueStep::Fin { v, n } = parse_value(b, max) {
            lemma_parse_elems_consumes(tail_from(b, n), need - 1, max);
        }
    }
}

/// A complete or failed value parse is unaffected by bytes that follow.
pub proof fn lemma_parse_value_extend(b: Seq<u8>, ext: Seq<u8>, max: int)
    ensures
        match parse_value(b, max) {
            ValueStep::Fin { v, n } => parse_value(b + ext, max) == ValueStep::Fin { v, n },
            ValueStep::Fail(e) => parse_value(b + ext, max) == ValueStep::Fail(e),
            ValueStep::More => true,
        },
    decreases b.len(), 0nat, 0int,
{
    if b.len() == 0 {
    } else {
        let t = b[0];
        assert((b + ext)[0] == t);
        lemma_read_line_extend(b, ext, 1, 1);
        lemma_read_size_extend(b, ext, 1, 1);
        lemma_read_size_bounds(b, 1, 1);
        if t == TOK_BULK {
            if let SpecSize::Size { end, size } = spec_read_size(b, 1, 1) {
                if size <= max {
                    lemma_read_blob_extend(b, ext, end, size);
                }
            }
        }
        if t == TOK_ARRAY {
            if let SpecSize::Size { end, size } = spec_read_size(b, 1, 1) {
                if 1 <= size <= max {
                    assert(tail_from(b + ext, end) =~= tail_from(b, end) + ext);
                    lemma_parse_elems_extend(tail_from(b, end), ext, size, max);
                }
            }
        }
    }
}

/// See [`lemma_parse_value_extend`].
pub proof fn lemma_parse_elems_extend(b: Seq<u8>, ext: Seq<u8>, need: int, max: int)
    ensures
        match parse_elems(b, need, max) {
            ElemsStep::FinSeq { vs, n } => parse_elems(b + ext, need, max) == ElemsStep::FinSeq {
                vs,
                n,
            },
            ElemsStep::FailSeq(e) => parse_elems(b + ext, need, max) == ElemsStep::FailSeq(e),
            ElemsStep::MoreSeq => true,
        },
    decreases b.len(), 1nat, need,
{
    if need > 0 {
        lemma_parse_value_extend(b, ext, max);
        lemma_parse_value_consumes(b, max);
        if let ValueStep::Fin { v, n } = parse_value(b, max) {
            assert(tail_from(b + ext, n) =~= tail_from(b, n) + ext);
            lemma_parse_elems_extend(tail_from(b, n), ext, need - 1, max);
        }
    }
}

/// Splitting an element run: after `j` elements are parsed, the remaining
/// `k - j` parse from the bytes that follow them.
pub proof fn lemma_parse_elems_split(b: Seq<u8>, j: int, k: int, max: int)
    requires
        0 <= j <= k,
        parse_elems(b, j, max) is FinSeq,
    ensures
        ({
            let vs = parse_elems(b, j, max)->FinSeq_vs;
            let n = parse_elems(b, j, max)->FinSeq_n;
            parse_elems(b, k, max) == match parse_elems(tail_from(b, n), k - j, max) {
                ElemsStep::FinSeq { vs: vs2, n: m } => ElemsStep::FinSeq {
                    vs: vs + vs2,
                    n: n + m,
                },
                ElemsStep::MoreSeq => ElemsStep::MoreSeq,
                ElemsStep::FailSeq(e) => ElemsStep::FailSeq(e),
            }
        }),
    decreases j,
{
    let vs = parse_elems(b, j, max)->FinSeq_vs;
    let n = parse_elems(b, j, max)->FinSeq_n;
    if j == 0 {
        assert(vs == Seq::<RespVal>::empty() && n == 0);
        assert(tail_from(b, 0) =~= b);
        match parse_elems(b, k, max) {
            ElemsStep::FinSeq { vs: vs2, n: m } => {
                assert(vs + vs2 =~= vs2);
            },
            _ => {},
        }
    } else {
        lemma_parse_value_consumes(b, max);
        if let ValueStep::Fin { v, n: n1 } = parse_value(b, max) {
            let t1 = tail_from(b, n1);
            lemma_parse_elems_consumes(t1, j - 1, max);
            if let ElemsStep::FinSeq { vs: vsr, n: nr } = parse_elems(t1, j - 1, max) {
                assert(vs == seq![v] + vsr && n == n1 + nr);
                lemma_parse_elems_split(t1, j - 1, k - 1, max);
                assert(tail_from(t1, nr) =~= tail_from(b, n1 + nr));
                match parse_elems(tail_from(b, n), k - j, max) {
                    ElemsStep::FinSeq { vs: vs2, n: m } => {
                        assert(parse_elems(t1, k - 1, max) == ElemsStep::FinSeq {
                            vs: vsr + vs2,
                            n: nr + m,
                        });
                        assert(seq![v] + (vsr + vs2) =~= (seq![v] + vsr) + vs2);
                    },
                    _ => {},
                }
            }
        }
    }
}

/// Every value the parser produces satisfies the construction guards:
/// parsed texts hold no `\r` or `\n` and parsed integers fit in 64 bits,
/// recursively.  The guard is authoritative: no wire input can smuggle a
/// value past it.
pub proof fn lemma_parse_value_wf(b: Seq<u8>, max: int)
    ensures
        parse_value(b, max) matches ValueStep::Fin { v, n } ==> crate::model::wf_val(v),
    decreases b.len(), 0nat, 0int,
{
    if b.len() > 0 {
        let t = b[0];
        lemma_read_line_bounds(b, 1, 1);
        lemma_read_size_bounds(b, 1, 1);
        if t == TOK_SIMPLE || t == TOK_ERROR || t == TOK_INTEGER {
            if let SpecLine::Line { content, next } = spec_read_line(b, 1, 1) {
                assert(crate::model::bytes_crlf_free(content)) by {
                    assert forall|i: int| 0 <= i < content.len() implies content[i] != crate::model::CR
                        && content[i] != crate::model::LF by {
                        assert(content[i] == b[1 + i]);
                    }
                }
                let s = vstd::utf8::decode_utf8(content);
                vstd::utf8::decode_utf8_encode_utf8(content);
                crate::model::lemma_encode_utf8_crlf_free(s);
            }
        }
        if t == TOK_ARRAY {
            if let SpecSize::Size { end, size } = spec_read_size(b, 1, 1) {
                if 1 <= size <= max {
                    lemma_parse_elems_wf(tail_from(b, end), size, max);
                }
            }
        }
    }
}

/// See [`lemma_parse_value_wf`].
pub proof fn lemma_parse_elems_wf(b: Seq<u8>, need: int, max: int)
    ensures
        parse_elems(b, need, max) matches ElemsStep::FinSeq { vs, n } ==> forall|i: int|
            0 <= i < vs.len() ==> crate::model::wf_val(#[trigger] vs[i]),
    decreases b.len(), 1nat, need,
{
    if need > 0 {
        lemma_parse_value_wf(b, max);
        if let ValueStep::Fin { v, n } = parse_value(b, max) {
            lemma_parse_elems_wf(tail_from(b, n), need - 1, max);
            if let ElemsStep::FinSeq { vs: vs2, n: m } = parse_elems(tail_from(b, n), need - 1, max) {
                assert forall|i: int| 0 <= i < (seq![v] + vs2).len() implies crate::model::wf_val(
                    #[trigger] (seq![v] + vs2)[i],
                ) by {
                    if i > 0 {
                        assert((seq![v] + vs2)[i] == vs2[i - 1]);
                    }
                }
            }
        }
    }
}

// ------------------------------------------------------------------
// The staging buffer as a whole.
// ------------------------------------------------------------------

/// The outcome of draining every complete value from a buffer.
pub enum DrainStep {
    /// The complete values at the front, in order, and the residual bytes.
    Vals { vs: Seq<RespVal>, rest: Seq<u8> },
    /// Some value at the front is malformed or over a limit.
    Broken(ParserError),
}

/// Drains complete values from the front of `b` until the bytes run out
/// or a value is malformed.
pub open spec fn spec_drain(b: Seq<u8>, max: int) -> DrainStep
    decreases b.len(),
        via spec_drain_dec
{
    match parse_value(b, max) {
        ValueStep::More => DrainStep::Vals { vs: Seq::empty(), rest: b },
        ValueStep::Fail(e) => DrainStep::Broken(e),
        ValueStep::Fin { v, n } => match spec_drain(tail_from(b, n), max) {
            DrainStep::Vals { vs, rest } => DrainStep::Vals { vs: seq![v] + vs, rest },
            DrainStep::Broken(e) => DrainStep::Broken(e),
        },
    }
}

#[via_fn]
proof fn spec_drain_dec(b: Seq<u8>, max: int) {
    lemma_parse_value_consumes(b, max);
}

/// One call of `feed`: `stash` holds the residue of earlier calls and
/// `input` the new bytes.  The pair is the call's result and the stash
/// left for the next call.
pub open spec fn spec_read(
    stash: Seq<u8>,
    input: Seq<u8>,
    max_value: int,
    max_buffer: int,
) -> (Result<Seq<RespVal>, ParserError>, Seq<u8>) {
    let all = stash + input;
    if all.len() > max_buffer {
        (Err(ParserError::SizeExceededError), Seq::empty())
    } else {
        match spec_drain(all, max_value) {
            DrainStep::Vals { vs, rest } => (Ok(vs), rest),
            DrainStep::Broken(e) => (Err(e), Seq::empty()),
        }
    }
}

/// The residue of a drain is no longer than the buffer, and a drain that
/// yields no value leaves the buffer untouched.
pub proof fn lemma_drain_props(b: Seq<u8>, max: int)
    ensures
        match spec_drain(b, max) {
            DrainStep::Vals { vs, rest } => rest.len() <= b.len() && (vs.len() == 0 ==> rest == b
                && parse_value(b, max) is More),
            DrainStep::Broken(_) => true,
        },
    decreases b.len(),
{
    lemma_parse_value_consumes(b, max);
    if let ValueStep::Fin { v, n } = parse_value(b, max) {
        lemma_drain_props(tail_from(b, n), max);
    }
}

/// Draining an extended buffer first drains the shorter buffer, then
/// drains its residue together with the new bytes.
pub proof fn lemma_drain_extend(b: Seq<u8>, ext: Seq<u8>, max: int)
    ensures
        match spec_drain(b, max) {
            DrainStep::Vals { vs, rest } => spec_drain(b + ext, max) == (match spec_drain(
                rest + ext,
                max,
            ) {
                DrainStep::Vals { vs: vs2, rest: r2 } => DrainStep::Vals { vs: vs + vs2, rest: r2 },
                DrainStep::Broken(e) => DrainStep::Broken(e),
            }),
            DrainStep::Broken(e) => spec_drain(b + ext, max) == DrainStep::Broken(e),
        },
    decreases b.len(),
{
    lemma_parse_value_extend(b, ext, max);
    lemma_parse_value_consumes(b, max);
    match parse_value(b, max) {
        ValueStep::More => {
            match spec_drain(b + ext, max) {
                DrainStep::Vals { vs: vs2, rest: r2 } => {
                    assert(Seq::<RespVal>::empty() + vs2 =~= vs2);
                },
                DrainStep::Broken(_) => {},
            }
        },
        ValueStep::Fail(_) => {},
        ValueStep::Fin { v, n } => {
            let tail = tail_from(b, n);
            assert(tail_from(b + ext, n) =~= tail + ext);
            lemma_drain_extend(tail, ext, max);
            match spec_drain(tail, max) {
                DrainStep::Vals { vs, rest } => {
                    match spec_drain(rest + ext, max) {
                        DrainStep::Vals { vs: vs2, rest: r2 } => {
                            assert(seq![v] + (vs + vs2) =~= (seq![v] + vs) + vs2);
                        },
                        DrainStep::Broken(_) => {},
                    }
                },
                DrainStep::Broken(_) => {},
            }
        },
    }
}

} // verus!
