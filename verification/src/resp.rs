//! The RESP value algebra: the tagged sum of every wire value, its guarded
//! constructors, and its serialization to bytes.

use vstd::prelude::*;

use crate::errors::ParserError;
use crate::model::{
    bytes_crlf_free, crlf_free, dec_of_int, dec_of_nat, lemma_encode_utf8_crlf_free, spec_encode,
    spec_encode_seq, RespVal, CR, LF, TOK_ARRAY, TOK_BULK, TOK_ERROR, TOK_INTEGER, TOK_SIMPLE,
};

verus! {

broadcast use vstd::seq::group_seq_axioms;

/// A RESP value.  Its mathematical view is [`RespVal`].
#[derive(PartialEq, Debug)]
pub enum RespType {
    /// A UTF-8 line that contains neither `\r` nor `\n`.
    SimpleString(String),
    /// An error line; the same content rule as `SimpleString`.
    Error(String),
    /// A signed 64-bit integer.
    Integer(i64),
    /// A binary-safe byte string.
    BulkString(Vec<u8>),
    /// An array of values; may nest to arbitrary depth.
    Array(Vec<RespType>),
    /// The null bulk string.
    Null,
    /// The null array; distinct from the empty array.
    NullArray,
}

/// The mathematical value of a `RespType`.
pub open spec fn view_of(t: RespType) -> RespVal
    decreases t, 0nat,
{
    match t {
        RespType::SimpleString(s) => RespVal::SimpleString(s@),
        RespType::Error(s) => RespVal::Error(s@),
        RespType::Integer(i) => RespVal::Integer(i as int),
        RespType::BulkString(b) => RespVal::BulkString(b@),
        RespType::Array(items) => RespVal::Array(views_of(items@)),
        RespType::Null => RespVal::Null,
        RespType::NullArray => RespVal::NullArray,
    }
}

/// The mathematical values of a sequence of `RespType`s, elementwise.
pub open spec fn views_of(ts: Seq<RespType>) -> Seq<RespVal>
    decreases ts, ts.len(),
{
    if ts.len() == 0 {
        Seq::empty()
    } else {
        seq![view_of(ts[0])] + views_of(ts.drop_first())
    }
}

/// `views_of` maps `view_of` over the sequence, elementwise.
pub proof fn lemma_views_of(ts: Seq<RespType>)
    ensures
        views_of(ts).len() == ts.len(),
        forall|i: int| 0 <= i < ts.len() ==> views_of(ts)[i] == view_of(#[trigger] ts[i]),
    decreases ts.len(),
{
    if ts.len() == 0 {
    } else {
        lemma_views_of(ts.drop_first());
        assert forall|i: int| 0 <= i < ts.len() implies views_of(ts)[i] == view_of(
            #[trigger] ts[i],
        ) by {
            if i > 0 {
                assert(ts.drop_first()[i - 1] == ts[i]);
                assert(views_of(ts)[i] == views_of(ts.drop_first())[i - 1]);
            }
        }
    }
}

impl DeepView for RespType {
    type V = RespVal;

    open spec fn deep_view(&self) -> RespVal {
        view_of(*self)
    }
}

/// Appends a copy of the given bytes.
fn push_bytes(out: &mut Vec<u8>, b: &[u8])
    ensures
        final(out)@ == old(out)@ + b@,
{
    let mut i: usize = 0;
    while i < b.len()
        invariant
            i <= b@.len(),
            out@ == old(out)@ + b@.subrange(0, i as int),
        decreases b@.len() - i,
    {
        out.push(b[i]);
        proof {
            assert(old(out)@ + b@.subrange(0, i as int) + seq![b@[i as int]] =~= old(out)@
                + b@.subrange(0, i + 1));
        }
        i = i + 1;
    }
    proof {
        assert(b@.subrange(0, b@.len() as int) =~= b@);
    }
}

/// Appends the decimal rendering of a natural number.
fn push_dec_u64(out: &mut Vec<u8>, n: u64)
    ensures
        final(out)@ == old(out)@ + dec_of_nat(n as nat),
    decreases n,
{
    if n < 10 {
        out.push((n as u8) + 48);
        proof {
            assert(old(out)@.push((n + 48) as u8) =~= old(out)@ + dec_of_nat(n as nat));
        }
    } else {
        push_dec_u64(out, n / 10);
        out.push(((n % 10) as u8) + 48);
        proof {
            assert(n as nat / 10 == (n / 10) as nat);
            assert(old(out)@ + dec_of_nat((n / 10) as nat) + seq![((n % 10) + 48) as u8]
                =~= old(out)@ + dec_of_nat(n as nat));
        }
    }
}

/// Appends the decimal rendering of a signed 64-bit integer, as
/// `to_string` would print it.
fn push_dec_i64(out: &mut Vec<u8>, i: i64)
    ensures
        final(out)@ == old(out)@ + dec_of_int(i as int),
{
    if i < 0 {
        out.push(TOK_ERROR);
        let mag: u64 = if i == i64::MIN {
            9223372036854775808u64
        } else {
            (-i) as u64
        };
        assert(mag as nat == (-(i as int)) as nat);
        push_dec_u64(out, mag);
        proof {
            assert(old(out)@.push(TOK_ERROR) + dec_of_nat(mag as nat) =~= old(out)@ + (seq![
                TOK_ERROR,
            ] + dec_of_nat((-(i as int)) as nat)));
        }
    } else {
        push_dec_u64(out, i as u64);
    }
}

impl RespType {
    /// Serializes one value into `out`, appending its wire encoding.
    fn encode_into(&self, out: &mut Vec<u8>)
        ensures
            final(out)@ == old(out)@ + spec_encode(self.deep_view()),
        decreases self,
    {
        match self {
            RespType::SimpleString(s) => {
                out.push(TOK_SIMPLE);
                push_bytes(out, s.as_str().as_bytes());
                out.push(CR);
                out.push(LF);
                proof {
                    assert(out@ =~= old(out)@ + spec_encode(self.deep_view()));
                }
            },
            RespType::Error(s) => {
                out.push(TOK_ERROR);
                push_bytes(out, s.as_str().as_bytes());
                out.push(CR);
                out.push(LF);
                proof {
                    assert(out@ =~= old(out)@ + spec_encode(self.deep_view()));
                }
            },
            RespType::Integer(i) => {
                out.push(TOK_INTEGER);
                push_dec_i64(out, *i);
                out.push(CR);
                out.push(LF);
                proof {
                    assert(out@ =~= old(out)@ + spec_encode(self.deep_view()));
                }
            },
            RespType::BulkString(b) => {
                out.push(TOK_BULK);
                push_dec_u64(out, b.len() as u64);
                out.push(CR);
                out.push(LF);
                push_bytes(out, b.as_slice());
                out.push(CR);
                out.push(LF);
                proof {
                    assert(out@ =~= old(out)@ + spec_encode(self.deep_view()));
                }
            },
            RespType::Array(items) => {
                out.push(TOK_ARRAY);
                push_dec_u64(out, items.len() as u64);
                out.push(CR);
                out.push(LF);
                let ghost head = old(out)@ + seq![TOK_ARRAY] + dec_of_int(
                    items@.len() as int,
                ) + crate::model::crlf();
                proof {
                    assert(out@ =~= head);
                }
                let mut j: usize = 0;
                proof {
                    lemma_views_of(items@);
                }
                #[verifier::loop_isolation(false)]
                while j < items.len()
                    invariant
                        j <= items@.len(),
                        views_of(items@).len() == items@.len(),
                        out@ == head + spec_encode_seq(views_of(items@).take(j as int)),
                    decreases items@.len() - j,
                {
                    proof {
                        assert(decreases_to!(*self => self->Array_0));
                        assert(decreases_to!(self->Array_0 => items@[j as int]));
                    }
                    let item = &items[j];
                    item.encode_into(out);
                    proof {
                        let dv = views_of(items@);
                        lemma_views_of(items@);
                        crate::model::lemma_encode_seq_push(dv.take(j as int), dv[j as int]);
                        assert(dv.take(j as int).push(dv[j as int]) =~= dv.take(j + 1));
                    }
                    j = j + 1;
                }
                proof {
                    let dv = views_of(items@);
                    assert(dv.take(dv.len() as int) =~= dv);
                    assert(head + spec_encode_seq(dv) =~= old(out)@ + spec_encode(
                        self.deep_view(),
                    ));
                }
            },
            RespType::Null => {
                out.push(TOK_BULK);
                out.push(TOK_ERROR);
                out.push(49);
                out.push(CR);
                out.push(LF);
                proof {
                    assert(out@ =~= old(out)@ + spec_encode(self.deep_view()));
                }
            },
            RespType::NullArray => {
                out.push(TOK_ARRAY);
                out.push(TOK_ERROR);
                out.push(49);
                out.push(CR);
                out.push(LF);
                proof {
                    assert(out@ =~= old(out)@ + spec_encode(self.deep_view()));
                }
            },
        }
    }

    /// The wire encoding of this value.
    pub fn as_bytes(self) -> (r: Vec<u8>)
        ensures
            r@ == spec_encode(self.deep_view()),
    {
        let mut out: Vec<u8> = Vec::new();
        self.encode_into(&mut out);
        proof {
            assert(Seq::<u8>::empty() + spec_encode(self.deep_view()) =~= spec_encode(
                self.deep_view(),
            ));
        }
        out
    }

    /// Builds a `SimpleString`; rejects text that contains `\r` or `\n`.
    pub fn simple_string(string: String) -> (r: Result<RespType, ParserError>)
        ensures
            match r {
                Ok(v) => crlf_free(string@) && v == RespType::SimpleString(string),
                Err(e) => !crlf_free(string@) && e == ParserError::ReadlineError,
            },
    {
        if contains_cr_or_lf(string.as_str().as_bytes()) {
            proof {
                lemma_encode_utf8_crlf_free(string@);
            }
            Err(ParserError::ReadlineError)
        } else {
            proof {
                lemma_encode_utf8_crlf_free(string@);
            }
            Ok(RespType::SimpleString(string))
        }
    }

    /// Builds an `Error`; rejects text that contains `\r` or `\n`.
    pub fn error(string: String) -> (r: Result<RespType, ParserError>)
        ensures
            match r {
                Ok(v) => crlf_free(string@) && v == RespType::Error(string),
                Err(e) => !crlf_free(string@) && e == ParserError::ReadlineError,
            },
    {
        if contains_cr_or_lf(string.as_str().as_bytes()) {
            proof {
                lemma_encode_utf8_crlf_free(string@);
            }
            Err(ParserError::ReadlineError)
        } else {
            proof {
                lemma_encode_utf8_crlf_free(string@);
            }
            Ok(RespType::Error(string))
        }
    }

    /// Builds an `Integer`; never fails.
    pub fn integer(int_value: i64) -> (r: RespType)
        ensures
            r == RespType::Integer(int_value),
    {
        RespType::Integer(int_value)
    }

    /// Builds a `BulkString`; binary-safe, never fails.
    pub fn bulk_string(string: Vec<u8>) -> (r: RespType)
        ensures
            r == RespType::BulkString(string),
    {
        RespType::BulkString(string)
    }

    /// Builds an `Array`; never fails.
    pub fn array(array: Vec<RespType>) -> (r: RespType)
        ensures
            r == RespType::Array(array),
    {
        RespType::Array(array)
    }

    /// Wraps a sequence of byte strings as an array of bulk strings: the
    /// canonical form of a Redis command.
    pub fn command(command: Vec<Vec<u8>>) -> (r: RespType)
        ensures
            r.deep_view() == RespVal::Array(
                Seq::new(command@.len(), |i: int| RespVal::BulkString(command@[i]@)),
            ),
    {
        let mut cmd: Vec<RespType> = Vec::new();
        let mut i: usize = 0;
        while i < command.len()
            invariant
                i <= command@.len(),
                cmd@.len() == i,
                forall|k: int|
                    0 <= k < i ==> view_of(#[trigger] cmd@[k]) == RespVal::BulkString(
                        command@[k]@,
                    ),
            decreases command@.len() - i,
        {
            let b = vstd::slice::slice_to_vec(command[i].as_slice());
            proof {
                assert(b@ == command@[i as int]@);
            }
            cmd.push(RespType::BulkString(b));
            i = i + 1;
        }
        let r = RespType::Array(cmd);
        proof {
            lemma_views_of(cmd@);
            let target = Seq::new(command@.len(), |i: int| RespVal::BulkString(command@[i]@));
            assert(views_of(cmd@).len() == target.len());
            assert forall|k: int| 0 <= k < target.len() implies views_of(cmd@)[k] == target[k] by {
                assert(view_of(cmd@[k]) == RespVal::BulkString(command@[k]@));
                assert(target[k] == RespVal::BulkString(command@[k]@));
            }
            assert(views_of(cmd@) =~= target);
        }
        r
    }
}

/// True when the bytes contain a CR or LF byte.
fn contains_cr_or_lf(b: &[u8]) -> (r: bool)
    ensures
        r == !bytes_crlf_free(b@),
{
    let mut i: usize = 0;
    while i < b.len()
        invariant
            i <= b@.len(),
            forall|k: int| 0 <= k < i ==> b@[k] != CR && b@[k] != LF,
        decreases b@.len() - i,
    {
        let x = b[i];
        if x == CR || x == LF {
            return true;
        }
        i = i + 1;
    }
    false
}

} // verus!
