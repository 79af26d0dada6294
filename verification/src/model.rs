//! The mathematical model of the RESP wire format: the value algebra as a
//! ghost datatype, the decimal integer grammar used by integer payloads and
//! length prefixes, and the byte-level encoding of a value.

use vstd::prelude::*;

verus! {

broadcast use vstd::seq::group_seq_axioms;

/// Carriage return.
pub const CR: u8 = 13;

/// Line feed.
pub const LF: u8 = 10;

/// The type token of a simple string, `+`.
pub const TOK_SIMPLE: u8 = 43;

/// The type token of an error, `-`, also the minus sign.
pub const TOK_ERROR: u8 = 45;

/// The type token of an integer, `:`.
pub const TOK_INTEGER: u8 = 58;

/// The type token of a bulk string, `$`.
pub const TOK_BULK: u8 = 36;

/// The type token of an array, `*`.
pub const TOK_ARRAY: u8 = 42;

/// The plus sign, accepted by the decimal grammar.
pub const SIGN_PLUS: u8 = 43;

/// The digit `0`.
pub const DIGIT_ZERO: u8 = 48;

/// A RESP value as mathematics: texts are character sequences, blobs are
/// byte sequences, integers are unbounded.  This is the view of
/// [`crate::resp::RespType`] and the currency of every contract.
pub enum RespVal {
    /// A line of text without `\r` or `\n`, framed `+text\r\n`.
    SimpleString(Seq<char>),
    /// An error line without `\r` or `\n`, framed `-text\r\n`.
    Error(Seq<char>),
    /// A signed 64-bit integer, framed `:decimal\r\n`.
    Integer(int),
    /// A binary-safe blob, framed `$len\r\n...bytes...\r\n`.
    BulkString(Seq<u8>),
    /// An ordered sequence of values, framed `*count\r\n` followed by the
    /// encodings of the elements.
    Array(Seq<RespVal>),
    /// The null bulk string, `$-1\r\n`.
    Null,
    /// The null array, `*-1\r\n`; distinct from the empty array.
    NullArray,
}

/// True when the text contains neither `\r` nor `\n`.
pub open spec fn crlf_free(s: Seq<char>) -> bool {
    forall|i: int| 0 <= i < s.len() ==> s[i] != '\r' && s[i] != '\n'
}

/// A value that the guarded constructors can produce: simple and error
/// texts hold no `\r` or `\n`, integers fit in 64 signed bits, and the same
/// holds inside every array.
pub open spec fn wf_val(v: RespVal) -> bool
    decreases v,
{
    match v {
        RespVal::SimpleString(s) => crlf_free(s),
        RespVal::Error(s) => crlf_free(s),
        RespVal::Integer(i) => i64::MIN <= i <= i64::MAX,
        RespVal::BulkString(_) => true,
        RespVal::Array(vs) => forall|i: int| 0 <= i < vs.len() ==> wf_val(#[trigger] vs[i]),
        RespVal::Null => true,
        RespVal::NullArray => true,
    }
}

// ------------------------------------------------------------------
// The decimal grammar: what `i64::from_str` accepts, over bytes.
// ------------------------------------------------------------------

/// True for the ASCII bytes `0` through `9`.
pub open spec fn is_digit(b: u8) -> bool {
    DIGIT_ZERO <= b <= DIGIT_ZERO + 9
}

/// The value of a digit sequence read most significant first.
pub open spec fn digits_val(s: Seq<u8>) -> int
    decreases s.len(),
{
    if s.len() == 0 {
        0
    } else {
        digits_val(s.drop_last()) * 10 + (s.last() - DIGIT_ZERO)
    }
}

/// A nonempty sequence of digits.
pub open spec fn all_digits(s: Seq<u8>) -> bool {
    s.len() > 0 && forall|i: int| 0 <= i < s.len() ==> is_digit(#[trigger] s[i])
}

/// The shape of a decimal integer: an optional sign followed by at least
/// one digit.
pub open spec fn is_signed_dec(s: Seq<u8>) -> bool {
    if s.len() == 0 {
        false
    } else if s[0] == TOK_ERROR || s[0] == SIGN_PLUS {
        all_digits(s.skip(1))
    } else {
        all_digits(s)
    }
}

/// The value of a decimal integer of the above shape.
pub open spec fn signed_dec_val(s: Seq<u8>) -> int {
    if s.len() > 0 && s[0] == TOK_ERROR {
        -digits_val(s.skip(1))
    } else if s.len() > 0 && s[0] == SIGN_PLUS {
        digits_val(s.skip(1))
    } else {
        digits_val(s)
    }
}

/// A decimal integer whose value fits in a signed 64-bit integer: exactly
/// the lines that `i64::from_str` accepts.
pub open spec fn is_i64_dec(s: Seq<u8>) -> bool {
    is_signed_dec(s) && i64::MIN <= signed_dec_val(s) <= i64::MAX
}

/// The canonical decimal rendering of a natural number, no sign, no
/// leading zeros (except for zero itself).
pub open spec fn dec_of_nat(n: nat) -> Seq<u8>
    decreases n,
{
    if n < 10 {
        seq![(n + DIGIT_ZERO) as u8]
    } else {
        dec_of_nat(n / 10).push((n % 10 + DIGIT_ZERO) as u8)
    }
}

/// The canonical decimal rendering of an integer: what `to_string` prints.
pub open spec fn dec_of_int(i: int) -> Seq<u8> {
    if i < 0 {
        seq![TOK_ERROR] + dec_of_nat((-i) as nat)
    } else {
        dec_of_nat(i as nat)
    }
}

// ------------------------------------------------------------------
// The encoding.
// ------------------------------------------------------------------

/// The two-byte line terminator `\r\n`.
pub open spec fn crlf() -> Seq<u8> {
    seq![CR, LF]
}

/// The wire encoding of a value, per the RESP framing rules.
pub open spec fn spec_encode(v: RespVal) -> Seq<u8>
    decreases v, 0nat,
{
    match v {
        RespVal::SimpleString(s) => seq![TOK_SIMPLE] + vstd::utf8::encode_utf8(s) + crlf(),
        RespVal::Error(s) => seq![TOK_ERROR] + vstd::utf8::encode_utf8(s) + crlf(),
        RespVal::Integer(i) => seq![TOK_INTEGER] + dec_of_int(i) + crlf(),
        RespVal::BulkString(b) => seq![TOK_BULK] + dec_of_int(b.len() as int) + crlf() + b
            + crlf(),
        RespVal::Array(vs) => seq![TOK_ARRAY] + dec_of_int(vs.len() as int) + crlf()
            + spec_encode_seq(vs),
        RespVal::Null => seq![TOK_BULK, TOK_ERROR, (DIGIT_ZERO + 1) as u8] + crlf(),
        RespVal::NullArray => seq![TOK_ARRAY, TOK_ERROR, (DIGIT_ZERO + 1) as u8] + crlf(),
    }
}

/// The concatenated encodings of a sequence of values, in order.
pub open spec fn spec_encode_seq(vs: Seq<RespVal>) -> Seq<u8>
    decreases vs, vs.len(),
{
    if vs.len() == 0 {
        Seq::empty()
    } else {
        spec_encode(vs[0]) + spec_encode_seq(vs.drop_first())
    }
}

/// A value small enough to pass the parser's per-value limit: the byte
/// length of a simple or error line, the rendered length of an integer,
/// the payload length of a bulk string, and the element count of a
/// nonempty array are all at most `max`, recursively.
pub open spec fn fits(v: RespVal, max: int) -> bool
    decreases v,
{
    match v {
        RespVal::SimpleString(s) => vstd::utf8::encode_utf8(s).len() <= max,
        RespVal::Error(s) => vstd::utf8::encode_utf8(s).len() <= max,
        RespVal::Integer(i) => dec_of_int(i).len() <= max,
        RespVal::BulkString(b) => b.len() <= max,
        RespVal::Array(vs) => (vs.len() == 0 || vs.len() <= max) && forall|i: int|
            0 <= i < vs.len() ==> fits(#[trigger] vs[i], max),
        RespVal::Null => true,
        RespVal::NullArray => true,
    }
}

/// A sequence of bytes below 0x80 is valid UTF-8.
pub proof fn lemma_ascii_bytes_valid_utf8(s: Seq<u8>)
    requires
        forall|i: int| 0 <= i < s.len() ==> #[trigger] s[i] < 0x80,
    ensures
        vstd::utf8::valid_utf8(s),
{
    assert(vstd::utf8::valid_utf8(s.subrange(0, 0)));
    assert forall|i: int|
        0 <= 0 <= i < s.len() <= s.len() implies #[trigger] vstd::utf8::is_leading_byte_width_1(
        s[i],
    ) by {}
    vstd::utf8::partial_valid_utf8_extend_ascii_block(s, 0, s.len() as int);
    assert(s.subrange(0, s.len() as int) =~= s);
}

/// The decimal rendering of a natural number is a nonempty digit string
/// with that value.
pub proof fn lemma_dec_of_nat_props(n: nat)
    ensures
        all_digits(dec_of_nat(n)),
        digits_val(dec_of_nat(n)) == n,
    decreases n,
{
    if n < 10 {
        let s = dec_of_nat(n);
        assert(s == seq![(n + DIGIT_ZERO) as u8]);
        assert(s.drop_last() =~= Seq::<u8>::empty());
        assert(digits_val(Seq::<u8>::empty()) == 0);
        assert(digits_val(s) == 0 * 10 + (s.last() - DIGIT_ZERO));
    } else {
        lemma_dec_of_nat_props(n / 10);
        let s = dec_of_nat(n);
        let t = dec_of_nat(n / 10);
        assert(s == t.push((n % 10 + DIGIT_ZERO) as u8));
        assert(s.drop_last() =~= t);
        assert(digits_val(s) == digits_val(t) * 10 + (n % 10));
        assert(n == (n / 10) * 10 + (n % 10)) by {
            vstd::arithmetic::div_mod::lemma_fundamental_div_mod(n as int, 10);
        }
    }
}

/// The decimal rendering of a 64-bit integer parses back to it: it has
/// the decimal shape, its value is the integer itself, and it consists of
/// ASCII bytes that are neither CR nor LF.
pub proof fn lemma_dec_of_int_i64(i: int)
    requires
        i64::MIN <= i <= i64::MAX,
    ensures
        is_i64_dec(dec_of_int(i)),
        signed_dec_val(dec_of_int(i)) == i,
        bytes_crlf_free(dec_of_int(i)),
        vstd::utf8::valid_utf8(dec_of_int(i)),
        dec_of_int(i).len() >= 1,
{
    let s = dec_of_int(i);
    if i < 0 {
        let d = dec_of_nat((-i) as nat);
        lemma_dec_of_nat_props((-i) as nat);
        assert(s == seq![TOK_ERROR] + d);
        assert(s[0] == TOK_ERROR);
        assert(s.skip(1) =~= d);
        assert forall|k: int| 0 <= k < s.len() implies #[trigger] s[k] < 0x80 && s[k] != CR && s[k]
            != LF by {
            if k > 0 {
                assert(s[k] == d[k - 1]);
                assert(is_digit(d[k - 1]));
            }
        }
        lemma_ascii_bytes_valid_utf8(s);
    } else {
        lemma_dec_of_nat_props(i as nat);
        assert(s == dec_of_nat(i as nat));
        assert(is_digit(s[0]));
        assert(s[0] != TOK_ERROR && s[0] != SIGN_PLUS);
        assert forall|k: int| 0 <= k < s.len() implies #[trigger] s[k] < 0x80 && s[k] != CR && s[k]
            != LF by {
            assert(is_digit(s[k]));
        }
        lemma_ascii_bytes_valid_utf8(s);
    }
}

/// Appending one value to a sequence appends its encoding.
pub proof fn lemma_encode_seq_push(vs: Seq<RespVal>, v: RespVal)
    ensures
        spec_encode_seq(vs.push(v)) == spec_encode_seq(vs) + spec_encode(v),
    decreases vs.len(),
{
    if vs.len() == 0 {
        assert(vs.push(v).drop_first() =~= Seq::<RespVal>::empty());
        assert(vs.push(v)[0] == v);
        assert(spec_encode_seq(Seq::<RespVal>::empty()) == Seq::<u8>::empty());
        assert(spec_encode_seq(vs.push(v)) == spec_encode(v) + Seq::<u8>::empty());
        assert(spec_encode_seq(vs) == Seq::<u8>::empty());
        assert(spec_encode(v) + Seq::<u8>::empty() =~= Seq::<u8>::empty() + spec_encode(v));
    } else {
        assert(vs.push(v).drop_first() =~= vs.drop_first().push(v));
        assert(vs.push(v)[0] == vs[0]);
        lemma_encode_seq_push(vs.drop_first(), v);
        assert(spec_encode_seq(vs.push(v)) == spec_encode(vs[0]) + spec_encode_seq(
            vs.drop_first().push(v),
        ));
        assert(spec_encode_seq(vs.push(v)) == spec_encode(vs[0]) + (spec_encode_seq(
            vs.drop_first(),
        ) + spec_encode(v)));
        assert(spec_encode(vs[0]) + (spec_encode_seq(vs.drop_first()) + spec_encode(v)) =~= (
        spec_encode(vs[0]) + spec_encode_seq(vs.drop_first())) + spec_encode(v));
        assert(spec_encode_seq(vs) == spec_encode(vs[0]) + spec_encode_seq(vs.drop_first()));
    }
}

// ------------------------------------------------------------------
// Texts and their UTF-8 encodings agree on the absence of CR and LF.
// ------------------------------------------------------------------

/// True when the bytes contain neither CR nor LF.
pub open spec fn bytes_crlf_free(b: Seq<u8>) -> bool {
    forall|i: int| 0 <= i < b.len() ==> b[i] != CR && b[i] != LF
}

/// The UTF-8 encoding of one character contains a CR or LF byte exactly
/// when the character is `\r` or `\n`: every byte of a multi-byte encoding
/// is at least 0x80, and a single-byte encoding is the character itself.
proof fn lemma_scalar_crlf(c: char)
    ensures
        ({
            let e = vstd::utf8::encode_scalar(c as u32);
            &&& e.len() >= 1
            &&& forall|i: int|
                0 <= i < e.len() ==> ((e[i] == CR <==> c == '\r') && (e[i] == LF <==> c == '\n'))
        }),
{
    vstd::utf8::char_is_scalar(c);
    vstd::utf8::char_u32_cast(c, c as u32);
    let u = c as u32;
    assert('\r' as u32 == 13 && '\n' as u32 == 10);
    if vstd::utf8::has_width_1_encoding(u) {
        assert((u & 0x7F) as u8 == 13 <==> u == 13) by (bit_vector)
            requires
                u <= 0x7F,
        ;
        assert((u & 0x7F) as u8 == 10 <==> u == 10) by (bit_vector)
            requires
                u <= 0x7F,
        ;
    } else {
        assert((0xC0 | ((u >> 6) & 0x1F) as u8) >= 0x80) by (bit_vector);
        assert((0xE0 | ((u >> 12) & 0x0F) as u8) >= 0x80) by (bit_vector);
        assert((0xF0 | ((u >> 18) & 0x7) as u8) >= 0x80) by (bit_vector);
        assert((0x80 | (u & 0x3F) as u8) >= 0x80) by (bit_vector);
        assert((0x80 | ((u >> 6) & 0x3F) as u8) >= 0x80) by (bit_vector);
        assert((0x80 | ((u >> 12) & 0x3F) as u8) >= 0x80) by (bit_vector);
    }
}

/// A text is free of `\r` and `\n` exactly when its UTF-8 encoding is free
/// of the CR and LF bytes.
pub proof fn lemma_encode_utf8_crlf_free(s: Seq<char>)
    ensures
        crlf_free(s) <==> bytes_crlf_free(vstd::utf8::encode_utf8(s)),
    decreases s.len(),
{
    if s.len() == 0 {
    } else {
        let e0 = vstd::utf8::encode_scalar(s[0] as u32);
        let rest = vstd::utf8::encode_utf8(s.drop_first());
        let e = vstd::utf8::encode_utf8(s);
        lemma_scalar_crlf(s[0]);
        lemma_encode_utf8_crlf_free(s.drop_first());
        assert(e == e0 + rest);
        if crlf_free(s) {
            assert(crlf_free(s.drop_first())) by {
                assert forall|i: int| 0 <= i < s.drop_first().len() implies s.drop_first()[i]
                    != '\r' && s.drop_first()[i] != '\n' by {
                    assert(s.drop_first()[i] == s[i + 1]);
                }
            }
            assert forall|i: int| 0 <= i < e.len() implies e[i] != CR && e[i] != LF by {
                if i < e0.len() {
                    assert(e[i] == e0[i]);
                } else {
                    assert(e[i] == rest[i - e0.len()]);
                }
            }
        }
        if bytes_crlf_free(e) {
            assert(bytes_crlf_free(rest)) by {
                assert forall|i: int| 0 <= i < rest.len() implies rest[i] != CR && rest[i]
                    != LF by {
                    assert(e[e0.len() + i] == rest[i]);
                }
            }
            assert(e[0] == e0[0]);
            assert forall|i: int| 0 <= i < s.len() implies s[i] != '\r' && s[i] != '\n' by {
                if i > 0 {
                    assert(s.drop_first()[i - 1] == s[i]);
                }
            }
        }
    }
}

} // verus!
