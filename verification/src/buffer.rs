//! The byte reader: primitive line, length and blob extraction over a
//! read-only byte slice, with the CRLF discipline of the RESP wire format.
//!
//! Each primitive scans from a `cursor` (the current position) while the
//! content of the active frame begins at `start`.  When a primitive cannot
//! finish it reports how far it scanned, so that re-fed long lines are not
//! scanned twice.

use vstd::prelude::*;

use crate::errors::ParserError;
use crate::model::{is_i64_dec, signed_dec_val, CR, LF, SIGN_PLUS, TOK_ERROR};

verus! {

broadcast use vstd::seq::group_seq_axioms;

// ------------------------------------------------------------------
// The specification of the three primitives.
// ------------------------------------------------------------------

/// The position of the first CR byte at or after `i`, if any.
pub open spec fn find_cr(b: Seq<u8>, i: int) -> Option<int>
    decreases b.len() - i,
{
    if !(0 <= i < b.len()) {
        None
    } else if b[i] == CR {
        Some(i)
    } else {
        find_cr(b, i + 1)
    }
}

/// True when the bytes contain no LF byte.
pub open spec fn lf_free(b: Seq<u8>) -> bool {
    forall|i: int| 0 <= i < b.len() ==> b[i] != LF
}

/// What reading one CRLF-terminated line yields.
pub enum SpecLine {
    /// A complete line: `content` is `b[start .. next - 2]`, and `next`
    /// points past the terminating CRLF.
    Line { content: Seq<u8>, next: int },
    /// No complete line yet; scanning may resume at `next`.
    More { next: int },
    /// A framing violation: the byte after a CR is not LF, an LF is
    /// embedded in the content, or the content is not UTF-8.
    Bad(ParserError),
}

/// Reading one line from `b`: scan for a CR from `cursor`, demand that an
/// LF follows it, and take the content from `start` up to the CR.  The
/// content must hold no premature LF and must be valid UTF-8.
pub open spec fn spec_read_line(b: Seq<u8>, cursor: int, start: int) -> SpecLine
    recommends
        0 <= start <= cursor <= b.len(),
{
    match find_cr(b, cursor) {
        Option::None => SpecLine::More { next: b.len() as int },
        Option::Some(cr) => {
            if cr + 2 > b.len() {
                SpecLine::More { next: b.len() - 1 }
            } else if b[cr + 1] != LF {
                SpecLine::Bad(ParserError::ReadlineError)
            } else {
                let content = b.subrange(start, cr);
                if !lf_free(content) {
                    SpecLine::Bad(ParserError::ReadlineError)
                } else if !vstd::utf8::valid_utf8(content) {
                    SpecLine::Bad(ParserError::ReadlineError)
                } else {
                    SpecLine::Line { content, next: cr + 2 }
                }
            }
        },
    }
}

/// What reading one length prefix yields.
pub enum SpecSize {
    /// A size of `-1`: the null marker.
    Null { end: int },
    /// A nonnegative size that fits this machine.
    Size { end: int, size: int },
    /// No complete line yet; scanning may resume at `next`.
    More { next: int },
    /// The line is malformed, not a 64-bit decimal integer, below `-1`,
    /// or too large for this machine.
    Bad(ParserError),
}

/// Reading one length prefix: a line whose content is a decimal 64-bit
/// integer at least `-1`, where `-1` denotes the null value.
pub open spec fn spec_read_size(b: Seq<u8>, cursor: int, start: int) -> SpecSize
    recommends
        0 <= start <= cursor <= b.len(),
{
    match spec_read_line(b, cursor, start) {
        SpecLine::More { next } => SpecSize::More { next },
        SpecLine::Bad(e) => SpecSize::Bad(e),
        SpecLine::Line { content, next } => {
            if !is_i64_dec(content) {
                SpecSize::Bad(ParserError::IntegerError)
            } else {
                let v = signed_dec_val(content);
                if v < -1 {
                    SpecSize::Bad(ParserError::ReadsizeError(v as i64))
                } else if v == -1 {
                    SpecSize::Null { end: next }
                } else if v > usize::MAX as int {
                    SpecSize::Bad(ParserError::ReadsizeError(v as i64))
                } else {
                    SpecSize::Size { end: next, size: v }
                }
            }
        },
    }
}

/// Reading a blob of `size` payload bytes followed by two terminator
/// bytes: available exactly when the buffer holds all of them.  The two
/// bytes after the payload are required to exist but are not inspected.
pub open spec fn spec_read_blob(b: Seq<u8>, cursor: int, size: int) -> Option<(Seq<u8>, int)>
    recommends
        0 <= cursor <= b.len(),
        0 <= size,
{
    if cursor + size + 2 <= b.len() {
        Some((b.subrange(cursor, cursor + size), cursor + size + 2))
    } else {
        None
    }
}

// ------------------------------------------------------------------
// Properties of find_cr.
// ------------------------------------------------------------------

/// `find_cr` returns the first CR at or after `i`, or reports that none
/// exists.
proof fn lemma_find_cr_props(b: Seq<u8>, i: int)
    requires
        0 <= i,
    ensures
        match find_cr(b, i) {
            Option::Some(j) => i <= j < b.len() && b[j] == CR && forall|m: int|
                i <= m < j ==> b[m] != CR,
            Option::None => forall|m: int| i <= m < b.len() ==> b[m] != CR,
        },
    decreases b.len() - i,
{
    if i < b.len() && b[i] != CR {
        lemma_find_cr_props(b, i + 1);
    }
}

/// Conversely, a witness of a first CR determines `find_cr`.
pub proof fn lemma_find_cr_is(b: Seq<u8>, i: int, j: int)
    requires
        0 <= i <= j < b.len(),
        b[j] == CR,
        forall|m: int| i <= m < j ==> b[m] != CR,
    ensures
        find_cr(b, i) == Some(j),
    decreases j - i,
{
    if i < j {
        lemma_find_cr_is(b, i + 1, j);
    }
}

/// If no CR exists at or after `i`, `find_cr` reports so.
proof fn lemma_find_cr_is_none(b: Seq<u8>, i: int)
    requires
        0 <= i,
        forall|m: int| i <= m < b.len() ==> b[m] != CR,
    ensures
        find_cr(b, i) is None,
    decreases b.len() - i,
{
    if i < b.len() {
        lemma_find_cr_is_none(b, i + 1);
    }
}

/// Scanning may skip a region known to hold no CR.
proof fn lemma_find_cr_skip(b: Seq<u8>, i: int, j: int)
    requires
        0 <= i <= j <= b.len(),
        forall|m: int| i <= m < j ==> b[m] != CR,
    ensures
        find_cr(b, i) == find_cr(b, j),
    decreases j - i,
{
    if i < j {
        lemma_find_cr_skip(b, i + 1, j);
    }
}

// ------------------------------------------------------------------
// Calls into the outside world.
// ------------------------------------------------------------------

/// Relies on bstr's `ByteSlice::find_byte`: the index of the first
/// occurrence of the byte in the slice, or `None` when it does not occur.
#[verifier::external_body]
fn find_byte(h: &[u8], needle: u8) -> (r: Option<usize>)
    ensures
        match r {
            Option::Some(i) => i < h@.len() && h@[i as int] == needle && forall|j: int|
                0 <= j < i ==> h@[j] != needle,
            Option::None => forall|j: int| 0 <= j < h@.len() ==> h@[j] != needle,
        },
{
    bstr::ByteSlice::find_byte(h, needle)
}

/// Relies on bstr's `ByteSlice::to_str`: the UTF-8 decoding of the bytes
/// when they are valid UTF-8, and an error otherwise.
#[verifier::external_body]
fn utf8_to_string(b: &[u8]) -> (r: Option<String>)
    ensures
        match r {
            Option::Some(s) => vstd::utf8::valid_utf8(b@) && vstd::utf8::encode_utf8(s@) == b@,
            Option::None => !vstd::utf8::valid_utf8(b@),
        },
{
    match bstr::ByteSlice::to_str(b) {
        Ok(s) => Some(s.to_string()),
        Err(_) => None,
    }
}

// ------------------------------------------------------------------
// The executable primitives.
// ------------------------------------------------------------------

/// The result of [`readline`].
#[derive(Debug)]
pub enum ReadlineResult {
    /// A complete line and the position just past its CRLF.
    Line { line: String, cursor: usize },
    /// No complete line yet; scanning may resume at `cursor`.
    NeedMore { cursor: usize },
}

/// True when the bytes contain an LF byte.
fn contains_lf(b: &[u8]) -> (r: bool)
    ensures
        r == !lf_free(b@),
{
    let mut i: usize = 0;
    while i < b.len()
        invariant
            i <= b@.len(),
            forall|k: int| 0 <= k < i ==> b@[k] != LF,
        decreases b@.len() - i,
    {
        if b[i] == LF {
            return true;
        }
        i = i + 1;
    }
    false
}

/// Reads one CRLF-terminated line: the UTF-8 content from `start` up to
/// the first CR at or after `cursor`.  When no complete line is present
/// yet, reports where the next scan may resume.
pub fn readline(buffer: &[u8], cursor: usize, start: usize) -> (r: Result<
    ReadlineResult,
    ParserError,
>)
    requires
        start <= cursor <= buffer@.len(),
    ensures
        match spec_read_line(buffer@, cursor as int, start as int) {
            SpecLine::Line { content, next } => r matches Ok(ReadlineResult::Line {
                line,
                cursor: c,
            }) && vstd::utf8::encode_utf8(line@) == content && line@ == vstd::utf8::decode_utf8(
                content,
            ) && c == next,
            SpecLine::More { next } => r matches Ok(ReadlineResult::NeedMore { cursor: c }) && c
                == next,
            SpecLine::Bad(e) => r == Err::<ReadlineResult, ParserError>(e),
        },
{
    let sub = vstd::slice::slice_subrange(buffer, cursor, buffer.len());
    match find_byte(sub, CR) {
        Option::None => {
            proof {
                assert forall|m: int| cursor <= m < buffer@.len() implies buffer@[m] != CR by {
                    assert(sub@[m - cursor] == buffer@[m]);
                }
                lemma_find_cr_is_none(buffer@, cursor as int);
            }
            Ok(ReadlineResult::NeedMore { cursor: buffer.len() })
        },
        Option::Some(rel) => {
            let cr = cursor + rel;
            proof {
                assert(buffer@[cr as int] == sub@[rel as int]);
                assert forall|m: int| cursor <= m < cr implies buffer@[m] != CR by {
                    assert(sub@[m - cursor] == buffer@[m]);
                }
                lemma_find_cr_is(buffer@, cursor as int, cr as int);
            }
            if buffer.len() - cr < 2 {
                Ok(ReadlineResult::NeedMore { cursor: buffer.len() - 1 })
            } else if *vstd::slice::slice_index_get(buffer, cr + 1) == LF {
                let content = vstd::slice::slice_subrange(buffer, start, cr);
                if contains_lf(content) {
                    Err(ParserError::ReadlineError)
                } else {
                    match utf8_to_string(content) {
                        Option::None => Err(ParserError::ReadlineError),
                        Option::Some(line) => {
                            proof {
                                vstd::utf8::encode_utf8_decode_utf8(line@);
                            }
                            Ok(ReadlineResult::Line { line, cursor: cr + 2 })
                        },
                    }
                }
            } else {
                Err(ParserError::ReadlineError)
            }
        },
    }
}

/// Reads `size` payload bytes followed by two terminator bytes, starting
/// at `cursor`; `None` when fewer bytes are available.
pub fn readbuffer(buffer: &[u8], cursor: usize, size: usize) -> (r: Option<(Vec<u8>, usize)>)
    ensures
        match spec_read_blob(buffer@, cursor as int, size as int) {
            Option::Some((data, end)) => r matches Some(p) && p.0@ == data && p.1 == end,
            Option::None => r is None,
        },
{
    if buffer.len() >= cursor && buffer.len() - cursor >= size && buffer.len() - cursor - size
        >= 2 {
        let data = vstd::slice::slice_to_vec(
            vstd::slice::slice_subrange(buffer, cursor, cursor + size),
        );
        Some((data, cursor + size + 2))
    } else {
        None
    }
}

/// The result of [`readsize`].
#[derive(Debug)]
pub enum ReadsizeResult {
    /// A nonnegative size and the position just past its line.
    Size { end: usize, size: usize },
    /// The null marker `-1` and the position just past its line.
    Null(usize),
    /// No complete line yet; scanning may resume at the given position.
    NeedMore(usize),
}

/// Reads one length prefix: a line holding a decimal 64-bit integer.
/// `-1` denotes the null value; anything below it is an error.
pub fn readsize(buffer: &[u8], cursor: usize, start: usize) -> (r: Result<
    ReadsizeResult,
    ParserError,
>)
    requires
        start <= cursor <= buffer@.len(),
    ensures
        match spec_read_size(buffer@, cursor as int, start as int) {
            SpecSize::Size { end, size } => r matches Ok(ReadsizeResult::Size {
                end: e,
                size: s,
            }) && e == end && s == size,
            SpecSize::Null { end } => r matches Ok(ReadsizeResult::Null(e)) && e == end,
            SpecSize::More { next } => r matches Ok(ReadsizeResult::NeedMore(c)) && c == next,
            SpecSize::Bad(e) => r == Err::<ReadsizeResult, ParserError>(e),
        },
{
    match readline(buffer, cursor, start) {
        Err(e) => Err(e),
        Ok(ReadlineResult::NeedMore { cursor: next }) => Ok(ReadsizeResult::NeedMore(next)),
        Ok(ReadlineResult::Line { line, cursor: end }) => {
            match parse_i64(line.as_str().as_bytes()) {
                Option::None => Err(ParserError::IntegerError),
                Option::Some(v) => {
                    if v < -1 {
                        Err(ParserError::ReadsizeError(v))
                    } else if v == -1 {
                        Ok(ReadsizeResult::Null(end))
                    } else if v as u64 > usize::MAX as u64 {
                        Err(ParserError::ReadsizeError(v))
                    } else {
                        Ok(ReadsizeResult::Size { end, size: v as usize })
                    }
                },
            }
        },
    }
}

// ------------------------------------------------------------------
// How the primitives behave across suspension: bounds on how far they
// scan, stability of complete reads under extra bytes, resumption after
// a partial scan, and independence of the frame's position.
// ------------------------------------------------------------------

/// A first CR found in `b` is still the first CR when bytes follow.
proof fn lemma_find_cr_extend(b: Seq<u8>, ext: Seq<u8>, i: int)
    requires
        0 <= i,
        find_cr(b, i) is Some,
    ensures
        find_cr(b + ext, i) == find_cr(b, i),
{
    lemma_find_cr_props(b, i);
    let j = find_cr(b, i)->0;
    assert((b + ext)[j] == b[j]);
    assert forall|m: int| i <= m < j implies (b + ext)[m] != CR by {
        assert((b + ext)[m] == b[m]);
    }
    lemma_find_cr_is(b + ext, i, j);
}

/// Scanning a suffix finds the same CR, shifted.
proof fn lemma_find_cr_shift(b: Seq<u8>, p: int, i: int)
    requires
        0 <= p <= i,
        p <= b.len(),
    ensures
        match find_cr(b.skip(p), i - p) {
            Option::Some(j) => find_cr(b, i) == Some(j + p),
            Option::None => find_cr(b, i) is None,
        },
{
    let s = b.skip(p);
    lemma_find_cr_props(s, i - p);
    match find_cr(s, i - p) {
        Option::Some(j) => {
            assert(b[j + p] == s[j]);
            assert forall|m: int| i <= m < j + p implies b[m] != CR by {
                assert(s[m - p] == b[m]);
            }
            lemma_find_cr_is(b, i, j + p);
        },
        Option::None => {
            assert forall|m: int| i <= m < b.len() implies b[m] != CR by {
                assert(s[m - p] == b[m]);
            }
            lemma_find_cr_is_none(b, i);
        },
    }
}

/// What each outcome of `spec_read_line` guarantees about positions and
/// content.
pub proof fn lemma_read_line_bounds(b: Seq<u8>, cursor: int, start: int)
    requires
        0 <= start <= cursor <= b.len(),
    ensures
        match spec_read_line(b, cursor, start) {
            SpecLine::Line { content, next } => {
                &&& cursor + 2 <= next <= b.len()
                &&& content == b.subrange(start, next - 2)
                &&& b[next - 2] == CR
                &&& b[next - 1] == LF
                &&& lf_free(content)
                &&& vstd::utf8::valid_utf8(content)
                &&& forall|m: int| cursor <= m < next - 2 ==> b[m] != CR
            },
            SpecLine::More { next } => {
                &&& cursor <= next <= b.len()
                &&& forall|m: int| cursor <= m < next ==> b[m] != CR
            },
            SpecLine::Bad(e) => e == ParserError::ReadlineError,
        },
{
    lemma_find_cr_props(b, cursor);
}

/// A complete or failed line read is unaffected by bytes that follow.
pub proof fn lemma_read_line_extend(b: Seq<u8>, ext: Seq<u8>, cursor: int, start: int)
    requires
        0 <= start <= cursor <= b.len(),
    ensures
        match spec_read_line(b, cursor, start) {
            SpecLine::Line { content, next } => spec_read_line(b + ext, cursor, start)
                == SpecLine::Line { content, next },
            SpecLine::Bad(e) => spec_read_line(b + ext, cursor, start) == SpecLine::Bad(e),
            SpecLine::More { .. } => true,
        },
{
    lemma_find_cr_props(b, cursor);
    match find_cr(b, cursor) {
        Option::None => {},
        Option::Some(cr) => {
            lemma_find_cr_extend(b, ext, cursor);
            if cr + 2 <= b.len() {
                assert((b + ext)[cr + 1] == b[cr + 1]);
                assert((b + ext).subrange(start, cr) =~= b.subrange(start, cr));
            }
        },
    }
}

/// A scan may resume where it stopped: with no CR in the region already
/// scanned, reading from the saved position equals reading from the
/// frame's own start.
pub proof fn lemma_read_line_resume(b: Seq<u8>, cursor: int, cursor2: int, start: int)
    requires
        0 <= start <= cursor <= cursor2 <= b.len(),
        forall|m: int| cursor <= m < cursor2 ==> b[m] != CR,
    ensures
        spec_read_line(b, cursor2, start) == spec_read_line(b, cursor, start),
{
    lemma_find_cr_skip(b, cursor, cursor2);
}

/// Reading a line inside the frame that begins at `p` equals reading it
/// in the suffix of `b` from `p`, with all positions shifted by `p`.
pub proof fn lemma_read_line_shift(b: Seq<u8>, p: int, cursor: int, start: int)
    requires
        0 <= p <= start <= cursor <= b.len(),
    ensures
        match spec_read_line(b.skip(p), cursor - p, start - p) {
            SpecLine::Line { content, next } => spec_read_line(b, cursor, start)
                == SpecLine::Line { content, next: next + p },
            SpecLine::More { next } => spec_read_line(b, cursor, start) == SpecLine::More {
                next: next + p,
            },
            SpecLine::Bad(e) => spec_read_line(b, cursor, start) == SpecLine::Bad(e),
        },
{
    let s = b.skip(p);
    lemma_find_cr_shift(b, p, cursor);
    lemma_find_cr_props(s, cursor - p);
    match find_cr(s, cursor - p) {
        Option::None => {},
        Option::Some(cr) => {
            if cr + 2 <= s.len() {
                assert(b[cr + p + 1] == s[cr + 1]);
                assert(b.subrange(start, cr + p) =~= s.subrange(start - p, cr));
            }
        },
    }
}

/// What each outcome of `spec_read_size` guarantees about positions.
pub proof fn lemma_read_size_bounds(b: Seq<u8>, cursor: int, start: int)
    requires
        0 <= start <= cursor <= b.len(),
    ensures
        match spec_read_size(b, cursor, start) {
            SpecSize::Size { end, size } => cursor + 2 <= end <= b.len() && 0 <= size
                <= usize::MAX,
            SpecSize::Null { end } => cursor + 2 <= end <= b.len(),
            SpecSize::More { next } => cursor <= next <= b.len() && (forall|m: int|
                cursor <= m < next ==> b[m] != CR),
            SpecSize::Bad(_) => true,
        },
{
    lemma_read_line_bounds(b, cursor, start);
}

/// A complete or failed size read is unaffected by bytes that follow.
pub proof fn lemma_read_size_extend(b: Seq<u8>, ext: Seq<u8>, cursor: int, start: int)
    requires
        0 <= start <= cursor <= b.len(),
    ensures
        match spec_read_size(b, cursor, start) {
            SpecSize::Size { end, size } => spec_read_size(b + ext, cursor, start)
                == SpecSize::Size { end, size },
            SpecSize::Null { end } => spec_read_size(b + ext, cursor, start) == SpecSize::Null {
                end,
            },
            SpecSize::Bad(e) => spec_read_size(b + ext, cursor, start) == SpecSize::Bad(e),
            SpecSize::More { .. } => true,
        },
{
    lemma_read_line_extend(b, ext, cursor, start);
}

/// A size scan may resume where it stopped.
pub proof fn lemma_read_size_resume(b: Seq<u8>, cursor: int, cursor2: int, start: int)
    requires
        0 <= start <= cursor <= cursor2 <= b.len(),
        forall|m: int| cursor <= m < cursor2 ==> b[m] != CR,
    ensures
        spec_read_size(b, cursor2, start) == spec_read_size(b, cursor, start),
{
    lemma_read_line_resume(b, cursor, cursor2, start);
}

/// Reading a size inside the frame that begins at `p` equals reading it
/// in the suffix of `b` from `p`, with all positions shifted by `p`.
pub proof fn lemma_read_size_shift(b: Seq<u8>, p: int, cursor: int, start: int)
    requires
        0 <= p <= start <= cursor <= b.len(),
    ensures
        match spec_read_size(b.skip(p), cursor - p, start - p) {
            SpecSize::Size { end, size } => spec_read_size(b, cursor, start) == SpecSize::Size {
                end: end + p,
                size,
            },
            SpecSize::Null { end } => spec_read_size(b, cursor, start) == SpecSize::Null {
                end: end + p,
            },
            SpecSize::More { next } => spec_read_size(b, cursor, start) == SpecSize::More {
                next: next + p,
            },
            SpecSize::Bad(e) => spec_read_size(b, cursor, start) == SpecSize::Bad(e),
        },
{
    lemma_read_line_shift(b, p, cursor, start);
}

/// A complete or failed blob read is unaffected by bytes that follow,
/// and a blob read does not depend on the scan position at all.
pub proof fn lemma_read_blob_extend(b: Seq<u8>, ext: Seq<u8>, cursor: int, size: int)
    requires
        0 <= cursor,
        0 <= size,
    ensures
        spec_read_blob(b, cursor, size) is Some ==> spec_read_blob(b + ext, cursor, size)
            == spec_read_blob(b, cursor, size),
{
    if spec_read_blob(b, cursor, size) is Some {
        assert((b + ext).subrange(cursor, cursor + size) =~= b.subrange(cursor, cursor + size));
    }
}

/// Reading a blob inside the frame that begins at `p` equals reading it
/// in the suffix of `b` from `p`, with all positions shifted by `p`.
pub proof fn lemma_read_blob_shift(b: Seq<u8>, p: int, cursor: int, size: int)
    requires
        0 <= p <= cursor <= b.len(),
        0 <= size,
    ensures
        match spec_read_blob(b.skip(p), cursor - p, size) {
            Option::Some((data, end)) => spec_read_blob(b, cursor, size) == Some(
                (data, end + p),
            ),
            Option::None => spec_read_blob(b, cursor, size) is None,
        },
{
    let s = b.skip(p);
    if cursor - p + size + 2 <= s.len() {
        assert(b.subrange(cursor, cursor + size) =~= s.subrange(cursor - p, cursor - p + size));
    }
}

// ------------------------------------------------------------------
// Decimal parsing.
// ------------------------------------------------------------------

/// The value of a digit sequence is nonnegative.
proof fn lemma_digits_val_nonneg(s: Seq<u8>)
    requires
        forall|i: int| 0 <= i < s.len() ==> crate::model::is_digit(#[trigger] s[i]),
    ensures
        crate::model::digits_val(s) >= 0,
    decreases s.len(),
{
    if s.len() > 0 {
        lemma_digits_val_nonneg(s.drop_last());
    }
}

/// Appending digits never shrinks the value: the value of the whole is at
/// least the value of any prefix.
proof fn lemma_digits_val_prefix(s: Seq<u8>, k: int)
    requires
        0 <= k <= s.len(),
        forall|i: int| 0 <= i < s.len() ==> crate::model::is_digit(#[trigger] s[i]),
    ensures
        crate::model::digits_val(s) >= crate::model::digits_val(s.take(k)),
    decreases s.len() - k,
{
    if k == s.len() {
        assert(s.take(k) =~= s);
    } else {
        lemma_digits_val_prefix(s, k + 1);
        let t = s.take(k + 1);
        assert(t.drop_last() =~= s.take(k));
        lemma_digits_val_nonneg(s.take(k));
        assert(crate::model::digits_val(t) == crate::model::digits_val(s.take(k)) * 10 + (t.last()
            - crate::model::DIGIT_ZERO));
        assert(crate::model::digits_val(s.take(k)) * 10 >= crate::model::digits_val(s.take(k)));
    }
}

/// Parses a decimal 64-bit integer, with the grammar of `i64::from_str`:
/// an optional sign, then at least one digit, the value in range.
pub fn parse_i64(s: &[u8]) -> (r: Option<i64>)
    ensures
        match r {
            Option::Some(v) => is_i64_dec(s@) && v as int == signed_dec_val(s@),
            Option::None => !is_i64_dec(s@),
        },
{
    if s.len() == 0 {
        return None;
    }
    let first = s[0];
    let neg: bool = first == TOK_ERROR;
    let signed: bool = first == TOK_ERROR || first == SIGN_PLUS;
    let sign_len: usize = if signed {
        1
    } else {
        0
    };
    if s.len() == sign_len {
        return None;
    }
    let ghost digits = s@.skip(sign_len as int);
    proof {
        if sign_len == 0 {
            assert(digits =~= s@);
        }
    }
    let bound: u64 = if neg {
        9223372036854775808
    } else {
        9223372036854775807
    };
    let mut mag: u64 = 0;
    let mut i: usize = sign_len;
    #[verifier::loop_isolation(false)]
    while i < s.len()
        invariant
            sign_len <= i <= s@.len(),
            forall|k: int| sign_len <= k < i ==> crate::model::is_digit(#[trigger] s@[k]),
            mag as int == crate::model::digits_val(s@.subrange(sign_len as int, i as int)),
            mag <= bound,
        decreases s@.len() - i,
    {
        let d = s[i];
        if !(48 <= d && d <= 57) {
            proof {
                assert(!crate::model::all_digits(digits)) by {
                    assert(digits[i - sign_len] == s@[i as int]);
                }
            }
            return None;
        }
        let dv: u64 = (d - 48) as u64;
        let wide: u128 = (mag as u128) * 10 + (dv as u128);
        if wide > bound as u128 {
            proof {
                let pref = s@.subrange(sign_len as int, i + 1);
                assert(pref.drop_last() =~= s@.subrange(sign_len as int, i as int));
                assert(crate::model::digits_val(pref) == mag * 10 + dv);
                if is_i64_dec(s@) {
                    assert(crate::model::all_digits(digits));
                    assert(forall|k: int|
                        0 <= k < digits.len() ==> crate::model::is_digit(#[trigger] digits[k]));
                    lemma_digits_val_prefix(digits, i + 1 - sign_len);
                    assert(digits.take(i + 1 - sign_len) =~= pref);
                    assert(crate::model::digits_val(digits) >= mag * 10 + dv);
                    assert(signed_dec_val(s@) == if neg {
                        -crate::model::digits_val(digits)
                    } else {
                        crate::model::digits_val(digits)
                    });
                    assert(false);
                }
            }
            return None;
        }
        mag = wide as u64;
        proof {
            let pref = s@.subrange(sign_len as int, i + 1);
            assert(pref.drop_last() =~= s@.subrange(sign_len as int, i as int));
        }
        i = i + 1;
    }
    proof {
        assert(s@.subrange(sign_len as int, s@.len() as int) =~= digits);
        assert(crate::model::all_digits(digits));
        assert(is_i64_dec(s@) && signed_dec_val(s@) == if neg {
            -(mag as int)
        } else {
            mag as int
        });
    }
    if neg {
        if mag == 9223372036854775808 {
            Some(i64::MIN)
        } else {
            Some(-(mag as i64))
        }
    } else {
        Some(mag as i64)
    }
}

} // verus!
