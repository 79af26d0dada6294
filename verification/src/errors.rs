//! The error taxonomy of the parser.  Every kind is fatal to the stream: on
//! any of them the staging buffer is cleared and the parser is poisoned.

use vstd::prelude::*;

verus! {

/// A parsing failure.  Carries the offending datum where one exists.
#[derive(Clone, Copy, Debug, PartialEq, Eq, Structural)]
pub enum ParserError {
    /// A CRLF framing violation: the byte after a `\r` is not `\n`, a `\n`
    /// is embedded before the terminating CRLF, or the line is not UTF-8.
    ReadlineError,
    /// A length field below `-1`, or one too large for this machine;
    /// carries the value that was read.
    ReadsizeError(i64),
    /// A line that should hold a decimal 64-bit integer does not.
    IntegerError,
    /// An internal state machine fault: a state was routed to the wrong
    /// handler.  Verification shows this is never returned.
    StateError,
    /// A byte where a type token was expected is none of `+ - : $ *`;
    /// carries that byte.
    TypeTokenError(char),
    /// The staging buffer or a single value exceeded its configured limit.
    SizeExceededError,
}

} // verus!
