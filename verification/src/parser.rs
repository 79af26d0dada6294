//! The resumable parser: a nested state machine that can suspend at any
//! byte of any frame, remember where it was, and resume when more bytes
//! arrive — including inside nested arrays.
//!
//! Correctness is stated against the scratch semantics of
//! [`crate::decode`]: a saved state is *well formed* for the staging
//! buffer ([`wf_state`]) when resuming it is guaranteed to compute exactly
//! what parsing the buffer from its beginning would, and every handler is
//! verified to do so.

use vstd::prelude::*;

use crate::buffer::{
    lemma_read_blob_shift, lemma_read_line_bounds, lemma_read_line_resume, lemma_read_line_shift,
    lemma_read_size_bounds, lemma_read_size_extend, lemma_read_size_resume, lemma_read_size_shift,
    readbuffer, readline, readsize, spec_read_line, spec_read_size, ReadlineResult,
    ReadsizeResult, SpecLine, SpecSize,
};
use crate::config::RespConfig;
use crate::decode::{
    lemma_parse_elems_split, lemma_parse_value_consumes, parse_elems, parse_value, spec_drain,
    spec_read, tail_from, DrainStep, ElemsStep, ValueStep,
};
use crate::errors::ParserError;
use crate::model::{RespVal, CR, TOK_ARRAY, TOK_BULK, TOK_ERROR, TOK_INTEGER, TOK_SIMPLE};
use crate::resp::{view_of, views_of, RespType};

verus! {

broadcast use vstd::seq::group_seq_axioms;

/// Which of the three line-framed kinds a `Simple` state is reading.
#[derive(Clone, Copy, Debug)]
enum SimpleType {
    Simple,
    Error,
    Integer,
}

/// The parser's resumption point: where in the staging buffer the active
/// frame begins (`start`), how far scanning has advanced (`cursor`), and
/// any partially accumulated data.
#[derive(Debug)]
enum State {
    /// Waiting for the type token at `cursor`.
    GetType { cursor: usize },
    /// Inside a line-framed value whose content begins at `start`.
    Simple { cursor: usize, start: usize, simple_type: SimpleType },
    /// Inside a bulk string: length line, then payload.
    BulkString { cursor: usize, start: usize, size: Option<usize> },
    /// Inside an array: size line, then `size` elements, the element
    /// currently in flight suspended in `substate`.
    Array {
        cursor: usize,
        start: usize,
        size: Option<usize>,
        elements: Option<Vec<RespType>>,
        substate: Option<Box<State>>,
    },
}

impl State {
    fn boxed(self) -> (r: Box<State>)
        ensures
            *r == self,
    {
        Box::new(self)
    }

    fn get_type(cursor: usize) -> (r: Box<State>)
        ensures
            *r == (State::GetType { cursor }),
    {
        Box::new(State::GetType { cursor })
    }

    fn get_simple(cursor: usize, simple_type: SimpleType) -> (r: Box<State>)
        ensures
            *r == (State::Simple { cursor, start: cursor, simple_type }),
    {
        Box::new(State::Simple { cursor, start: cursor, simple_type })
    }

    fn get_bulk_string(cursor: usize) -> (r: Box<State>)
        ensures
            *r == (State::BulkString { cursor, start: cursor, size: None }),
    {
        Box::new(State::BulkString { cursor, start: cursor, size: None })
    }

    fn get_array(cursor: usize) -> (r: Box<State>)
        ensures
            *r == (State::Array {
                cursor,
                start: cursor,
                size: None,
                elements: None,
                substate: None,
            }),
    {
        Box::new(State::Array { cursor, start: cursor, size: None, elements: None, substate: None })
    }
}

/// What one step of the machine reports to its caller.
#[derive(Debug)]
enum StateResult {
    /// The frame is not complete; resume from the saved state.
    Incomplete(Box<State>),
    /// A complete value, and the buffer position just past its frame.
    Done(RespType, usize),
}

/// The type token that opens the frame of a `Simple` state.
spec fn tag_of(k: SimpleType) -> u8 {
    match k {
        SimpleType::Simple => TOK_SIMPLE,
        SimpleType::Error => TOK_ERROR,
        SimpleType::Integer => TOK_INTEGER,
    }
}

/// No CR byte in `b[lo .. hi)`: the region a suspended line scan has
/// already examined.
spec fn scan_clear(b: Seq<u8>, lo: int, hi: int) -> bool {
    forall|m: int| lo <= m < hi ==> b[m] != CR
}

/// The buffer position where the frame of this state begins (the type
/// token's position).
spec fn frame_pos(st: State) -> int {
    match st {
        State::GetType { cursor } => cursor as int,
        State::Simple { start, .. } => start as int - 1,
        State::BulkString { start, .. } => start as int - 1,
        State::Array { start, .. } => start as int - 1,
    }
}

/// Ranks the states so that dispatching from a type token to its frame
/// handler decreases.
spec fn state_rank(st: State) -> nat {
    match st {
        State::GetType { .. } => 3,
        _ => 0,
    }
}

/// A state faithfully suspends the parse of `b` at its frame: positions
/// are in bounds, the frame's type token stands where the state says,
/// the scanned region holds no CR, every completed length line really
/// reads back as recorded, and every array element collected so far is
/// exactly what the scratch parse of the element region yields.
spec fn wf_state(st: State, b: Seq<u8>, max: int) -> bool
    decreases st,
{
    match st {
        State::GetType { cursor } => cursor <= b.len(),
        State::Simple { cursor, start, simple_type } => {
            &&& 1 <= start <= cursor <= b.len()
            &&& b[start - 1] == tag_of(simple_type)
            &&& scan_clear(b, start as int, cursor as int)
        },
        State::BulkString { cursor, start, size } => {
            &&& 1 <= start <= cursor <= b.len()
            &&& b[start - 1] == TOK_BULK
            &&& match size {
                Option::Some(n) => spec_read_size(b, start as int, start as int)
                    == (SpecSize::Size { end: cursor as int, size: n as int }),
                Option::None => scan_clear(b, start as int, cursor as int),
            }
        },
        State::Array { cursor, start, size, elements, substate } => {
            &&& 1 <= start <= cursor <= b.len()
            &&& b[start - 1] == TOK_ARRAY
            &&& match size {
                Option::None => {
                    &&& elements is None
                    &&& substate is None
                    &&& scan_clear(b, start as int, cursor as int)
                },
                Option::Some(k) => {
                    &&& 1 <= k
                    &&& elements matches Some(els) && substate matches Some(sub) && {
                        &&& spec_read_size(b, start as int, start as int) matches SpecSize::Size {
                            end,
                            size: sz,
                        } && sz == k as int && end <= cursor && parse_elems(
                            tail_from(b, end),
                            els@.len() as int,
                            max,
                        ) == (ElemsStep::FinSeq { vs: views_of(els@), n: cursor - end })
                        &&& els@.len() < k
                        &&& wf_state(*sub, b, max)
                        &&& frame_pos(*sub) == cursor as int
                    }
                },
            }
        },
    }
}

/// A well-formed suspension stays well formed when bytes arrive.
proof fn lemma_wf_state_extend(st: State, b: Seq<u8>, ext: Seq<u8>, max: int)
    requires
        wf_state(st, b, max),
    ensures
        wf_state(st, b + ext, max),
    decreases st,
{
    let b2 = b + ext;
    assert forall|m: int| 0 <= m < b.len() implies b2[m] == b[m] by {}
    match st {
        State::GetType { .. } => {},
        State::Simple { .. } => {},
        State::BulkString { cursor, start, size } => {
            if size is Some {
                lemma_read_size_extend(b, ext, start as int, start as int);
            }
        },
        State::Array { cursor, start, size, elements, substate } => {
            if let Option::Some(k) = size {
                lemma_read_size_extend(b, ext, start as int, start as int);
                if let SpecSize::Size { end, size: sz } = spec_read_size(
                    b,
                    start as int,
                    start as int,
                ) {
                    lemma_read_size_bounds(b, start as int, start as int);
                    if let Option::Some(els) = elements {
                        assert(tail_from(b2, end) =~= tail_from(b, end) + ext);
                        crate::decode::lemma_parse_elems_extend(
                            tail_from(b, end),
                            ext,
                            els@.len() as int,
                            max,
                        );
                    }
                }
                if let Option::Some(sub) = substate {
                    lemma_wf_state_extend(*sub, b, ext, max);
                }
            }
        },
    }
}

/// The contract every handler meets: its result reports exactly what the
/// scratch parse of the frame's suffix of `b` yields.
spec fn step_post(b: Seq<u8>, fp: int, max: int, r: Result<StateResult, ParserError>) -> bool {
    let suffix = b.skip(fp);
    match r {
        Ok(StateResult::Done(item, end)) => parse_value(suffix, max) == (ValueStep::Fin {
            v: view_of(item),
            n: end - fp,
        }) && fp <= end <= b.len(),
        Ok(StateResult::Incomplete(st2)) => parse_value(suffix, max) is More && wf_state(
            *st2,
            b,
            max,
        ) && frame_pos(*st2) == fp,
        Err(e) => parse_value(suffix, max) == ValueStep::Fail(e),
    }
}

/// Combines resumption and framing for line reads: with the scanned
/// region clear of CR, reading from the saved cursor equals reading the
/// frame's suffix from its second byte.
proof fn lemma_line_frame(b: Seq<u8>, start: int, cursor: int)
    requires
        1 <= start <= cursor <= b.len(),
        scan_clear(b, start, cursor),
    ensures
        match spec_read_line(b.skip(start - 1), 1, 1) {
            SpecLine::Line { content, next } => spec_read_line(b, cursor, start)
                == (SpecLine::Line { content, next: next + start - 1 }),
            SpecLine::More { next } => spec_read_line(b, cursor, start) == (SpecLine::More {
                next: next + start - 1,
            }),
            SpecLine::Bad(e) => spec_read_line(b, cursor, start) == SpecLine::Bad(e),
        },
{
    lemma_read_line_resume(b, start, cursor, start);
    lemma_read_line_shift(b, start - 1, start, start);
}

/// The same for length-line reads.
proof fn lemma_size_frame(b: Seq<u8>, start: int, cursor: int)
    requires
        1 <= start <= cursor <= b.len(),
        scan_clear(b, start, cursor),
    ensures
        match spec_read_size(b.skip(start - 1), 1, 1) {
            SpecSize::Size { end, size } => spec_read_size(b, cursor, start) == (SpecSize::Size {
                end: end + start - 1,
                size,
            }),
            SpecSize::Null { end } => spec_read_size(b, cursor, start) == (SpecSize::Null {
                end: end + start - 1,
            }),
            SpecSize::More { next } => spec_read_size(b, cursor, start) == (SpecSize::More {
                next: next + start - 1,
            }),
            SpecSize::Bad(e) => spec_read_size(b, cursor, start) == SpecSize::Bad(e),
        },
{
    lemma_read_size_resume(b, start, cursor, start);
    lemma_read_size_shift(b, start - 1, start, start);
}

/// The parser: feed it byte slices with [`RespParser::read`].
pub struct RespParser {
    buffer: Vec<u8>,
    state: Option<Box<State>>,
    /// Configuration structure for memory limits.
    pub config: RespConfig,
}

impl View for RespParser {
    type V = Seq<u8>;

    /// The parser's staging buffer: the bytes fed but not yet consumed.
    closed spec fn view(&self) -> Seq<u8> {
        self.buffer@
    }
}

impl RespParser {
    /// The limits this parser was created with.
    pub closed spec fn spec_config(&self) -> RespConfig {
        self.config
    }

    /// The parser's invariant: any saved state is a faithful suspension
    /// of parsing the staging buffer from its beginning.
    pub closed spec fn wf(&self) -> bool {
        match self.state {
            Option::Some(st) => wf_state(*st, self.buffer@, self.config.max_resp_size as int)
                && frame_pos(*st) == 0,
            Option::None => true,
        }
    }

    /// Creates a parser with the given limits and an empty staging buffer.
    pub fn new(config: RespConfig) -> (r: RespParser)
        ensures
            r.wf(),
            r@ == Seq::<u8>::empty(),
            r.spec_config() == config,
    {
        let r = RespParser { buffer: Vec::new(), state: None, config };
        proof {
            assert(r@ =~= Seq::<u8>::empty());
        }
        r
    }

    /// Processes the given state against the staging buffer.
    fn process_state(&self, state: Box<State>) -> (r: Result<StateResult, ParserError>)
        requires
            wf_state(*state, self.buffer@, self.config.max_resp_size as int),
        ensures
            step_post(self.buffer@, frame_pos(*state), self.config.max_resp_size as int, r),
        decreases self.buffer@.len() - frame_pos(*state), state_rank(*state) + 1nat,
    {
        match *state {
            State::GetType { .. } => self.get_type(state),
            State::Simple { .. } => self.get_simple(state),
            State::BulkString { .. } => self.get_bulk_string(state),
            State::Array { .. } => self.get_array(state),
        }
    }

    /// Reads the type token and dispatches to the frame it opens.
    fn get_type(&self, state: Box<State>) -> (r: Result<StateResult, ParserError>)
        requires
            (*state) is GetType,
            wf_state(*state, self.buffer@, self.config.max_resp_size as int),
        ensures
            step_post(self.buffer@, frame_pos(*state), self.config.max_resp_size as int, r),
        decreases self.buffer@.len() - frame_pos(*state), state_rank(*state),
    {
        let ghost b = self.buffer@;
        let ghost max = self.config.max_resp_size as int;
        if let State::GetType { cursor } = *state {
            let ghost suffix = b.skip(cursor as int);
            if self.buffer.len() <= cursor {
                proof {
                    assert(suffix.len() == 0);
                }
                return Ok(StateResult::Incomplete(State::get_type(cursor)));
            }
            proof {
                assert(suffix[0] == b[cursor as int]);
                assert(suffix.len() == b.len() - cursor);
            }
            let next_cursor = cursor + 1;
            let byte = self.buffer[cursor];
            let state2: Box<State> = if byte == TOK_SIMPLE {
                State::get_simple(next_cursor, SimpleType::Simple)
            } else if byte == TOK_ERROR {
                State::get_simple(next_cursor, SimpleType::Error)
            } else if byte == TOK_INTEGER {
                State::get_simple(next_cursor, SimpleType::Integer)
            } else if byte == TOK_BULK {
                State::get_bulk_string(next_cursor)
            } else if byte == TOK_ARRAY {
                State::get_array(next_cursor)
            } else {
                return Err(ParserError::TypeTokenError(byte as char));
            };
            if self.buffer.len() > next_cursor {
                let r = self.process_state(state2);
                proof {
                    assert(step_post(b, cursor as int, max, r));
                }
                r
            } else {
                proof {
                    // One byte of the frame: every scan comes up short.
                    assert(suffix.len() == 1);
                    crate::buffer::lemma_read_line_bounds(suffix, 1, 1);
                    crate::buffer::lemma_read_size_bounds(suffix, 1, 1);
                }
                Ok(StateResult::Incomplete(state2))
            }
        } else {
            Err(ParserError::StateError)
        }
    }

    /// Reads one line-framed value: a simple string, an error, or an
    /// integer.
    fn get_simple(&self, state: Box<State>) -> (r: Result<StateResult, ParserError>)
        requires
            (*state) is Simple,
            wf_state(*state, self.buffer@, self.config.max_resp_size as int),
        ensures
            step_post(self.buffer@, frame_pos(*state), self.config.max_resp_size as int, r),
        decreases self.buffer@.len() - frame_pos(*state), state_rank(*state),
    {
        let ghost b = self.buffer@;
        let ghost max = self.config.max_resp_size as int;
        if let State::Simple { cursor, start, simple_type } = *state {
            let ghost p = start as int - 1;
            let ghost suffix = b.skip(p);
            proof {
                lemma_line_frame(b, start as int, cursor as int);
                lemma_read_line_bounds(b, cursor as int, start as int);
                assert(suffix[0] == b[p]);
            }
            match readline(self.buffer.as_slice(), cursor, start) {
                Err(e) => Err(e),
                Ok(ReadlineResult::NeedMore { cursor: next }) => {
                    Ok(
                        StateResult::Incomplete(
                            State::Simple { cursor: next, start, simple_type }.boxed(),
                        ),
                    )
                },
                Ok(ReadlineResult::Line { line, cursor: end }) => {
                    if line.as_str().len() > self.config.max_resp_size {
                        Err(ParserError::SizeExceededError)
                    } else {
                        match simple_type {
                            SimpleType::Simple => Ok(
                                StateResult::Done(RespType::SimpleString(line), end),
                            ),
                            SimpleType::Error => Ok(StateResult::Done(RespType::Error(line), end)),
                            SimpleType::Integer => {
                                match crate::buffer::parse_i64(line.as_str().as_bytes()) {
                                    Option::Some(v) => Ok(
                                        StateResult::Done(RespType::Integer(v), end),
                                    ),
                                    Option::None => Err(ParserError::IntegerError),
                                }
                            },
                        }
                    }
                },
            }
        } else {
            Err(ParserError::StateError)
        }
    }

    /// Reads one bulk string: its length line, then its payload.
    fn get_bulk_string(&self, state: Box<State>) -> (r: Result<StateResult, ParserError>)
        requires
            (*state) is BulkString,
            wf_state(*state, self.buffer@, self.config.max_resp_size as int),
        ensures
            step_post(self.buffer@, frame_pos(*state), self.config.max_resp_size as int, r),
        decreases self.buffer@.len() - frame_pos(*state), state_rank(*state),
    {
        let ghost b = self.buffer@;
        let ghost max = self.config.max_resp_size as int;
        if let State::BulkString { cursor, start, size } = *state {
            let ghost p = start as int - 1;
            let ghost suffix = b.skip(p);
            proof {
                assert(suffix[0] == b[p]);
            }
            let (cursor2, size2): (usize, usize) = match size {
                Option::None => {
                    proof {
                        lemma_size_frame(b, start as int, cursor as int);
                        lemma_read_size_bounds(b, cursor as int, start as int);
                    }
                    match readsize(self.buffer.as_slice(), cursor, start) {
                        Err(e) => {
                            return Err(e);
                        },
                        Ok(ReadsizeResult::NeedMore(next)) => {
                            return Ok(
                                StateResult::Incomplete(
                                    State::BulkString { cursor: next, start, size: None }.boxed(),
                                ),
                            );
                        },
                        Ok(ReadsizeResult::Null(end)) => {
                            return Ok(StateResult::Done(RespType::Null, end));
                        },
                        Ok(ReadsizeResult::Size { end, size }) => {
                            proof {
                                lemma_read_size_resume(b, start as int, cursor as int, start as int);
                            }
                            (end, size)
                        },
                    }
                },
                Option::Some(n) => (cursor, n),
            };
            // Here the length line is complete:
            // spec_read_size(b, start, start) == Size { end: cursor2, size: size2 }.
            proof {
                lemma_size_frame(b, start as int, start as int);
                lemma_read_size_bounds(b, start as int, start as int);
            }
            if size2 > self.config.max_resp_size {
                return Err(ParserError::SizeExceededError);
            }
            proof {
                lemma_read_blob_shift(b, p, cursor2 as int, size2 as int);
            }
            match readbuffer(self.buffer.as_slice(), cursor2, size2) {
                Option::Some((data, end)) => Ok(
                    StateResult::Done(RespType::BulkString(data), end),
                ),
                Option::None => Ok(
                    StateResult::Incomplete(
                        State::BulkString { cursor: cursor2, start, size: Some(size2) }.boxed(),
                    ),
                ),
            }
        } else {
            Err(ParserError::StateError)
        }
    }

    /// Reads one array: its size line, then its elements, resuming the
    /// element in flight if one was suspended.
    #[verifier::rlimit(60)]
    fn get_array(&self, state: Box<State>) -> (r: Result<StateResult, ParserError>)
        requires
            (*state) is Array,
            wf_state(*state, self.buffer@, self.config.max_resp_size as int),
        ensures
            step_post(self.buffer@, frame_pos(*state), self.config.max_resp_size as int, r),
        decreases self.buffer@.len() - frame_pos(*state), state_rank(*state),
    {
        let ghost b = self.buffer@;
        let ghost max = self.config.max_resp_size as int;
        if let State::Array { cursor, start, size, elements, substate } = *state {
            let ghost p = start as int - 1;
            let ghost suffix = b.skip(p);
            proof {
                assert(suffix[0] == b[p]);
            }
            let mut substate = substate;
            let (first_cursor, size2): (usize, usize) = match size {
                Option::None => {
                    proof {
                        lemma_size_frame(b, start as int, cursor as int);
                        lemma_read_size_bounds(b, cursor as int, start as int);
                    }
                    match readsize(self.buffer.as_slice(), cursor, start) {
                        Err(e) => {
                            return Err(e);
                        },
                        Ok(ReadsizeResult::NeedMore(next)) => {
                            return Ok(
                                StateResult::Incomplete(
                                    State::Array {
                                        cursor: next,
                                        start,
                                        size: None,
                                        elements: None,
                                        substate: None,
                                    }.boxed(),
                                ),
                            );
                        },
                        Ok(ReadsizeResult::Null(end)) => {
                            return Ok(StateResult::Done(RespType::NullArray, end));
                        },
                        Ok(ReadsizeResult::Size { end, size }) => {
                            proof {
                                lemma_read_size_resume(b, start as int, cursor as int, start as int);
                            }
                            if size == 0 {
                                proof {
                                    lemma_size_frame(b, start as int, start as int);
                                }
                                return Ok(StateResult::Done(RespType::Array(Vec::new()), end));
                            }
                            (end, size)
                        },
                    }
                },
                Option::Some(k) => (cursor, k),
            };
            // Here the size line is complete and the element count is at
            // least one: spec_read_size(b, start, start) is Size with the
            // recorded count.
            proof {
                lemma_size_frame(b, start as int, start as int);
                lemma_read_size_bounds(b, start as int, start as int);
            }
            let ghost end0 = spec_read_size(b, start as int, start as int)->Size_end;
            if size2 > self.config.max_resp_size {
                return Err(ParserError::SizeExceededError);
            }
            let mut elements: Vec<RespType> = match elements {
                Option::Some(els) => els,
                Option::None => Vec::new(),
            };
            let mut cursor2: usize = first_cursor;
            proof {
                if size is None {
                    assert(elements@ =~= Seq::<RespType>::empty());
                    assert(views_of(elements@) =~= Seq::<RespVal>::empty());
                    assert(tail_from(tail_from(b, end0), 0) =~= tail_from(b, end0));
                }
            }
            let ghost tail0 = tail_from(b, end0);
            proof {
                assert(spec_read_size(b, start as int, start as int) == (SpecSize::Size {
                    end: end0,
                    size: size2 as int,
                }));
                assert(spec_read_size(suffix, 1, 1) == (SpecSize::Size {
                    end: end0 - p,
                    size: size2 as int,
                }));
                assert(tail_from(suffix, end0 - p) =~= tail0);
                assert(1 <= size2);
            }
            #[verifier::loop_isolation(false)]
            while elements.len() < size2
                invariant
                    end0 <= cursor2 <= b.len(),
                    elements@.len() <= size2,
                    parse_elems(tail0, elements@.len() as int, max) == (ElemsStep::FinSeq {
                        vs: views_of(elements@),
                        n: cursor2 - end0,
                    }),
                    substate matches Some(sub) ==> wf_state(*sub, b, max) && frame_pos(*sub)
                        == cursor2 as int,
                decreases size2 - elements@.len(),
            {
                let st: Box<State> = match substate {
                    Option::Some(s) => s,
                    Option::None => State::get_type(cursor2),
                };
                substate = None;
                let ghost j = elements@.len() as int;
                let ghost child_suffix = b.skip(cursor2 as int);
                proof {
                    lemma_parse_elems_split(tail0, j, size2 as int, max);
                    assert(tail_from(tail0, cursor2 - end0) =~= child_suffix);
                }
                match self.process_state(st) {
                    Err(e) => {
                        proof {
                            assert(parse_elems(child_suffix, size2 - j, max)
                                == ElemsStep::FailSeq(e));
                            assert(parse_elems(tail0, size2 as int, max) == ElemsStep::FailSeq(e));
                            assert(parse_value(suffix, max) == ValueStep::Fail(e));
                        }
                        return Err(e);
                    },
                    Ok(StateResult::Incomplete(sub2)) => {
                        proof {
                            assert(parse_elems(child_suffix, size2 - j, max)
                                == ElemsStep::MoreSeq);
                            assert(parse_elems(tail0, size2 as int, max) == ElemsStep::MoreSeq);
                            assert(parse_value(suffix, max) is More);
                        }
                        return Ok(
                            StateResult::Incomplete(
                                State::Array {
                                    cursor: cursor2,
                                    start,
                                    size: Some(size2),
                                    elements: Some(elements),
                                    substate: Some(sub2),
                                }.boxed(),
                            ),
                        );
                    },
                    Ok(StateResult::Done(item, end)) => {
                        proof {
                            let v = view_of(item);
                            let n1 = end - cursor2;
                            assert(parse_value(child_suffix, max) == (ValueStep::Fin {
                                v,
                                n: n1,
                            }));
                            assert(parse_elems(tail_from(child_suffix, n1), 0, max)
                                == (ElemsStep::FinSeq { vs: Seq::<RespVal>::empty(), n: 0 }));
                            assert(parse_elems(child_suffix, 1, max) == (ElemsStep::FinSeq {
                                vs: seq![v] + Seq::<RespVal>::empty(),
                                n: n1,
                            }));
                            lemma_parse_elems_split(tail0, j, j + 1, max);
                            let pushed = elements@.push(item);
                            crate::resp::lemma_views_of(elements@);
                            crate::resp::lemma_views_of(pushed);
                            assert forall|k: int| 0 <= k < pushed.len() implies views_of(pushed)[k]
                                == (views_of(elements@) + (seq![v]
                                + Seq::<RespVal>::empty()))[k] by {
                                if k < elements@.len() {
                                    assert(pushed[k] == elements@[k]);
                                } else {
                                    assert(pushed[k] == item);
                                }
                            }
                            assert(views_of(elements@) + (seq![v] + Seq::<RespVal>::empty())
                                =~= views_of(pushed));
                        }
                        elements.push(item);
                        cursor2 = end;
                    },
                }
            }
            proof {
                assert(elements@.len() == size2);
                assert(parse_value(suffix, max) == (ValueStep::Fin {
                    v: RespVal::Array(views_of(elements@)),
                    n: cursor2 - p,
                }));
            }
            Ok(StateResult::Done(RespType::Array(elements), cursor2))
        } else {
            Err(ParserError::StateError)
        }
    }

    /// Begins a fresh value at the front of the staging buffer, draining
    /// its bytes if it completes.
    fn get_next(&mut self) -> (r: Result<Option<RespType>, ParserError>)
        requires
            old(self).state is None,
        ensures
            final(self).config == old(self).config,
            ({
                let b = old(self).buffer@;
                let max = old(self).config.max_resp_size as int;
                match parse_value(b, max) {
                    ValueStep::More => {
                        &&& r == Ok::<Option<RespType>, ParserError>(None)
                        &&& final(self).wf()
                        &&& final(self).buffer@ == b
                        &&& final(self).state is Some
                    },
                    ValueStep::Fin { v, n } => {
                        &&& r matches Ok(Some(item)) && view_of(item) == v
                        &&& final(self).buffer@ == tail_from(b, n)
                        &&& final(self).state is None
                    },
                    ValueStep::Fail(e) => {
                        &&& r == Err::<Option<RespType>, ParserError>(e)
                        &&& final(self).buffer@ == b
                        &&& final(self).state is None
                    },
                }
            }),
    {
        let ghost b = self.buffer@;
        let ghost max = self.config.max_resp_size as int;
        proof {
            assert(b.skip(0) =~= b);
        }
        match self.get_type(State::get_type(0)) {
            Err(e) => Err(e),
            Ok(StateResult::Incomplete(st)) => {
                self.state = Some(st);
                Ok(None)
            },
            Ok(StateResult::Done(item, end)) => {
                proof {
                    lemma_parse_value_consumes(b, max);
                }
                let rest = self.buffer.split_off(end);
                self.buffer = rest;
                proof {
                    assert(self.buffer@ =~= tail_from(b, end as int));
                }
                Ok(Some(item))
            },
        }
    }

    /// Feeds bytes to the parser: appends them to the staging buffer,
    /// resumes any suspended frame, and returns every value completed, in
    /// the order their frames close.  On any error the staging buffer is
    /// cleared and the parser must be considered poisoned.
    pub fn read(&mut self, buffer: &[u8]) -> (r: Result<Vec<RespType>, ParserError>)
        requires
            old(self).wf(),
        ensures
            final(self).wf(),
            final(self).spec_config() == old(self).spec_config(),
            ({
                let out = spec_read(
                    old(self)@,
                    buffer@,
                    old(self).spec_config().max_resp_size as int,
                    old(self).spec_config().max_buffer_size as int,
                );
                &&& final(self)@ == out.1
                &&& match r {
                    Ok(items) => out.0 == Ok::<Seq<RespVal>, ParserError>(views_of(items@)),
                    Err(e) => out.0 == Err::<Seq<RespVal>, ParserError>(e),
                }
            }),
    {
        let ghost stash = self.buffer@;
        let ghost maxv = self.config.max_resp_size as int;
        let ghost all = stash + buffer@;
        let mut i: usize = 0;
        #[verifier::loop_isolation(false)]
        while i < buffer.len()
            invariant
                i <= buffer@.len(),
                self.buffer@ == stash + buffer@.take(i as int),
                self.state == old(self).state,
                self.config == old(self).config,
            decreases buffer@.len() - i,
        {
            self.buffer.push(buffer[i]);
            proof {
                assert(stash + buffer@.take(i as int) + seq![buffer@[i as int]] =~= stash
                    + buffer@.take(i + 1));
            }
            i = i + 1;
        }
        proof {
            assert(stash + buffer@.take(buffer@.len() as int) =~= all);
        }
        if self.buffer.len() > self.config.max_buffer_size {
            self.buffer.clear();
            self.state = None;
            proof {
                assert(self.buffer@ =~= Seq::<u8>::empty());
            }
            return Err(ParserError::SizeExceededError);
        }
        let mut items: Vec<RespType> = Vec::new();
        let taken = self.state.take();
        match taken {
            Option::None => {
                proof {
                    assert(views_of(items@) =~= Seq::<RespVal>::empty());
                }
            },
            Option::Some(state) => {
                proof {
                    lemma_wf_state_extend(*state, stash, buffer@, maxv);
                    assert(all.skip(0) =~= all);
                }
                match self.process_state(state) {
                    Err(e) => {
                        self.buffer.clear();
                        proof {
                            assert(self.buffer@ =~= Seq::<u8>::empty());
                        }
                        return Err(e);
                    },
                    Ok(StateResult::Incomplete(st2)) => {
                        self.state = Some(st2);
                        let r = Vec::new();
                        proof {
                            assert(views_of(r@) =~= Seq::<RespVal>::empty());
                        }
                        return Ok(r);
                    },
                    Ok(StateResult::Done(item, end)) => {
                        proof {
                            lemma_parse_value_consumes(all, maxv);
                        }
                        let rest = self.buffer.split_off(end);
                        self.buffer = rest;
                        proof {
                            assert(self.buffer@ =~= tail_from(all, end as int));
                        }
                        items.push(item);
                        proof {
                            crate::resp::lemma_views_of(items@);
                            assert(views_of(items@) =~= seq![view_of(item)]);
                        }
                    },
                }
            },
        }
        // Invariant: draining `all` yields the items collected so far
        // followed by whatever draining the current buffer yields.
        #[verifier::loop_isolation(false)]
        loop
            invariant
                self.state is None,
                self.config == old(self).config,
                all.len() <= old(self).config.max_buffer_size,
                match spec_drain(self.buffer@, maxv) {
                    DrainStep::Vals { vs, rest } => spec_drain(all, maxv) == (DrainStep::Vals {
                        vs: views_of(items@) + vs,
                        rest,
                    }),
                    DrainStep::Broken(e) => spec_drain(all, maxv) == DrainStep::Broken(e),
                },
            decreases self.buffer@.len(),
        {
            let ghost cur = self.buffer@;
            match self.get_next() {
                Err(e) => {
                    self.buffer.clear();
                    proof {
                        assert(self.buffer@ =~= Seq::<u8>::empty());
                    }
                    return Err(e);
                },
                Ok(Option::None) => {
                    return Ok(items);
                },
                Ok(Option::Some(item)) => {
                    proof {
                        lemma_parse_value_consumes(cur, maxv);
                    }
                    let ghost prev = items@;
                    items.push(item);
                    proof {
                        crate::resp::lemma_views_of(items@);
                        crate::resp::lemma_views_of(prev);
                        assert forall|k: int| 0 <= k < items@.len() implies views_of(items@)[k]
                            == (views_of(prev) + seq![view_of(item)])[k] by {
                            if k < prev.len() {
                                assert(items@[k] == prev[k]);
                            } else {
                                assert(items@[k] == item);
                            }
                        }
                        assert(views_of(items@) =~= views_of(prev) + seq![view_of(item)]);
                        if let DrainStep::Vals { vs, rest } = spec_drain(self.buffer@, maxv) {
                            assert((views_of(prev) + seq![view_of(item)]) + vs =~= views_of(prev)
                                + (seq![view_of(item)] + vs));
                        }
                    }
                },
            }
        }
    }
}

impl Default for RespParser {
    /// A parser with the default limits.
    fn default() -> (r: RespParser)
        ensures
            r.wf(),
            r@ == Seq::<u8>::empty(),
            r.spec_config().max_resp_size == crate::config::DEFAULT_MAX,
            r.spec_config().max_buffer_size == crate::config::DEFAULT_MAX,
    {
        RespParser::new(RespConfig::default())
    }
}

} // verus!
