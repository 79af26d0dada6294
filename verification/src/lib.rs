//! An incremental parser and encoder for the RESP wire format (the
//! request/response serialization spoken by Redis-compatible servers).
//!
//! The parser accepts arbitrary fragmentations of a byte stream: bytes are
//! staged in an internal buffer, complete values are returned as soon as they
//! are available, and partial frames are remembered across calls, including
//! inside nested arrays.  Every parsing and encoding routine is specified
//! against a mathematical model of the wire format and verified.

pub mod buffer;
pub mod config;
pub mod decode;
pub mod errors;
pub mod laws;
pub mod model;
pub mod parser;
pub mod resp;

pub use config::RespConfig;
pub use errors::ParserError;
pub use parser::RespParser;
pub use resp::RespType;
