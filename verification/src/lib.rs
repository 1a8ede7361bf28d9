//! A JSON reader that keeps every leaf as text.
//!
//! Numbers stay the exact characters that were read and strings are
//! unescaped, so that a later layer can decide how to bind them. The input
//! is any source of bytes that may fail; it is read once, with one byte of
//! lookahead, and every failure carries the line and column of the byte that
//! was looked at last.
//!
//! What the reader does is defined on [`cursor::Cursor`], a reader as a
//! mathematical value: each method of [`Parser`] has a function of the same
//! name there, and its contract says that it returns what that function
//! gives and leaves the reader where that function leaves it.
//!
//! - [`cursor`]: the model of the reader, of its position and of its steps
//! - [`parser`]: the reader, the lookahead and the whitespace and keyword steps
//! - [`number`]: the number lexer
//! - [`strings`]: the string lexer
//! - [`utf16`]: code units in hexadecimal and their decoding
//! - [`value`]: the value parser
//! - [`json`]: the tree
//! - [`error`]: positioned errors and their messages

pub mod bytes;
pub mod cursor;
pub mod error;
pub mod json;
pub mod number;
pub mod parser;
pub mod strings;
pub mod utf16;
pub mod value;

pub use error::{Error, ErrorType};
pub use json::{Json, JsonInner};
pub use parser::Parser;
