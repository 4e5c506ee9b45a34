//! A prefix-notation arithmetic interpreter with one definable single-parameter
//! function.
//!
//! The interpreter scans its input character by character and evaluates while it
//! parses. Every executable function is specified against a mathematical model of
//! the language over sequences of characters, and the laws of the language are
//! proved from that model.

pub mod arith;
pub mod chars;
pub mod cursor;
pub mod error;
pub mod interpreter;
pub mod laws;
pub mod lexer;
pub mod model;
pub mod number;
pub mod text;

pub use cursor::Cursor;
pub use error::ParseError;
pub use interpreter::{
    convert_to_numeric, eval, eval_string, evaluate, extract_next_char, fn_apply, fn_define,
};
