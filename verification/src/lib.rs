//! A JSON text processor: a lexer, a strict recursive-descent parser with
//! positioned errors, and a canonical formatter, each proved against a
//! mathematical model of what it computes.
//!
//! The way of a text through the library:
//!
//! - [`lexer::lex`] splits it into tokens, each with its line and column;
//! - [`parser::parse`] reads the tokens as one value, or stops at the
//!   first error and names the token at which it stands;
//! - [`formatter::format_json`] writes a value back, on one line or
//!   indented;
//! - [`diagnostic::get_message`] and [`pretty::report_parse_error`] turn
//!   an error into words, and show the line in which it was found.
//!
//! Numbers are kept as they are written, never as floating-point values.
//!
//! Beside the functions stand the facts proved of them: a text that parses
//! is read back unchanged after it was written at any indent width
//! ([`roundtrip`]); parsed objects hold their members in the order of
//! their keys ([`wellformed`]); every token stands in the text at the
//! place it carries ([`places`]); every error carries what its kind asks
//! for ([`errors`]).

pub mod args;
pub mod diagnostic;
pub mod errors;
pub mod formatter;
pub mod json;
pub mod lexer;
pub mod parser;
pub mod places;
pub mod pretty;
pub mod process;
pub mod roundtrip;
pub mod text;
pub mod wellformed;
