//! Parsing of HTTP `Cookie` header values into name/value pairs that borrow
//! from the header text.
//!
//! [`Cookie::parse`] runs the tokenizer of [`cookie_lexer`] over the input,
//! recognizes the cookie-string grammar of [`cookie::cookie_grammar`] in its
//! tokens, and resolves the spans of every cookie-pair against the input.
//! What a cookie string is, and what its pairs are, is stated over the bytes
//! of the input; [`cookie::laws`] and [`cookie::whitespace`] hold what
//! follows from that for every input.

pub mod cookie;
pub mod cookie_lexer;
pub mod linked_list;

pub use cookie::{Cookie, Error};
