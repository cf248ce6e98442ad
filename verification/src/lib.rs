//! A small JSON parser.
//!
//! The entry point is [`parse`], which turns a string slice into a
//! [`JsonValue`] tree or a [`ParseError`]. What it returns for each input
//! is given by `spec_parse`, a specification of the reader over the input's
//! UTF-8 bytes, and the laws of the parser as a whole are proof functions
//! over that specification.
mod errors;
mod json_numbers;
mod json_value;
mod laws;
mod numbers;
mod parser;
mod roundtrip;
mod separators;
mod stream;
mod text_input;
mod text;
mod tokens;

pub use crate::errors::{FloatErrorKind, IntErrorKind, ParseError, Utf8Error};
pub use crate::json_value::{object_insert, JsonValue, SpecJson};
pub use crate::numbers::{check_float, is_float_literal, parse_i64};
pub use crate::parser::{parse, parse_nested};
pub use crate::stream::ByteStream;
pub use crate::tokens::{
    bytes_to_string, convert_to_bool, convert_to_float, convert_to_int, expect_rest,
    is_double_quote, is_float_number, is_number_char, is_whitespace, parse_value_kind, read_hex4,
    read_until, read_while, ValueKind,
};
