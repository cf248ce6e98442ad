use vstd::prelude::*;

verus! {

/// Why the digits of a number could not be read as an `i64`
/// (the kinds that `i64::from_str` distinguishes).
#[derive(Debug, Clone, Copy, PartialEq, Eq, Structural)]
pub enum IntErrorKind {
    /// The text was empty.
    Empty,
    /// A byte that is not a digit, or a lone sign.
    InvalidDigit,
    /// The value is larger than `i64::MAX`.
    PosOverflow,
    /// The value is smaller than `i64::MIN`.
    NegOverflow,
}

/// Why the text of a number could not be read as a float literal
/// (the kinds that `f64::from_str` distinguishes).
#[derive(Debug, Clone, Copy, PartialEq, Eq, Structural)]
pub enum FloatErrorKind {
    /// The text was empty.
    Empty,
    /// The text is not a float literal.
    Invalid,
}

/// Where a byte sequence stops being valid UTF-8, as `std::str::Utf8Error`
/// reports it.
#[derive(Debug, Clone, Copy, PartialEq, Eq, Structural)]
pub struct Utf8Error {
    /// The length of the longest prefix that is valid UTF-8.
    pub valid_up_to: usize,
    /// `None` when the input ended inside a character, otherwise the length
    /// of the invalid sequence that starts at `valid_up_to`.
    pub error_len: Option<usize>,
}

/// An error returned by [`parse`](crate::parse) when the input is not
/// valid JSON.
#[derive(Debug, Clone, Copy, PartialEq, Eq, Structural)]
pub enum ParseError {
    /// The input ended while a value, string, or structure was still open.
    UnexpectedEof,
    /// A byte was found where it cannot start (or end) a JSON value, for
    /// example a stray `]` or a character that begins no known value.
    UnexpectedByte(u8),
    /// A backslash in a string was followed by a byte that is not a valid
    /// JSON escape character.
    InvalidEscape(u8),
    /// A `\u` escape was malformed: bad hex digits, an invalid code point, or
    /// a broken or lone surrogate.
    InvalidUnicode,
    /// The digits of a number could not be parsed as an `i64`.
    InvalidInt(IntErrorKind),
    /// The digits of a number could not be parsed as a float.
    InvalidFloat(FloatErrorKind),
    /// Collected bytes were not valid UTF-8.
    InvalidUtf8(Utf8Error),
}

} // verus!
