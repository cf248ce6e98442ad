use crate::errors::ParseError;
use crate::numbers::{check_float, parse_i64, spec_float_check, spec_i64_from_str};
use crate::stream::ByteStream;
use crate::text::{error_len_in_range, push_utf8, spec_utf8_error, string_from_utf8};
use vstd::prelude::*;
use vstd::utf8::{decode_utf8, encode_scalar, encode_utf8, is_scalar, valid_utf8};

verus! {

pub const BEGIN_ARRAY: u8 = 0x5b;  // '['
pub const BEGIN_OBJECT: u8 = 0x7b;  // '{'
pub const END_ARRAY: u8 = 0x5d;  // ']'
pub const END_OBJECT: u8 = 0x7d;  // '}'
pub const NAME_SEPARATOR: u8 = 0x3a;  // ':'
pub const VALUE_SEPARATOR: u8 = 0x2c;  // ','
pub const DOUBLE_QUOTE: u8 = 0x22;  // '"'
pub const BACKSLASH: u8 = 0x5c;  // '\\'
pub const LETTER_U: u8 = 0x75;  // 'u'
pub const BOOLEAN_TRUE: u8 = 0x74;  // 't'
pub const BOOLEAN_FALSE: u8 = 0x66;  // 'f'
pub const NULL: u8 = 0x6e;  // 'n'
pub const ZERO: u8 = 0x30;  // '0'
pub const NINE: u8 = 0x39;  // '9'
pub const MINUS: u8 = 0x2d;  // '-'
pub const PLUS: u8 = 0x2b;  // '+'
pub const EXPONENT: u8 = 0x65;  // 'e'
pub const EXPONENT_UPPER: u8 = 0x45;  // 'E'
pub const DECIMAL_POINT: u8 = 0x2e;  // '.'
pub const SPACE: u8 = 0x20;
pub const TAB: u8 = 0x09;
pub const LINE_FEED: u8 = 0x0a;
pub const CARRIAGE_RETURN: u8 = 0x0d;

/// What a byte starts (or ends) in JSON text.
#[derive(Debug, Clone, Copy, PartialEq, Eq, Structural)]
pub enum ValueKind {
    BeginArray,
    BeginObject,
    EndArray,
    EndObject,
    NameSeparator,
    ValueSeparator,
    Null,
    Bool,
    Number,
    String,
}

/// JSON whitespace: space, tab, line feed and carriage return.
pub open spec fn spec_is_whitespace(b: u8) -> bool {
    b == SPACE || b == TAB || b == LINE_FEED || b == CARRIAGE_RETURN
}

pub open spec fn spec_is_digit(b: u8) -> bool {
    ZERO <= b <= NINE
}

/// The bytes that may occur in the text of a number.
pub open spec fn spec_is_number_char(b: u8) -> bool {
    spec_is_digit(b) || b == MINUS || b == PLUS || b == DECIMAL_POINT || b == EXPONENT || b
        == EXPONENT_UPPER
}

/// A number is a float when its text holds a decimal point or an exponent.
pub open spec fn spec_is_float_number(bytes: Seq<u8>) -> bool {
    exists|i: int|
        0 <= i < bytes.len() && (#[trigger] bytes[i] == DECIMAL_POINT || bytes[i] == EXPONENT
            || bytes[i] == EXPONENT_UPPER)
}

/// The kind of value that a byte starts, or `UnexpectedByte` for a byte that
/// starts none.
pub open spec fn spec_value_kind(b: u8) -> Result<ValueKind, ParseError> {
    if b == BEGIN_ARRAY {
        Ok(ValueKind::BeginArray)
    } else if b == BEGIN_OBJECT {
        Ok(ValueKind::BeginObject)
    } else if b == END_ARRAY {
        Ok(ValueKind::EndArray)
    } else if b == END_OBJECT {
        Ok(ValueKind::EndObject)
    } else if b == NAME_SEPARATOR {
        Ok(ValueKind::NameSeparator)
    } else if b == VALUE_SEPARATOR {
        Ok(ValueKind::ValueSeparator)
    } else if b == DOUBLE_QUOTE {
        Ok(ValueKind::String)
    } else if b == BOOLEAN_FALSE || b == BOOLEAN_TRUE {
        Ok(ValueKind::Bool)
    } else if b == NULL {
        Ok(ValueKind::Null)
    } else if spec_is_digit(b) || b == MINUS {
        Ok(ValueKind::Number)
    } else {
        Err(ParseError::UnexpectedByte(b))
    }
}

/// Whether `byte` is JSON whitespace.
pub fn is_whitespace(byte: u8) -> (r: bool)
    ensures
        r == spec_is_whitespace(byte),
{
    byte == SPACE || byte == TAB || byte == LINE_FEED || byte == CARRIAGE_RETURN
}

/// Whether `byte` may occur in the text of a number.
pub fn is_number_char(byte: u8) -> (r: bool)
    ensures
        r == spec_is_number_char(byte),
{
    (ZERO <= byte && byte <= NINE) || byte == MINUS || byte == PLUS || byte == DECIMAL_POINT
        || byte == EXPONENT || byte == EXPONENT_UPPER
}

/// Whether the text of a number holds a decimal point or an exponent.
pub fn is_float_number(bytes: &[u8]) -> (r: bool)
    ensures
        r == spec_is_float_number(bytes@),
{
    let mut i: usize = 0;
    while i < bytes.len()
        invariant
            i <= bytes@.len(),
            forall|j: int|
                0 <= j < i ==> !(#[trigger] bytes@[j] == DECIMAL_POINT || bytes@[j] == EXPONENT
                    || bytes@[j] == EXPONENT_UPPER),
        decreases bytes.len() - i,
    {
        let b = bytes[i];
        if b == DECIMAL_POINT || b == EXPONENT || b == EXPONENT_UPPER {
            return true;
        }
        i = i + 1;
    }
    false
}

/// Whether `byte` is a double quote.
pub fn is_double_quote(byte: u8) -> (r: bool)
    ensures
        r == (byte == DOUBLE_QUOTE),
{
    byte == DOUBLE_QUOTE
}

/// The boolean that a keyword starting with `byte` stands for: `true` for
/// `t`, `false` otherwise.
pub fn convert_to_bool(byte: u8) -> (r: bool)
    ensures
        r == (byte == BOOLEAN_TRUE),
{
    if byte == BOOLEAN_TRUE {
        return true;
    }
    false
}

/// The kind of value that `byte` starts.
pub fn parse_value_kind(byte: u8) -> (r: Result<ValueKind, ParseError>)
    ensures
        r == spec_value_kind(byte),
{
    if byte == BEGIN_ARRAY {
        Ok(ValueKind::BeginArray)
    } else if byte == BEGIN_OBJECT {
        Ok(ValueKind::BeginObject)
    } else if byte == END_ARRAY {
        Ok(ValueKind::EndArray)
    } else if byte == END_OBJECT {
        Ok(ValueKind::EndObject)
    } else if byte == NAME_SEPARATOR {
        Ok(ValueKind::NameSeparator)
    } else if byte == VALUE_SEPARATOR {
        Ok(ValueKind::ValueSeparator)
    } else if byte == DOUBLE_QUOTE {
        Ok(ValueKind::String)
    } else if byte == BOOLEAN_FALSE || byte == BOOLEAN_TRUE {
        Ok(ValueKind::Bool)
    } else if byte == NULL {
        Ok(ValueKind::Null)
    } else if (ZERO <= byte && byte <= NINE) || byte == MINUS {
        Ok(ValueKind::Number)
    } else {
        Err(ParseError::UnexpectedByte(byte))
    }
}

/// The longest prefix of `s` whose bytes all satisfy `pred`.
pub open spec fn take_while(s: Seq<u8>, pred: spec_fn(u8) -> bool) -> Seq<u8>
    decreases s.len(),
{
    if s.len() > 0 && pred(s[0]) {
        seq![s[0]] + take_while(s.drop_first(), pred)
    } else {
        Seq::empty()
    }
}

/// A prefix of `s` that ends where `pred` first fails is `take_while(s, pred)`.
pub proof fn lemma_take_while_unique(s: Seq<u8>, taken: Seq<u8>, rest: Seq<u8>, pred: spec_fn(u8) -> bool)
    requires
        s == taken + rest,
        forall|i: int| 0 <= i < taken.len() ==> pred(#[trigger] taken[i]),
        rest.len() > 0 ==> !pred(rest[0]),
    ensures
        taken == take_while(s, pred),
    decreases taken.len(),
{
    if taken.len() == 0 {
        assert(s == rest);
    } else {
        assert(pred(taken[0]));
        assert(s[0] == taken[0]);
        let t2 = taken.drop_first();
        assert forall|i: int| 0 <= i < t2.len() implies pred(#[trigger] t2[i]) by {
            assert(t2[i] == taken[i + 1]);
        }
        assert(s.drop_first() == t2 + rest);
        lemma_take_while_unique(s.drop_first(), t2, rest, pred);
        assert(taken == seq![taken[0]] + t2);
    }
}

/// Consumes bytes while `condition` holds of the next one and returns them;
/// the first byte for which it fails stays in the stream.
pub fn read_while<F>(iter_bytes: &mut ByteStream, condition: F) -> (collected: Vec<u8>)
    where
        F: Fn(u8) -> bool,
    requires
        forall|b: u8| condition.requires((b,)),
    ensures
        old(iter_bytes)@ == collected@ + final(iter_bytes)@,
        forall|i: int|
            0 <= i < collected@.len() ==> condition.ensures((#[trigger] collected@[i],), true),
        final(iter_bytes)@.len() > 0 ==> condition.ensures((final(iter_bytes)@[0],), false),
{
    let mut bytes_collection: Vec<u8> = Vec::new();
    loop
        invariant
            forall|b: u8| condition.requires((b,)),
            old(iter_bytes)@ == bytes_collection@ + iter_bytes@,
            forall|i: int|
                0 <= i < bytes_collection@.len() ==> condition.ensures(
                    (#[trigger] bytes_collection@[i],),
                    true,
                ),
        ensures
            old(iter_bytes)@ == bytes_collection@ + iter_bytes@,
            forall|i: int|
                0 <= i < bytes_collection@.len() ==> condition.ensures(
                    (#[trigger] bytes_collection@[i],),
                    true,
                ),
            iter_bytes@.len() > 0 ==> condition.ensures((iter_bytes@[0],), false),
        decreases iter_bytes@.len(),
    {
        match iter_bytes.peek() {
            Some(b) => {
                if condition(b) {
                    let ghost before = iter_bytes@;
                    let taken = iter_bytes.next();
                    match taken {
                        Some(t) => {
                            bytes_collection.push(t);
                        },
                        None => {},
                    }
                    assert(bytes_collection@ + iter_bytes@ =~= old(iter_bytes)@) by {
                        assert(before == seq![b] + iter_bytes@);
                    }
                } else {
                    break ;
                }
            },
            None => {
                break ;
            },
        }
    }
    bytes_collection
}

/// The rest of `s` after the bytes of `expected` have been checked one by
/// one: the first byte that differs is reported, and `UnexpectedEof` if the
/// input ends first.
pub open spec fn spec_expect_rest(s: Seq<u8>, expected: Seq<u8>) -> Result<Seq<u8>, ParseError>
    decreases expected.len(),
{
    if expected.len() == 0 {
        Ok(s)
    } else if s.len() == 0 {
        Err(ParseError::UnexpectedEof)
    } else if s[0] != expected[0] {
        Err(ParseError::UnexpectedByte(s[0]))
    } else {
        spec_expect_rest(s.drop_first(), expected.drop_first())
    }
}

/// What is left of `s` once `expected` has been checked against it: the
/// input after the keyword, after the first byte that differs, or nothing
/// when the input ends first.
pub open spec fn spec_expect_rest_left(s: Seq<u8>, expected: Seq<u8>) -> Seq<u8>
    decreases expected.len(),
{
    if expected.len() == 0 || s.len() == 0 {
        s
    } else if s[0] != expected[0] {
        s.drop_first()
    } else {
        spec_expect_rest_left(s.drop_first(), expected.drop_first())
    }
}

/// Consumes `rest` and verifies each byte matches (for the tails of
/// true/false/null).
pub fn expect_rest(iter_bytes: &mut ByteStream, rest: &[u8]) -> (r: Result<(), ParseError>)
    ensures
        match spec_expect_rest(old(iter_bytes)@, rest@) {
            Ok(t) => r == Ok::<(), ParseError>(()) && final(iter_bytes)@ == t,
            Err(e) => r == Err::<(), ParseError>(e),
        },
        final(iter_bytes)@ == spec_expect_rest_left(old(iter_bytes)@, rest@),
        final(iter_bytes)@.len() <= old(iter_bytes)@.len(),
{
    let mut i: usize = 0;
    assert(rest@.skip(0) =~= rest@);
    while i < rest.len()
        invariant
            i <= rest@.len(),
            spec_expect_rest(old(iter_bytes)@, rest@) == spec_expect_rest(
                iter_bytes@,
                rest@.skip(i as int),
            ),
            spec_expect_rest_left(old(iter_bytes)@, rest@) == spec_expect_rest_left(
                iter_bytes@,
                rest@.skip(i as int),
            ),
            iter_bytes@.len() <= old(iter_bytes)@.len(),
        decreases rest.len() - i,
    {
        let expected = rest[i];
        let ghost s = iter_bytes@;
        assert(rest@.skip(i as int).drop_first() =~= rest@.skip(i + 1));
        match iter_bytes.next() {
            Some(b) => {
                if b != expected {
                    return Err(ParseError::UnexpectedByte(b));
                }
            },
            None => {
                return Err(ParseError::UnexpectedEof);
            },
        }
        i = i + 1;
    }
    assert(rest@.skip(i as int).len() == 0);
    Ok(())
}


/// The characters that `bytes` hold when they are valid UTF-8, and the
/// error that `String::from_utf8` reports otherwise.
pub open spec fn spec_bytes_to_string(bytes: Seq<u8>) -> Result<Seq<char>, ParseError> {
    if valid_utf8(bytes) {
        Ok(decode_utf8(bytes))
    } else {
        Err(ParseError::InvalidUtf8(spec_utf8_error(bytes)))
    }
}

/// Convert collected bytes into a String, mapping UTF-8 failure to a
/// ParseError.
pub fn bytes_to_string(bytes: Vec<u8>) -> (r: Result<String, ParseError>)
    ensures
        match spec_bytes_to_string(bytes@) {
            Ok(chars) => r matches Ok(s) && s@ == chars,
            Err(e) => r == Err::<String, ParseError>(e),
        },
        r matches Err(ParseError::InvalidUtf8(e)) ==> error_len_in_range(bytes@, e),
{
    match string_from_utf8(bytes) {
        Ok(s) => {
            proof {
                vstd::utf8::encode_utf8_decode_utf8(s@);
            }
            Ok(s)
        },
        Err(e) => Err(ParseError::InvalidUtf8(e)),
    }
}

/// The outcome of reading the text of an integer: the bytes must be UTF-8,
/// then `i64::from_str` must accept them.
pub open spec fn spec_convert_to_int(bytes: Seq<u8>) -> Result<i64, ParseError> {
    if !valid_utf8(bytes) {
        Err(ParseError::InvalidUtf8(spec_utf8_error(bytes)))
    } else {
        match spec_i64_from_str(bytes) {
            Ok(v) => Ok(v),
            Err(k) => Err(ParseError::InvalidInt(k)),
        }
    }
}

/// Reads the text of an integer as an `i64`.
pub fn convert_to_int(bytes: Vec<u8>) -> (r: Result<i64, ParseError>)
    ensures
        r == spec_convert_to_int(bytes@),
        r matches Err(ParseError::InvalidUtf8(e)) ==> error_len_in_range(bytes@, e),
{
    let value = parse_i64(bytes.as_slice());
    match string_from_utf8(bytes) {
        Err(e) => Err(ParseError::InvalidUtf8(e)),
        Ok(_) => match value {
            Ok(v) => Ok(v),
            Err(k) => Err(ParseError::InvalidInt(k)),
        },
    }
}

/// The outcome of reading the text of a float: the bytes must be UTF-8,
/// then `f64::from_str` must accept them; the result is the text itself.
pub open spec fn spec_convert_to_float(bytes: Seq<u8>) -> Result<Seq<char>, ParseError> {
    if !valid_utf8(bytes) {
        Err(ParseError::InvalidUtf8(spec_utf8_error(bytes)))
    } else {
        match spec_float_check(bytes) {
            Ok(_) => Ok(decode_utf8(bytes)),
            Err(k) => Err(ParseError::InvalidFloat(k)),
        }
    }
}

/// Checks that `bytes` are the text of a float literal that `f64::from_str`
/// accepts and returns that text; the conversion to `f64` itself is left to
/// the caller, since this library holds no floating-point values.
pub fn convert_to_float(bytes: Vec<u8>) -> (r: Result<String, ParseError>)
    ensures
        match spec_convert_to_float(bytes@) {
            Ok(chars) => r matches Ok(s) && s@ == chars,
            Err(e) => r == Err::<String, ParseError>(e),
        },
        r matches Err(ParseError::InvalidUtf8(e)) ==> error_len_in_range(bytes@, e),
{
    let check = check_float(bytes.as_slice());
    match string_from_utf8(bytes) {
        Err(e) => Err(ParseError::InvalidUtf8(e)),
        Ok(s) => {
            proof {
                vstd::utf8::encode_utf8_decode_utf8(s@);
            }
            match check {
                Ok(()) => Ok(s),
                Err(k) => Err(ParseError::InvalidFloat(k)),
            }
        },
    }
}

/// The value of a hexadecimal digit, in either case.
pub open spec fn spec_hex_digit(b: u8) -> Option<u32> {
    if ZERO <= b <= NINE {
        Some((b - ZERO) as u32)
    } else if 0x61 <= b <= 0x66 {
        Some((b - 0x61 + 10) as u32)
    } else if 0x41 <= b <= 0x46 {
        Some((b - 0x41 + 10) as u32)
    } else {
        None
    }
}

/// The code unit that four hex digits stand for, or `None` when any of the
/// four bytes is not a hex digit.
pub open spec fn spec_hex_value(h: Seq<u8>) -> Option<u32> {
    match (spec_hex_digit(h[0]), spec_hex_digit(h[1]), spec_hex_digit(h[2]), spec_hex_digit(h[3])) {
        (Some(a), Some(b), Some(c), Some(d)) => Some((a * 4096 + b * 256 + c * 16 + d) as u32),
        _ => None,
    }
}

/// The code unit of the four hex digits at the start of `s`, and the rest.
pub open spec fn spec_read_hex4(s: Seq<u8>) -> Result<(u32, Seq<u8>), ParseError> {
    if s.len() < 4 {
        Err(ParseError::UnexpectedEof)
    } else {
        match spec_hex_value(s.take(4)) {
            Some(v) => Ok((v, s.skip(4))),
            None => Err(ParseError::InvalidUnicode),
        }
    }
}

fn hex_digit(b: u8) -> (r: Option<u32>)
    ensures
        r == spec_hex_digit(b),
{
    if ZERO <= b && b <= NINE {
        Some((b - ZERO) as u32)
    } else if 0x61 <= b && b <= 0x66 {
        Some((b - 0x61 + 10) as u32)
    } else if 0x41 <= b && b <= 0x46 {
        Some((b - 0x41 + 10) as u32)
    } else {
        None
    }
}

/// Read exactly 4 hex digits (the XXXX of a \uXXXX escape) into a code unit.
/// Assumes the leading `\u` has already been consumed.
pub fn read_hex4(iter_bytes: &mut ByteStream) -> (r: Result<u32, ParseError>)
    ensures
        match spec_read_hex4(old(iter_bytes)@) {
            Ok((v, rest)) => r == Ok::<u32, ParseError>(v) && final(iter_bytes)@ == rest,
            Err(e) => r == Err::<u32, ParseError>(e),
        },
        final(iter_bytes)@ == spec_hex4_left(old(iter_bytes)@),
{
    let ghost s = iter_bytes@;
    let h0 = match iter_bytes.next() {
        Some(b) => b,
        None => {
            return Err(ParseError::UnexpectedEof);
        },
    };
    let h1 = match iter_bytes.next() {
        Some(b) => b,
        None => {
            return Err(ParseError::UnexpectedEof);
        },
    };
    let h2 = match iter_bytes.next() {
        Some(b) => b,
        None => {
            return Err(ParseError::UnexpectedEof);
        },
    };
    let h3 = match iter_bytes.next() {
        Some(b) => b,
        None => {
            return Err(ParseError::UnexpectedEof);
        },
    };
    assert(iter_bytes@ =~= s.skip(4));
    assert(s.take(4) =~= seq![h0, h1, h2, h3]);
    match (hex_digit(h0), hex_digit(h1), hex_digit(h2), hex_digit(h3)) {
        (Some(a), Some(b), Some(c), Some(d)) => Ok(a * 4096 + b * 256 + c * 16 + d),
        _ => Err(ParseError::InvalidUnicode),
    }
}


/// The byte that a one-character escape `\e` stands for.
pub open spec fn spec_simple_escape(e: u8) -> Option<u8> {
    if e == BACKSLASH {
        Some(BACKSLASH)
    } else if e == DOUBLE_QUOTE {
        Some(DOUBLE_QUOTE)
    } else if e == 0x2f {
        Some(0x2fu8)
    } else if e == 0x62 {
        Some(0x08u8)
    } else if e == 0x66 {
        Some(0x0cu8)
    } else if e == 0x6e {
        Some(LINE_FEED)
    } else if e == 0x72 {
        Some(CARRIAGE_RETURN)
    } else if e == 0x74 {
        Some(TAB)
    } else {
        None
    }
}

pub open spec fn is_high_surrogate(v: u32) -> bool {
    0xD800 <= v <= 0xDBFF
}

pub open spec fn is_low_surrogate(v: u32) -> bool {
    0xDC00 <= v <= 0xDFFF
}

/// The code point that a surrogate pair stands for.
pub open spec fn surrogate_pair_value(high: u32, low: u32) -> u32 {
    (0x10000 + (high - 0xD800) * 0x400 + (low - 0xDC00)) as u32
}

/// The UTF-8 bytes of a code point, or `InvalidUnicode` when it is no
/// Unicode scalar value (what `char::from_u32` refuses).
pub open spec fn spec_encode_code_point(code: u32, rest: Seq<u8>) -> Result<
    (Seq<u8>, Seq<u8>),
    ParseError,
> {
    if is_scalar(code) {
        Ok((encode_scalar(code), rest))
    } else {
        Err(ParseError::InvalidUnicode)
    }
}

/// The bytes that a `\u` escape stands for, given the input just after the
/// `\u`, and the rest of the input: four hex digits, and after a high
/// surrogate a second `\u` escape with a low surrogate.
pub open spec fn spec_unicode_escape(u: Seq<u8>) -> Result<(Seq<u8>, Seq<u8>), ParseError> {
    match spec_read_hex4(u) {
        Err(e) => Err(e),
        Ok((first, u1)) => if is_high_surrogate(first) {
            if u1.len() < 2 {
                Err(ParseError::UnexpectedEof)
            } else if u1[0] != BACKSLASH || u1[1] != LETTER_U {
                Err(ParseError::InvalidUnicode)
            } else {
                match spec_read_hex4(u1.skip(2)) {
                    Err(e) => Err(e),
                    Ok((second, u2)) => if !is_low_surrogate(second) {
                        Err(ParseError::InvalidUnicode)
                    } else {
                        spec_encode_code_point(surrogate_pair_value(first, second), u2)
                    },
                }
            }
        } else if is_low_surrogate(first) {
            Err(ParseError::InvalidUnicode)
        } else {
            spec_encode_code_point(first, u1)
        },
    }
}

/// `r` with `prefix` put before the bytes it holds.
pub open spec fn prepend(prefix: Seq<u8>, r: Result<(Seq<u8>, Seq<u8>), ParseError>) -> Result<
    (Seq<u8>, Seq<u8>),
    ParseError,
> {
    match r {
        Ok((v, t)) => Ok((prefix + v, t)),
        Err(e) => Err(e),
    }
}

/// The body of a string up to its terminator, with escapes decoded, and the
/// input after the terminator. `stop` tells which unescaped byte ends the
/// body; a backslash always starts an escape.
pub open spec fn spec_read_until(s: Seq<u8>, stop: spec_fn(u8) -> bool) -> Result<
    (Seq<u8>, Seq<u8>),
    ParseError,
>
    decreases s.len(),
{
    if s.len() == 0 {
        Err(ParseError::UnexpectedEof)
    } else if s[0] == BACKSLASH {
        let t = s.drop_first();
        if t.len() == 0 {
            Err(ParseError::UnexpectedEof)
        } else {
            let e = t[0];
            let u = t.drop_first();
            if spec_simple_escape(e) is Some {
                prepend(seq![spec_simple_escape(e)->0], spec_read_until(u, stop))
            } else if e == LETTER_U {
                match spec_unicode_escape(u) {
                    Err(err) => Err(err),
                    Ok((bytes, u2)) => if u2.len() < u.len() {
                        prepend(bytes, spec_read_until(u2, stop))
                    } else {
                        Err(ParseError::UnexpectedEof)
                    },
                }
            } else {
                Err(ParseError::InvalidEscape(e))
            }
        }
    } else if stop(s[0]) {
        Ok((Seq::empty(), s.drop_first()))
    } else {
        prepend(seq![s[0]], spec_read_until(s.drop_first(), stop))
    }
}

/// What is left of `s` after four hex digits are read from it, whether
/// they are valid or not: nothing when fewer than four bytes are there.
pub open spec fn spec_hex4_left(s: Seq<u8>) -> Seq<u8> {
    if s.len() < 4 {
        Seq::empty()
    } else {
        s.skip(4)
    }
}

/// What is left of the input `u` after a `\u` escape is read from it,
/// whether it is valid or not.
pub open spec fn spec_unicode_escape_left(u: Seq<u8>) -> Seq<u8> {
    match spec_read_hex4(u) {
        Err(_) => spec_hex4_left(u),
        Ok((first, u1)) => if is_high_surrogate(first) {
            if u1.len() < 2 {
                Seq::empty()
            } else if u1[0] != BACKSLASH || u1[1] != LETTER_U {
                u1.skip(2)
            } else {
                spec_hex4_left(u1.skip(2))
            }
        } else {
            u1
        },
    }
}

/// What is left of `s` after the body of a string is read from it, whether
/// it is valid or not: the input after the terminator, or after the byte
/// where reading stopped.
pub open spec fn spec_read_until_left(s: Seq<u8>, stop: spec_fn(u8) -> bool) -> Seq<u8>
    decreases s.len(),
{
    if s.len() == 0 {
        s
    } else if s[0] == BACKSLASH {
        let t = s.drop_first();
        if t.len() == 0 {
            t
        } else {
            let e = t[0];
            let u = t.drop_first();
            if spec_simple_escape(e) is Some {
                spec_read_until_left(u, stop)
            } else if e == LETTER_U {
                match spec_unicode_escape(u) {
                    Err(_) => spec_unicode_escape_left(u),
                    Ok((_, u2)) => if u2.len() < u.len() {
                        spec_read_until_left(u2, stop)
                    } else {
                        u2
                    },
                }
            } else {
                u
            }
        }
    } else if stop(s[0]) {
        s.drop_first()
    } else {
        spec_read_until_left(s.drop_first(), stop)
    }
}

/// `stop` tells exactly what `condition` answers for each byte.
pub open spec fn describes<F: Fn(u8) -> bool>(condition: F, stop: spec_fn(u8) -> bool) -> bool {
    forall|b: u8, r: bool| condition.ensures((b,), r) ==> r == stop(b)
}

/// The `\u` escape that follows in the stream: its UTF-8 bytes are appended
/// to `out`.
fn read_unicode_escape(iter_bytes: &mut ByteStream, out: &mut Vec<u8>) -> (r: Result<(), ParseError>)
    ensures
        match spec_unicode_escape(old(iter_bytes)@) {
            Ok((bytes, rest)) => r == Ok::<(), ParseError>(()) && final(iter_bytes)@ == rest
                && final(out)@ == old(out)@ + bytes,
            Err(e) => r == Err::<(), ParseError>(e),
        },
        final(iter_bytes)@ == spec_unicode_escape_left(old(iter_bytes)@),
        final(iter_bytes)@.len() <= old(iter_bytes)@.len(),
{
    let ghost s = iter_bytes@;
    let first = match read_hex4(iter_bytes) {
        Ok(v) => v,
        Err(e) => {
            return Err(e);
        },
    };
    let ghost u1 = iter_bytes@;
    let code: u32;
    if 0xD800 <= first && first <= 0xDBFF {
        let n1 = iter_bytes.next();
        let n2 = iter_bytes.next();
        match (n1, n2) {
            (Some(x), Some(y)) => {
                if x != BACKSLASH || y != LETTER_U {
                    return Err(ParseError::InvalidUnicode);
                }
            },
            _ => {
                return Err(ParseError::UnexpectedEof);
            },
        }
        assert(iter_bytes@ =~= u1.skip(2));
        let second = match read_hex4(iter_bytes) {
            Ok(v) => v,
            Err(e) => {
                return Err(e);
            },
        };
        if !(0xDC00 <= second && second <= 0xDFFF) {
            return Err(ParseError::InvalidUnicode);
        }
        code = 0x10000 + (first - 0xD800) * 0x400 + (second - 0xDC00);
    } else if 0xDC00 <= first && first <= 0xDFFF {
        return Err(ParseError::InvalidUnicode);
    } else {
        code = first;
    }
    if code > 0x10FFFF || (0xD800 <= code && code <= 0xDFFF) {
        return Err(ParseError::InvalidUnicode);
    }
    push_utf8(out, code);
    Ok(())
}

/// Reads the body of a string: bytes up to the first unescaped byte for
/// which `condition` holds (which is consumed and not returned), with the
/// escapes `\" \\ \/ \b \f \n \r \t` and `\uXXXX` (surrogate pairs
/// included) decoded to UTF-8.
pub fn read_until<F>(iter_bytes: &mut ByteStream, condition: F) -> (r: Result<
    Vec<u8>,
    ParseError,
>)
    where
        F: Fn(u8) -> bool,
    requires
        forall|b: u8| condition.requires((b,)),
    ensures
        forall|stop: spec_fn(u8) -> bool|
            #![trigger describes(condition, stop)]
            describes(condition, stop) ==> match spec_read_until(old(iter_bytes)@, stop) {
                Ok((v, rest)) => r matches Ok(c) && c@ == v && final(iter_bytes)@ == rest,
                Err(e) => r == Err::<Vec<u8>, ParseError>(e),
            },
        forall|stop: spec_fn(u8) -> bool|
            #![trigger describes(condition, stop)]
            describes(condition, stop) ==> final(iter_bytes)@ == spec_read_until_left(
                old(iter_bytes)@,
                stop,
            ),
        final(iter_bytes)@.len() <= old(iter_bytes)@.len(),
{
    let mut bytes_collection: Vec<u8> = Vec::new();
    loop
        invariant
            forall|b: u8| condition.requires((b,)),
            forall|stop: spec_fn(u8) -> bool|
                #![trigger describes(condition, stop)]
                describes(condition, stop) ==> spec_read_until(old(iter_bytes)@, stop) == prepend(
                    bytes_collection@,
                    spec_read_until(iter_bytes@, stop),
                ) && spec_read_until_left(old(iter_bytes)@, stop) == spec_read_until_left(
                    iter_bytes@,
                    stop,
                ),
            iter_bytes@.len() <= old(iter_bytes)@.len(),
        decreases iter_bytes@.len(),
    {
        let ghost s = iter_bytes@;
        let ghost before = bytes_collection@;
        match iter_bytes.next() {
            None => {
                return Err(ParseError::UnexpectedEof);
            },
            Some(b) => {
                if b == BACKSLASH {
                    let e = match iter_bytes.next() {
                        Some(x) => x,
                        None => {
                            return Err(ParseError::UnexpectedEof);
                        },
                    };
                    let ghost u = iter_bytes@;
                    if e == BACKSLASH {
                        bytes_collection.push(BACKSLASH);
                    } else if e == DOUBLE_QUOTE {
                        bytes_collection.push(DOUBLE_QUOTE);
                    } else if e == 0x2f {
                        bytes_collection.push(0x2f);
                    } else if e == 0x62 {
                        bytes_collection.push(0x08);
                    } else if e == 0x66 {
                        bytes_collection.push(0x0c);
                    } else if e == 0x6e {
                        bytes_collection.push(LINE_FEED);
                    } else if e == 0x72 {
                        bytes_collection.push(CARRIAGE_RETURN);
                    } else if e == 0x74 {
                        bytes_collection.push(TAB);
                    } else if e == LETTER_U {
                        match read_unicode_escape(iter_bytes, &mut bytes_collection) {
                            Ok(()) => {},
                            Err(err) => {
                                return Err(err);
                            },
                        }
                    } else {
                        return Err(ParseError::InvalidEscape(e));
                    }
                    assert forall|stop: spec_fn(u8) -> bool|
                        #![trigger describes(condition, stop)]
                        describes(condition, stop) implies spec_read_until(
                            old(iter_bytes)@,
                            stop,
                        ) == prepend(bytes_collection@, spec_read_until(iter_bytes@, stop)) by {
                        assert(s.drop_first().drop_first() == u);
                        let added = bytes_collection@.subrange(before.len() as int, bytes_collection@.len() as int);
                        assert(bytes_collection@ =~= before + added);
                        assert(s[0] == BACKSLASH && s.drop_first()[0] == e);
                        if spec_simple_escape(e) is Some {
                            assert(added =~= seq![spec_simple_escape(e)->0]);
                        } else {
                            assert(e == LETTER_U);
                            let esc = spec_unicode_escape(u);
                            assert(esc is Ok);
                            let (eb, er) = esc->Ok_0;
                            assert(bytes_collection@ == before + eb);
                            assert(added =~= eb);
                            assert(er == iter_bytes@);
                            assert(spec_unicode_escape(u) == Ok::<(Seq<u8>, Seq<u8>), ParseError>((added, iter_bytes@)));
                            assert(iter_bytes@.len() < u.len());
                        }
                        assert(spec_read_until(s, stop) == prepend(added, spec_read_until(iter_bytes@, stop)));
                        match spec_read_until(iter_bytes@, stop) {
                            Ok((v, t)) => {
                                assert(before + (added + v) =~= bytes_collection@ + v);
                            },
                            Err(_) => {},
                        }
                    }
                } else if condition(b) {
                    assert forall|stop: spec_fn(u8) -> bool|
                        #![trigger describes(condition, stop)]
                        describes(condition, stop) implies match spec_read_until(
                            old(iter_bytes)@,
                            stop,
                        ) {
                            Ok((v, rest)) => bytes_collection@ == v && iter_bytes@ == rest,
                            Err(e) => false,
                        } by {
                        assert(bytes_collection@ + Seq::<u8>::empty() =~= bytes_collection@);
                    }
                    return Ok(bytes_collection);
                } else {
                    bytes_collection.push(b);
                    assert forall|stop: spec_fn(u8) -> bool|
                        #![trigger describes(condition, stop)]
                        describes(condition, stop) implies spec_read_until(
                            old(iter_bytes)@,
                            stop,
                        ) == prepend(bytes_collection@, spec_read_until(iter_bytes@, stop)) by {
                        match spec_read_until(iter_bytes@, stop) {
                            Ok((v, t)) => {
                                assert(before + (seq![b] + v) =~= bytes_collection@ + v);
                            },
                            Err(_) => {},
                        }
                    }
                }
            },
        }
    }
}

} // verus!
