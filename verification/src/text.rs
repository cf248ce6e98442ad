use crate::errors::Utf8Error;
use vstd::prelude::*;
use vstd::utf8::*;

verus! {

/// The `error_len` that `std` reports for bytes that are not valid UTF-8:
/// the length of the invalid sequence at `valid_up_to`, or `None` when the
/// bytes end inside a character. `std` fixes it by the bytes alone.
pub uninterp spec fn utf8_error_len(bytes: Seq<u8>) -> Option<usize>;

/// The largest `i <= n` such that the first `i` bytes are valid UTF-8.
pub open spec fn valid_prefix_len(bytes: Seq<u8>, n: nat) -> nat
    decreases n,
{
    if n == 0 || valid_utf8(bytes.take(n as int)) {
        n
    } else {
        valid_prefix_len(bytes, (n - 1) as nat)
    }
}

/// What `std` reports about bytes that are not valid UTF-8.
pub open spec fn spec_utf8_error(bytes: Seq<u8>) -> Utf8Error {
    Utf8Error {
        valid_up_to: valid_prefix_len(bytes, bytes.len()) as usize,
        error_len: utf8_error_len(bytes),
    }
}

/// What `std` documents of `error_len` for the bytes `bytes`: `None` leaves
/// 1 to 3 bytes after `valid_up_to`, and `Some(n)` is an invalid sequence of
/// `n >= 1` bytes within the input.
pub open spec fn error_len_in_range(bytes: Seq<u8>, e: Utf8Error) -> bool {
    match e.error_len {
        None => 1 <= bytes.len() - e.valid_up_to <= 3,
        Some(n) => 1 <= n && e.valid_up_to + n <= bytes.len(),
    }
}

/// `String::from_utf8`. As `std` documents it, it succeeds exactly when the
/// bytes are valid UTF-8, and the string then holds exactly those bytes;
/// otherwise its error reports the longest valid prefix (`valid_up_to`) and
/// `error_len`, named by `utf8_error_len`: `None` when the input ends inside
/// a character, which leaves 1 to 3 bytes after `valid_up_to`, and otherwise
/// the length of the invalid sequence at `valid_up_to`, at least one byte
/// and within the input. Which length that is, is not stated here.
#[verifier::external_body]
pub(crate) fn string_from_utf8(bytes: Vec<u8>) -> (r: Result<String, Utf8Error>)
    ensures
        match r {
            Ok(s) => valid_utf8(bytes@) && encode_utf8(s@) == bytes@,
            Err(e) => !valid_utf8(bytes@) && e.valid_up_to == valid_prefix_len(bytes@, bytes@.len())
                as usize && e.error_len == utf8_error_len(bytes@),
        },
        r matches Err(e) ==> error_len_in_range(bytes@, e),
{
    match String::from_utf8(bytes) {
        Ok(s) => Ok(s),
        Err(e) => Err(
            Utf8Error {
                valid_up_to: e.utf8_error().valid_up_to(),
                error_len: e.utf8_error().error_len(),
            },
        ),
    }
}

/// Appends the UTF-8 encoding of the scalar value `scalar` to `out`.
pub fn push_utf8(out: &mut Vec<u8>, scalar: u32)
    requires
        is_scalar(scalar),
    ensures
        final(out)@ == old(out)@ + encode_scalar(scalar),
{
    if scalar <= 0x7F {
        out.push((scalar & 0x7F) as u8);
    } else if scalar <= 0x7FF {
        out.push(0xC0 | ((scalar >> 6) & 0x1F) as u8);
        out.push(0x80 | (scalar & 0x3F) as u8);
    } else if scalar <= 0xFFFF {
        out.push(0xE0 | ((scalar >> 12) & 0x0F) as u8);
        out.push(0x80 | ((scalar >> 6) & 0x3F) as u8);
        out.push(0x80 | (scalar & 0x3F) as u8);
    } else {
        out.push(0xF0 | ((scalar >> 18) & 0x7) as u8);
        out.push(0x80 | ((scalar >> 12) & 0x3F) as u8);
        out.push(0x80 | ((scalar >> 6) & 0x3F) as u8);
        out.push(0x80 | (scalar & 0x3F) as u8);
    }
    assert(final(out)@ =~= old(out)@ + encode_scalar(scalar));
}

} // verus!
