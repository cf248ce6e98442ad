use crate::errors::{FloatErrorKind, IntErrorKind};
use crate::tokens::{
    spec_is_digit, DECIMAL_POINT, EXPONENT, MINUS, NINE, PLUS, ZERO,
};
use vstd::prelude::*;

verus! {

/// The digits after the sign, read from left to right as `i64::from_str`
/// reads them: each byte must be a digit, and the value must stay within
/// the range of `i64` (a negative number is built downwards).
pub open spec fn spec_i64_digits(d: Seq<u8>, negative: bool) -> Result<int, IntErrorKind>
    decreases d.len(),
{
    if d.len() == 0 {
        Ok(0)
    } else {
        match spec_i64_digits(d.drop_last(), negative) {
            Err(k) => Err(k),
            Ok(v) => {
                let b = d.last();
                if !spec_is_digit(b) {
                    Err(IntErrorKind::InvalidDigit)
                } else if negative {
                    if v * 10 - (b - ZERO) < i64::MIN {
                        Err(IntErrorKind::NegOverflow)
                    } else {
                        Ok(v * 10 - (b - ZERO))
                    }
                } else {
                    if v * 10 + (b - ZERO) > i64::MAX {
                        Err(IntErrorKind::PosOverflow)
                    } else {
                        Ok(v * 10 + (b - ZERO))
                    }
                }
            },
        }
    }
}

/// What `i64::from_str` returns for the bytes `s`: an optional `+` or `-`
/// followed by decimal digits.
pub open spec fn spec_i64_from_str(s: Seq<u8>) -> Result<i64, IntErrorKind> {
    if s.len() == 0 {
        Err(IntErrorKind::Empty)
    } else if s.len() == 1 && (s[0] == PLUS || s[0] == MINUS) {
        Err(IntErrorKind::InvalidDigit)
    } else {
        let digits = if s[0] == PLUS || s[0] == MINUS {
            s.drop_first()
        } else {
            s
        };
        match spec_i64_digits(digits, s[0] == MINUS) {
            Ok(v) => Ok(v as i64),
            Err(k) => Err(k),
        }
    }
}

/// Every value that `spec_i64_digits` returns fits in an `i64`.
pub proof fn lemma_i64_digits_range(d: Seq<u8>, negative: bool)
    ensures
        spec_i64_digits(d, negative) matches Ok(v) ==> i64::MIN <= v <= i64::MAX && (negative
            ==> v <= 0) && (!negative ==> v >= 0),
    decreases d.len(),
{
    if d.len() > 0 {
        lemma_i64_digits_range(d.drop_last(), negative);
    }
}

/// An error on a prefix of the digits is the error of the whole.
pub proof fn lemma_i64_digits_error_prefix(d: Seq<u8>, negative: bool, n: int)
    requires
        0 <= n <= d.len(),
        spec_i64_digits(d.take(n), negative) is Err,
    ensures
        spec_i64_digits(d, negative) == spec_i64_digits(d.take(n), negative),
    decreases d.len() - n,
{
    if n == d.len() {
        assert(d.take(n) =~= d);
    } else {
        assert(d.take(n + 1).drop_last() =~= d.take(n));
        lemma_i64_digits_error_prefix(d, negative, n + 1);
    }
}

/// Reads the decimal digits `d[start..]` as `i64::from_str` does after the
/// sign.
fn parse_i64_digits(d: &[u8], start: usize, negative: bool) -> (r: Result<i64, IntErrorKind>)
    requires
        start <= d@.len(),
    ensures
        match spec_i64_digits(d@.skip(start as int), negative) {
            Ok(v) => r == Ok::<i64, IntErrorKind>(v as i64),
            Err(k) => r == Err::<i64, IntErrorKind>(k),
        },
{
    let ghost digits = d@.skip(start as int);
    let mut acc: i64 = 0;
    let mut i: usize = start;
    assert(digits.take(0) =~= Seq::<u8>::empty());
    while i < d.len()
        invariant
            start <= i <= d@.len(),
            digits == d@.skip(start as int),
            spec_i64_digits(digits.take(i - start), negative) == Ok::<int, IntErrorKind>(
                acc as int,
            ),
            negative ==> acc <= 0,
            !negative ==> acc >= 0,
        decreases d.len() - i,
    {
        let b = d[i];
        let ghost n = (i - start) as int;
        assert(digits.take(n + 1).drop_last() =~= digits.take(n));
        assert(digits.take(n + 1).last() == b);
        if b < ZERO || b > NINE {
            proof {
                lemma_i64_digits_error_prefix(digits, negative, n + 1);
            }
            return Err(IntErrorKind::InvalidDigit);
        }
        let x = (b - ZERO) as i64;
        let next = if negative {
            match acc.checked_mul(10) {
                Some(m) => m.checked_sub(x),
                None => None,
            }
        } else {
            match acc.checked_mul(10) {
                Some(m) => m.checked_add(x),
                None => None,
            }
        };
        match next {
            Some(v) => {
                acc = v;
            },
            None => {
                proof {
                    lemma_i64_digits_error_prefix(digits, negative, n + 1);
                }
                if negative {
                    return Err(IntErrorKind::NegOverflow);
                } else {
                    return Err(IntErrorKind::PosOverflow);
                }
            },
        }
        i = i + 1;
    }
    assert(digits.take(i - start) =~= digits);
    Ok(acc)
}

/// `i64::from_str` on the bytes `s` (an optional sign, then decimal digits).
pub fn parse_i64(s: &[u8]) -> (r: Result<i64, IntErrorKind>)
    ensures
        r == spec_i64_from_str(s@),
{
    if s.len() == 0 {
        return Err(IntErrorKind::Empty);
    }
    if s.len() == 1 && (s[0] == PLUS || s[0] == MINUS) {
        return Err(IntErrorKind::InvalidDigit);
    }
    let start: usize = if s[0] == PLUS || s[0] == MINUS {
        1
    } else {
        0
    };
    assert(s@.skip(1) =~= s@.drop_first());
    assert(s@.skip(0) =~= s@);
    proof {
        lemma_i64_digits_range(s@.skip(start as int), s@[0] == MINUS);
    }
    parse_i64_digits(s, start, s[0] == MINUS)
}

/// ASCII lower case.
pub open spec fn to_lower(b: u8) -> u8 {
    if 0x41 <= b <= 0x5a {
        (b + 0x20) as u8
    } else {
        b
    }
}

/// The number of decimal digits at the start of `s`.
pub open spec fn leading_digits(s: Seq<u8>) -> nat
    decreases s.len(),
{
    if s.len() > 0 && spec_is_digit(s[0]) {
        1 + leading_digits(s.drop_first())
    } else {
        0
    }
}

/// An exponent, if there is one: `e` or `E`, an optional sign and at least
/// one digit, up to the end.
pub open spec fn exponent_ok(r: Seq<u8>) -> bool {
    r.len() == 0 || (to_lower(r[0]) == EXPONENT && {
        let r2 = r.drop_first();
        let r3 = if r2.len() > 0 && (r2[0] == PLUS || r2[0] == MINUS) {
            r2.drop_first()
        } else {
            r2
        };
        r3.len() > 0 && leading_digits(r3) == r3.len()
    })
}

/// `Digit+ | Digit+ '.' Digit* | Digit* '.' Digit+`, then an optional
/// exponent.
pub open spec fn decimal_ok(t: Seq<u8>) -> bool {
    let a = leading_digits(t);
    let r = t.skip(a as int);
    if r.len() > 0 && r[0] == DECIMAL_POINT {
        let r1 = r.drop_first();
        let f = leading_digits(r1);
        (a > 0 || f > 0) && exponent_ok(r1.skip(f as int))
    } else {
        a > 0 && exponent_ok(r)
    }
}

/// The bytes of `t` are those of `word` up to ASCII case.
pub open spec fn lower_eq(t: Seq<u8>, word: Seq<u8>) -> bool {
    t.len() == word.len() && forall|i: int| 0 <= i < t.len() ==> to_lower(#[trigger] t[i]) == word[i]
}

pub open spec fn word_inf() -> Seq<u8> {
    seq![0x69u8, 0x6e, 0x66]
}

pub open spec fn word_infinity() -> Seq<u8> {
    seq![0x69u8, 0x6e, 0x66, 0x69, 0x6e, 0x69, 0x74, 0x79]
}

pub open spec fn word_nan() -> Seq<u8> {
    seq![0x6eu8, 0x61, 0x6e]
}

/// The text of a float literal as `f64::from_str` accepts it: an optional
/// sign, then `inf`, `infinity`, `nan` (in any case) or a decimal number
/// with an optional exponent.
pub open spec fn spec_float_literal(s: Seq<u8>) -> bool {
    let t = if s.len() > 0 && (s[0] == PLUS || s[0] == MINUS) {
        s.drop_first()
    } else {
        s
    };
    lower_eq(t, word_inf()) || lower_eq(t, word_infinity()) || lower_eq(t, word_nan())
        || decimal_ok(t)
}

/// The outcome of `f64::from_str` on `s`, without the value.
pub open spec fn spec_float_check(s: Seq<u8>) -> Result<(), FloatErrorKind> {
    if s.len() == 0 {
        Err(FloatErrorKind::Empty)
    } else if spec_float_literal(s) {
        Ok(())
    } else {
        Err(FloatErrorKind::Invalid)
    }
}

} // verus!

verus! {

/// The number of decimal digits in `s` from index `from` on.
fn count_digits(s: &[u8], from: usize) -> (n: usize)
    requires
        from <= s@.len(),
    ensures
        n == leading_digits(s@.skip(from as int)),
        from + n <= s@.len(),
{
    let mut i: usize = from;
    while i < s.len() && ZERO <= s[i] && s[i] <= NINE
        invariant
            from <= i <= s@.len(),
            leading_digits(s@.skip(from as int)) == (i - from) + leading_digits(
                s@.skip(i as int),
            ),
        decreases s.len() - i,
    {
        assert(s@.skip(i as int).drop_first() =~= s@.skip(i + 1));
        i = i + 1;
    }
    if i < s.len() {
        assert(s@.skip(i as int)[0] == s@[i as int]);
    }
    i - from
}

/// Whether `s[from..]` is an exponent as `exponent_ok` describes it.
fn check_exponent(s: &[u8], from: usize) -> (r: bool)
    requires
        from <= s@.len(),
    ensures
        r == exponent_ok(s@.skip(from as int)),
{
    let ghost r0 = s@.skip(from as int);
    if from == s.len() {
        return true;
    }
    let c = s[from];
    let lc = if 0x41 <= c && c <= 0x5a {
        c + 0x20
    } else {
        c
    };
    if lc != EXPONENT {
        return false;
    }
    let mut p = from + 1;
    assert(r0.drop_first() =~= s@.skip(p as int));
    if p < s.len() && (s[p] == PLUS || s[p] == MINUS) {
        assert(s@.skip(p as int).drop_first() =~= s@.skip(p + 1));
        p = p + 1;
    }
    let n = count_digits(s, p);
    p < s.len() && n == s.len() - p
}

/// Whether the bytes of `s[from..]` spell `word` up to ASCII case.
fn lower_eq_at(s: &[u8], from: usize, word: &[u8]) -> (r: bool)
    requires
        from <= s@.len(),
    ensures
        r == lower_eq(s@.skip(from as int), word@),
{
    if s.len() - from != word.len() {
        return false;
    }
    let mut i: usize = 0;
    while i < word.len()
        invariant
            i <= word@.len(),
            from <= s@.len(),
            s@.len() - from == word@.len(),
            forall|j: int| 0 <= j < i ==> to_lower(#[trigger] s@[from + j]) == word@[j],
        decreases word.len() - i,
    {
        assert(from + i < s@.len());
        assert(s@.len() == s.len());
        let c = s[from + i];
        let lc = if 0x41 <= c && c <= 0x5a {
            c + 0x20
        } else {
            c
        };
        if lc != word[i] {
            assert(s@.skip(from as int)[i as int] == c);
            return false;
        }
        i = i + 1;
    }
    assert forall|j: int| 0 <= j < s@.skip(from as int).len() implies to_lower(
        #[trigger] s@.skip(from as int)[j],
    ) == word@[j] by {
        assert(s@.skip(from as int)[j] == s@[from + j]);
    }
    true
}

/// Whether `s` is the text of a float literal that `f64::from_str` accepts.
pub fn is_float_literal(s: &[u8]) -> (r: bool)
    ensures
        r == spec_float_literal(s@),
{
    let start: usize = if s.len() > 0 && (s[0] == PLUS || s[0] == MINUS) {
        1
    } else {
        0
    };
    let ghost t = s@.skip(start as int);
    assert(s@.skip(1) =~= s@.drop_first());
    assert(s@.skip(0) =~= s@);
    let inf = [0x69u8, 0x6e, 0x66];
    let infinity = [0x69u8, 0x6e, 0x66, 0x69, 0x6e, 0x69, 0x74, 0x79];
    let nan = [0x6eu8, 0x61, 0x6e];
    assert(inf@ =~= word_inf());
    assert(infinity@ =~= word_infinity());
    assert(nan@ =~= word_nan());
    if lower_eq_at(s, start, &inf) || lower_eq_at(s, start, &infinity) || lower_eq_at(
        s,
        start,
        &nan,
    ) {
        return true;
    }
    let a = count_digits(s, start);
    let p = start + a;
    assert(t.skip(a as int) =~= s@.skip(p as int));
    if p < s.len() && s[p] == DECIMAL_POINT {
        assert(s@.skip(p as int).drop_first() =~= s@.skip(p + 1));
        let f = count_digits(s, p + 1);
        assert(s@.skip(p + 1).skip(f as int) =~= s@.skip(p + 1 + f));
        (a > 0 || f > 0) && check_exponent(s, p + 1 + f)
    } else {
        a > 0 && check_exponent(s, p)
    }
}

/// `f64::from_str` on `s`, without the value: `Empty` for no bytes,
/// `Invalid` for text that is not a float literal.
pub fn check_float(s: &[u8]) -> (r: Result<(), FloatErrorKind>)
    ensures
        r == spec_float_check(s@),
{
    if s.len() == 0 {
        Err(FloatErrorKind::Empty)
    } else if is_float_literal(s) {
        Ok(())
    } else {
        Err(FloatErrorKind::Invalid)
    }
}

} // verus!
