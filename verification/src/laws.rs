use crate::errors::{IntErrorKind, ParseError};
use crate::json_value::SpecJson;
use crate::numbers::{spec_i64_digits, spec_i64_from_str};
use crate::json_value::obj_insert;
use crate::parser::{
    initial_level, word_alse, word_rue, word_ull, Level, lemma_loop_skips_whitespace, number_char_pred, quote_pred, spec_nested,
    spec_emit, spec_nested_loop, spec_number, spec_parse,
};
use crate::tokens::{
    is_high_surrogate, spec_bytes_to_string, spec_expect_rest, BOOLEAN_TRUE,
    lemma_take_while_unique, prepend, spec_hex_digit, spec_is_digit, spec_is_float_number,
    spec_is_number_char, spec_is_whitespace, spec_read_hex4, spec_read_until, spec_simple_escape,
    spec_unicode_escape, spec_value_kind, surrogate_pair_value, take_while, ValueKind, BACKSLASH, CARRIAGE_RETURN,
    DECIMAL_POINT, DOUBLE_QUOTE, EXPONENT, EXPONENT_UPPER, LETTER_U, LINE_FEED, MINUS, TAB, ZERO,
};
use vstd::prelude::*;
use vstd::utf8::{encode_scalar, is_scalar, valid_utf8};

verus! {

/// Whitespace before a document does not change what it parses to.
pub proof fn law_leading_whitespace(w: Seq<u8>, s: Seq<u8>)
    requires
        forall|i: int| 0 <= i < w.len() ==> spec_is_whitespace(#[trigger] w[i]),
    ensures
        spec_parse(w + s) == spec_parse(s),
{
    lemma_loop_skips_whitespace(w, s, initial_level(None));
}

/// How a writer escapes one byte of a string body: `"` and `\` always,
/// and the control bytes that have a short escape.
pub open spec fn escape_byte(b: u8) -> Seq<u8> {
    if b == DOUBLE_QUOTE {
        seq![BACKSLASH, DOUBLE_QUOTE]
    } else if b == BACKSLASH {
        seq![BACKSLASH, BACKSLASH]
    } else if b == 0x08 {
        seq![BACKSLASH, 0x62u8]
    } else if b == 0x0c {
        seq![BACKSLASH, 0x66u8]
    } else if b == LINE_FEED {
        seq![BACKSLASH, 0x6eu8]
    } else if b == CARRIAGE_RETURN {
        seq![BACKSLASH, 0x72u8]
    } else if b == TAB {
        seq![BACKSLASH, 0x74u8]
    } else {
        seq![b]
    }
}

/// A string body with every byte escaped as `escape_byte` says.
pub open spec fn escape_bytes(x: Seq<u8>) -> Seq<u8>
    decreases x.len(),
{
    if x.len() == 0 {
        Seq::empty()
    } else {
        escape_byte(x[0]) + escape_bytes(x.drop_first())
    }
}

proof fn lemma_read_escaped_byte(b: u8, s2: Seq<u8>)
    ensures
        spec_read_until(escape_byte(b) + s2, quote_pred()) == prepend(
            seq![b],
            spec_read_until(s2, quote_pred()),
        ),
{
    let s = escape_byte(b) + s2;
    if escape_byte(b).len() == 2 {
        assert(s[0] == BACKSLASH);
        assert(s.drop_first().drop_first() =~= s2);
        let e = s[1];
        assert(spec_simple_escape(e) == Some(b));
    } else {
        assert(s[0] == b);
        assert(s.drop_first() =~= s2);
        assert(b != BACKSLASH);
        assert(!quote_pred()(b));
    }
}

/// Reading an escaped string body up to its closing quote gives back the
/// bytes that were escaped, whatever they are, and leaves the input after
/// the quote.
pub proof fn law_string_escape_roundtrip(x: Seq<u8>, rest: Seq<u8>)
    ensures
        spec_read_until(escape_bytes(x) + seq![DOUBLE_QUOTE] + rest, quote_pred()) == Ok::<
            (Seq<u8>, Seq<u8>),
            crate::errors::ParseError,
        >((x, rest)),
    decreases x.len(),
{
    let s = escape_bytes(x) + seq![DOUBLE_QUOTE] + rest;
    if x.len() == 0 {
        assert(s =~= seq![DOUBLE_QUOTE] + rest);
        assert(s.drop_first() =~= rest);
        assert(x =~= Seq::<u8>::empty());
        assert(s[0] == DOUBLE_QUOTE);
        assert(quote_pred()(s[0]));
    } else {
        let x0 = x[0];
        let tail = x.drop_first();
        law_string_escape_roundtrip(tail, rest);
        let s2 = escape_bytes(tail) + seq![DOUBLE_QUOTE] + rest;
        assert(s =~= escape_byte(x0) + s2);
        lemma_read_escaped_byte(x0, s2);
        assert(seq![x0] + tail =~= x);
    }
}

/// The lower-case hexadecimal digit for `d < 16`.
pub open spec fn hex_char(d: u32) -> u8 {
    if d < 10 {
        (0x30 + d) as u8
    } else {
        (0x61 + d - 10) as u8
    }
}

/// The four hexadecimal digits of a code unit.
pub open spec fn hex4_text(v: u32) -> Seq<u8> {
    seq![
        hex_char((v / 4096) % 16),
        hex_char((v / 256) % 16),
        hex_char((v / 16) % 16),
        hex_char(v % 16),
    ]
}

/// How a writer escapes a code point with `\u`: one escape for a code point
/// below U+10000, a surrogate pair of escapes above.
pub open spec fn unicode_escape_text(c: u32) -> Seq<u8> {
    if c < 0x10000 {
        seq![BACKSLASH, LETTER_U] + hex4_text(c)
    } else {
        let c2 = c - 0x10000;
        seq![BACKSLASH, LETTER_U] + hex4_text((0xD800 + c2 / 0x400) as u32) + seq![
            BACKSLASH,
            LETTER_U,
        ] + hex4_text((0xDC00 + c2 % 0x400) as u32)
    }
}

proof fn lemma_hex_char(d: u32)
    requires
        d < 16,
    ensures
        spec_hex_digit(hex_char(d)) == Some(d),
{
}

proof fn lemma_read_hex4_text(v: u32, rest: Seq<u8>)
    requires
        v < 0x10000,
    ensures
        spec_read_hex4(hex4_text(v) + rest) == Ok::<(u32, Seq<u8>), crate::errors::ParseError>(
            (v, rest),
        ),
{
    let a = (v / 4096) % 16;
    let b = (v / 256) % 16;
    let c = (v / 16) % 16;
    let d = v % 16;
    lemma_hex_char(a);
    lemma_hex_char(b);
    lemma_hex_char(c);
    lemma_hex_char(d);
    let s = hex4_text(v) + rest;
    assert(s.take(4) =~= hex4_text(v));
    assert(s.skip(4) =~= rest);
    assert(a * 4096 + b * 256 + c * 16 + d == v) by (nonlinear_arith)
        requires
            v < 0x10000,
            a == (v / 4096) % 16,
            b == (v / 256) % 16,
            c == (v / 16) % 16,
            d == v % 16,
    ;
}

/// A `\u` escape of any Unicode scalar value, with a surrogate pair above
/// U+FFFF, reads back as the UTF-8 encoding of that value.
#[verifier::spinoff_prover]
pub proof fn law_unicode_escape_roundtrip(c: u32, s: Seq<u8>, stop: spec_fn(u8) -> bool)
    requires
        is_scalar(c),
    ensures
        spec_read_until(unicode_escape_text(c) + s, stop) == prepend(
            encode_scalar(c),
            spec_read_until(s, stop),
        ),
{
    let text = unicode_escape_text(c) + s;
    let u = text.drop_first().drop_first();
    if c < 0x10000 {
        assert(u =~= hex4_text(c) + s);
        lemma_read_hex4_text(c, s);
        assert(spec_unicode_escape(u) == Ok::<(Seq<u8>, Seq<u8>), crate::errors::ParseError>(
            (encode_scalar(c), s),
        ));
    } else {
        let c2 = c - 0x10000;
        let hi = (0xD800 + c2 / 0x400) as u32;
        let lo = (0xDC00 + c2 % 0x400) as u32;
        let u1 = seq![BACKSLASH, LETTER_U] + hex4_text(lo) + s;
        assert(u =~= hex4_text(hi) + u1);
        lemma_read_hex4_text(hi, u1);
        assert(u1.skip(2) =~= hex4_text(lo) + s);
        lemma_read_hex4_text(lo, s);
        assert(surrogate_pair_value(hi, lo) == c);
        assert(spec_unicode_escape(u) == Ok::<(Seq<u8>, Seq<u8>), crate::errors::ParseError>(
            (encode_scalar(c), s),
        ));
    }
    assert(text[0] == BACKSLASH);
    assert(text.drop_first()[0] == LETTER_U);
}

/// The decimal digits of `m`, most significant first, without leading
/// zeros.
pub open spec fn decimal_text(m: nat) -> Seq<u8>
    decreases m,
{
    if m < 10 {
        seq![(ZERO + m) as u8]
    } else {
        decimal_text(m / 10).push((ZERO + m % 10) as u8)
    }
}

/// The decimal text of an `i64`, with a `-` before a negative one.
pub open spec fn i64_text(n: i64) -> Seq<u8> {
    if n < 0 {
        seq![MINUS] + decimal_text((-n) as nat)
    } else {
        decimal_text(n as nat)
    }
}

pub(crate) proof fn lemma_decimal_text_digits(m: nat)
    ensures
        decimal_text(m).len() >= 1,
        forall|i: int| 0 <= i < decimal_text(m).len() ==> spec_is_digit(#[trigger] decimal_text(m)[i]),
    decreases m,
{
    if m >= 10 {
        lemma_decimal_text_digits(m / 10);
        let d = decimal_text(m / 10);
        assert forall|i: int| 0 <= i < decimal_text(m).len() implies spec_is_digit(
            #[trigger] decimal_text(m)[i],
        ) by {
            if i < d.len() {
                assert(decimal_text(m)[i] == d[i]);
            }
        }
    }
}

pub(crate) proof fn lemma_decimal_text_value(m: nat, negative: bool)
    requires
        negative ==> m <= 0x8000_0000_0000_0000,
        !negative ==> m <= 0x7fff_ffff_ffff_ffff,
    ensures
        spec_i64_digits(decimal_text(m), negative) == Ok::<int, IntErrorKind>(
            if negative {
                -m
            } else {
                m as int
            },
        ),
    decreases m,
{
    let t = decimal_text(m);
    if m < 10 {
        assert(t.drop_last() =~= Seq::<u8>::empty());
        assert(spec_i64_digits(t.drop_last(), negative) == Ok::<int, IntErrorKind>(0));
        assert(t.last() - ZERO == m);
    } else {
        lemma_decimal_text_value(m / 10, negative);
        assert(t.drop_last() =~= decimal_text(m / 10));
        let last = t.last();
        assert(last == (ZERO + m % 10) as u8);
        assert(last - ZERO == m % 10);
        assert((m / 10) * 10 + m % 10 == m);
    }
}

pub(crate) proof fn lemma_take_while_all(s: Seq<u8>, pred: spec_fn(u8) -> bool)
    requires
        forall|i: int| 0 <= i < s.len() ==> pred(#[trigger] s[i]),
    ensures
        take_while(s, pred) == s,
{
    lemma_take_while_unique(s, s, Seq::empty(), pred);
    assert(s + Seq::<u8>::empty() =~= s);
}

/// Bytes below 0x80 are valid UTF-8.
pub proof fn lemma_ascii_valid_utf8(s: Seq<u8>)
    requires
        forall|i: int| 0 <= i < s.len() ==> #[trigger] s[i] < 0x80,
    ensures
        valid_utf8(s),
{
    assert(s.subrange(0, 0) =~= Seq::<u8>::empty());
    vstd::utf8::partial_valid_utf8_extend_ascii_block(s, 0, s.len() as int);
    assert(s.subrange(0, s.len() as int) =~= s);
}

/// Every `i64`, written in decimal, parses back to itself as an integer.
pub proof fn law_integer_roundtrip(n: i64)
    ensures
        spec_parse(i64_text(n)) == Ok::<SpecJson, ParseError>(SpecJson::Int(n)),
{
    let text = i64_text(n);
    let m: nat = if n < 0 {
        (-n) as nat
    } else {
        n as nat
    };
    lemma_decimal_text_digits(m);
    lemma_decimal_text_value(m, n < 0);
    let d = decimal_text(m);
    assert forall|i: int| 0 <= i < text.len() implies spec_is_number_char(#[trigger] text[i])
        && text[i] < 0x80 && text[i] != DECIMAL_POINT && text[i] != EXPONENT && text[i]
        != EXPONENT_UPPER by {
        if n < 0 {
            if i > 0 {
                assert(text[i] == d[i - 1]);
            }
        }
    }
    lemma_ascii_valid_utf8(text);
    assert(!spec_is_float_number(text));
    let b = text[0];
    let t = text.drop_first();
    assert forall|i: int| 0 <= i < t.len() implies number_char_pred()(#[trigger] t[i]) by {
        assert(t[i] == text[i + 1]);
    }
    lemma_take_while_all(t, number_char_pred());
    assert(seq![b] + t =~= text);
    assert(t.skip(t.len() as int) =~= Seq::<u8>::empty());
    if n < 0 {
        assert(t =~= d);
        assert(text.len() >= 2);
    } else {
        assert(text =~= d);
    }
    assert(spec_i64_from_str(text) == Ok::<i64, IntErrorKind>(n));
    assert(spec_number(text) == Ok::<SpecJson, ParseError>(SpecJson::Int(n)));
    assert(!spec_is_whitespace(b));
    assert(spec_value_kind(b) == Ok::<ValueKind, ParseError>(ValueKind::Number));
    assert(take_while(t, number_char_pred()) == t);
    assert(spec_nested_loop(text, initial_level(None)) == spec_emit(
        text,
        SpecJson::Int(n),
        t.skip(t.len() as int),
        initial_level(None),
    ));
    assert(spec_nested(text, None) == spec_nested_loop(text, initial_level(None)));
}

proof fn lemma_expect_rest_extend(s: Seq<u8>, w: Seq<u8>, x: Seq<u8>)
    requires
        spec_expect_rest(s, w) is Ok,
    ensures
        spec_expect_rest(s + x, w) == Ok::<Seq<u8>, ParseError>(spec_expect_rest(s, w)->Ok_0 + x),
    decreases w.len(),
{
    if w.len() > 0 {
        assert((s + x).drop_first() =~= s.drop_first() + x);
        lemma_expect_rest_extend(s.drop_first(), w.drop_first(), x);
    }
}

proof fn lemma_read_hex4_extend(s: Seq<u8>, x: Seq<u8>)
    requires
        spec_read_hex4(s) is Ok,
    ensures
        spec_read_hex4(s + x) == Ok::<(u32, Seq<u8>), ParseError>(
            (spec_read_hex4(s)->Ok_0.0, spec_read_hex4(s)->Ok_0.1 + x),
        ),
{
    assert((s + x).take(4) =~= s.take(4));
    assert((s + x).skip(4) =~= s.skip(4) + x);
}

proof fn lemma_unicode_escape_extend(u: Seq<u8>, x: Seq<u8>)
    requires
        spec_unicode_escape(u) is Ok,
    ensures
        spec_unicode_escape(u + x) == Ok::<(Seq<u8>, Seq<u8>), ParseError>(
            (spec_unicode_escape(u)->Ok_0.0, spec_unicode_escape(u)->Ok_0.1 + x),
        ),
{
    lemma_read_hex4_extend(u, x);
    let (first, u1) = spec_read_hex4(u)->Ok_0;
    if is_high_surrogate(first) {
        assert((u1 + x).skip(2) =~= u1.skip(2) + x);
        assert((u1 + x)[0] == u1[0] && (u1 + x)[1] == u1[1]);
        lemma_read_hex4_extend(u1.skip(2), x);
    }
}

pub(crate) proof fn lemma_read_until_extend(s: Seq<u8>, stop: spec_fn(u8) -> bool, x: Seq<u8>)
    requires
        spec_read_until(s, stop) is Ok,
    ensures
        spec_read_until(s + x, stop) == Ok::<(Seq<u8>, Seq<u8>), ParseError>(
            (spec_read_until(s, stop)->Ok_0.0, spec_read_until(s, stop)->Ok_0.1 + x),
        ),
    decreases s.len(),
{
    let t = s.drop_first();
    assert((s + x).drop_first() =~= t + x);
    assert((s + x)[0] == s[0]);
    if s[0] == BACKSLASH {
        let u = t.drop_first();
        assert((t + x).drop_first() =~= u + x);
        assert((t + x)[0] == t[0]);
        let e = t[0];
        if spec_simple_escape(e) is Some {
            lemma_read_until_extend(u, stop, x);
        } else {
            lemma_unicode_escape_extend(u, x);
            let (bytes, u2) = spec_unicode_escape(u)->Ok_0;
            lemma_read_until_extend(u2, stop, x);
        }
    } else if !stop(s[0]) {
        lemma_read_until_extend(t, stop, x);
    }
}

pub(crate) proof fn lemma_take_while_extend(s: Seq<u8>, pred: spec_fn(u8) -> bool, x: Seq<u8>)
    requires
        take_while(s, pred).len() < s.len(),
    ensures
        take_while(s + x, pred) == take_while(s, pred),
    decreases s.len(),
{
    assert((s + x)[0] == s[0]);
    if pred(s[0]) {
        assert((s + x).drop_first() =~= s.drop_first() + x);
        lemma_take_while_extend(s.drop_first(), pred, x);
    }
}

pub(crate) proof fn lemma_take_while_props(s: Seq<u8>, pred: spec_fn(u8) -> bool)
    ensures
        take_while(s, pred).len() <= s.len(),
        take_while(s, pred) == s.take(take_while(s, pred).len() as int),
        forall|i: int| 0 <= i < take_while(s, pred).len() ==> pred(#[trigger] s[i]),
    decreases s.len(),
{
    if s.len() > 0 && pred(s[0]) {
        let d = s.drop_first();
        lemma_take_while_props(d, pred);
        let n = take_while(d, pred).len() as int;
        assert(seq![s[0]] + d.take(n) =~= s.take(n + 1));
        assert forall|i: int| 0 <= i < n + 1 implies pred(#[trigger] s[i]) by {
            if i > 0 {
                assert(s[i] == d[i - 1]);
            }
        }
    } else {
        assert(s.take(0) =~= Seq::<u8>::empty());
    }
}

/// `r` is what is left of `s` after some bytes at its front.
pub open spec fn is_suffix(r: Seq<u8>, s: Seq<u8>) -> bool {
    r.len() <= s.len() && r == s.skip(s.len() - r.len())
}

proof fn lemma_suffix_trans(a: Seq<u8>, b: Seq<u8>, c: Seq<u8>)
    requires
        is_suffix(a, b),
        is_suffix(b, c),
    ensures
        is_suffix(a, c),
{
    assert(a =~= c.skip(c.len() - a.len()));
}

pub(crate) proof fn lemma_expect_rest_suffix(s: Seq<u8>, w: Seq<u8>)
    ensures
        spec_expect_rest(s, w) matches Ok(t) ==> is_suffix(t, s),
    decreases w.len(),
{
    if w.len() > 0 && s.len() > 0 {
        lemma_expect_rest_suffix(s.drop_first(), w.drop_first());
        if let Ok(t) = spec_expect_rest(s, w) {
            assert(is_suffix(s.drop_first(), s));
            lemma_suffix_trans(t, s.drop_first(), s);
        }
    } else {
        assert(s.skip(0) =~= s);
    }
}

proof fn lemma_unicode_escape_suffix(u: Seq<u8>)
    ensures
        spec_unicode_escape(u) matches Ok((_, t)) ==> is_suffix(t, u) && t.len() < u.len(),
{
    if let Ok((_, t)) = spec_unicode_escape(u) {
        let u1 = u.skip(4);
        if t == u1 {
        } else {
            assert(t == u1.skip(2).skip(4));
            assert(t =~= u.skip(u.len() - t.len()));
        }
    }
}

pub(crate) proof fn lemma_read_until_suffix(s: Seq<u8>, stop: spec_fn(u8) -> bool)
    ensures
        spec_read_until(s, stop) matches Ok((_, t)) ==> is_suffix(t, s) && t.len() < s.len(),
    decreases s.len(),
{
    if s.len() == 0 {
        return ;
    }
    let t = s.drop_first();
    assert(is_suffix(t, s));
    if s[0] == BACKSLASH {
        if t.len() > 0 {
            let u = t.drop_first();
            assert(is_suffix(u, t));
            lemma_suffix_trans(u, t, s);
            if spec_simple_escape(t[0]) is Some {
                lemma_read_until_suffix(u, stop);
                if let Ok((_, r)) = spec_read_until(u, stop) {
                    lemma_suffix_trans(r, u, s);
                }
            } else if t[0] == LETTER_U {
                lemma_unicode_escape_suffix(u);
                if let Ok((_, u2)) = spec_unicode_escape(u) {
                    lemma_suffix_trans(u2, u, s);
                    lemma_read_until_suffix(u2, stop);
                    if let Ok((_, r)) = spec_read_until(u2, stop) {
                        lemma_suffix_trans(r, u2, s);
                    }
                }
            }
        }
    } else if !stop(s[0]) {
        lemma_read_until_suffix(t, stop);
        if let Ok((_, r)) = spec_read_until(t, stop) {
            lemma_suffix_trans(r, t, s);
        }
    }
}

/// What a level leaves of its input is a suffix of it.
pub proof fn lemma_loop_suffix(s: Seq<u8>, lv: Level)
    ensures
        spec_nested_loop(s, lv) matches Ok((_, r)) ==> is_suffix(r, s) && r.len() < s.len(),
    decreases s.len(), 1int,
{
    if s.len() == 0 {
        return ;
    }
    let b = s[0];
    let t = s.drop_first();
    assert(is_suffix(t, s));
    if spec_is_whitespace(b) {
        lemma_loop_suffix(t, lv);
        if let Ok((_, r)) = spec_nested_loop(t, lv) {
            lemma_suffix_trans(r, t, s);
        }
        return ;
    }
    if let Ok(k) = spec_value_kind(b) {
        let sub = match k {
            ValueKind::BeginArray | ValueKind::BeginObject => Some(Some(k)),
            ValueKind::NameSeparator => if lv.object is Some {
                Some(None)
            } else {
                None
            },
            ValueKind::ValueSeparator => if lv.array is Some {
                Some(None)
            } else {
                None
            },
            _ => None,
        };
        if let Some(kind) = sub {
            lemma_loop_suffix(t, initial_level(kind));
            if let Ok((v1, t2)) = spec_nested(t, kind) {
                lemma_suffix_trans(t2, t, s);
                if k == ValueKind::NameSeparator {
                    if let Ok(key) = spec_bytes_to_string(lv.key) {
                        let lv2 = Level {
                            object: Some(obj_insert(lv.object->0, key, v1)),
                            key: Seq::empty(),
                            ..lv
                        };
                        lemma_loop_suffix(t2, lv2);
                        if let Ok((_, r)) = spec_nested_loop(t2, lv2) {
                            lemma_suffix_trans(r, t2, s);
                        }
                    }
                } else {
                    lemma_emit_suffix(s, v1, t2, lv);
                }
            }
        } else if k == ValueKind::NameSeparator || k == ValueKind::ValueSeparator {
            lemma_loop_suffix(t, lv);
            if let Ok((_, r)) = spec_nested_loop(t, lv) {
                lemma_suffix_trans(r, t, s);
            }
        } else if k == ValueKind::Null || k == ValueKind::Bool {
            let w = if k == ValueKind::Null {
                word_ull()
            } else if b == BOOLEAN_TRUE {
                word_rue()
            } else {
                word_alse()
            };
            lemma_expect_rest_suffix(t, w);
            if let Ok(t2) = spec_expect_rest(t, w) {
                lemma_suffix_trans(t2, t, s);
                let v1 = if k == ValueKind::Null {
                    SpecJson::Null
                } else {
                    SpecJson::Bool(b == BOOLEAN_TRUE)
                };
                lemma_emit_suffix(s, v1, t2, lv);
            }
        } else if k == ValueKind::Number {
            let digits = take_while(t, number_char_pred());
            lemma_take_while_props(t, number_char_pred());
            let t2 = t.skip(digits.len() as int);
            assert(is_suffix(t2, t));
            lemma_suffix_trans(t2, t, s);
            if let Ok(v1) = spec_number(seq![b] + digits) {
                lemma_emit_suffix(s, v1, t2, lv);
            }
        } else if k == ValueKind::String {
            lemma_read_until_suffix(t, quote_pred());
            if let Ok((bytes, t2)) = spec_read_until(t, quote_pred()) {
                lemma_suffix_trans(t2, t, s);
                if lv.array is Some {
                    if let Ok(c) = spec_bytes_to_string(bytes) {
                        lemma_emit_suffix(s, SpecJson::Str(c), t2, lv);
                    }
                } else if lv.object is Some {
                    let lv2 = Level { key: lv.key + bytes, ..lv };
                    lemma_loop_suffix(t2, lv2);
                    if let Ok((_, r)) = spec_nested_loop(t2, lv2) {
                        lemma_suffix_trans(r, t2, s);
                    }
                }
            }
        }
    }
}

proof fn lemma_emit_suffix(s: Seq<u8>, v: SpecJson, rest: Seq<u8>, lv: Level)
    requires
        is_suffix(rest, s),
        rest.len() < s.len(),
    ensures
        spec_emit(s, v, rest, lv) matches Ok((_, r)) ==> is_suffix(r, s) && r.len() < s.len(),
    decreases s.len(), 0int,
{
    if lv.array is Some {
        let lv2 = Level { array: Some(lv.array->0.push(v)), ..lv };
        lemma_loop_suffix(rest, lv2);
        if let Ok((_, r)) = spec_nested_loop(rest, lv2) {
            lemma_suffix_trans(r, rest, s);
        }
    }
}

/// The level read from `s` stopped at the end of the input inside a number,
/// where more digits could have followed.
pub open spec fn ends_inside_number(s: Seq<u8>, rest: Seq<u8>) -> bool {
    rest.len() == 0 && s.len() > 0 && spec_is_number_char(s.last())
}

proof fn lemma_loop_nonempty(s: Seq<u8>, lv: Level)
    ensures
        spec_nested_loop(s, lv) is Ok ==> s.len() > 0,
{
}

/// `x` starts with a byte that ends a number.
pub open spec fn stops_number(x: Seq<u8>) -> bool {
    x.len() > 0 && !spec_is_number_char(x[0])
}

/// `spec_nested_loop(s, lv)` reads a value, and reads the same value with
/// the bytes `x` put after the input.
pub open spec fn extends(s: Seq<u8>, lv: Level, x: Seq<u8>) -> bool {
    spec_nested_loop(s + x, lv) == Ok::<(SpecJson, Seq<u8>), ParseError>(
        (spec_nested_loop(s, lv)->Ok_0.0, spec_nested_loop(s, lv)->Ok_0.1 + x),
    )
}

/// The level read from `s` in the state `lv` succeeds without stopping at
/// the end of the input inside a number.
pub open spec fn reads_cleanly(s: Seq<u8>, lv: Level, x: Seq<u8>) -> bool {
    &&& spec_nested_loop(s, lv) is Ok
    &&& (!ends_inside_number(s, spec_nested_loop(s, lv)->Ok_0.1) || stops_number(x))
}

/// A level that reads `v` with `r` left from `s[1..]`, where `s` reads
/// cleanly with `r` left as well, reads cleanly too.
proof fn lemma_clean_tail(s: Seq<u8>, t: Seq<u8>, lv: Level, lv2: Level, x: Seq<u8>)
    requires
        s.len() > 0,
        t == s.drop_first(),
        spec_nested_loop(t, lv2) is Ok,
        spec_nested_loop(s, lv) is Ok,
        spec_nested_loop(t, lv2)->Ok_0.1 == spec_nested_loop(s, lv)->Ok_0.1,
        !ends_inside_number(s, spec_nested_loop(s, lv)->Ok_0.1) || stops_number(x),
    ensures
        reads_cleanly(t, lv2, x),
{
    lemma_loop_nonempty(t, lv2);
    assert(t.last() == s.last());
}

/// What a level reads does not depend on input after what it consumed.
pub proof fn lemma_loop_extend(s: Seq<u8>, lv: Level, x: Seq<u8>)
    requires
        reads_cleanly(s, lv, x),
    ensures
        extends(s, lv, x),
    decreases s.len(), 2int,
{
    let b = s[0];
    let t = s.drop_first();
    let sx = s + x;
    assert(sx[0] == b);
    assert(sx.drop_first() =~= t + x);
    if spec_is_whitespace(b) {
        lemma_clean_tail(s, t, lv, lv, x);
        lemma_loop_extend(t, lv, x);
        return ;
    }
    let k = spec_value_kind(b)->Ok_0;
    if k == ValueKind::BeginArray || k == ValueKind::BeginObject {
        lemma_extend_sub(s, lv, x, Some(k));
    } else if k == ValueKind::ValueSeparator {
        if lv.array is Some {
            lemma_extend_sub(s, lv, x, None);
        } else {
            lemma_clean_tail(s, t, lv, lv, x);
            lemma_loop_extend(t, lv, x);
        }
    } else if k == ValueKind::NameSeparator {
        if lv.object is Some {
            lemma_extend_name(s, lv, x);
        } else {
            lemma_clean_tail(s, t, lv, lv, x);
            lemma_loop_extend(t, lv, x);
        }
    } else if k == ValueKind::Null || k == ValueKind::Bool {
        lemma_extend_keyword(s, lv, x);
    } else if k == ValueKind::Number {
        lemma_extend_number(s, lv, x);
    } else if k == ValueKind::String {
        lemma_extend_string(s, lv, x);
    }
}

/// A nested level (after `[` or `{`), or a value after `,` in an array.
#[verifier::spinoff_prover]
#[verifier::rlimit(40)]
proof fn lemma_extend_sub(s: Seq<u8>, lv: Level, x: Seq<u8>, kind: Option<ValueKind>)
    requires
        reads_cleanly(s, lv, x),
        kind is Some ==> spec_value_kind(s[0]) == Ok::<ValueKind, ParseError>(kind->0) && (kind->0
            == ValueKind::BeginArray
            || kind->0 == ValueKind::BeginObject),
        kind is None ==> spec_value_kind(s[0]) == Ok::<ValueKind, ParseError>(
            ValueKind::ValueSeparator,
        ) && lv.array is Some,
    ensures
        extends(s, lv, x),
    decreases s.len(), 1int,
{
    let b = s[0];
    let t = s.drop_first();
    let sx = s + x;
    assert(sx[0] == b);
    assert(sx.drop_first() =~= t + x);
    assert(!spec_is_whitespace(b));
    let (v1, t2) = spec_nested(t, kind)->Ok_0;
    lemma_loop_suffix(t, initial_level(kind));
    assert(is_suffix(t, s));
    lemma_suffix_trans(t2, t, s);
    if let Some(k) = kind {
        assert(kind == Some(k));
        assert(spec_value_kind(b) == Ok::<ValueKind, ParseError>(k));
    }
    assert(spec_nested_loop(s, lv) == spec_emit(s, v1, t2, lv));
    let r = spec_nested_loop(s, lv)->Ok_0.1;
    lemma_loop_nonempty(t, initial_level(kind));
    if lv.array is Some {
        lemma_loop_nonempty(t2, Level { array: Some(lv.array->0.push(v1)), ..lv });
    } else {
        assert(r == t2);
        if r.len() == 0 {
            assert(t.last() == s.last());
        }
    }
    assert(reads_cleanly(t, initial_level(kind), x));
    lemma_loop_extend(t, initial_level(kind), x);
    lemma_emit_extend(s, v1, t2, lv, x);
    assert(spec_nested(t + x, kind) == spec_nested_loop(t + x, initial_level(kind)));
    assert(spec_nested(t + x, kind) == Ok::<(SpecJson, Seq<u8>), ParseError>((v1, t2 + x)));
    assert(spec_nested_loop(sx, lv) == spec_emit(sx, v1, t2 + x, lv));
}

/// A member value after `:` in an object.
#[verifier::spinoff_prover]
#[verifier::rlimit(40)]
proof fn lemma_extend_name(s: Seq<u8>, lv: Level, x: Seq<u8>)
    requires
        reads_cleanly(s, lv, x),
        spec_value_kind(s[0]) == Ok::<ValueKind, ParseError>(ValueKind::NameSeparator),
        lv.object is Some,
    ensures
        extends(s, lv, x),
    decreases s.len(), 1int,
{
    let b = s[0];
    let t = s.drop_first();
    let sx = s + x;
    assert(sx[0] == b);
    assert(sx.drop_first() =~= t + x);
    assert(!spec_is_whitespace(b));
    let o = lv.object->0;
    let key = spec_bytes_to_string(lv.key)->Ok_0;
    let (v1, t2) = spec_nested(t, None)->Ok_0;
    let lv2 = Level { object: Some(obj_insert(o, key, v1)), key: Seq::empty(), ..lv };
    lemma_loop_nonempty(t2, lv2);
    lemma_loop_suffix(t, initial_level(None));
    lemma_loop_suffix(t2, lv2);
    assert(is_suffix(t, s));
    lemma_suffix_trans(t2, t, s);
    let r = spec_nested_loop(t2, lv2)->Ok_0.1;
    if r.len() == 0 {
        assert(t2.last() == s.last());
    }
    assert(reads_cleanly(t, initial_level(None), x));
    lemma_loop_extend(t, initial_level(None), x);
    lemma_loop_extend(t2, lv2, x);
    assert(spec_nested(t + x, None) == spec_nested_loop(t + x, initial_level(None)));
    assert(spec_nested(t + x, None) == Ok::<(SpecJson, Seq<u8>), ParseError>((v1, t2 + x)));
    assert(spec_nested_loop(s, lv) == spec_nested_loop(t2, lv2));
    assert(spec_nested_loop(sx, lv) == spec_nested_loop(t2 + x, lv2));
}

/// `null`, `true` or `false`.
proof fn lemma_extend_keyword(s: Seq<u8>, lv: Level, x: Seq<u8>)
    requires
        reads_cleanly(s, lv, x),
        spec_value_kind(s[0]) == Ok::<ValueKind, ParseError>(ValueKind::Null) || spec_value_kind(
            s[0],
        ) == Ok::<ValueKind, ParseError>(ValueKind::Bool),
    ensures
        extends(s, lv, x),
    decreases s.len(), 1int,
{
    let b = s[0];
    let t = s.drop_first();
    let sx = s + x;
    assert(sx[0] == b);
    assert(sx.drop_first() =~= t + x);
    assert(!spec_is_whitespace(b));
    let is_null = spec_value_kind(b) == Ok::<ValueKind, ParseError>(ValueKind::Null);
    let w = if is_null {
        word_ull()
    } else if b == BOOLEAN_TRUE {
        word_rue()
    } else {
        word_alse()
    };
    let v1 = if is_null {
        SpecJson::Null
    } else {
        SpecJson::Bool(b == BOOLEAN_TRUE)
    };
    let t2 = spec_expect_rest(t, w)->Ok_0;
    lemma_expect_rest_suffix(t, w);
    assert(is_suffix(t, s));
    lemma_suffix_trans(t2, t, s);
    lemma_expect_rest_extend(t, w, x);
    lemma_emit_extend(s, v1, t2, lv, x);
}

/// A number: the digits read stop before the end of the input.
proof fn lemma_extend_number(s: Seq<u8>, lv: Level, x: Seq<u8>)
    requires
        reads_cleanly(s, lv, x),
        spec_value_kind(s[0]) == Ok::<ValueKind, ParseError>(ValueKind::Number),
    ensures
        extends(s, lv, x),
    decreases s.len(), 1int,
{
    let b = s[0];
    let t = s.drop_first();
    let sx = s + x;
    assert(sx[0] == b);
    assert(sx.drop_first() =~= t + x);
    assert(!spec_is_whitespace(b));
    let digits = take_while(t, number_char_pred());
    let v1 = spec_number(seq![b] + digits)->Ok_0;
    let t2 = t.skip(digits.len() as int);
    lemma_take_while_props(t, number_char_pred());
    assert(t =~= digits + t2);
    assert(is_suffix(t, s));
    assert(is_suffix(t2, t));
    lemma_suffix_trans(t2, t, s);
    if digits.len() < t.len() {
        lemma_take_while_extend(t, number_char_pred(), x);
        assert((t + x).skip(digits.len() as int) =~= t2 + x);
        lemma_emit_extend(s, v1, t2, lv, x);
    } else {
        assert(t2.len() == 0);
        if lv.array is Some {
            lemma_loop_nonempty(t2, Level { array: Some(lv.array->0.push(v1)), ..lv });
        } else if stops_number(x) {
            assert forall|i: int| 0 <= i < digits.len() implies number_char_pred()(
                #[trigger] digits[i],
            ) by {
                assert(digits[i] == t[i]);
            }
            lemma_take_while_unique(t + x, digits, x, number_char_pred());
            assert((t + x).skip(digits.len() as int) =~= t2 + x);
            lemma_emit_extend(s, v1, t2, lv, x);
        } else {
            if digits.len() > 0 {
                assert(s.last() == t[digits.len() - 1]);
                assert(number_char_pred()(t[digits.len() - 1]));
            }
        }
    }
}

/// A string: an item of an array, a piece of a member name, or the value.
proof fn lemma_extend_string(s: Seq<u8>, lv: Level, x: Seq<u8>)
    requires
        reads_cleanly(s, lv, x),
        s[0] == DOUBLE_QUOTE,
    ensures
        extends(s, lv, x),
    decreases s.len(), 1int,
{
    let b = s[0];
    let t = s.drop_first();
    let sx = s + x;
    assert(sx[0] == b);
    assert(sx.drop_first() =~= t + x);
    assert(!spec_is_whitespace(b));
    let (bytes, t2) = spec_read_until(t, quote_pred())->Ok_0;
    lemma_read_until_suffix(t, quote_pred());
    assert(is_suffix(t, s));
    lemma_suffix_trans(t2, t, s);
    lemma_read_until_extend(t, quote_pred(), x);
    if lv.array is Some {
        let c = spec_bytes_to_string(bytes)->Ok_0;
        lemma_emit_extend(s, SpecJson::Str(c), t2, lv, x);
    } else if lv.object is Some {
        let lv2 = Level { key: lv.key + bytes, ..lv };
        lemma_loop_nonempty(t2, lv2);
        lemma_loop_suffix(t2, lv2);
        let r = spec_nested_loop(t2, lv2)->Ok_0.1;
        if r.len() == 0 {
            assert(t2.last() == s.last());
        }
        lemma_loop_extend(t2, lv2, x);
    }
}

proof fn lemma_emit_extend(s: Seq<u8>, v: SpecJson, rest: Seq<u8>, lv: Level, x: Seq<u8>)
    requires
        is_suffix(rest, s),
        rest.len() < s.len(),
        spec_emit(s, v, rest, lv) is Ok,
        !ends_inside_number(s, spec_emit(s, v, rest, lv)->Ok_0.1) || stops_number(x),
    ensures
        spec_emit(s + x, v, rest + x, lv) == Ok::<(SpecJson, Seq<u8>), ParseError>(
            (spec_emit(s, v, rest, lv)->Ok_0.0, spec_emit(s, v, rest, lv)->Ok_0.1 + x),
        ),
    decreases s.len(), 0int,
{
    if lv.array is Some {
        let lv2 = Level { array: Some(lv.array->0.push(v)), ..lv };
        lemma_loop_nonempty(rest, lv2);
        lemma_loop_suffix(rest, lv2);
        let r = spec_nested_loop(rest, lv2)->Ok_0.1;
        if r.len() == 0 {
            assert(rest.last() == s.last());
        }
        lemma_loop_extend(rest, lv2, x);
    }
}

/// Input after a complete document is ignored: when the text `s` parses to
/// a value, bytes after it leave the value as it is, unless the value is a
/// number that ends with the input and the bytes after it continue it.
pub proof fn law_trailing_input(s: Seq<u8>, x: Seq<u8>)
    requires
        spec_nested(s, None) is Ok,
        !ends_inside_number(s, spec_nested(s, None)->Ok_0.1) || stops_number(x),
    ensures
        spec_parse(s + x) == spec_parse(s),
        spec_nested(s + x, None) == Ok::<(SpecJson, Seq<u8>), ParseError>(
            (spec_nested(s, None)->Ok_0.0, spec_nested(s, None)->Ok_0.1 + x),
        ),
{
    lemma_loop_extend(s, initial_level(None), x);
}

} // verus!
