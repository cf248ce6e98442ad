//! The numbers of the JSON grammar: every one with a fraction or an
//! exponent is read as a float literal that `f64::from_str` accepts.
use crate::errors::ParseError;
use crate::json_value::SpecJson;
use crate::laws::{lemma_ascii_valid_utf8, lemma_take_while_all};
use crate::numbers::{
    decimal_ok, exponent_ok, leading_digits, lower_eq, spec_float_check, spec_float_literal,
    word_inf, word_infinity, word_nan,
};
use crate::parser::{
    initial_level, number_char_pred, spec_emit, spec_nested, spec_nested_loop, spec_number,
    spec_parse,
};
use crate::tokens::{
    spec_convert_to_float, spec_is_digit, spec_is_float_number, spec_is_whitespace,
    spec_value_kind, take_while, ValueKind,
};
use vstd::prelude::*;
use vstd::utf8::{decode_utf8, valid_utf8};

verus! {

/// Every byte of `d` is a decimal digit.
pub open spec fn all_digits(d: Seq<u8>) -> bool {
    forall|i: int| 0 <= i < d.len() ==> 0x30 <= #[trigger] d[i] <= 0x39
}

/// A number as the JSON grammar writes it: an optional `-`, the digits
/// `a`, then `.` and the digits `f` when `has_frac`, then the exponent
/// marker `marker`, the sign `sign` and the digits `x` when `has_exp`.
pub open spec fn json_number_text(
    neg: bool,
    a: Seq<u8>,
    has_frac: bool,
    f: Seq<u8>,
    has_exp: bool,
    marker: u8,
    sign: Seq<u8>,
    x: Seq<u8>,
) -> Seq<u8> {
    (if neg {
        seq![0x2du8]
    } else {
        Seq::empty()
    }) + a + (if has_frac {
        seq![0x2eu8] + f
    } else {
        Seq::empty()
    }) + (if has_exp {
        seq![marker] + sign + x
    } else {
        Seq::empty()
    })
}

/// The digits at the front of `d + r` are those of `d` when `r` does not
/// start with one.
proof fn lemma_leading_digits(d: Seq<u8>, r: Seq<u8>)
    requires
        all_digits(d),
        r.len() > 0 ==> !spec_is_digit(r[0]),
    ensures
        leading_digits(d + r) == d.len(),
    decreases d.len(),
{
    if d.len() == 0 {
        assert(d + r =~= r);
    } else {
        assert((d + r)[0] == d[0]);
        assert((d + r).drop_first() =~= d.drop_first() + r);
        assert forall|i: int| 0 <= i < d.drop_first().len() implies 0x30 <= #[trigger] d.drop_first()[i]
            <= 0x39 by {
            assert(d.drop_first()[i] == d[i + 1]);
        }
        lemma_leading_digits(d.drop_first(), r);
    }
}

/// An exponent as JSON writes it (`e` or `E`, an optional sign, digits) is
/// one that `f64::from_str` accepts.
proof fn lemma_exponent(has_exp: bool, marker: u8, sign: Seq<u8>, x: Seq<u8>)
    requires
        marker == 0x65 || marker == 0x45,
        sign == Seq::<u8>::empty() || sign == seq![0x2bu8] || sign == seq![0x2du8],
        all_digits(x),
        has_exp ==> x.len() > 0,
    ensures
        exponent_ok(
            if has_exp {
                seq![marker] + sign + x
            } else {
                Seq::empty()
            },
        ),
{
    if has_exp {
        let e = seq![marker] + sign + x;
        assert(e[0] == marker);
        assert(e.drop_first() =~= sign + x);
        lemma_leading_digits(x, Seq::empty());
        assert(x + Seq::<u8>::empty() =~= x);
        if sign.len() == 0 {
            assert(sign + x =~= x);
        } else {
            assert((sign + x)[0] == sign[0]);
            assert((sign + x).drop_first() =~= x);
        }
    }
}

/// A decimal literal as `f64::from_str` documents it: the sign `lead`
/// (none, `+` or `-`), the digits `a`, then `.` and the digits `f` when
/// `has_frac`, then the marker `marker`, the sign `sign` and the digits `x`
/// when `has_exp`.
pub open spec fn float_text(
    lead: Seq<u8>,
    a: Seq<u8>,
    has_frac: bool,
    f: Seq<u8>,
    has_exp: bool,
    marker: u8,
    sign: Seq<u8>,
    x: Seq<u8>,
) -> Seq<u8> {
    lead + a + (if has_frac {
        seq![0x2eu8] + f
    } else {
        Seq::empty()
    }) + (if has_exp {
        seq![marker] + sign + x
    } else {
        Seq::empty()
    })
}

/// The mantissa `a`, then `.` and `f` when `has_frac`, then `ep` (empty or
/// starting with an exponent marker): what `decimal_ok` makes of it.
#[verifier::spinoff_prover]
proof fn lemma_mantissa(a: Seq<u8>, has_frac: bool, f: Seq<u8>, ep: Seq<u8>)
    requires
        all_digits(a),
        all_digits(f),
        ep.len() > 0 ==> ep[0] == 0x65 || ep[0] == 0x45,
    ensures
        decimal_ok(
            a + (if has_frac {
                seq![0x2eu8] + f
            } else {
                Seq::empty()
            }) + ep,
        ) == ((if has_frac {
            a.len() > 0 || f.len() > 0
        } else {
            a.len() > 0
        }) && exponent_ok(ep)),
{
    let fp = if has_frac {
        seq![0x2eu8] + f
    } else {
        Seq::<u8>::empty()
    };
    let t = a + fp + ep;
    if has_frac {
        assert((fp + ep)[0] == 0x2e);
        assert(t =~= a + (fp + ep));
        lemma_leading_digits(a, fp + ep);
        assert(t.skip(a.len() as int) =~= fp + ep);
        let r1 = (fp + ep).drop_first();
        assert(r1 =~= f + ep);
        lemma_leading_digits(f, ep);
        assert(r1.skip(f.len() as int) =~= ep);
        let r = t.skip(leading_digits(t) as int);
        assert(r.len() > 0 && r[0] == 0x2e);
        assert(r.drop_first() =~= r1);
    } else {
        assert(t =~= a + ep);
        lemma_leading_digits(a, ep);
        assert(t.skip(a.len() as int) =~= ep);
        let r = t.skip(leading_digits(t) as int);
        assert(r.len() > 0 ==> r[0] != 0x2e);
    }
}

/// A sign in front is set aside, and a text that starts with a digit, a
/// point or an exponent marker is no `inf` or `nan`: what is left is a
/// decimal literal or not.
#[verifier::spinoff_prover]
proof fn lemma_strip_lead(lead: Seq<u8>, t: Seq<u8>)
    requires
        lead == Seq::<u8>::empty() || lead == seq![0x2bu8] || lead == seq![0x2du8],
        t.len() > 0,
        0x30 <= t[0] <= 0x39 || t[0] == 0x2e || t[0] == 0x65 || t[0] == 0x45,
    ensures
        spec_float_literal(lead + t) == decimal_ok(t),
{
    let s = lead + t;
    if lead.len() > 0 {
        assert(s[0] == lead[0]);
        assert(s.drop_first() =~= t);
    } else {
        assert(s =~= t);
    }
    lemma_not_word(t);
}

/// `f64::from_str` accepts every decimal literal: digits with an optional
/// fraction (digits on at least one side of the point), an optional
/// exponent (`e` or `E`, an optional sign, digits), and an optional sign in
/// front.
pub proof fn law_decimal_literals_accepted(
    lead: Seq<u8>,
    a: Seq<u8>,
    has_frac: bool,
    f: Seq<u8>,
    has_exp: bool,
    marker: u8,
    sign: Seq<u8>,
    x: Seq<u8>,
)
    requires
        lead == Seq::<u8>::empty() || lead == seq![0x2bu8] || lead == seq![0x2du8],
        all_digits(a),
        all_digits(f),
        has_frac ==> a.len() > 0 || f.len() > 0,
        !has_frac ==> a.len() > 0,
        all_digits(x),
        has_exp ==> x.len() > 0,
        marker == 0x65 || marker == 0x45,
        sign == Seq::<u8>::empty() || sign == seq![0x2bu8] || sign == seq![0x2du8],
    ensures
        spec_float_literal(float_text(lead, a, has_frac, f, has_exp, marker, sign, x)),
        spec_float_check(float_text(lead, a, has_frac, f, has_exp, marker, sign, x)) == Ok::<
            (),
            crate::errors::FloatErrorKind,
        >(()),
{
    let fp = if has_frac {
        seq![0x2eu8] + f
    } else {
        Seq::empty()
    };
    let ep = if has_exp {
        seq![marker] + sign + x
    } else {
        Seq::empty()
    };
    let t = a + fp + ep;
    assert(float_text(lead, a, has_frac, f, has_exp, marker, sign, x) =~= lead + t);
    if ep.len() > 0 {
        assert(ep[0] == marker);
    }
    lemma_exponent(has_exp, marker, sign, x);
    lemma_mantissa(a, has_frac, f, ep);
    if a.len() > 0 {
        assert(t[0] == a[0]);
    } else {
        assert(t[0] == 0x2e);
    }
    lemma_strip_lead(lead, t);
}

/// Every number of the JSON grammar with a fraction or an exponent, in
/// either case of `e` and with or without a sign on the exponent, is a
/// float literal that `f64::from_str` accepts.
pub proof fn law_json_floats_are_float_literals(
    neg: bool,
    a: Seq<u8>,
    has_frac: bool,
    f: Seq<u8>,
    has_exp: bool,
    marker: u8,
    sign: Seq<u8>,
    x: Seq<u8>,
)
    requires
        all_digits(a),
        a.len() > 0,
        all_digits(f),
        has_frac ==> f.len() > 0,
        all_digits(x),
        has_exp ==> x.len() > 0,
        marker == 0x65 || marker == 0x45,
        sign == Seq::<u8>::empty() || sign == seq![0x2bu8] || sign == seq![0x2du8],
    ensures
        spec_float_literal(json_number_text(neg, a, has_frac, f, has_exp, marker, sign, x)),
        spec_float_check(json_number_text(neg, a, has_frac, f, has_exp, marker, sign, x))
            == Ok::<(), crate::errors::FloatErrorKind>(()),
{
    let lead = if neg {
        seq![0x2du8]
    } else {
        Seq::<u8>::empty()
    };
    law_decimal_literals_accepted(lead, a, has_frac, f, has_exp, marker, sign, x);
    assert(json_number_text(neg, a, has_frac, f, has_exp, marker, sign, x) == float_text(
        lead,
        a,
        has_frac,
        f,
        has_exp,
        marker,
        sign,
        x,
    ));
}

/// `f64::from_str` refuses a literal whose exponent has no digits: `e` or
/// `E`, and perhaps a sign, at the end.
pub proof fn law_exponent_needs_digits(
    lead: Seq<u8>,
    a: Seq<u8>,
    has_frac: bool,
    f: Seq<u8>,
    marker: u8,
    sign: Seq<u8>,
)
    requires
        lead == Seq::<u8>::empty() || lead == seq![0x2bu8] || lead == seq![0x2du8],
        all_digits(a),
        all_digits(f),
        marker == 0x65 || marker == 0x45,
        sign == Seq::<u8>::empty() || sign == seq![0x2bu8] || sign == seq![0x2du8],
    ensures
        !spec_float_literal(float_text(lead, a, has_frac, f, true, marker, sign, Seq::empty())),
{
    let x = Seq::<u8>::empty();
    let fp = if has_frac {
        seq![0x2eu8] + f
    } else {
        Seq::empty()
    };
    let ep = seq![marker] + sign + x;
    let t = a + fp + ep;
    assert(float_text(lead, a, has_frac, f, true, marker, sign, x) =~= lead + t);
    assert(ep[0] == marker);
    let e2 = ep.drop_first();
    assert(e2 =~= sign);
    if sign.len() > 0 {
        assert(e2.drop_first() =~= Seq::<u8>::empty());
    }
    assert(!exponent_ok(ep));
    lemma_mantissa(a, has_frac, f, ep);
    if a.len() > 0 {
        assert(t[0] == a[0]);
    } else if has_frac {
        assert(t[0] == 0x2e);
    } else {
        assert(t[0] == marker);
    }
    lemma_strip_lead(lead, t);
}

/// `f64::from_str` refuses a literal with a second decimal point.
pub proof fn law_one_decimal_point(lead: Seq<u8>, a: Seq<u8>, f: Seq<u8>, g: Seq<u8>)
    requires
        lead == Seq::<u8>::empty() || lead == seq![0x2bu8] || lead == seq![0x2du8],
        all_digits(a),
        all_digits(f),
        all_digits(g),
    ensures
        !spec_float_literal(lead + a + seq![0x2eu8] + f + seq![0x2eu8] + g),
{
    let s = lead + a + seq![0x2eu8] + f + seq![0x2eu8] + g;
    let rest = seq![0x2eu8] + f + seq![0x2eu8] + g;
    let t = a + rest;
    if lead.len() > 0 {
        assert(s[0] == lead[0]);
        assert(s.drop_first() =~= t);
    } else {
        assert(s =~= t);
        if a.len() > 0 {
            assert(s[0] == a[0]);
        } else {
            assert(s[0] == 0x2e);
        }
    }
    lemma_not_word(t);
    assert(rest[0] == 0x2e);
    lemma_leading_digits(a, rest);
    assert(t.skip(a.len() as int) =~= rest);
    let r1 = rest.drop_first();
    let e = seq![0x2eu8] + g;
    assert(r1 =~= f + e);
    assert(e[0] == 0x2e);
    lemma_leading_digits(f, e);
    assert(r1.skip(f.len() as int) =~= e);
    assert(!exponent_ok(e));
    assert(!decimal_ok(t));
}

/// A text that starts with a digit, a point or an exponent marker is none of
/// `inf`, `infinity` and `nan`.
proof fn lemma_not_word(t: Seq<u8>)
    requires
        t.len() > 0,
        0x30 <= t[0] <= 0x39 || t[0] == 0x2e || t[0] == 0x65 || t[0] == 0x45,
    ensures
        !lower_eq(t, word_inf()),
        !lower_eq(t, word_infinity()),
        !lower_eq(t, word_nan()),
{
    assert(word_inf()[0] == 0x69);
    assert(word_infinity()[0] == 0x69);
    assert(word_nan()[0] == 0x6e);
}

/// The bytes of a JSON number text can all occur in a number and are
/// ASCII, and the text holds a decimal point or an exponent marker when it
/// has a fraction or an exponent.
#[verifier::spinoff_prover]
proof fn lemma_number_text_bytes(
    neg: bool,
    a: Seq<u8>,
    has_frac: bool,
    f: Seq<u8>,
    has_exp: bool,
    marker: u8,
    sign: Seq<u8>,
    x: Seq<u8>,
)
    requires
        all_digits(a),
        a.len() > 0,
        all_digits(f),
        has_frac ==> f.len() > 0,
        all_digits(x),
        has_exp ==> x.len() > 0,
        has_frac || has_exp,
        marker == 0x65 || marker == 0x45,
        sign == Seq::<u8>::empty() || sign == seq![0x2bu8] || sign == seq![0x2du8],
    ensures
        ({
            let s = json_number_text(neg, a, has_frac, f, has_exp, marker, sign, x);
            &&& forall|i: int| 0 <= i < s.len() ==> #[trigger] number_char_pred()(s[i]) && s[i] < 0x80
            &&& spec_is_float_number(s)
        }),
{
    let s = json_number_text(neg, a, has_frac, f, has_exp, marker, sign, x);
    let na = if neg {
        seq![0x2du8]
    } else {
        Seq::<u8>::empty()
    } + a;
    let fp = if has_frac {
        seq![0x2eu8] + f
    } else {
        Seq::empty()
    };
    let ep = if has_exp {
        seq![marker] + sign + x
    } else {
        Seq::empty()
    };
    assert(s =~= na + fp + ep);
    // every byte is one that can occur in a number, and below 0x80
    assert forall|i: int| 0 <= i < s.len() implies #[trigger] number_char_pred()(s[i]) && s[i]
        < 0x80 by {
        if i < na.len() {
            assert(s[i] == na[i]);
            if !neg {
                assert(na[i] == a[i]);
            } else if i > 0 {
                assert(na[i] == a[i - 1]);
            }
        } else if i < na.len() + fp.len() {
            assert(s[i] == fp[i - na.len()]);
            if i > na.len() {
                assert(fp[i - na.len()] == f[i - na.len() - 1]);
            }
        } else {
            let j = i - na.len() - fp.len();
            assert(s[i] == ep[j]);
            if j > 0 {
                assert(ep[j] == (sign + x)[j - 1]);
                if j - 1 >= sign.len() {
                    assert((sign + x)[j - 1] == x[j - 1 - sign.len()]);
                }
            }
        }
    }
    // the text holds a decimal point or an exponent marker
    let w = if has_frac {
        na.len() as int
    } else {
        (na.len() + fp.len()) as int
    };
    assert(s[w] == 0x2e || s[w] == 0x65 || s[w] == 0x45);
    assert(spec_is_float_number(s));
}

/// Every number of the JSON grammar with a fraction or an exponent parses
/// to a float that holds its text.
#[verifier::spinoff_prover]
pub proof fn law_json_floats_parse(
    neg: bool,
    a: Seq<u8>,
    has_frac: bool,
    f: Seq<u8>,
    has_exp: bool,
    marker: u8,
    sign: Seq<u8>,
    x: Seq<u8>,
)
    requires
        all_digits(a),
        a.len() > 0,
        all_digits(f),
        has_frac ==> f.len() > 0,
        all_digits(x),
        has_exp ==> x.len() > 0,
        has_frac || has_exp,
        marker == 0x65 || marker == 0x45,
        sign == Seq::<u8>::empty() || sign == seq![0x2bu8] || sign == seq![0x2du8],
    ensures
        spec_parse(json_number_text(neg, a, has_frac, f, has_exp, marker, sign, x)) == Ok::<
            SpecJson,
            ParseError,
        >(
            SpecJson::Float(
                decode_utf8(json_number_text(neg, a, has_frac, f, has_exp, marker, sign, x)),
            ),
        ),
{
    let s = json_number_text(neg, a, has_frac, f, has_exp, marker, sign, x);
    law_json_floats_are_float_literals(neg, a, has_frac, f, has_exp, marker, sign, x);
    lemma_number_text_bytes(neg, a, has_frac, f, has_exp, marker, sign, x);
    lemma_ascii_valid_utf8(s);
    assert(valid_utf8(s));
    let b = s[0];
    let t = s.drop_first();
    if neg {
        assert(b == 0x2d);
    } else {
        assert(b == a[0]);
    }
    assert(spec_value_kind(b) == Ok::<ValueKind, ParseError>(ValueKind::Number));
    assert(!spec_is_whitespace(b));
    assert forall|i: int| 0 <= i < t.len() implies number_char_pred()(#[trigger] t[i]) by {
        assert(t[i] == s[i + 1]);
    }
    lemma_take_while_all(t, number_char_pred());
    assert(seq![b] + take_while(t, number_char_pred()) =~= s);
    assert(t.skip(t.len() as int) =~= Seq::<u8>::empty());
    assert(spec_convert_to_float(s) == Ok::<Seq<char>, ParseError>(decode_utf8(s)));
    let v = SpecJson::Float(decode_utf8(s));
    assert(spec_number(s) == Ok::<SpecJson, ParseError>(v));
    assert(spec_nested_loop(s, initial_level(None)) == spec_emit(
        s,
        v,
        Seq::empty(),
        initial_level(None),
    ));
    assert(spec_nested(s, None) == spec_nested_loop(s, initial_level(None)));
}

} // verus!
