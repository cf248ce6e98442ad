use crate::errors::{IntErrorKind, ParseError};
use crate::json_value::{distinct_names, obj_insert, SpecJson};
use crate::laws::{
    decimal_text, escape_bytes, i64_text, law_string_escape_roundtrip, lemma_ascii_valid_utf8,
    lemma_decimal_text_digits, lemma_decimal_text_value, lemma_take_while_all,
};
use crate::numbers::{spec_float_literal, spec_i64_from_str};
use crate::parser::{
    initial_level, quote_pred, number_char_pred, spec_emit, spec_nested, spec_nested_loop, spec_number,
    spec_parse, word_alse, word_rue, word_ull, Level,
};
use crate::tokens::{
    lemma_take_while_unique, spec_bytes_to_string, spec_expect_rest, spec_read_until, spec_is_digit, spec_is_float_number,
    spec_is_number_char, spec_is_whitespace, spec_value_kind, ValueKind, BEGIN_ARRAY,
    BEGIN_OBJECT, DECIMAL_POINT, DOUBLE_QUOTE, END_ARRAY, END_OBJECT, EXPONENT, EXPONENT_UPPER,
    MINUS, NAME_SEPARATOR, VALUE_SEPARATOR,
};
use vstd::prelude::*;
use vstd::utf8::encode_utf8;

verus! {

/// A string written as JSON: its UTF-8 bytes, escaped, between quotes.
pub open spec fn write_string(c: Seq<char>) -> Seq<u8> {
    seq![DOUBLE_QUOTE] + escape_bytes(encode_utf8(c)) + seq![DOUBLE_QUOTE]
}

/// A value written as JSON text, with no whitespace.
pub open spec fn write_json(v: SpecJson) -> Seq<u8>
    decreases v,
{
    match v {
        SpecJson::Null => seq![0x6eu8, 0x75, 0x6c, 0x6c],
        SpecJson::Bool(b) => if b {
            seq![0x74u8, 0x72, 0x75, 0x65]
        } else {
            seq![0x66u8, 0x61, 0x6c, 0x73, 0x65]
        },
        SpecJson::Int(n) => i64_text(n),
        SpecJson::Float(text) => encode_utf8(text),
        SpecJson::Str(c) => write_string(c),
        SpecJson::Array(a) => seq![BEGIN_ARRAY] + write_items(a) + seq![END_ARRAY],
        SpecJson::Object(m) => seq![BEGIN_OBJECT] + write_members(m) + seq![END_OBJECT],
    }
}

/// The items of an array, separated by commas.
pub open spec fn write_items(a: Seq<SpecJson>) -> Seq<u8>
    decreases a,
{
    if a.len() == 0 {
        Seq::empty()
    } else {
        write_json(a[0]) + write_items_tail(a.subrange(1, a.len() as int))
    }
}

/// Items that follow an earlier one, each after a comma.
pub open spec fn write_items_tail(a: Seq<SpecJson>) -> Seq<u8>
    decreases a,
{
    if a.len() == 0 {
        Seq::empty()
    } else {
        seq![VALUE_SEPARATOR] + write_json(a[0]) + write_items_tail(a.subrange(1, a.len() as int))
    }
}

/// The members of an object, separated by commas.
pub open spec fn write_members(m: Seq<(Seq<char>, SpecJson)>) -> Seq<u8>
    decreases m,
{
    if m.len() == 0 {
        Seq::empty()
    } else {
        write_string(m[0].0) + seq![NAME_SEPARATOR] + write_json(m[0].1) + write_members_tail(
            m.subrange(1, m.len() as int),
        )
    }
}

/// Members that follow an earlier one, each after a comma.
pub open spec fn write_members_tail(m: Seq<(Seq<char>, SpecJson)>) -> Seq<u8>
    decreases m,
{
    if m.len() == 0 {
        Seq::empty()
    } else {
        seq![VALUE_SEPARATOR] + write_string(m[0].0) + seq![NAME_SEPARATOR] + write_json(m[0].1)
            + write_members_tail(m.subrange(1, m.len() as int))
    }
}


/// The text of a float that the writer can put down as it is: a JSON number
/// with a fraction or exponent, which `f64::from_str` accepts.
pub open spec fn float_text_ok(b: Seq<u8>) -> bool {
    &&& b.len() > 0
    &&& (spec_is_digit(b[0]) || b[0] == MINUS)
    &&& forall|i: int| 0 <= i < b.len() ==> spec_is_number_char(#[trigger] b[i])
    &&& spec_is_float_number(b)
    &&& spec_float_literal(b)
}

/// The values that `write_json` writes as JSON that reads back: every
/// float is held as JSON number text, and every object names each member
/// once.
pub open spec fn writable(v: SpecJson) -> bool
    decreases v,
{
    match v {
        SpecJson::Float(t) => float_text_ok(encode_utf8(t)),
        SpecJson::Array(a) => forall|i: int| 0 <= i < a.len() ==> writable(#[trigger] a[i]),
        SpecJson::Object(m) => distinct_names(m) && forall|i: int|
            0 <= i < m.len() ==> writable(#[trigger] m[i].1),
        _ => true,
    }
}

proof fn lemma_expect_rest_prefix(w: Seq<u8>, z: Seq<u8>)
    ensures
        spec_expect_rest(w + z, w) == Ok::<Seq<u8>, ParseError>(z),
    decreases w.len(),
{
    if w.len() > 0 {
        assert((w + z).drop_first() =~= w.drop_first() + z);
        lemma_expect_rest_prefix(w.drop_first(), z);
    } else {
        assert(w + z =~= z);
    }
}

/// A number whose text `b` is followed by a byte that cannot continue it.
proof fn lemma_read_number_text(b: Seq<u8>, z: Seq<u8>, lv: Level)
    requires
        b.len() > 0,
        spec_value_kind(b[0]) == Ok::<ValueKind, ParseError>(ValueKind::Number),
        forall|i: int| 0 <= i < b.len() ==> spec_is_number_char(#[trigger] b[i]),
        z.len() == 0 || !spec_is_number_char(z[0]),
    ensures
        spec_nested_loop(b + z, lv) == match spec_number(b) {
            Ok(v) => spec_emit(b + z, v, z, lv),
            Err(e) => Err(e),
        },
{
    let s = b + z;
    let b1 = b.drop_first();
    let t = s.drop_first();
    assert(t =~= b1 + z);
    assert(s[0] == b[0]);
    assert forall|i: int| 0 <= i < b1.len() implies number_char_pred()(#[trigger] b1[i]) by {
        assert(b1[i] == b[i + 1]);
    }
    if z.len() == 0 {
        assert(t =~= b1);
        lemma_take_while_all(b1, number_char_pred());
    } else {
        lemma_take_while_unique(t, b1, z, number_char_pred());
    }
    assert(t.skip(b1.len() as int) =~= z);
    assert(seq![b[0]] + b1 =~= b);
    assert(!spec_is_whitespace(b[0]));
}

proof fn lemma_int_text(n: i64)
    ensures
        i64_text(n).len() > 0,
        spec_value_kind(i64_text(n)[0]) == Ok::<ValueKind, ParseError>(ValueKind::Number),
        forall|i: int| 0 <= i < i64_text(n).len() ==> spec_is_number_char(#[trigger] i64_text(n)[i]),
        spec_number(i64_text(n)) == Ok::<SpecJson, ParseError>(SpecJson::Int(n)),
{
    let text = i64_text(n);
    let m: nat = if n < 0 {
        (-n) as nat
    } else {
        n as nat
    };
    lemma_decimal_text_digits(m);
    lemma_decimal_text_value(m, n < 0);
    let d = decimal_text(m);
    assert forall|i: int| 0 <= i < text.len() implies spec_is_number_char(#[trigger] text[i])
        && text[i] < 0x80 && text[i] != DECIMAL_POINT && text[i] != EXPONENT && text[i]
        != EXPONENT_UPPER by {
        if n < 0 {
            if i > 0 {
                assert(text[i] == d[i - 1]);
            }
        }
    }
    lemma_ascii_valid_utf8(text);
    assert(!spec_is_float_number(text));
    if n < 0 {
        assert(text.drop_first() =~= d);
        assert(text.len() >= 2);
    } else {
        assert(text =~= d);
    }
    assert(spec_i64_from_str(text) == Ok::<i64, IntErrorKind>(n));
}

proof fn lemma_float_text(t: Seq<char>)
    requires
        float_text_ok(encode_utf8(t)),
    ensures
        spec_number(encode_utf8(t)) == Ok::<SpecJson, ParseError>(SpecJson::Float(t)),
{
    vstd::utf8::encode_utf8_valid_utf8(t);
    vstd::utf8::encode_utf8_decode_utf8(t);
}

proof fn lemma_write_json_nonempty(v: SpecJson)
    requires
        writable(v),
    ensures
        write_json(v).len() > 0,
{
    match v {
        SpecJson::Int(n) => {
            lemma_int_text(n);
        },
        _ => {},
    }
}

pub open spec fn array_level(acc: Seq<SpecJson>) -> Level {
    Level { array: Some(acc), object: None, key: Seq::empty() }
}

pub open spec fn object_level(acc: Seq<(Seq<char>, SpecJson)>) -> Level {
    Level { array: None, object: Some(acc), key: Seq::empty() }
}

/* One byte read in a known state. */

proof fn lemma_step_close_array(acc: Seq<SpecJson>, y: Seq<u8>)
    ensures
        spec_nested_loop(seq![END_ARRAY] + y, array_level(acc)) == Ok::<
            (SpecJson, Seq<u8>),
            ParseError,
        >((SpecJson::Array(acc), y)),
{
    assert((seq![END_ARRAY] + y).drop_first() =~= y);
}

proof fn lemma_step_close_object(acc: Seq<(Seq<char>, SpecJson)>, y: Seq<u8>)
    ensures
        spec_nested_loop(seq![END_OBJECT] + y, object_level(acc)) == Ok::<
            (SpecJson, Seq<u8>),
            ParseError,
        >((SpecJson::Object(acc), y)),
{
    assert((seq![END_OBJECT] + y).drop_first() =~= y);
}

proof fn lemma_step_array_comma(acc: Seq<SpecJson>, t: Seq<u8>)
    ensures
        spec_nested_loop(seq![VALUE_SEPARATOR] + t, array_level(acc)) == match spec_nested(
            t,
            None,
        ) {
            Err(e) => Err(e),
            Ok((v, t2)) => spec_emit(seq![VALUE_SEPARATOR] + t, v, t2, array_level(acc)),
        },
{
    assert((seq![VALUE_SEPARATOR] + t).drop_first() =~= t);
}

proof fn lemma_step_object_comma(acc: Seq<(Seq<char>, SpecJson)>, t: Seq<u8>)
    ensures
        spec_nested_loop(seq![VALUE_SEPARATOR] + t, object_level(acc)) == spec_nested_loop(
            t,
            object_level(acc),
        ),
{
    assert((seq![VALUE_SEPARATOR] + t).drop_first() =~= t);
}

proof fn lemma_step_name(acc: Seq<(Seq<char>, SpecJson)>, t: Seq<u8>)
    ensures
        spec_nested_loop(seq![DOUBLE_QUOTE] + t, object_level(acc)) == match spec_read_until(
            t,
            quote_pred(),
        ) {
            Err(e) => Err(e),
            Ok((bytes, t2)) => if t2.len() < t.len() + 1 {
                spec_nested_loop(t2, Level { key: bytes, ..object_level(acc) })
            } else {
                Err(ParseError::UnexpectedEof)
            },
        },
{
    assert((seq![DOUBLE_QUOTE] + t).drop_first() =~= t);
    if let Ok((bytes, t2)) = spec_read_until(t, quote_pred()) {
        assert(Seq::<u8>::empty() + bytes =~= bytes);
    }
}

proof fn lemma_step_colon(lv: Level, t: Seq<u8>)
    requires
        lv.object is Some,
    ensures
        spec_nested_loop(seq![NAME_SEPARATOR] + t, lv) == match spec_bytes_to_string(lv.key) {
            Err(e) => Err(e),
            Ok(key) => match spec_nested(t, None) {
                Err(e) => Err(e),
                Ok((v, t2)) => if t2.len() < t.len() + 1 {
                    spec_nested_loop(
                        t2,
                        Level {
                            object: Some(obj_insert(lv.object->0, key, v)),
                            key: Seq::empty(),
                            ..lv
                        },
                    )
                } else {
                    Err(ParseError::UnexpectedEof)
                },
            },
        },
{
    assert((seq![NAME_SEPARATOR] + t).drop_first() =~= t);
}

/* Reading what the writer wrote. */

/// A written value followed by a byte that cannot continue a number reads
/// as that value.
pub proof fn lemma_read_written(v: SpecJson, z: Seq<u8>, lv: Level)
    requires
        writable(v),
        z.len() == 0 || !spec_is_number_char(z[0]),
        lv.array is Some || lv.object is None,
    ensures
        spec_nested_loop(write_json(v) + z, lv) == spec_emit(write_json(v) + z, v, z, lv),
    decreases v, 1int,
{
    match v {
        SpecJson::Array(a) => {
            lemma_read_array(a, z, lv);
        },
        SpecJson::Object(m) => {
            lemma_read_object(m, z, lv);
        },
        SpecJson::Str(c) => {
            lemma_read_string(c, z, lv);
        },
        _ => {
            lemma_read_scalar(v, z, lv);
        },
    }
}

#[verifier::spinoff_prover]
#[verifier::rlimit(40)]
proof fn lemma_read_scalar(v: SpecJson, z: Seq<u8>, lv: Level)
    requires
        writable(v),
        z.len() == 0 || !spec_is_number_char(z[0]),
        v is Null || v is Bool || v is Int || v is Float,
    ensures
        spec_nested_loop(write_json(v) + z, lv) == spec_emit(write_json(v) + z, v, z, lv),
{
    let w = write_json(v);
    let s = w + z;
    let t = s.drop_first();
    assert(s[0] == w[0]);
    assert(t =~= w.drop_first() + z);
    match v {
        SpecJson::Null => {
            lemma_expect_rest_prefix(word_ull(), z);
            assert(w.drop_first() =~= word_ull());
        },
        SpecJson::Bool(b) => {
            if b {
                lemma_expect_rest_prefix(word_rue(), z);
                assert(w.drop_first() =~= word_rue());
            } else {
                lemma_expect_rest_prefix(word_alse(), z);
                assert(w.drop_first() =~= word_alse());
            }
        },
        SpecJson::Int(n) => {
            lemma_int_text(n);
            lemma_read_number_text(w, z, lv);
        },
        SpecJson::Float(text) => {
            lemma_float_text(text);
            lemma_read_number_text(w, z, lv);
        },
        _ => {},
    }
}

proof fn lemma_read_string(c: Seq<char>, z: Seq<u8>, lv: Level)
    requires
        lv.array is Some || lv.object is None,
    ensures
        spec_nested_loop(write_json(SpecJson::Str(c)) + z, lv) == spec_emit(
            write_json(SpecJson::Str(c)) + z,
            SpecJson::Str(c),
            z,
            lv,
        ),
{
    let w = write_json(SpecJson::Str(c));
    let s = w + z;
    let t = s.drop_first();
    assert(s[0] == DOUBLE_QUOTE);
    let e = encode_utf8(c);
    law_string_escape_roundtrip(e, z);
    assert(t =~= escape_bytes(e) + seq![DOUBLE_QUOTE] + z);
    vstd::utf8::encode_utf8_valid_utf8(c);
    vstd::utf8::encode_utf8_decode_utf8(c);
}

proof fn lemma_read_array(a: Seq<SpecJson>, z: Seq<u8>, lv: Level)
    requires
        writable(SpecJson::Array(a)),
    ensures
        spec_nested_loop(write_json(SpecJson::Array(a)) + z, lv) == spec_emit(
            write_json(SpecJson::Array(a)) + z,
            SpecJson::Array(a),
            z,
            lv,
        ),
    decreases SpecJson::Array(a), 0int,
{
    let s = write_json(SpecJson::Array(a)) + z;
    let t = write_items(a) + seq![END_ARRAY] + z;
    assert(s =~= seq![BEGIN_ARRAY] + t);
    assert(s.drop_first() =~= t);
    assert(s[0] == BEGIN_ARRAY);
    lemma_read_items(Seq::empty(), a, z);
    assert(Seq::<SpecJson>::empty() + a =~= a);
    assert(initial_level(Some(ValueKind::BeginArray)) == array_level(Seq::empty()));
    assert(spec_nested(t, Some(ValueKind::BeginArray)) == Ok::<(SpecJson, Seq<u8>), ParseError>(
        (SpecJson::Array(a), z),
    ));
}

proof fn lemma_read_object(m: Seq<(Seq<char>, SpecJson)>, z: Seq<u8>, lv: Level)
    requires
        writable(SpecJson::Object(m)),
    ensures
        spec_nested_loop(write_json(SpecJson::Object(m)) + z, lv) == spec_emit(
            write_json(SpecJson::Object(m)) + z,
            SpecJson::Object(m),
            z,
            lv,
        ),
    decreases SpecJson::Object(m), 0int,
{
    let s = write_json(SpecJson::Object(m)) + z;
    let t = write_members(m) + seq![END_OBJECT] + z;
    assert(s =~= seq![BEGIN_OBJECT] + t);
    assert(s.drop_first() =~= t);
    assert(s[0] == BEGIN_OBJECT);
    assert(Seq::<(Seq<char>, SpecJson)>::empty() + m =~= m);
    lemma_read_members(Seq::empty(), m, z);
    assert(initial_level(Some(ValueKind::BeginObject)) == object_level(Seq::empty()));
    assert(spec_nested(t, Some(ValueKind::BeginObject)) == Ok::<(SpecJson, Seq<u8>), ParseError>(
        (SpecJson::Object(m), z),
    ));
}

/// The items of an array after `[`, then `]`.
proof fn lemma_read_items(acc: Seq<SpecJson>, a: Seq<SpecJson>, y: Seq<u8>)
    requires
        forall|i: int| 0 <= i < a.len() ==> writable(#[trigger] a[i]),
    ensures
        spec_nested_loop(write_items(a) + seq![END_ARRAY] + y, array_level(acc)) == Ok::<
            (SpecJson, Seq<u8>),
            ParseError,
        >((SpecJson::Array(acc + a), y)),
    decreases a, 0int,
{
    if a.len() == 0 {
        assert(write_items(a) + seq![END_ARRAY] + y =~= seq![END_ARRAY] + y);
        lemma_step_close_array(acc, y);
        assert(acc + a =~= acc);
    } else {
        let a1 = a.subrange(1, a.len() as int);
        let z = write_items_tail(a1) + seq![END_ARRAY] + y;
        let s = write_json(a[0]) + z;
        assert(write_items(a) + seq![END_ARRAY] + y =~= s);
        if a1.len() > 0 {
            assert(z[0] == VALUE_SEPARATOR);
        } else {
            assert(z[0] == END_ARRAY);
        }
        lemma_read_written(a[0], z, array_level(acc));
        lemma_write_json_nonempty(a[0]);
        assert forall|i: int| 0 <= i < a1.len() implies writable(#[trigger] a1[i]) by {
            assert(a1[i] == a[i + 1]);
        }
        lemma_read_items_tail(acc.push(a[0]), a1, y);
        assert(acc.push(a[0]) + a1 =~= acc + a);
        assert(Level { array: Some(acc.push(a[0])), ..array_level(acc) } == array_level(
            acc.push(a[0]),
        ));
    }
}

/// Further items of an array, each after a comma, then `]`.
#[verifier::spinoff_prover]
#[verifier::rlimit(40)]
proof fn lemma_read_items_tail(acc: Seq<SpecJson>, a: Seq<SpecJson>, y: Seq<u8>)
    requires
        forall|i: int| 0 <= i < a.len() ==> writable(#[trigger] a[i]),
    ensures
        spec_nested_loop(write_items_tail(a) + seq![END_ARRAY] + y, array_level(acc)) == Ok::<
            (SpecJson, Seq<u8>),
            ParseError,
        >((SpecJson::Array(acc + a), y)),
    decreases a, 0int,
{
    let s = write_items_tail(a) + seq![END_ARRAY] + y;
    if a.len() == 0 {
        assert(s =~= seq![END_ARRAY] + y);
        lemma_step_close_array(acc, y);
        assert(acc + a =~= acc);
    } else {
        let a1 = a.subrange(1, a.len() as int);
        let z = write_items_tail(a1) + seq![END_ARRAY] + y;
        let t = write_json(a[0]) + z;
        assert(s =~= seq![VALUE_SEPARATOR] + t);
        if a1.len() > 0 {
            assert(z[0] == VALUE_SEPARATOR);
        } else {
            assert(z[0] == END_ARRAY);
        }
        lemma_read_written(a[0], z, initial_level(None));
        lemma_write_json_nonempty(a[0]);
        assert(spec_nested(t, None) == Ok::<(SpecJson, Seq<u8>), ParseError>((a[0], z)));
        lemma_step_array_comma(acc, t);
        assert forall|i: int| 0 <= i < a1.len() implies writable(#[trigger] a1[i]) by {
            assert(a1[i] == a[i + 1]);
        }
        lemma_read_items_tail(acc.push(a[0]), a1, y);
        assert(acc.push(a[0]) + a1 =~= acc + a);
        assert(Level { array: Some(acc.push(a[0])), ..array_level(acc) } == array_level(
            acc.push(a[0]),
        ));
    }
}

/// One member of an object: its name, `:`, its value.
#[verifier::spinoff_prover]
#[verifier::rlimit(40)]
proof fn lemma_read_member(
    acc: Seq<(Seq<char>, SpecJson)>,
    k: Seq<char>,
    v: SpecJson,
    z: Seq<u8>,
)
    requires
        forall|j: int| 0 <= j < acc.len() ==> acc[j].0 != k,
        writable(v),
        z.len() > 0 && !spec_is_number_char(z[0]),
    ensures
        spec_nested_loop(write_string(k) + seq![NAME_SEPARATOR] + write_json(v) + z, object_level(acc))
            == spec_nested_loop(z, object_level(acc.push((k, v)))),
    decreases v, 2int,
{
    let e = encode_utf8(k);
    let t3 = write_json(v) + z;
    let t2 = seq![NAME_SEPARATOR] + t3;
    let t = escape_bytes(e) + seq![DOUBLE_QUOTE] + t2;
    let s = write_string(k) + seq![NAME_SEPARATOR] + write_json(v) + z;
    assert(s =~= seq![DOUBLE_QUOTE] + t);
    law_string_escape_roundtrip(e, t2);
    lemma_step_name(acc, t);
    let lv1 = Level { key: e, ..object_level(acc) };
    assert(spec_nested_loop(s, object_level(acc)) == spec_nested_loop(t2, lv1));
    vstd::utf8::encode_utf8_valid_utf8(k);
    vstd::utf8::encode_utf8_decode_utf8(k);
    lemma_read_written(v, z, initial_level(None));
    lemma_write_json_nonempty(v);
    assert(spec_nested(t3, None) == Ok::<(SpecJson, Seq<u8>), ParseError>((v, z)));
    lemma_step_colon(lv1, t3);
    crate::json_value::lemma_key_index(acc, k);
    assert(obj_insert(acc, k, v) == acc.push((k, v)));
    assert(Level { object: Some(obj_insert(acc, k, v)), key: Seq::empty(), ..lv1 } == object_level(
        acc.push((k, v)),
    ));
}

/// The members of an object after `{`, then `}`.
proof fn lemma_read_members(acc: Seq<(Seq<char>, SpecJson)>, m: Seq<(Seq<char>, SpecJson)>, y: Seq<u8>)
    requires
        distinct_names(acc + m),
        forall|i: int| 0 <= i < m.len() ==> writable(#[trigger] m[i].1),
    ensures
        spec_nested_loop(write_members(m) + seq![END_OBJECT] + y, object_level(acc)) == Ok::<
            (SpecJson, Seq<u8>),
            ParseError,
        >((SpecJson::Object(acc + m), y)),
    decreases m, 0int,
{
    if m.len() == 0 {
        assert(write_members(m) + seq![END_OBJECT] + y =~= seq![END_OBJECT] + y);
        lemma_step_close_object(acc, y);
        assert(acc + m =~= acc);
    } else {
        let m1 = m.subrange(1, m.len() as int);
        let z = write_members_tail(m1) + seq![END_OBJECT] + y;
        let s = write_string(m[0].0) + seq![NAME_SEPARATOR] + write_json(m[0].1) + z;
        assert(write_members(m) + seq![END_OBJECT] + y =~= s);
        if m1.len() > 0 {
            assert(z[0] == VALUE_SEPARATOR);
        } else {
            assert(z[0] == END_OBJECT);
        }
        assert forall|j: int| 0 <= j < acc.len() implies acc[j].0 != m[0].0 by {
            assert((acc + m)[j] == acc[j]);
            assert((acc + m)[acc.len() as int] == m[0]);
        }
        lemma_read_member(acc, m[0].0, m[0].1, z);
        assert forall|i: int| 0 <= i < m1.len() implies writable(#[trigger] m1[i].1) by {
            assert(m1[i] == m[i + 1]);
        }
        assert(acc.push(m[0]) + m1 =~= acc + m);
        assert(acc.push((m[0].0, m[0].1)) == acc.push(m[0]));
        lemma_read_members_tail(acc.push(m[0]), m1, y);
    }
}

/// Further members of an object, each after a comma, then `}`.
#[verifier::spinoff_prover]
#[verifier::rlimit(40)]
proof fn lemma_read_members_tail(
    acc: Seq<(Seq<char>, SpecJson)>,
    m: Seq<(Seq<char>, SpecJson)>,
    y: Seq<u8>,
)
    requires
        distinct_names(acc + m),
        forall|i: int| 0 <= i < m.len() ==> writable(#[trigger] m[i].1),
    ensures
        spec_nested_loop(write_members_tail(m) + seq![END_OBJECT] + y, object_level(acc)) == Ok::<
            (SpecJson, Seq<u8>),
            ParseError,
        >((SpecJson::Object(acc + m), y)),
    decreases m, 0int,
{
    let s = write_members_tail(m) + seq![END_OBJECT] + y;
    if m.len() == 0 {
        assert(s =~= seq![END_OBJECT] + y);
        lemma_step_close_object(acc, y);
        assert(acc + m =~= acc);
    } else {
        let m1 = m.subrange(1, m.len() as int);
        let z = write_members_tail(m1) + seq![END_OBJECT] + y;
        let t = write_string(m[0].0) + seq![NAME_SEPARATOR] + write_json(m[0].1) + z;
        assert(s =~= seq![VALUE_SEPARATOR] + t);
        lemma_step_object_comma(acc, t);
        if m1.len() > 0 {
            assert(z[0] == VALUE_SEPARATOR);
        } else {
            assert(z[0] == END_OBJECT);
        }
        assert forall|j: int| 0 <= j < acc.len() implies acc[j].0 != m[0].0 by {
            assert((acc + m)[j] == acc[j]);
            assert((acc + m)[acc.len() as int] == m[0]);
        }
        lemma_read_member(acc, m[0].0, m[0].1, z);
        assert forall|i: int| 0 <= i < m1.len() implies writable(#[trigger] m1[i].1) by {
            assert(m1[i] == m[i + 1]);
        }
        assert(acc.push(m[0]) + m1 =~= acc + m);
        assert(acc.push((m[0].0, m[0].1)) == acc.push(m[0]));
        lemma_read_members_tail(acc.push(m[0]), m1, y);
    }
}

/// Every value that the writer can put down as JSON text parses back to
/// itself: null, booleans, integers, floats, strings (with `"`, `\\` and
/// control bytes escaped), and arrays and objects of such values.
pub proof fn law_write_parse_roundtrip(v: SpecJson)
    requires
        writable(v),
    ensures
        spec_parse(write_json(v)) == Ok::<SpecJson, ParseError>(v),
{
    lemma_read_written(v, Seq::empty(), initial_level(None));
    assert(write_json(v) + Seq::<u8>::empty() =~= write_json(v));
    lemma_write_json_nonempty(v);
}

} // verus!
