//! Reading text never meets invalid UTF-8: the strings and member names
//! that a document read from valid UTF-8 holds are valid UTF-8 themselves.
use crate::errors::ParseError;
use crate::json_value::SpecJson;
use crate::laws::{lemma_ascii_valid_utf8, lemma_take_while_props};
use crate::parser::{
    initial_level, number_char_pred, quote_pred, spec_emit, spec_nested, spec_nested_loop,
    spec_number, spec_parse, word_alse, word_rue, word_ull, Level,
};
use crate::tokens::{
    prepend, spec_bytes_to_string, spec_encode_code_point, spec_expect_rest, spec_hex_digit,
    spec_is_whitespace, spec_read_hex4, spec_read_until, spec_simple_escape, spec_unicode_escape,
    spec_value_kind, take_while, ValueKind, BACKSLASH, BOOLEAN_TRUE, DOUBLE_QUOTE, LETTER_U,
};
use vstd::prelude::*;
use vstd::utf8::*;

verus! {

/// Dropping a first byte below 0x80 from valid UTF-8 leaves valid UTF-8.
proof fn lemma_drop_ascii(s: Seq<u8>)
    requires
        valid_utf8(s),
        s.len() > 0,
        s[0] < 0x80,
    ensures
        valid_utf8(s.drop_first()),
{
    assert(pop_first_scalar(s) =~= s.drop_first());
}

/// Dropping `k` leading bytes below 0x80 from valid UTF-8 leaves valid UTF-8.
proof fn lemma_skip_ascii(s: Seq<u8>, k: int)
    requires
        valid_utf8(s),
        0 <= k <= s.len(),
        forall|i: int| 0 <= i < k ==> #[trigger] s[i] < 0x80,
    ensures
        valid_utf8(s.skip(k)),
    decreases k,
{
    if k == 0 {
        assert(s.skip(0) =~= s);
    } else {
        lemma_drop_ascii(s);
        let t = s.drop_first();
        assert forall|i: int| 0 <= i < k - 1 implies #[trigger] t[i] < 0x80 by {
            assert(t[i] == s[i + 1]);
        }
        lemma_skip_ascii(t, k - 1);
        assert(t.skip(k - 1) =~= s.skip(k));
    }
}

/// The bytes that a code point is encoded to are valid UTF-8.
proof fn lemma_encode_code_point_valid(code: u32, rest: Seq<u8>)
    ensures
        spec_encode_code_point(code, rest) matches Ok((bytes, _)) ==> valid_utf8(bytes),
{
    if is_scalar(code) {
        let c = code as char;
        assert(c as u32 == code);
        encode_utf8_valid_utf8(seq![c]);
        assert(seq![c].drop_first() =~= Seq::<char>::empty());
        assert(encode_utf8(Seq::<char>::empty()) =~= Seq::<u8>::empty());
        assert(seq![c][0] == c);
        assert(encode_utf8(seq![c]) =~= encode_scalar(code));
    }
}

/// What follows four hex digits in valid UTF-8 is valid UTF-8.
proof fn lemma_read_hex4_valid(s: Seq<u8>)
    requires
        valid_utf8(s),
    ensures
        spec_read_hex4(s) matches Ok((_, r)) ==> valid_utf8(r),
{
    if s.len() >= 4 && spec_read_hex4(s) is Ok {
        let h = s.take(4);
        assert forall|b: u8| spec_hex_digit(b) is Some implies b < 0x80 by {}
        assert forall|i: int| 0 <= i < 4 implies #[trigger] s[i] < 0x80 by {
            assert(h[i] == s[i]);
        }
        lemma_skip_ascii(s, 4);
    }
}

/// A `\u` escape read from valid UTF-8 stands for valid UTF-8 and leaves
/// valid UTF-8 after it.
proof fn lemma_unicode_escape_valid(u: Seq<u8>)
    requires
        valid_utf8(u),
    ensures
        spec_unicode_escape(u) matches Ok((bytes, r)) ==> valid_utf8(bytes) && valid_utf8(r),
        spec_unicode_escape(u) matches Err(e) ==> !(e is InvalidUtf8),
{
    lemma_read_hex4_valid(u);
    if let Ok((first, u1)) = spec_read_hex4(u) {
        lemma_encode_code_point_valid(first, u1);
        if u1.len() >= 2 && u1[0] == BACKSLASH && u1[1] == LETTER_U {
            lemma_skip_ascii(u1, 2);
            lemma_read_hex4_valid(u1.skip(2));
            if let Ok((second, u2)) = spec_read_hex4(u1.skip(2)) {
                lemma_encode_code_point_valid(
                    crate::tokens::surrogate_pair_value(first, second),
                    u2,
                );
            }
        }
    }
}

/// Bytes that are neither a backslash nor a quote are copied into a string
/// body as they are.
proof fn lemma_read_until_plain(s: Seq<u8>, k: int)
    requires
        0 <= k <= s.len(),
        forall|i: int| 0 <= i < k ==> #[trigger] s[i] != BACKSLASH && s[i] != DOUBLE_QUOTE,
    ensures
        spec_read_until(s, quote_pred()) == prepend(
            s.take(k),
            spec_read_until(s.skip(k), quote_pred()),
        ),
    decreases k,
{
    let stop = quote_pred();
    if k == 0 {
        assert(s.skip(0) =~= s);
        if let Ok((v, r)) = spec_read_until(s, stop) {
            assert(s.take(0) + v =~= v);
        }
    } else {
        let t = s.drop_first();
        assert forall|i: int| 0 <= i < k - 1 implies #[trigger] t[i] != BACKSLASH && t[i]
            != DOUBLE_QUOTE by {
            assert(t[i] == s[i + 1]);
        }
        lemma_read_until_plain(t, k - 1);
        assert(t.skip(k - 1) =~= s.skip(k));
        assert(s[0] != BACKSLASH && !stop(s[0]));
        if let Ok((v, r)) = spec_read_until(s.skip(k), stop) {
            assert(seq![s[0]] + (t.take(k - 1) + v) =~= s.take(k) + v);
        }
    }
}

/// A string body read from valid UTF-8 is valid UTF-8, and so is the input
/// after its closing quote.
proof fn lemma_read_until_valid(s: Seq<u8>)
    requires
        valid_utf8(s),
    ensures
        spec_read_until(s, quote_pred()) matches Ok((bytes, r)) ==> valid_utf8(bytes) && valid_utf8(
            r,
        ),
        spec_read_until(s, quote_pred()) matches Err(e) ==> !(e is InvalidUtf8),
    decreases s.len(),
{
    let stop = quote_pred();
    if s.len() == 0 {
        return ;
    }
    if s[0] == BACKSLASH {
        lemma_drop_ascii(s);
        let t = s.drop_first();
        if t.len() > 0 {
            let e = t[0];
            let u = t.drop_first();
            if spec_simple_escape(e) is Some {
                lemma_drop_ascii(t);
                lemma_read_until_valid(u);
                let x = spec_simple_escape(e)->0;
                lemma_ascii_valid_utf8(seq![x]);
                if let Ok((v, r)) = spec_read_until(u, stop) {
                    valid_utf8_concat(seq![x], v);
                }
            } else if e == LETTER_U {
                lemma_drop_ascii(t);
                lemma_unicode_escape_valid(u);
                if let Ok((bytes, u2)) = spec_unicode_escape(u) {
                    if u2.len() < u.len() {
                        lemma_read_until_valid(u2);
                        if let Ok((v, r)) = spec_read_until(u2, stop) {
                            valid_utf8_concat(bytes, v);
                        }
                    }
                }
            }
        }
    } else if s[0] == DOUBLE_QUOTE {
        lemma_drop_ascii(s);
    } else {
        let k = length_of_first_scalar(s);
        assert forall|i: int| 0 <= i < k implies #[trigger] s[i] != BACKSLASH && s[i]
            != DOUBLE_QUOTE by {
            if i > 0 {
                assert(is_continuation_byte(s[i]));
            }
        }
        lemma_read_until_plain(s, k);
        reveal_with_fuel(is_char_boundary, 2);
        assert(is_char_boundary(s, k));
        valid_utf8_split(s, k);
        assert(s.take(k) =~= s.subrange(0, k));
        assert(s.skip(k) =~= s.subrange(k, s.len() as int));
        lemma_read_until_valid(s.skip(k));
        if let Ok((v, r)) = spec_read_until(s.skip(k), stop) {
            valid_utf8_concat(s.take(k), v);
        }
    }
}

/// After the checked bytes of a keyword, valid UTF-8 stays valid.
proof fn lemma_expect_rest_valid(s: Seq<u8>, w: Seq<u8>)
    requires
        valid_utf8(s),
        forall|i: int| 0 <= i < w.len() ==> #[trigger] w[i] < 0x80,
    ensures
        spec_expect_rest(s, w) matches Ok(t) ==> valid_utf8(t),
        spec_expect_rest(s, w) matches Err(e) ==> !(e is InvalidUtf8),
    decreases w.len(),
{
    if w.len() > 0 && s.len() > 0 && s[0] == w[0] {
        lemma_drop_ascii(s);
        let w2 = w.drop_first();
        assert forall|i: int| 0 <= i < w2.len() implies #[trigger] w2[i] < 0x80 by {
            assert(w2[i] == w[i + 1]);
        }
        lemma_expect_rest_valid(s.drop_first(), w2);
    }
}

/// What a level comes to on valid UTF-8: never an `InvalidUtf8` error, and
/// valid UTF-8 left after the value.
pub open spec fn utf8_clean(r: Result<(SpecJson, Seq<u8>), ParseError>) -> bool {
    match r {
        Ok((_, rest)) => valid_utf8(rest),
        Err(e) => !(e is InvalidUtf8),
    }
}

/// A level read from valid UTF-8, with the member names gathered so far
/// valid UTF-8, meets no invalid UTF-8.
proof fn lemma_loop_utf8(s: Seq<u8>, lv: Level)
    requires
        valid_utf8(s),
        valid_utf8(lv.key),
    ensures
        utf8_clean(spec_nested_loop(s, lv)),
    decreases s.len(), 2int,
{
    if s.len() == 0 {
        return ;
    }
    let b = s[0];
    let t = s.drop_first();
    if spec_is_whitespace(b) {
        lemma_drop_ascii(s);
        lemma_loop_utf8(t, lv);
        return ;
    }
    if let Ok(k) = spec_value_kind(b) {
        lemma_drop_ascii(s);
        if k == ValueKind::BeginArray || k == ValueKind::BeginObject {
            lemma_utf8_sub(s, lv, Some(k));
        } else if k == ValueKind::ValueSeparator {
            if lv.array is Some {
                lemma_utf8_sub(s, lv, None);
            } else {
                lemma_loop_utf8(t, lv);
            }
        } else if k == ValueKind::NameSeparator {
            if lv.object is Some {
                lemma_utf8_name(s, lv);
            } else {
                lemma_loop_utf8(t, lv);
            }
        } else if k == ValueKind::Null || k == ValueKind::Bool {
            lemma_utf8_keyword(s, lv);
        } else if k == ValueKind::Number {
            lemma_utf8_number(s, lv);
        } else if k == ValueKind::String {
            lemma_utf8_string(s, lv);
        }
    }
}

/// A nested level (after `[` or `{`), or a value after `,` in an array.
proof fn lemma_utf8_sub(s: Seq<u8>, lv: Level, kind: Option<ValueKind>)
    requires
        valid_utf8(s),
        valid_utf8(lv.key),
        s.len() > 0,
        kind is Some ==> spec_value_kind(s[0]) == Ok::<ValueKind, ParseError>(kind->0) && (kind->0
            == ValueKind::BeginArray
            || kind->0 == ValueKind::BeginObject),
        kind is None ==> spec_value_kind(s[0]) == Ok::<ValueKind, ParseError>(
            ValueKind::ValueSeparator,
        ) && lv.array is Some,
    ensures
        utf8_clean(spec_nested_loop(s, lv)),
    decreases s.len(), 1int,
{
    let b = s[0];
    let t = s.drop_first();
    assert(!spec_is_whitespace(b));
    lemma_drop_ascii(s);
    assert(valid_utf8(initial_level(kind).key));
    lemma_loop_utf8(t, initial_level(kind));
    assert(spec_nested(t, kind) == spec_nested_loop(t, initial_level(kind)));
    if let Some(k) = kind {
        assert(spec_value_kind(b) == Ok::<ValueKind, ParseError>(k));
    }
    if let Ok((v, t2)) = spec_nested(t, kind) {
        assert(spec_nested_loop(s, lv) == spec_emit(s, v, t2, lv));
        lemma_emit_utf8(s, v, t2, lv);
    }
}

/// A member value after `:` in an object.
proof fn lemma_utf8_name(s: Seq<u8>, lv: Level)
    requires
        valid_utf8(s),
        valid_utf8(lv.key),
        s.len() > 0,
        spec_value_kind(s[0]) == Ok::<ValueKind, ParseError>(ValueKind::NameSeparator),
        lv.object is Some,
    ensures
        utf8_clean(spec_nested_loop(s, lv)),
    decreases s.len(), 1int,
{
    let b = s[0];
    let t = s.drop_first();
    assert(!spec_is_whitespace(b));
    lemma_drop_ascii(s);
    let empty = Seq::<u8>::empty();
    assert(valid_utf8(empty));
    assert(initial_level(None).key == empty);
    lemma_loop_utf8(t, initial_level(None));
    assert(spec_nested(t, None) == spec_nested_loop(t, initial_level(None)));
    let o = lv.object->0;
    let key = decode_utf8(lv.key);
    assert(spec_bytes_to_string(lv.key) == Ok::<Seq<char>, ParseError>(key));
    if let Ok((v, t2)) = spec_nested(t, None) {
        if t2.len() < s.len() {
            let lv2 = Level {
                object: Some(crate::json_value::obj_insert(o, key, v)),
                key: empty,
                ..lv
            };
            assert(spec_nested_loop(s, lv) == spec_nested_loop(t2, lv2));
            lemma_loop_utf8(t2, lv2);
        }
    }
}

/// `null`, `true` or `false`.
proof fn lemma_utf8_keyword(s: Seq<u8>, lv: Level)
    requires
        valid_utf8(s),
        valid_utf8(lv.key),
        s.len() > 0,
        spec_value_kind(s[0]) == Ok::<ValueKind, ParseError>(ValueKind::Null) || spec_value_kind(
            s[0],
        ) == Ok::<ValueKind, ParseError>(ValueKind::Bool),
    ensures
        utf8_clean(spec_nested_loop(s, lv)),
    decreases s.len(), 1int,
{
    let b = s[0];
    let t = s.drop_first();
    assert(!spec_is_whitespace(b));
    lemma_drop_ascii(s);
    let is_null = spec_value_kind(b) == Ok::<ValueKind, ParseError>(ValueKind::Null);
    let w = if is_null {
        word_ull()
    } else if b == BOOLEAN_TRUE {
        word_rue()
    } else {
        word_alse()
    };
    let v = if is_null {
        SpecJson::Null
    } else {
        SpecJson::Bool(b == BOOLEAN_TRUE)
    };
    assert(forall|i: int| 0 <= i < w.len() ==> #[trigger] w[i] < 0x80);
    lemma_expect_rest_valid(t, w);
    match spec_expect_rest(t, w) {
        Ok(t2) => {
            assert(spec_nested_loop(s, lv) == spec_emit(s, v, t2, lv));
            lemma_emit_utf8(s, v, t2, lv);
        },
        Err(e) => {
            assert(spec_nested_loop(s, lv) == Err::<(SpecJson, Seq<u8>), ParseError>(e));
        },
    }
}

/// A number: its bytes are ASCII.
proof fn lemma_utf8_number(s: Seq<u8>, lv: Level)
    requires
        valid_utf8(s),
        valid_utf8(lv.key),
        s.len() > 0,
        spec_value_kind(s[0]) == Ok::<ValueKind, ParseError>(ValueKind::Number),
    ensures
        utf8_clean(spec_nested_loop(s, lv)),
    decreases s.len(), 1int,
{
    let b = s[0];
    let t = s.drop_first();
    assert(!spec_is_whitespace(b));
    lemma_drop_ascii(s);
    let digits = take_while(t, number_char_pred());
    let n = digits.len() as int;
    lemma_take_while_props(t, number_char_pred());
    let bytes = seq![b] + digits;
    assert forall|i: int| 0 <= i < bytes.len() implies #[trigger] bytes[i] < 0x80 by {
        if i > 0 {
            assert(bytes[i] == t[i - 1]);
            assert(number_char_pred()(t[i - 1]));
        }
    }
    lemma_ascii_valid_utf8(bytes);
    assert forall|i: int| 0 <= i < n implies #[trigger] t[i] < 0x80 by {
        assert(number_char_pred()(t[i]));
    }
    lemma_skip_ascii(t, n);
    match spec_number(bytes) {
        Ok(v) => {
            assert(spec_nested_loop(s, lv) == spec_emit(s, v, t.skip(n), lv));
            lemma_emit_utf8(s, v, t.skip(n), lv);
        },
        Err(e) => {
            assert(spec_nested_loop(s, lv) == Err::<(SpecJson, Seq<u8>), ParseError>(e));
        },
    }
}

/// A string: its body is valid UTF-8.
proof fn lemma_utf8_string(s: Seq<u8>, lv: Level)
    requires
        valid_utf8(s),
        valid_utf8(lv.key),
        s.len() > 0,
        spec_value_kind(s[0]) == Ok::<ValueKind, ParseError>(ValueKind::String),
    ensures
        utf8_clean(spec_nested_loop(s, lv)),
    decreases s.len(), 1int,
{
    let b = s[0];
    let t = s.drop_first();
    assert(!spec_is_whitespace(b));
    lemma_drop_ascii(s);
    lemma_read_until_valid(t);
    if let Ok((bytes, t2)) = spec_read_until(t, quote_pred()) {
        let c = decode_utf8(bytes);
        assert(spec_bytes_to_string(bytes) == Ok::<Seq<char>, ParseError>(c));
        if lv.array is Some {
            assert(spec_nested_loop(s, lv) == spec_emit(s, SpecJson::Str(c), t2, lv));
            lemma_emit_utf8(s, SpecJson::Str(c), t2, lv);
        } else if lv.object is Some {
            if t2.len() < s.len() {
                valid_utf8_concat(lv.key, bytes);
                let lv2 = Level { key: lv.key + bytes, ..lv };
                assert(spec_nested_loop(s, lv) == spec_nested_loop(t2, lv2));
                lemma_loop_utf8(t2, lv2);
            }
        }
    } else {
        assert(spec_nested_loop(s, lv) == Err::<(SpecJson, Seq<u8>), ParseError>(
            spec_read_until(t, quote_pred())->Err_0,
        ));
    }
}

/// Emitting a value, with valid UTF-8 left, meets no invalid UTF-8.
proof fn lemma_emit_utf8(s: Seq<u8>, v: SpecJson, rest: Seq<u8>, lv: Level)
    requires
        valid_utf8(rest),
        valid_utf8(lv.key),
    ensures
        utf8_clean(spec_emit(s, v, rest, lv)),
    decreases s.len(), 0int,
{
    if lv.array is Some && rest.len() < s.len() {
        lemma_loop_utf8(rest, Level { array: Some(lv.array->0.push(v)), ..lv });
    }
}

/// Parsing text never reports invalid UTF-8: every string and member name
/// read from the bytes of a `&str` is valid UTF-8.
pub proof fn law_text_has_no_utf8_error(input: Seq<char>)
    ensures
        spec_parse(encode_utf8(input)) matches Err(e) ==> !(e is InvalidUtf8),
{
    encode_utf8_valid_utf8(input);
    assert(valid_utf8(Seq::<u8>::empty()));
    lemma_loop_utf8(encode_utf8(input), initial_level(None));
}

} // verus!
