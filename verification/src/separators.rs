//! What the reader makes of separators and whitespace between tokens, and
//! how the items of an array are read: the grammar does not insist on
//! separators, so a comma between array items may be left out or repeated.
use crate::errors::ParseError;
use crate::json_value::SpecJson;
use crate::laws::{
    law_trailing_input, lemma_expect_rest_suffix, lemma_loop_suffix, lemma_read_until_extend,
    lemma_read_until_suffix,
    lemma_take_while_props, stops_number,
};
use crate::parser::{
    initial_level, lemma_loop_skips_whitespace, number_char_pred, quote_pred, spec_emit,
    spec_nested, spec_nested_loop, spec_number, spec_parse, word_alse, word_rue, word_ull, Level,
};
use crate::roundtrip::array_level;
use crate::tokens::{
    spec_bytes_to_string, spec_expect_rest, spec_is_whitespace, spec_read_until, spec_value_kind,
    take_while, ValueKind, BEGIN_ARRAY, BEGIN_OBJECT, BOOLEAN_TRUE, DOUBLE_QUOTE, END_ARRAY,
    END_OBJECT, NAME_SEPARATOR, VALUE_SEPARATOR,
};
use crate::json_value::obj_insert;
use vstd::utf8::{decode_utf8, valid_utf8};
use vstd::prelude::*;

verus! {

/// `b` starts a value: `[`, `{`, `"`, a digit or `-`, or the first letter
/// of `null`, `true` or `false`.
pub open spec fn starts_value(b: u8) -> bool {
    spec_value_kind(b) matches Ok(k) && (k == ValueKind::BeginArray || k == ValueKind::BeginObject
        || k == ValueKind::Null || k == ValueKind::Bool || k == ValueKind::Number || k
        == ValueKind::String)
}

/// Where no array is open a comma is skipped, and where no object is open a
/// colon is skipped, as whitespace is.
pub proof fn law_stray_separators_skipped(x: Seq<u8>, lv: Level)
    ensures
        lv.array is None ==> spec_nested_loop(seq![VALUE_SEPARATOR] + x, lv) == spec_nested_loop(
            x,
            lv,
        ),
        lv.object is None ==> spec_nested_loop(seq![NAME_SEPARATOR] + x, lv) == spec_nested_loop(
            x,
            lv,
        ),
{
    let c = seq![VALUE_SEPARATOR] + x;
    let n = seq![NAME_SEPARATOR] + x;
    assert(c[0] == VALUE_SEPARATOR && c.drop_first() =~= x);
    assert(n[0] == NAME_SEPARATOR && n.drop_first() =~= x);
}

/// `r` is what an item read from `x` comes to: read as a single value it
/// gives `r`, and read inside the array state `lv` it gives `r` emitted
/// into the array.
spec fn reads_item(x: Seq<u8>, lv: Level, r: Result<(SpecJson, Seq<u8>), ParseError>) -> bool {
    &&& spec_nested_loop(x, initial_level(None)) == r
    &&& spec_nested_loop(x, lv) == match r {
        Ok((v, t2)) => spec_emit(x, v, t2, lv),
        Err(e) => Err(e),
    }
    &&& r matches Ok((_, t2)) ==> t2.len() < x.len()
}

/// An item that starts with `[` or `{`.
proof fn lemma_item_nested(x: Seq<u8>, lv: Level) -> (r: Result<(SpecJson, Seq<u8>), ParseError>)
    requires
        lv.array is Some,
        x.len() > 0,
        spec_value_kind(x[0]) == Ok::<ValueKind, ParseError>(ValueKind::BeginArray)
            || spec_value_kind(x[0]) == Ok::<ValueKind, ParseError>(ValueKind::BeginObject),
    ensures
        reads_item(x, lv, r),
{
    let b = x[0];
    let t = x.drop_first();
    let k = spec_value_kind(b)->Ok_0;
    assert(!spec_is_whitespace(b));
    lemma_loop_suffix(t, initial_level(Some(k)));
    assert(spec_nested(t, Some(k)) == spec_nested_loop(t, initial_level(Some(k))));
    let r = spec_nested(t, Some(k));
    if let Ok((v, t2)) = r {
        assert(spec_nested_loop(x, initial_level(None)) == spec_emit(x, v, t2, initial_level(None)));
        assert(spec_nested_loop(x, lv) == spec_emit(x, v, t2, lv));
    }
    r
}

/// An item that starts with the first letter of `null`, `true` or `false`.
proof fn lemma_item_keyword(x: Seq<u8>, lv: Level) -> (r: Result<(SpecJson, Seq<u8>), ParseError>)
    requires
        lv.array is Some,
        x.len() > 0,
        spec_value_kind(x[0]) == Ok::<ValueKind, ParseError>(ValueKind::Null) || spec_value_kind(
            x[0],
        ) == Ok::<ValueKind, ParseError>(ValueKind::Bool),
    ensures
        reads_item(x, lv, r),
{
    let b = x[0];
    let t = x.drop_first();
    assert(!spec_is_whitespace(b));
    let is_null = spec_value_kind(b) == Ok::<ValueKind, ParseError>(ValueKind::Null);
    let w = if is_null {
        word_ull()
    } else if b == BOOLEAN_TRUE {
        word_rue()
    } else {
        word_alse()
    };
    let v = if is_null {
        SpecJson::Null
    } else {
        SpecJson::Bool(b == BOOLEAN_TRUE)
    };
    lemma_expect_rest_suffix(t, w);
    match spec_expect_rest(t, w) {
        Ok(t2) => {
            assert(spec_nested_loop(x, initial_level(None)) == spec_emit(
                x,
                v,
                t2,
                initial_level(None),
            ));
            assert(spec_nested_loop(x, lv) == spec_emit(x, v, t2, lv));
            Ok((v, t2))
        },
        Err(e) => Err(e),
    }
}

/// An item that starts with a digit or `-`.
proof fn lemma_item_number(x: Seq<u8>, lv: Level) -> (r: Result<(SpecJson, Seq<u8>), ParseError>)
    requires
        lv.array is Some,
        x.len() > 0,
        spec_value_kind(x[0]) == Ok::<ValueKind, ParseError>(ValueKind::Number),
    ensures
        reads_item(x, lv, r),
{
    let b = x[0];
    let t = x.drop_first();
    assert(!spec_is_whitespace(b));
    lemma_take_while_props(t, number_char_pred());
    let digits = take_while(t, number_char_pred());
    let t2 = t.skip(digits.len() as int);
    match spec_number(seq![b] + digits) {
        Ok(v) => {
            assert(spec_nested_loop(x, initial_level(None)) == spec_emit(
                x,
                v,
                t2,
                initial_level(None),
            ));
            assert(spec_nested_loop(x, lv) == spec_emit(x, v, t2, lv));
            Ok((v, t2))
        },
        Err(e) => Err(e),
    }
}

/// An item that starts with `"`.
proof fn lemma_item_string(x: Seq<u8>, lv: Level) -> (r: Result<(SpecJson, Seq<u8>), ParseError>)
    requires
        lv.array is Some,
        x.len() > 0,
        spec_value_kind(x[0]) == Ok::<ValueKind, ParseError>(ValueKind::String),
    ensures
        reads_item(x, lv, r),
{
    let b = x[0];
    let t = x.drop_first();
    assert(!spec_is_whitespace(b));
    lemma_read_until_suffix(t, quote_pred());
    match spec_read_until(t, quote_pred()) {
        Ok((bytes, t2)) => match spec_bytes_to_string(bytes) {
            Ok(c) => {
                assert(spec_nested_loop(x, lv) == spec_emit(x, SpecJson::Str(c), t2, lv));
                Ok((SpecJson::Str(c), t2))
            },
            Err(e) => Err(e),
        },
        Err(e) => Err(e),
    }
}

/// In an array the comma before an item can be left out: a comma followed
/// by an item reads as the item alone does.
pub proof fn law_array_comma_optional(x: Seq<u8>, lv: Level)
    requires
        lv.array is Some,
        x.len() > 0,
        starts_value(x[0]),
    ensures
        spec_nested_loop(seq![VALUE_SEPARATOR] + x, lv) == spec_nested_loop(x, lv),
{
    let s = seq![VALUE_SEPARATOR] + x;
    assert(s[0] == VALUE_SEPARATOR && s.drop_first() =~= x);
    let k = spec_value_kind(x[0])->Ok_0;
    let r = if k == ValueKind::BeginArray || k == ValueKind::BeginObject {
        lemma_item_nested(x, lv)
    } else if k == ValueKind::Null || k == ValueKind::Bool {
        lemma_item_keyword(x, lv)
    } else if k == ValueKind::Number {
        lemma_item_number(x, lv)
    } else {
        lemma_item_string(x, lv)
    };
    assert(spec_nested(x, None) == r);
    if let Ok((v, t2)) = r {
        assert(spec_nested_loop(s, lv) == spec_emit(s, v, t2, lv));
    }
}

/// `p` is the text of one value `v`, with only whitespace around it.
pub open spec fn value_text(p: Seq<u8>, v: SpecJson) -> bool {
    &&& spec_nested(p, None) matches Ok((w, r)) && w == v
    &&& forall|i: int|
        0 <= i < spec_nested(p, None)->Ok_0.1.len() ==> spec_is_whitespace(
            #[trigger] spec_nested(p, None)->Ok_0.1[i],
        )
}

/// The parts after the first one, each after a comma.
pub open spec fn join_tail(parts: Seq<Seq<u8>>) -> Seq<u8>
    decreases parts.len(),
{
    if parts.len() == 0 {
        Seq::empty()
    } else {
        seq![VALUE_SEPARATOR] + parts[0] + join_tail(parts.drop_first())
    }
}

/// The parts, separated by commas.
pub open spec fn join_items(parts: Seq<Seq<u8>>) -> Seq<u8> {
    if parts.len() == 0 {
        Seq::empty()
    } else {
        parts[0] + join_tail(parts.drop_first())
    }
}

/// In an array, the first item reads as it does after a comma.
proof fn lemma_first_item(z: Seq<u8>, acc: Seq<SpecJson>)
    requires
        spec_nested(z, None) is Ok,
    ensures
        spec_nested_loop(z, array_level(acc)) == spec_nested_loop(
            seq![VALUE_SEPARATOR] + z,
            array_level(acc),
        ),
    decreases z.len(),
{
    let lv = array_level(acc);
    let s = seq![VALUE_SEPARATOR] + z;
    assert(s[0] == VALUE_SEPARATOR && s.drop_first() =~= z);
    assert(spec_nested(z, None) == spec_nested_loop(z, initial_level(None)));
    let b = z[0];
    let z1 = z.drop_first();
    assert(spec_nested(z1, None) == spec_nested_loop(z1, initial_level(None)));
    lemma_loop_suffix(z, initial_level(None));
    let (v, r) = spec_nested(z, None)->Ok_0;
    if spec_is_whitespace(b) || b == VALUE_SEPARATOR || b == NAME_SEPARATOR {
        assert(spec_nested(z, None) == spec_nested(z1, None));
        assert(spec_nested_loop(s, lv) == spec_emit(s, v, r, lv));
        if spec_is_whitespace(b) || b == NAME_SEPARATOR {
            lemma_first_item(z1, acc);
            let s1 = seq![VALUE_SEPARATOR] + z1;
            assert(s1[0] == VALUE_SEPARATOR && s1.drop_first() =~= z1);
            assert(spec_nested_loop(s1, lv) == spec_emit(s1, v, r, lv));
        } else {
            assert(spec_nested_loop(z, lv) == spec_emit(z, v, r, lv));
        }
    } else {
        law_array_comma_optional(z, lv);
    }
}

/// A comma, then an item with only whitespace around it, moves the array
/// on by that item.
proof fn lemma_next_item(p: Seq<u8>, v: SpecJson, y: Seq<u8>, acc: Seq<SpecJson>)
    requires
        value_text(p, v),
        stops_number(y),
    ensures
        spec_nested_loop(seq![VALUE_SEPARATOR] + (p + y), array_level(acc)) == spec_nested_loop(
            y,
            array_level(acc.push(v)),
        ),
{
    let r = spec_nested(p, None)->Ok_0.1;
    law_trailing_input(p, y);
    lemma_loop_suffix(p, initial_level(None));
    let s = seq![VALUE_SEPARATOR] + (p + y);
    assert(s[0] == VALUE_SEPARATOR && s.drop_first() =~= p + y);
    let lv = array_level(acc);
    assert(spec_nested_loop(s, lv) == spec_emit(s, v, r + y, lv));
    assert(Level { array: Some(acc.push(v)), ..lv } == array_level(acc.push(v)));
    lemma_loop_skips_whitespace(r, y, array_level(acc.push(v)));
}

/// The items after a comma each, then `]`, complete the array.
proof fn lemma_items_tail(parts: Seq<Seq<u8>>, vals: Seq<SpecJson>, acc: Seq<SpecJson>)
    requires
        parts.len() == vals.len(),
        forall|i: int| 0 <= i < parts.len() ==> value_text(#[trigger] parts[i], vals[i]),
    ensures
        spec_nested_loop(join_tail(parts) + seq![END_ARRAY], array_level(acc)) == Ok::<
            (SpecJson, Seq<u8>),
            ParseError,
        >((SpecJson::Array(acc + vals), Seq::empty())),
    decreases parts.len(),
{
    if parts.len() == 0 {
        let s = join_tail(parts) + seq![END_ARRAY];
        assert(s =~= seq![END_ARRAY]);
        assert(s.drop_first() =~= Seq::<u8>::empty());
        assert(acc + vals =~= acc);
    } else {
        let p = parts[0];
        let rest_parts = parts.drop_first();
        let rest_vals = vals.drop_first();
        assert forall|i: int| 0 <= i < rest_parts.len() implies value_text(
            #[trigger] rest_parts[i],
            rest_vals[i],
        ) by {
            assert(rest_parts[i] == parts[i + 1]);
            assert(value_text(parts[i + 1], vals[i + 1]));
        }
        assert(value_text(parts[0], vals[0]));
        let y = join_tail(rest_parts) + seq![END_ARRAY];
        assert(y.len() > 0);
        if rest_parts.len() == 0 {
            assert(y[0] == END_ARRAY);
        } else {
            assert(y[0] == VALUE_SEPARATOR);
        }
        lemma_next_item(p, vals[0], y, acc);
        assert(join_tail(parts) + seq![END_ARRAY] =~= seq![VALUE_SEPARATOR] + (p + y));
        lemma_items_tail(rest_parts, rest_vals, acc.push(vals[0]));
        assert(acc.push(vals[0]) + rest_vals =~= acc + vals);
    }
}

/// The items of an array are read in source order, each as the value its
/// own text parses to: when every part is the text of one value, with only
/// whitespace around it, `[` then the parts separated by commas then `]`
/// parses to the array of those values.
pub proof fn law_array_items(parts: Seq<Seq<u8>>, vals: Seq<SpecJson>)
    requires
        parts.len() == vals.len(),
        forall|i: int| 0 <= i < parts.len() ==> value_text(#[trigger] parts[i], vals[i]),
    ensures
        spec_parse(seq![BEGIN_ARRAY] + join_items(parts) + seq![END_ARRAY]) == Ok::<
            SpecJson,
            ParseError,
        >(SpecJson::Array(vals)),
{
    let body = join_items(parts) + seq![END_ARRAY];
    let doc = seq![BEGIN_ARRAY] + join_items(parts) + seq![END_ARRAY];
    assert(doc[0] == BEGIN_ARRAY && doc.drop_first() =~= body);
    assert(initial_level(Some(ValueKind::BeginArray)) == array_level(Seq::empty()));
    let empty = Seq::<SpecJson>::empty();
    if parts.len() == 0 {
        assert(body =~= join_tail(parts) + seq![END_ARRAY]);
    } else {
        let y = join_tail(parts.drop_first()) + seq![END_ARRAY];
        assert(body =~= parts[0] + y);
        assert(join_tail(parts) + seq![END_ARRAY] =~= seq![VALUE_SEPARATOR] + (parts[0] + y));
        assert(value_text(parts[0], vals[0]));
        assert(y.len() > 0);
        if parts.len() == 1 {
            assert(y[0] == END_ARRAY);
        } else {
            assert(y[0] == VALUE_SEPARATOR);
        }
        law_trailing_input(parts[0], y);
        lemma_first_item(parts[0] + y, empty);
    }
    lemma_items_tail(parts, vals, empty);
    assert(empty + vals =~= vals);
    assert(spec_nested(body, Some(ValueKind::BeginArray)) == spec_nested_loop(
        body,
        array_level(empty),
    ));
    let result = Ok::<(SpecJson, Seq<u8>), ParseError>((SpecJson::Array(vals), Seq::empty()));
    assert(spec_nested_loop(body, array_level(empty)) == result);
    assert(spec_nested_loop(doc, initial_level(None)) == spec_emit(
        doc,
        SpecJson::Array(vals),
        Seq::empty(),
        initial_level(None),
    ));
    assert(spec_nested(doc, None) == spec_nested_loop(doc, initial_level(None)));
}

/// The reader of a level that starts in the state `lv0` stands between two
/// tokens after `p`, in the state `lv1`: whatever follows `p` (that does not
/// continue a number at its end) is read as if it came first in `lv1`.
pub open spec fn between_tokens(p: Seq<u8>, lv0: Level, lv1: Level) -> bool {
    forall|y: Seq<u8>|
        stops_number(y) ==> #[trigger] spec_nested_loop(p + y, lv0) == spec_nested_loop(y, lv1)
}

/// Whitespace between two tokens changes nothing: where the reader stands
/// between tokens after `p`, whitespace put there leaves the value read,
/// and what is left after it, as they are.
pub proof fn law_whitespace_between_tokens(p: Seq<u8>, w: Seq<u8>, y: Seq<u8>, lv0: Level, lv1: Level)
    requires
        between_tokens(p, lv0, lv1),
        forall|i: int| 0 <= i < w.len() ==> spec_is_whitespace(#[trigger] w[i]),
        stops_number(y),
    ensures
        spec_nested_loop(p + w + y, lv0) == spec_nested_loop(p + y, lv0),
{
    assert(p + w + y =~= p + (w + y));
    if w.len() > 0 {
        assert((w + y)[0] == w[0]);
        assert(stops_number(w + y));
    } else {
        assert(w + y =~= y);
    }
    assert(spec_nested_loop(p + (w + y), lv0) == spec_nested_loop(w + y, lv1));
    assert(spec_nested_loop(p + y, lv0) == spec_nested_loop(y, lv1));
    lemma_loop_skips_whitespace(w, y, lv1);
}

/// The reader stands between tokens before its input and after every item
/// that it has read into an array: after `[`, and after `,` and an item
/// with only whitespace around it.
pub proof fn lemma_array_boundaries(p: Seq<u8>, v: SpecJson, acc: Seq<SpecJson>)
    requires
        value_text(p, v),
    ensures
        between_tokens(Seq::empty(), array_level(acc), array_level(acc)),
        between_tokens(seq![VALUE_SEPARATOR] + p, array_level(acc), array_level(acc.push(v))),
{
    assert forall|y: Seq<u8>| stops_number(y) implies #[trigger] spec_nested_loop(
        Seq::<u8>::empty() + y,
        array_level(acc),
    ) == spec_nested_loop(y, array_level(acc)) by {
        assert(Seq::<u8>::empty() + y =~= y);
    }
    assert forall|y: Seq<u8>| stops_number(y) implies #[trigger] spec_nested_loop(
        seq![VALUE_SEPARATOR] + p + y,
        array_level(acc),
    ) == spec_nested_loop(y, array_level(acc.push(v))) by {
        assert(seq![VALUE_SEPARATOR] + p + y =~= seq![VALUE_SEPARATOR] + (p + y));
        lemma_next_item(p, v, y, acc);
    }
}

/// A nested array or object that reads alike from two texts reads alike in
/// the level around it, so whitespace between the tokens of a nested value
/// changes nothing around it either.
pub proof fn law_nested_reads_alike(q1: Seq<u8>, q2: Seq<u8>, lv: Level, k: ValueKind)
    requires
        k == ValueKind::BeginArray || k == ValueKind::BeginObject,
        spec_nested(q1, Some(k)) == spec_nested(q2, Some(k)),
    ensures
        ({
            let b = if k == ValueKind::BeginArray {
                BEGIN_ARRAY
            } else {
                crate::tokens::BEGIN_OBJECT
            };
            spec_nested_loop(seq![b] + q1, lv) == spec_nested_loop(seq![b] + q2, lv)
        }),
{
    let b = if k == ValueKind::BeginArray {
        BEGIN_ARRAY
    } else {
        crate::tokens::BEGIN_OBJECT
    };
    let s1 = seq![b] + q1;
    let s2 = seq![b] + q2;
    assert(s1[0] == b && s1.drop_first() =~= q1);
    assert(s2[0] == b && s2.drop_first() =~= q2);
    assert(spec_value_kind(b) == Ok::<ValueKind, ParseError>(k));
    lemma_loop_suffix(q1, initial_level(Some(k)));
    lemma_loop_suffix(q2, initial_level(Some(k)));
    assert(spec_nested(q1, Some(k)) == spec_nested_loop(q1, initial_level(Some(k))));
    assert(spec_nested(q2, Some(k)) == spec_nested_loop(q2, initial_level(Some(k))));
    if let Ok((v, t2)) = spec_nested(q1, Some(k)) {
        assert(spec_nested_loop(s1, lv) == spec_emit(s1, v, t2, lv));
        assert(spec_nested_loop(s2, lv) == spec_emit(s2, v, t2, lv));
    }
}

/// `q` is the text of a string, from its opening to its closing quote,
/// whose body decodes to the bytes `bytes`.
pub open spec fn string_text(q: Seq<u8>, bytes: Seq<u8>) -> bool {
    &&& q.len() > 0
    &&& q[0] == DOUBLE_QUOTE
    &&& spec_read_until(q.drop_first(), quote_pred()) == Ok::<(Seq<u8>, Seq<u8>), ParseError>(
        (bytes, Seq::empty()),
    )
}

/// The state of an object level with the members `acc` read so far, and the
/// bytes `key` of the member name read since the last `:`.
pub open spec fn member_level(acc: Seq<(Seq<char>, SpecJson)>, key: Seq<u8>) -> Level {
    Level { array: None, object: Some(acc), key }
}

/// The reader of an object stands between tokens after `{` (where nothing
/// of the level has been read), after a comma, after a member name, and
/// after `:` and a member value with only whitespace around it.
pub proof fn lemma_object_boundaries(
    acc: Seq<(Seq<char>, SpecJson)>,
    key: Seq<u8>,
    q: Seq<u8>,
    bytes: Seq<u8>,
    p: Seq<u8>,
    v: SpecJson,
)
    ensures
        between_tokens(Seq::empty(), member_level(acc, key), member_level(acc, key)),
        between_tokens(seq![VALUE_SEPARATOR], member_level(acc, key), member_level(acc, key)),
        string_text(q, bytes) ==> between_tokens(
            q,
            member_level(acc, key),
            member_level(acc, key + bytes),
        ),
        valid_utf8(key) && value_text(p, v) ==> between_tokens(
            seq![NAME_SEPARATOR] + p,
            member_level(acc, key),
            member_level(obj_insert(acc, decode_utf8(key), v), Seq::empty()),
        ),
{
    let lv = member_level(acc, key);
    assert forall|y: Seq<u8>| stops_number(y) implies #[trigger] spec_nested_loop(
        Seq::<u8>::empty() + y,
        lv,
    ) == spec_nested_loop(y, lv) by {
        assert(Seq::<u8>::empty() + y =~= y);
    }
    assert forall|y: Seq<u8>| stops_number(y) implies #[trigger] spec_nested_loop(
        seq![VALUE_SEPARATOR] + y,
        lv,
    ) == spec_nested_loop(y, lv) by {
        law_stray_separators_skipped(y, lv);
    }
    if string_text(q, bytes) {
        lemma_name_boundary(acc, key, q, bytes);
    }
    if valid_utf8(key) && value_text(p, v) {
        lemma_member_boundary(acc, key, p, v);
    }
}

/// After a member name, the reader stands between tokens with the name's
/// bytes added to those gathered so far.
proof fn lemma_name_boundary(acc: Seq<(Seq<char>, SpecJson)>, key: Seq<u8>, q: Seq<u8>, bytes: Seq<u8>)
    requires
        string_text(q, bytes),
    ensures
        between_tokens(q, member_level(acc, key), member_level(acc, key + bytes)),
{
    assert forall|y: Seq<u8>| stops_number(y) implies #[trigger] spec_nested_loop(
        q + y,
        member_level(acc, key),
    ) == spec_nested_loop(y, member_level(acc, key + bytes)) by {
        lemma_name_step(acc, key, q, bytes, y);
    }
}

/// A member name read with `y` after it.
#[verifier::spinoff_prover]
proof fn lemma_name_step(
    acc: Seq<(Seq<char>, SpecJson)>,
    key: Seq<u8>,
    q: Seq<u8>,
    bytes: Seq<u8>,
    y: Seq<u8>,
)
    requires
        string_text(q, bytes),
    ensures
        spec_nested_loop(q + y, member_level(acc, key)) == spec_nested_loop(
            y,
            member_level(acc, key + bytes),
        ),
{
    let lv = member_level(acc, key);
    let t = q.drop_first();
    let s = q + y;
    assert(s[0] == DOUBLE_QUOTE && s.drop_first() =~= t + y);
    lemma_read_until_extend(t, quote_pred(), y);
    assert(Seq::<u8>::empty() + y =~= y);
    assert(spec_read_until(t + y, quote_pred()) == Ok::<(Seq<u8>, Seq<u8>), ParseError>(
        (bytes, y),
    ));
    assert(!spec_is_whitespace(DOUBLE_QUOTE));
    assert(Level { key: lv.key + bytes, ..lv } == member_level(acc, key + bytes));
}

/// After `:` and a member value with only whitespace around it, the reader
/// stands between tokens with the member set.
proof fn lemma_member_boundary(acc: Seq<(Seq<char>, SpecJson)>, key: Seq<u8>, p: Seq<u8>, v: SpecJson)
    requires
        valid_utf8(key),
        value_text(p, v),
    ensures
        between_tokens(
            seq![NAME_SEPARATOR] + p,
            member_level(acc, key),
            member_level(obj_insert(acc, decode_utf8(key), v), Seq::empty()),
        ),
{
    assert forall|y: Seq<u8>| stops_number(y) implies #[trigger] spec_nested_loop(
        seq![NAME_SEPARATOR] + p + y,
        member_level(acc, key),
    ) == spec_nested_loop(y, member_level(obj_insert(acc, decode_utf8(key), v), Seq::empty())) by {
        lemma_member_step(acc, key, p, v, y);
    }
}

/// `:` and a member value read with `y` after them.
#[verifier::spinoff_prover]
proof fn lemma_member_step(
    acc: Seq<(Seq<char>, SpecJson)>,
    key: Seq<u8>,
    p: Seq<u8>,
    v: SpecJson,
    y: Seq<u8>,
)
    requires
        valid_utf8(key),
        value_text(p, v),
        stops_number(y),
    ensures
        spec_nested_loop(seq![NAME_SEPARATOR] + p + y, member_level(acc, key)) == spec_nested_loop(
            y,
            member_level(obj_insert(acc, decode_utf8(key), v), Seq::empty()),
        ),
{
    let lv = member_level(acc, key);
    let r = spec_nested(p, None)->Ok_0.1;
    let after = member_level(obj_insert(acc, decode_utf8(key), v), Seq::empty());
    assert(spec_bytes_to_string(key) == Ok::<Seq<char>, ParseError>(decode_utf8(key)));
    lemma_loop_suffix(p, initial_level(None));
    assert(spec_nested(p, None) == spec_nested_loop(p, initial_level(None)));
    let s = seq![NAME_SEPARATOR] + p + y;
    assert(s[0] == NAME_SEPARATOR && s.drop_first() =~= p + y);
    law_trailing_input(p, y);
    assert(spec_nested(p + y, None) == Ok::<(SpecJson, Seq<u8>), ParseError>((v, r + y)));
    assert(spec_nested_loop(s, lv) == spec_nested_loop(r + y, after));
    lemma_loop_skips_whitespace(r, y, after);
}

/// Every byte of `x` is whitespace.
pub open spec fn all_whitespace(x: Seq<u8>) -> bool {
    forall|i: int| 0 <= i < x.len() ==> spec_is_whitespace(#[trigger] x[i])
}

/// `n` is the text of a member name, with only whitespace around it, whose
/// body decodes to the bytes `bytes`.
pub open spec fn name_text(n: Seq<u8>, bytes: Seq<u8>) -> bool {
    exists|lead: Seq<u8>, q: Seq<u8>, trail: Seq<u8>|
        #![trigger all_whitespace(lead), string_text(q, bytes), all_whitespace(trail)]
        all_whitespace(lead) && string_text(q, bytes) && all_whitespace(trail) && n == lead + q
            + trail
}

/// A member name with only whitespace around it, read with `y` after it.
#[verifier::spinoff_prover]
proof fn lemma_padded_name_step(
    acc: Seq<(Seq<char>, SpecJson)>,
    key: Seq<u8>,
    n: Seq<u8>,
    bytes: Seq<u8>,
    y: Seq<u8>,
)
    requires
        name_text(n, bytes),
        stops_number(y),
    ensures
        spec_nested_loop(n + y, member_level(acc, key)) == spec_nested_loop(
            y,
            member_level(acc, key + bytes),
        ),
{
    let (lead, q, trail) = choose|lead: Seq<u8>, q: Seq<u8>, trail: Seq<u8>|
        #![trigger all_whitespace(lead), string_text(q, bytes), all_whitespace(trail)]
        all_whitespace(lead) && string_text(q, bytes) && all_whitespace(trail) && n == lead + q
            + trail;
    let lv = member_level(acc, key);
    let lv2 = member_level(acc, key + bytes);
    assert(n + y =~= lead + (q + (trail + y)));
    lemma_loop_skips_whitespace(lead, q + (trail + y), lv);
    lemma_name_step(acc, key, q, bytes, trail + y);
    lemma_loop_skips_whitespace(trail, y, lv2);
}

/// The members after the first one, each after a comma: a name, `:`, and a
/// value.
pub open spec fn join_members_tail(names: Seq<Seq<u8>>, parts: Seq<Seq<u8>>) -> Seq<u8>
    decreases names.len(),
{
    if names.len() == 0 {
        Seq::empty()
    } else {
        seq![VALUE_SEPARATOR] + names[0] + seq![NAME_SEPARATOR] + parts[0] + join_members_tail(
            names.drop_first(),
            parts.drop_first(),
        )
    }
}

/// The members, separated by commas.
pub open spec fn join_members(names: Seq<Seq<u8>>, parts: Seq<Seq<u8>>) -> Seq<u8> {
    if names.len() == 0 {
        Seq::empty()
    } else {
        names[0] + seq![NAME_SEPARATOR] + parts[0] + join_members_tail(
            names.drop_first(),
            parts.drop_first(),
        )
    }
}

/// The members `acc` after each name (decoded from `keys`) has been set to
/// its value in turn.
pub open spec fn insert_all(
    acc: Seq<(Seq<char>, SpecJson)>,
    keys: Seq<Seq<u8>>,
    vals: Seq<SpecJson>,
) -> Seq<(Seq<char>, SpecJson)>
    decreases keys.len(),
{
    if keys.len() == 0 {
        acc
    } else {
        insert_all(
            obj_insert(acc, decode_utf8(keys[0]), vals[0]),
            keys.drop_first(),
            vals.drop_first(),
        )
    }
}

/// One member: a name, `:` and a value, each with only whitespace around
/// it, sets that member.
#[verifier::spinoff_prover]
proof fn lemma_one_member(
    acc: Seq<(Seq<char>, SpecJson)>,
    n: Seq<u8>,
    bytes: Seq<u8>,
    p: Seq<u8>,
    v: SpecJson,
    y: Seq<u8>,
)
    requires
        name_text(n, bytes),
        valid_utf8(bytes),
        value_text(p, v),
        stops_number(y),
    ensures
        spec_nested_loop(n + seq![NAME_SEPARATOR] + p + y, member_level(acc, Seq::empty()))
            == spec_nested_loop(
            y,
            member_level(obj_insert(acc, decode_utf8(bytes), v), Seq::empty()),
        ),
{
    let empty = Seq::<u8>::empty();
    let y1 = seq![NAME_SEPARATOR] + p + y;
    assert(y1[0] == NAME_SEPARATOR);
    assert(n + seq![NAME_SEPARATOR] + p + y =~= n + y1);
    lemma_padded_name_step(acc, empty, n, bytes, y1);
    assert(empty + bytes =~= bytes);
    lemma_member_step(acc, bytes, p, v, y);
}

/// The members after a comma each, then `}`, complete the object.
#[verifier::spinoff_prover]
proof fn lemma_members_tail(
    names: Seq<Seq<u8>>,
    keys: Seq<Seq<u8>>,
    parts: Seq<Seq<u8>>,
    vals: Seq<SpecJson>,
    acc: Seq<(Seq<char>, SpecJson)>,
)
    requires
        names.len() == keys.len() && keys.len() == parts.len() && parts.len() == vals.len(),
        forall|i: int| 0 <= i < names.len() ==> name_text(#[trigger] names[i], keys[i]),
        forall|i: int| 0 <= i < keys.len() ==> valid_utf8(#[trigger] keys[i]),
        forall|i: int| 0 <= i < parts.len() ==> value_text(#[trigger] parts[i], vals[i]),
    ensures
        spec_nested_loop(
            join_members_tail(names, parts) + seq![END_OBJECT],
            member_level(acc, Seq::empty()),
        ) == Ok::<(SpecJson, Seq<u8>), ParseError>(
            (SpecJson::Object(insert_all(acc, keys, vals)), Seq::empty()),
        ),
    decreases names.len(),
{
    let lv = member_level(acc, Seq::empty());
    if names.len() == 0 {
        let s = join_members_tail(names, parts) + seq![END_OBJECT];
        assert(s =~= seq![END_OBJECT]);
        assert(s.drop_first() =~= Seq::<u8>::empty());
    } else {
        let (n2, k2, p2, v2) = (names.drop_first(), keys.drop_first(), parts.drop_first(), vals.drop_first());
        assert forall|i: int| 0 <= i < n2.len() implies name_text(#[trigger] n2[i], k2[i]) by {
            assert(name_text(names[i + 1], keys[i + 1]));
        }
        assert forall|i: int| 0 <= i < k2.len() implies valid_utf8(#[trigger] k2[i]) by {
            assert(valid_utf8(keys[i + 1]));
        }
        assert forall|i: int| 0 <= i < p2.len() implies value_text(#[trigger] p2[i], v2[i]) by {
            assert(value_text(parts[i + 1], vals[i + 1]));
        }
        assert(name_text(names[0], keys[0]));
        assert(valid_utf8(keys[0]));
        assert(value_text(parts[0], vals[0]));
        let y = join_members_tail(n2, p2) + seq![END_OBJECT];
        if n2.len() == 0 {
            assert(y[0] == END_OBJECT);
        } else {
            assert(y[0] == VALUE_SEPARATOR);
        }
        let m = names[0] + seq![NAME_SEPARATOR] + parts[0] + y;
        assert(join_members_tail(names, parts) + seq![END_OBJECT] =~= seq![VALUE_SEPARATOR] + m);
        law_stray_separators_skipped(m, lv);
        lemma_one_member(acc, names[0], keys[0], parts[0], vals[0], y);
        lemma_members_tail(n2, k2, p2, v2, obj_insert(acc, decode_utf8(keys[0]), vals[0]));
    }
}

/// The members of an object are read in source order, each as its own
/// texts read: when every name is the text of a string with valid UTF-8
/// bytes and every value part the text of one value, each with only
/// whitespace around it, `{` then the members (a name, `:`, a value)
/// separated by commas then `}` parses to the object in which each name in
/// turn is set to its value.
pub proof fn law_object_members(
    names: Seq<Seq<u8>>,
    keys: Seq<Seq<u8>>,
    parts: Seq<Seq<u8>>,
    vals: Seq<SpecJson>,
)
    requires
        names.len() == keys.len() && keys.len() == parts.len() && parts.len() == vals.len(),
        forall|i: int| 0 <= i < names.len() ==> name_text(#[trigger] names[i], keys[i]),
        forall|i: int| 0 <= i < keys.len() ==> valid_utf8(#[trigger] keys[i]),
        forall|i: int| 0 <= i < parts.len() ==> value_text(#[trigger] parts[i], vals[i]),
    ensures
        spec_parse(seq![BEGIN_OBJECT] + join_members(names, parts) + seq![END_OBJECT]) == Ok::<
            SpecJson,
            ParseError,
        >(SpecJson::Object(insert_all(Seq::empty(), keys, vals))),
{
    let empty = Seq::<(Seq<char>, SpecJson)>::empty();
    let body = join_members(names, parts) + seq![END_OBJECT];
    let doc = seq![BEGIN_OBJECT] + join_members(names, parts) + seq![END_OBJECT];
    assert(doc[0] == BEGIN_OBJECT && doc.drop_first() =~= body);
    assert(initial_level(Some(ValueKind::BeginObject)) == member_level(empty, Seq::empty()));
    let result = Ok::<(SpecJson, Seq<u8>), ParseError>(
        (SpecJson::Object(insert_all(empty, keys, vals)), Seq::empty()),
    );
    if names.len() == 0 {
        assert(body =~= join_members_tail(names, parts) + seq![END_OBJECT]);
        lemma_members_tail(names, keys, parts, vals, empty);
    } else {
        let (n2, k2, p2, v2) = (names.drop_first(), keys.drop_first(), parts.drop_first(), vals.drop_first());
        assert forall|i: int| 0 <= i < n2.len() implies name_text(#[trigger] n2[i], k2[i]) by {
            assert(name_text(names[i + 1], keys[i + 1]));
        }
        assert forall|i: int| 0 <= i < k2.len() implies valid_utf8(#[trigger] k2[i]) by {
            assert(valid_utf8(keys[i + 1]));
        }
        assert forall|i: int| 0 <= i < p2.len() implies value_text(#[trigger] p2[i], v2[i]) by {
            assert(value_text(parts[i + 1], vals[i + 1]));
        }
        assert(name_text(names[0], keys[0]));
        assert(valid_utf8(keys[0]));
        assert(value_text(parts[0], vals[0]));
        let y = join_members_tail(n2, p2) + seq![END_OBJECT];
        if n2.len() == 0 {
            assert(y[0] == END_OBJECT);
        } else {
            assert(y[0] == VALUE_SEPARATOR);
        }
        assert(body =~= names[0] + seq![NAME_SEPARATOR] + parts[0] + y);
        lemma_one_member(empty, names[0], keys[0], parts[0], vals[0], y);
        lemma_members_tail(n2, k2, p2, v2, obj_insert(empty, decode_utf8(keys[0]), vals[0]));
    }
    assert(spec_nested_loop(body, member_level(empty, Seq::empty())) == result);
    assert(spec_nested(body, Some(ValueKind::BeginObject)) == spec_nested_loop(
        body,
        member_level(empty, Seq::empty()),
    ));
    assert(spec_nested_loop(doc, initial_level(None)) == spec_emit(
        doc,
        SpecJson::Object(insert_all(empty, keys, vals)),
        Seq::empty(),
        initial_level(None),
    ));
    assert(spec_nested(doc, None) == spec_nested_loop(doc, initial_level(None)));
}

/// Whitespace inside an empty array or object changes nothing: `[` and
/// `]`, or `{` and `}`, with only whitespace between them parse to the
/// empty array or object.
pub proof fn law_empty_containers(w: Seq<u8>)
    requires
        all_whitespace(w),
    ensures
        spec_parse(seq![BEGIN_ARRAY] + w + seq![END_ARRAY]) == Ok::<SpecJson, ParseError>(
            SpecJson::Array(Seq::empty()),
        ),
        spec_parse(seq![BEGIN_OBJECT] + w + seq![END_OBJECT]) == Ok::<SpecJson, ParseError>(
            SpecJson::Object(Seq::empty()),
        ),
{
    let empty = Seq::<u8>::empty();
    let a = seq![BEGIN_ARRAY] + w + seq![END_ARRAY];
    let o = seq![BEGIN_OBJECT] + w + seq![END_OBJECT];
    assert(a[0] == BEGIN_ARRAY && a.drop_first() =~= w + seq![END_ARRAY]);
    assert(o[0] == BEGIN_OBJECT && o.drop_first() =~= w + seq![END_OBJECT]);
    let la = initial_level(Some(ValueKind::BeginArray));
    let lo = initial_level(Some(ValueKind::BeginObject));
    lemma_loop_skips_whitespace(w, seq![END_ARRAY], la);
    lemma_loop_skips_whitespace(w, seq![END_OBJECT], lo);
    assert(seq![END_ARRAY].drop_first() =~= empty);
    assert(seq![END_OBJECT].drop_first() =~= empty);
    assert(spec_nested(w + seq![END_ARRAY], Some(ValueKind::BeginArray)) == spec_nested_loop(
        w + seq![END_ARRAY],
        la,
    ));
    assert(spec_nested(w + seq![END_OBJECT], Some(ValueKind::BeginObject)) == spec_nested_loop(
        w + seq![END_OBJECT],
        lo,
    ));
    assert(spec_nested(a, None) == spec_nested_loop(a, initial_level(None)));
    assert(spec_nested(o, None) == spec_nested_loop(o, initial_level(None)));
    assert(spec_nested_loop(a, initial_level(None)) == spec_emit(
        a,
        SpecJson::Array(Seq::empty()),
        empty,
        initial_level(None),
    ));
    assert(spec_nested_loop(o, initial_level(None)) == spec_emit(
        o,
        SpecJson::Object(Seq::empty()),
        empty,
        initial_level(None),
    ));
}

} // verus!
