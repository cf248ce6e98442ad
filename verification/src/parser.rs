use crate::errors::ParseError;
use crate::json_value::{
    distinct_names, items_model, json_wf, lemma_model_array, lemma_model_object, members_model,
    obj_insert, object_insert, JsonValue, SpecJson,
};
use crate::stream::ByteStream;
use crate::tokens::{
    bytes_to_string, convert_to_bool, convert_to_float, convert_to_int, describes, expect_rest,
    is_double_quote, is_float_number, is_number_char, is_whitespace, lemma_take_while_unique,
    parse_value_kind, read_until, read_while, spec_bytes_to_string, spec_convert_to_float,
    spec_convert_to_int, spec_expect_rest, spec_is_float_number, spec_is_number_char,
    spec_expect_rest_left, spec_is_whitespace, spec_read_until, spec_read_until_left,
    spec_value_kind, take_while, ValueKind, BOOLEAN_TRUE, DOUBLE_QUOTE, END_ARRAY, END_OBJECT,
};
use vstd::prelude::*;
use vstd::utf8::encode_utf8;

verus! {

/// The state of one level of nesting while it is read: the items of an
/// open array, the members of an open object, and the raw bytes of the
/// member names read since the last `:`.
pub struct Level {
    pub array: Option<Seq<SpecJson>>,
    pub object: Option<Seq<(Seq<char>, SpecJson)>>,
    pub key: Seq<u8>,
}

/// The state in which a level starts: an array after `[`, an object after
/// `{`, neither for a single value.
pub open spec fn initial_level(kind: Option<ValueKind>) -> Level {
    Level {
        array: if kind == Some(ValueKind::BeginArray) {
            Some(Seq::empty())
        } else {
            None
        },
        object: if kind == Some(ValueKind::BeginObject) {
            Some(Seq::empty())
        } else {
            None
        },
        key: Seq::empty(),
    }
}

pub open spec fn number_char_pred() -> spec_fn(u8) -> bool {
    |b: u8| spec_is_number_char(b)
}

pub open spec fn quote_pred() -> spec_fn(u8) -> bool {
    |b: u8| b == DOUBLE_QUOTE
}

pub open spec fn word_ull() -> Seq<u8> {
    seq![0x75u8, 0x6c, 0x6c]
}

pub open spec fn word_rue() -> Seq<u8> {
    seq![0x72u8, 0x75, 0x65]
}

pub open spec fn word_alse() -> Seq<u8> {
    seq![0x61u8, 0x6c, 0x73, 0x65]
}

/// The value of a number whose text is `bytes`.
pub open spec fn spec_number(bytes: Seq<u8>) -> Result<SpecJson, ParseError> {
    if spec_is_float_number(bytes) {
        match spec_convert_to_float(bytes) {
            Ok(text) => Ok(SpecJson::Float(text)),
            Err(e) => Err(e),
        }
    } else {
        match spec_convert_to_int(bytes) {
            Ok(v) => Ok(SpecJson::Int(v)),
            Err(e) => Err(e),
        }
    }
}

/// The value that starts at the beginning of `s` (after `[` or `{` when
/// `kind` says so), and the input after it.
pub open spec fn spec_nested(s: Seq<u8>, kind: Option<ValueKind>) -> Result<
    (SpecJson, Seq<u8>),
    ParseError,
>
    decreases s.len(), 2int,
{
    spec_nested_loop(s, initial_level(kind))
}

/// `lv` after the value `v` was read in it: an open array takes the value
/// as its next item; with no open array the value is the result.
/// Reading goes on over `rest`.
pub open spec fn spec_emit(s: Seq<u8>, v: SpecJson, rest: Seq<u8>, lv: Level) -> Result<
    (SpecJson, Seq<u8>),
    ParseError,
>
    decreases s.len(), 0int,
{
    if lv.array is Some {
        if rest.len() < s.len() {
            spec_nested_loop(rest, Level { array: Some(lv.array->0.push(v)), ..lv })
        } else {
            Err(ParseError::UnexpectedEof)
        }
    } else {
        Ok((v, rest))
    }
}

/// One level of nesting read from `s` in the state `lv`: the bytes are
/// taken one by one, whitespace is skipped, and each byte decides by its
/// kind what comes next.
pub open spec fn spec_nested_loop(s: Seq<u8>, lv: Level) -> Result<(SpecJson, Seq<u8>), ParseError>
    decreases s.len(), 1int,
{
    if s.len() == 0 {
        Err(ParseError::UnexpectedEof)
    } else {
        let b = s[0];
        let t = s.drop_first();
        if spec_is_whitespace(b) {
            spec_nested_loop(t, lv)
        } else {
            match spec_value_kind(b) {
                Err(e) => Err(e),
                Ok(k) => match k {
                    ValueKind::BeginArray | ValueKind::BeginObject => match spec_nested(t, Some(k)) {
                        Err(e) => Err(e),
                        Ok((v, t2)) => spec_emit(s, v, t2, lv),
                    },
                    ValueKind::EndArray => match lv.array {
                        Some(a) => Ok((SpecJson::Array(a), t)),
                        None => Err(ParseError::UnexpectedByte(END_ARRAY)),
                    },
                    ValueKind::EndObject => match lv.object {
                        Some(o) => Ok((SpecJson::Object(o), t)),
                        None => Err(ParseError::UnexpectedByte(END_OBJECT)),
                    },
                    ValueKind::NameSeparator => match lv.object {
                        Some(o) => match spec_bytes_to_string(lv.key) {
                            Err(e) => Err(e),
                            Ok(key) => match spec_nested(t, None) {
                                Err(e) => Err(e),
                                Ok((v, t2)) => if t2.len() < s.len() {
                                    spec_nested_loop(
                                        t2,
                                        Level {
                                            object: Some(obj_insert(o, key, v)),
                                            key: Seq::empty(),
                                            ..lv
                                        },
                                    )
                                } else {
                                    Err(ParseError::UnexpectedEof)
                                },
                            },
                        },
                        None => spec_nested_loop(t, lv),
                    },
                    ValueKind::ValueSeparator => match lv.array {
                        Some(a) => match spec_nested(t, None) {
                            Err(e) => Err(e),
                            Ok((v, t2)) => spec_emit(s, v, t2, lv),
                        },
                        None => spec_nested_loop(t, lv),
                    },
                    ValueKind::Null => match spec_expect_rest(t, word_ull()) {
                        Err(e) => Err(e),
                        Ok(t2) => spec_emit(s, SpecJson::Null, t2, lv),
                    },
                    ValueKind::Bool => {
                        let boolean = b == BOOLEAN_TRUE;
                        let rest = if boolean {
                            word_rue()
                        } else {
                            word_alse()
                        };
                        match spec_expect_rest(t, rest) {
                            Err(e) => Err(e),
                            Ok(t2) => spec_emit(s, SpecJson::Bool(boolean), t2, lv),
                        }
                    },
                    ValueKind::Number => {
                        let digits = take_while(t, number_char_pred());
                        let bytes = seq![b] + digits;
                        match spec_number(bytes) {
                            Err(e) => Err(e),
                            Ok(v) => spec_emit(s, v, t.skip(digits.len() as int), lv),
                        }
                    },
                    ValueKind::String => match spec_read_until(t, quote_pred()) {
                        Err(e) => Err(e),
                        Ok((bytes, t2)) => if lv.array is Some {
                            match spec_bytes_to_string(bytes) {
                                Err(e) => Err(e),
                                Ok(c) => spec_emit(s, SpecJson::Str(c), t2, lv),
                            }
                        } else if lv.object is Some {
                            if t2.len() < s.len() {
                                spec_nested_loop(t2, Level { key: lv.key + bytes, ..lv })
                            } else {
                                Err(ParseError::UnexpectedEof)
                            }
                        } else {
                            match spec_bytes_to_string(bytes) {
                                Err(e) => Err(e),
                                Ok(c) => Ok((SpecJson::Str(c), t2)),
                            }
                        },
                    },
                },
            }
        }
    }
}

/// What is left of `s` after one level is read from it, after `[` or `{`
/// when `kind` says so, whether a value is read or an error stops it.
pub open spec fn spec_nested_left(s: Seq<u8>, kind: Option<ValueKind>) -> Seq<u8>
    decreases s.len(), 2int,
{
    spec_nested_loop_left(s, initial_level(kind))
}

/// What is left of `rest` after the value `v` was read in `lv`.
pub open spec fn spec_emit_left(s: Seq<u8>, v: SpecJson, rest: Seq<u8>, lv: Level) -> Seq<u8>
    decreases s.len(), 0int,
{
    if lv.array is Some && rest.len() < s.len() {
        spec_nested_loop_left(rest, Level { array: Some(lv.array->0.push(v)), ..lv })
    } else {
        rest
    }
}

/// What is left of `s` after a level is read from it in the state `lv`:
/// the input after the value, or after the byte at which an error was
/// found (nothing when the input ended).
pub open spec fn spec_nested_loop_left(s: Seq<u8>, lv: Level) -> Seq<u8>
    decreases s.len(), 1int,
{
    if s.len() == 0 {
        s
    } else {
        let b = s[0];
        let t = s.drop_first();
        if spec_is_whitespace(b) {
            spec_nested_loop_left(t, lv)
        } else {
            match spec_value_kind(b) {
                Err(_) => t,
                Ok(k) => match k {
                    ValueKind::BeginArray | ValueKind::BeginObject => match spec_nested(t, Some(k)) {
                        Err(_) => spec_nested_left(t, Some(k)),
                        Ok((v, t2)) => spec_emit_left(s, v, t2, lv),
                    },
                    ValueKind::EndArray | ValueKind::EndObject => t,
                    ValueKind::NameSeparator => match lv.object {
                        Some(o) => match spec_bytes_to_string(lv.key) {
                            Err(_) => t,
                            Ok(key) => match spec_nested(t, None) {
                                Err(_) => spec_nested_left(t, None),
                                Ok((v, t2)) => if t2.len() < s.len() {
                                    spec_nested_loop_left(
                                        t2,
                                        Level {
                                            object: Some(obj_insert(o, key, v)),
                                            key: Seq::empty(),
                                            ..lv
                                        },
                                    )
                                } else {
                                    t2
                                },
                            },
                        },
                        None => spec_nested_loop_left(t, lv),
                    },
                    ValueKind::ValueSeparator => match lv.array {
                        Some(_) => match spec_nested(t, None) {
                            Err(_) => spec_nested_left(t, None),
                            Ok((v, t2)) => spec_emit_left(s, v, t2, lv),
                        },
                        None => spec_nested_loop_left(t, lv),
                    },
                    ValueKind::Null => match spec_expect_rest(t, word_ull()) {
                        Err(_) => spec_expect_rest_left(t, word_ull()),
                        Ok(t2) => spec_emit_left(s, SpecJson::Null, t2, lv),
                    },
                    ValueKind::Bool => {
                        let boolean = b == BOOLEAN_TRUE;
                        let rest = if boolean {
                            word_rue()
                        } else {
                            word_alse()
                        };
                        match spec_expect_rest(t, rest) {
                            Err(_) => spec_expect_rest_left(t, rest),
                            Ok(t2) => spec_emit_left(s, SpecJson::Bool(boolean), t2, lv),
                        }
                    },
                    ValueKind::Number => {
                        let digits = take_while(t, number_char_pred());
                        let t2 = t.skip(digits.len() as int);
                        match spec_number(seq![b] + digits) {
                            Err(_) => t2,
                            Ok(v) => spec_emit_left(s, v, t2, lv),
                        }
                    },
                    ValueKind::String => match spec_read_until(t, quote_pred()) {
                        Err(_) => spec_read_until_left(t, quote_pred()),
                        Ok((bytes, t2)) => if lv.array is Some {
                            match spec_bytes_to_string(bytes) {
                                Err(_) => t2,
                                Ok(c) => spec_emit_left(s, SpecJson::Str(c), t2, lv),
                            }
                        } else if lv.object is Some && t2.len() < s.len() {
                            spec_nested_loop_left(t2, Level { key: lv.key + bytes, ..lv })
                        } else {
                            t2
                        },
                    },
                },
            }
        }
    }
}

/// What [`parse`] returns for the bytes `s`.
pub open spec fn spec_parse(s: Seq<u8>) -> Result<SpecJson, ParseError> {
    match spec_nested(s, None) {
        Ok((v, _)) => Ok(v),
        Err(e) => Err(e),
    }
}


/// Whitespace before the next byte does not change how a level reads on.
pub proof fn lemma_loop_skips_whitespace(w: Seq<u8>, s: Seq<u8>, lv: Level)
    requires
        forall|i: int| 0 <= i < w.len() ==> spec_is_whitespace(#[trigger] w[i]),
    ensures
        spec_nested_loop(w + s, lv) == spec_nested_loop(s, lv),
        spec_nested_loop_left(w + s, lv) == spec_nested_loop_left(s, lv),
    decreases w.len(),
{
    if w.len() > 0 {
        let w2 = w.drop_first();
        assert((w + s).drop_first() =~= w2 + s);
        assert((w + s)[0] == w[0]);
        assert forall|i: int| 0 <= i < w2.len() implies spec_is_whitespace(#[trigger] w2[i]) by {
            assert(w2[i] == w[i + 1]);
        }
        lemma_loop_skips_whitespace(w2, s, lv);
    } else {
        assert(w + s =~= s);
    }
}

/// The items and members gathered in `lv` are well formed, and the open
/// object names each member once.
pub open spec fn level_wf(lv: Level) -> bool {
    &&& (lv.array matches Some(a) ==> forall|i: int| 0 <= i < a.len() ==> json_wf(#[trigger] a[i]))
    &&& (lv.object matches Some(o) ==> distinct_names(o) && forall|i: int|
        0 <= i < o.len() ==> json_wf(#[trigger] o[i].1))
}

/// Every value that a level reads from a well-formed state is well formed.
pub proof fn lemma_loop_wf(s: Seq<u8>, lv: Level)
    requires
        level_wf(lv),
    ensures
        spec_nested_loop(s, lv) matches Ok((v, _)) ==> json_wf(v),
    decreases s.len(), 1int,
{
    if s.len() == 0 {
        return ;
    }
    let b = s[0];
    let t = s.drop_first();
    if spec_is_whitespace(b) {
        lemma_loop_wf(t, lv);
        return ;
    }
    match spec_value_kind(b) {
        Err(_) => {},
        Ok(k) => {
            // the value read by a nested level or a single value, if any
            let nested = match k {
                ValueKind::BeginArray | ValueKind::BeginObject => Some(Some(k)),
                ValueKind::NameSeparator => if lv.object is Some {
                    Some(None)
                } else {
                    None
                },
                ValueKind::ValueSeparator => if lv.array is Some {
                    Some(None)
                } else {
                    None
                },
                _ => None,
            };
            if let Some(kind) = nested {
                lemma_loop_wf(t, initial_level(kind));
                assert(level_wf(initial_level(kind)));
            }
            match k {
                ValueKind::BeginArray | ValueKind::BeginObject | ValueKind::ValueSeparator => {
                    if let Some(kind) = nested {
                        if let Ok((v, t2)) = spec_nested(t, kind) {
                            lemma_emit_wf(s, v, t2, lv);
                        }
                    }
                },
                ValueKind::NameSeparator => {
                    if let Some(o) = lv.object {
                        if let Ok(key) = spec_bytes_to_string(lv.key) {
                            if let Ok((v, t2)) = spec_nested(t, None) {
                                if t2.len() < s.len() {
                                    let o2 = obj_insert(o, key, v);
                                    crate::json_value::lemma_obj_insert_distinct(o, key, v);
                                    crate::json_value::lemma_key_index(o, key);
                                    let lv2 = Level { object: Some(o2), key: Seq::empty(), ..lv };
                                    assert forall|i: int| 0 <= i < o2.len() implies json_wf(
                                        #[trigger] o2[i].1,
                                    ) by {
                                        if i < o.len() && i != crate::json_value::key_index(
                                            o,
                                            key,
                                        ) {
                                            assert(o2[i] == o[i]);
                                        }
                                    }
                                    lemma_loop_wf(t2, lv2);
                                }
                            }
                        }
                    } else {
                        lemma_loop_wf(t, lv);
                    }
                },
                ValueKind::Null => {
                    if let Ok(t2) = spec_expect_rest(t, word_ull()) {
                        lemma_emit_wf(s, SpecJson::Null, t2, lv);
                    }
                },
                ValueKind::Bool => {
                    let boolean = b == BOOLEAN_TRUE;
                    let rest = if boolean {
                        word_rue()
                    } else {
                        word_alse()
                    };
                    if let Ok(t2) = spec_expect_rest(t, rest) {
                        lemma_emit_wf(s, SpecJson::Bool(boolean), t2, lv);
                    }
                },
                ValueKind::Number => {
                    let digits = take_while(t, number_char_pred());
                    if let Ok(v) = spec_number(seq![b] + digits) {
                        lemma_emit_wf(s, v, t.skip(digits.len() as int), lv);
                    }
                },
                ValueKind::String => {
                    if let Ok((bytes, t2)) = spec_read_until(t, quote_pred()) {
                        if lv.array is Some {
                            if let Ok(c) = spec_bytes_to_string(bytes) {
                                lemma_emit_wf(s, SpecJson::Str(c), t2, lv);
                            }
                        } else if lv.object is Some {
                            if t2.len() < s.len() {
                                lemma_loop_wf(t2, Level { key: lv.key + bytes, ..lv });
                            }
                        }
                    }
                },
                _ => {},
            }
            if k == ValueKind::ValueSeparator && lv.array is None {
                lemma_loop_wf(t, lv);
            }
        },
    }
}

/// Emitting a well-formed value keeps the level well formed.
pub proof fn lemma_emit_wf(s: Seq<u8>, v: SpecJson, rest: Seq<u8>, lv: Level)
    requires
        level_wf(lv),
        json_wf(v),
    ensures
        spec_emit(s, v, rest, lv) matches Ok((w, _)) ==> json_wf(w),
    decreases s.len(), 0int,
{
    if lv.array is Some && rest.len() < s.len() {
        let a2 = lv.array->0.push(v);
        assert forall|i: int| 0 <= i < a2.len() implies json_wf(#[trigger] a2[i]) by {
            if i < lv.array->0.len() {
                assert(a2[i] == lv.array->0[i]);
            }
        }
        lemma_loop_wf(rest, Level { array: Some(a2), ..lv });
    }
}

/// The state of one level of nesting while [`parse_nested`] reads it.
struct Nest {
    array: Option<Vec<JsonValue>>,
    object: Option<Vec<(String, JsonValue)>>,
    key: Vec<u8>,
}

impl Nest {
    spec fn level(&self) -> Level {
        Level {
            array: match self.array {
                Some(a) => Some(items_model(a@)),
                None => None,
            },
            object: match self.object {
                Some(o) => Some(members_model(o@)),
                None => None,
            },
            key: self.key@,
        }
    }
}

/// What reading one non-whitespace byte leads to: reading goes on, or the
/// level is done.
enum Step {
    Continue,
    Done(Result<JsonValue, ParseError>),
}

/// `st` is what the level read from `s` in the state `lv` comes to, when
/// the input left is `rest` and the new state `new_lv`.
spec fn step_post(s: Seq<u8>, lv: Level, st: Step, rest: Seq<u8>, new_lv: Level) -> bool {
    &&& rest.len() < s.len()
    &&& match st {
        Step::Continue => spec_nested_loop_left(s, lv) == spec_nested_loop_left(rest, new_lv),
        Step::Done(_) => spec_nested_loop_left(s, lv) == rest,
    }
    &&& match st {
        Step::Continue => spec_nested_loop(s, lv) == spec_nested_loop(rest, new_lv),
        Step::Done(r) => match spec_nested_loop(s, lv) {
            Ok((v, t)) => r matches Ok(x) && x.model() == v && rest == t,
            Err(e) => r == Err::<JsonValue, ParseError>(e),
        },
    }
}

/// A value `v` was read with `rest` left: an open array takes it as its
/// next item, otherwise it is the result.
fn emit(
    nest: &mut Nest,
    v: JsonValue,
    Ghost(s): Ghost<Seq<u8>>,
    Ghost(rest): Ghost<Seq<u8>>,
) -> (st: Step)
    requires
        rest.len() < s.len(),
    ensures
        match st {
            Step::Continue => spec_emit(s, v.model(), rest, old(nest).level())
                == spec_nested_loop(rest, final(nest).level()),
            Step::Done(r) => spec_emit(s, v.model(), rest, old(nest).level()) == Ok::<
                (SpecJson, Seq<u8>),
                ParseError,
            >((v.model(), rest)) && r == Ok::<JsonValue, ParseError>(v),
        },
        match st {
            Step::Continue => spec_emit_left(s, v.model(), rest, old(nest).level())
                == spec_nested_loop_left(rest, final(nest).level()),
            Step::Done(_) => spec_emit_left(s, v.model(), rest, old(nest).level()) == rest,
        },
{
    match nest.array.take() {
        Some(mut a) => {
            let ghost before = a@;
            let ghost vm = v.model();
            a.push(v);
            assert(items_model(a@) =~= items_model(before).push(vm));
            nest.array = Some(a);
            Step::Continue
        },
        None => Step::Done(Ok(v)),
    }
}

fn step_nested(iter_bytes: &mut ByteStream, nest: &mut Nest, b: u8) -> (st: Step)
    requires
        b == crate::tokens::BEGIN_ARRAY || b == crate::tokens::BEGIN_OBJECT,
    ensures
        step_post(
            seq![b] + old(iter_bytes)@,
            old(nest).level(),
            st,
            final(iter_bytes)@,
            final(nest).level(),
        ),
    decreases old(iter_bytes)@.len(), 1int,
{
    let ghost s = seq![b] + iter_bytes@;
    assert(s.drop_first() =~= iter_bytes@);
    let kind = if b == crate::tokens::BEGIN_ARRAY {
        ValueKind::BeginArray
    } else {
        ValueKind::BeginObject
    };
    let json_value = match parse_nested(iter_bytes, Some(kind)) {
        Ok(v) => v,
        Err(e) => {
            return Step::Done(Err(e));
        },
    };
    emit(nest, json_value, Ghost(s), Ghost(iter_bytes@))
}


fn step_name_separator(iter_bytes: &mut ByteStream, nest: &mut Nest) -> (st: Step)
    ensures
        step_post(
            seq![crate::tokens::NAME_SEPARATOR] + old(iter_bytes)@,
            old(nest).level(),
            st,
            final(iter_bytes)@,
            final(nest).level(),
        ),
    decreases old(iter_bytes)@.len(), 1int,
{
    let ghost s = seq![crate::tokens::NAME_SEPARATOR] + iter_bytes@;
    assert(s.drop_first() =~= iter_bytes@);
    if nest.object.is_some() {
        let mut key_bytes: Vec<u8> = Vec::new();
        std::mem::swap(&mut key_bytes, &mut nest.key);
        let key = match bytes_to_string(key_bytes) {
            Ok(k) => k,
            Err(e) => {
                return Step::Done(Err(e));
            },
        };
        let json_value = match parse_nested(iter_bytes, None) {
            Ok(v) => v,
            Err(e) => {
                return Step::Done(Err(e));
            },
        };
        match nest.object.take() {
            Some(mut o) => {
                object_insert(&mut o, key, json_value);
                nest.object = Some(o);
            },
            None => {},
        }
    }
    Step::Continue
}

fn step_value_separator(iter_bytes: &mut ByteStream, nest: &mut Nest) -> (st: Step)
    ensures
        step_post(
            seq![crate::tokens::VALUE_SEPARATOR] + old(iter_bytes)@,
            old(nest).level(),
            st,
            final(iter_bytes)@,
            final(nest).level(),
        ),
    decreases old(iter_bytes)@.len(), 1int,
{
    let ghost s = seq![crate::tokens::VALUE_SEPARATOR] + iter_bytes@;
    assert(s.drop_first() =~= iter_bytes@);
    if nest.array.is_some() {
        let json_value = match parse_nested(iter_bytes, None) {
            Ok(v) => v,
            Err(e) => {
                return Step::Done(Err(e));
            },
        };
        emit(nest, json_value, Ghost(s), Ghost(iter_bytes@))
    } else {
        Step::Continue
    }
}

fn step_end(iter_bytes: &mut ByteStream, nest: &mut Nest, b: u8) -> (st: Step)
    requires
        b == END_ARRAY || b == END_OBJECT,
    ensures
        step_post(
            seq![b] + old(iter_bytes)@,
            old(nest).level(),
            st,
            final(iter_bytes)@,
            final(nest).level(),
        ),
{
    let ghost s = seq![b] + iter_bytes@;
    assert(s.drop_first() =~= iter_bytes@);
    if b == END_ARRAY {
        match nest.array.take() {
            Some(a) => {
                proof {
                    lemma_model_array(a);
                }
                Step::Done(Ok(JsonValue::Array(a)))
            },
            None => Step::Done(Err(ParseError::UnexpectedByte(END_ARRAY))),
        }
    } else {
        match nest.object.take() {
            Some(o) => {
                proof {
                    lemma_model_object(o);
                }
                Step::Done(Ok(JsonValue::Object(o)))
            },
            None => Step::Done(Err(ParseError::UnexpectedByte(END_OBJECT))),
        }
    }
}

fn step_keyword(iter_bytes: &mut ByteStream, nest: &mut Nest, b: u8) -> (st: Step)
    requires
        b == crate::tokens::NULL || b == BOOLEAN_TRUE || b == crate::tokens::BOOLEAN_FALSE,
    ensures
        step_post(
            seq![b] + old(iter_bytes)@,
            old(nest).level(),
            st,
            final(iter_bytes)@,
            final(nest).level(),
        ),
{
    let ghost s = seq![b] + iter_bytes@;
    assert(s.drop_first() =~= iter_bytes@);
    let ull = [0x75u8, 0x6c, 0x6c];
    let rue = [0x72u8, 0x75, 0x65];
    let alse = [0x61u8, 0x6c, 0x73, 0x65];
    assert(ull@ =~= word_ull());
    assert(rue@ =~= word_rue());
    assert(alse@ =~= word_alse());
    let json_value;
    let checked;
    if b == crate::tokens::NULL {
        checked = expect_rest(iter_bytes, &ull);
        json_value = JsonValue::Null;
    } else {
        let boolean = convert_to_bool(b);
        checked = if boolean {
            expect_rest(iter_bytes, &rue)
        } else {
            expect_rest(iter_bytes, &alse)
        };
        json_value = JsonValue::Bool(boolean);
    }
    match checked {
        Ok(()) => {},
        Err(e) => {
            return Step::Done(Err(e));
        },
    }
    emit(nest, json_value, Ghost(s), Ghost(iter_bytes@))
}

fn step_number(iter_bytes: &mut ByteStream, nest: &mut Nest, b: u8) -> (st: Step)
    requires
        spec_value_kind(b) == Ok::<ValueKind, ParseError>(ValueKind::Number),
    ensures
        step_post(
            seq![b] + old(iter_bytes)@,
            old(nest).level(),
            st,
            final(iter_bytes)@,
            final(nest).level(),
        ),
{
    let ghost s = seq![b] + iter_bytes@;
    let ghost t = iter_bytes@;
    assert(s.drop_first() =~= t);
    let mut bytes = read_while(iter_bytes, is_number_char);
    proof {
        assert forall|i: int| 0 <= i < bytes@.len() implies #[trigger] number_char_pred()(
            bytes@[i],
        ) by {
            assert(is_number_char.ensures((bytes@[i],), true));
        }
        if iter_bytes@.len() > 0 {
            assert(is_number_char.ensures((iter_bytes@[0],), false));
        }
        lemma_take_while_unique(t, bytes@, iter_bytes@, number_char_pred());
        assert(t.skip(bytes@.len() as int) =~= iter_bytes@);
    }
    let ghost digits = bytes@;
    bytes.insert(0, b);
    assert(bytes@ =~= seq![b] + digits);
    let number = if is_float_number(bytes.as_slice()) {
        match convert_to_float(bytes) {
            Ok(text) => JsonValue::Float(text),
            Err(e) => {
                return Step::Done(Err(e));
            },
        }
    } else {
        match convert_to_int(bytes) {
            Ok(v) => JsonValue::Int(v),
            Err(e) => {
                return Step::Done(Err(e));
            },
        }
    };
    emit(nest, number, Ghost(s), Ghost(iter_bytes@))
}

fn step_string(iter_bytes: &mut ByteStream, nest: &mut Nest) -> (st: Step)
    ensures
        step_post(
            seq![DOUBLE_QUOTE] + old(iter_bytes)@,
            old(nest).level(),
            st,
            final(iter_bytes)@,
            final(nest).level(),
        ),
{
    let ghost s = seq![DOUBLE_QUOTE] + iter_bytes@;
    assert(s.drop_first() =~= iter_bytes@);
    assert(describes(is_double_quote, quote_pred()));
    let bytes = match read_until(iter_bytes, is_double_quote) {
        Ok(v) => v,
        Err(e) => {
            return Step::Done(Err(e));
        },
    };
    if nest.array.is_some() {
        let text = match bytes_to_string(bytes) {
            Ok(x) => x,
            Err(e) => {
                return Step::Done(Err(e));
            },
        };
        emit(nest, JsonValue::String(text), Ghost(s), Ghost(iter_bytes@))
    } else if nest.object.is_some() {
        let mut bytes = bytes;
        nest.key.append(&mut bytes);
        Step::Continue
    } else {
        let text = match bytes_to_string(bytes) {
            Ok(x) => x,
            Err(e) => {
                return Step::Done(Err(e));
            },
        };
        Step::Done(Ok(JsonValue::String(text)))
    }
}

/// Reads one level of nesting: a single value when `value_kind` is `None`,
/// the rest of an array after `[`, or the rest of an object after `{`.
pub fn parse_nested(iter_bytes: &mut ByteStream, value_kind: Option<ValueKind>) -> (r: Result<
    JsonValue,
    ParseError,
>)
    ensures
        match spec_nested(old(iter_bytes)@, value_kind) {
            Ok((v, rest)) => r matches Ok(x) && x.model() == v && final(iter_bytes)@ == rest,
            Err(e) => r == Err::<JsonValue, ParseError>(e),
        },
        r matches Ok(x) ==> x.wf(),
        final(iter_bytes)@ == spec_nested_left(old(iter_bytes)@, value_kind),
        final(iter_bytes)@.len() <= old(iter_bytes)@.len(),
    decreases old(iter_bytes)@.len(), 0int,
{
    let mut nest = Nest { array: None, object: None, key: Vec::new() };
    match value_kind {
        Some(ValueKind::BeginArray) => {
            nest.array = Some(Vec::new());
        },
        Some(ValueKind::BeginObject) => {
            nest.object = Some(Vec::new());
        },
        _ => {},
    }
    assert(nest.level() == initial_level(value_kind)) by {
        assert(items_model(Seq::<JsonValue>::empty()) =~= Seq::<SpecJson>::empty());
        assert(members_model(Seq::<(String, JsonValue)>::empty()) =~= Seq::<
            (Seq<char>, SpecJson),
        >::empty());
    }
    let ws = read_while(iter_bytes, is_whitespace);
    proof {
        assert forall|i: int| 0 <= i < ws@.len() implies spec_is_whitespace(#[trigger] ws@[i]) by {
            assert(is_whitespace.ensures((ws@[i],), true));
        }
        lemma_loop_skips_whitespace(ws@, iter_bytes@, initial_level(value_kind));
    }
    loop
        invariant
            spec_nested(old(iter_bytes)@, value_kind) == spec_nested_loop(
                iter_bytes@,
                nest.level(),
            ),
            spec_nested_left(old(iter_bytes)@, value_kind) == spec_nested_loop_left(
                iter_bytes@,
                nest.level(),
            ),
            iter_bytes@.len() <= old(iter_bytes)@.len(),
        decreases iter_bytes@.len(),
    {
        let ghost s = iter_bytes@;
        let b = match iter_bytes.next() {
            Some(b) => b,
            None => {
                return Err(ParseError::UnexpectedEof);
            },
        };
        assert(s =~= seq![b] + iter_bytes@);
        if is_whitespace(b) {
            continue ;
        }
        let kind = match parse_value_kind(b) {
            Ok(k) => k,
            Err(e) => {
                return Err(e);
            },
        };
        let st = match kind {
            ValueKind::BeginArray | ValueKind::BeginObject => step_nested(iter_bytes, &mut nest, b),
            ValueKind::EndArray | ValueKind::EndObject => step_end(iter_bytes, &mut nest, b),
            ValueKind::NameSeparator => step_name_separator(iter_bytes, &mut nest),
            ValueKind::ValueSeparator => step_value_separator(iter_bytes, &mut nest),
            ValueKind::Null | ValueKind::Bool => step_keyword(iter_bytes, &mut nest, b),
            ValueKind::Number => step_number(iter_bytes, &mut nest, b),
            ValueKind::String => step_string(iter_bytes, &mut nest),
        };
        match st {
            Step::Continue => {},
            Step::Done(r) => {
                proof {
                    lemma_loop_wf(old(iter_bytes)@, initial_level(value_kind));
                    assert(spec_nested(old(iter_bytes)@, value_kind) == spec_nested_loop(
                        old(iter_bytes)@,
                        initial_level(value_kind),
                    ));
                }
                return r;
            },
        }
    }
}

/// Parse a JSON document from a string slice into a [`JsonValue`] tree.
///
/// The whole input is expected to be a single JSON value. Returns a
/// [`ParseError`] when the input is not valid JSON (an unexpected byte,
/// an unterminated string or structure, an invalid escape, and so on).
/// Since the input is text, every string it holds is valid UTF-8, and
/// `InvalidUtf8` never comes back.
pub fn parse(input: &str) -> (r: Result<JsonValue, ParseError>)
    ensures
        match spec_parse(encode_utf8(input@)) {
            Ok(v) => r matches Ok(x) && x.model() == v,
            Err(e) => r == Err::<JsonValue, ParseError>(e),
        },
        r matches Ok(x) ==> x.wf(),
        r matches Err(e) ==> !(e is InvalidUtf8),
{
    proof {
        crate::text_input::law_text_has_no_utf8_error(input@);
    }
    let bytes = input.as_bytes();
    let mut iter_bytes = ByteStream::new(bytes);
    parse_nested(&mut iter_bytes, None)
}

} // verus!
