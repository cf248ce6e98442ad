use jawson::{
    bytes_to_string, check_float, convert_to_float, convert_to_int, expect_rest, is_double_quote,
    is_float_literal, is_float_number, is_whitespace, parse, parse_i64, parse_nested,
    parse_value_kind, read_hex4, read_until, read_while, ByteStream, FloatErrorKind, IntErrorKind, JsonValue,
    ParseError, Utf8Error, ValueKind,
};

fn s(text: &str) -> JsonValue {
    JsonValue::String(String::from(text))
}

fn escape(body: &[u8]) -> Vec<u8> {
    let mut out = Vec::new();
    for &b in body {
        match b {
            b'"' => out.extend_from_slice(b"\\\""),
            b'\\' => out.extend_from_slice(b"\\\\"),
            0x08 => out.extend_from_slice(b"\\b"),
            0x0c => out.extend_from_slice(b"\\f"),
            b'\n' => out.extend_from_slice(b"\\n"),
            b'\r' => out.extend_from_slice(b"\\r"),
            b'\t' => out.extend_from_slice(b"\\t"),
            _ => out.push(b),
        }
    }
    out
}

#[test]
fn leading_whitespace_changes_nothing() {
    assert_eq!(parse(" \t\r\n[1, true]"), parse("[1, true]"));
    assert_eq!(parse("\n\n  null"), Ok(JsonValue::Null));
}

#[test]
fn escaped_body_reads_back() {
    let body: Vec<u8> = b"a \"quoted\" back\\slash\nnew\tline\x08\x0c\r/end".to_vec();
    let mut input = escape(&body);
    input.extend_from_slice(b"\"rest");
    let mut stream = ByteStream::new(&input);
    let collected = read_until(&mut stream, is_double_quote).unwrap();
    assert_eq!(collected, body);
    assert_eq!(stream.peek(), Some(b'r'));
}

#[test]
fn unicode_escapes_read_back_as_utf8() {
    let input = br#"\u00e9\u00E9\u4e2d\uD83D\uDE00\u00e9""#;
    let mut stream = ByteStream::new(input);
    let collected = read_until(&mut stream, is_double_quote).unwrap();
    assert_eq!(collected, "éé\u{4e2d}\u{1f600}é".as_bytes());
    assert_eq!(stream.peek(), None);
}

#[test]
fn every_i64_reads_back() {
    for n in [0i64, 1, -1, 7, 10, -10, 38793, i64::MAX, i64::MIN, i64::MIN + 1] {
        assert_eq!(parse(&n.to_string()), Ok(JsonValue::Int(n)));
    }
}

#[test]
fn trailing_input_is_ignored() {
    assert_eq!(parse("[1] trailing"), parse("[1]"));
    assert_eq!(parse(r#"{"a": 1}}}"#), parse(r#"{"a": 1}"#));
    assert_eq!(parse("12 34"), Ok(JsonValue::Int(12)));
    assert_eq!(parse("null,"), Ok(JsonValue::Null));
}

#[test]
fn object_names_each_member_once() {
    let v = parse(r#"{"b": 1, "a": 2, "b": 3}"#).unwrap();
    assert_eq!(
        v,
        JsonValue::Object(vec![
            (String::from("b"), JsonValue::Int(3)),
            (String::from("a"), JsonValue::Int(2)),
        ])
    );
}

#[test]
fn name_pieces_before_a_colon_are_joined() {
    let v = parse(r#"{"a" "b": true}"#).unwrap();
    assert_eq!(
        v,
        JsonValue::Object(vec![(String::from("ab"), JsonValue::Bool(true))])
    );
}

#[test]
fn loose_separators_are_accepted() {
    let expected = JsonValue::Array(vec![JsonValue::Int(1), JsonValue::Int(2)]);
    assert_eq!(parse("[1 2]"), Ok(JsonValue::Array(vec![JsonValue::Int(1), JsonValue::Int(2)])));
    assert_eq!(parse("[1,,2]"), Ok(expected));
    assert_eq!(parse("[1,]"), Err(ParseError::UnexpectedByte(b']')));
}

#[test]
fn nested_values_and_strings() {
    let v = parse(r#"[[], {}, [null, [false]], "x\u0041"]"#).unwrap();
    assert_eq!(
        v,
        JsonValue::Array(vec![
            JsonValue::Array(vec![]),
            JsonValue::Object(vec![]),
            JsonValue::Array(vec![
                JsonValue::Null,
                JsonValue::Array(vec![JsonValue::Bool(false)])
            ]),
            s("xA"),
        ])
    );
}

#[test]
fn numbers_are_classified_by_their_text() {
    assert_eq!(parse("-0"), Ok(JsonValue::Int(0)));
    assert_eq!(parse("1E2"), Ok(JsonValue::Float(String::from("1E2"))));
    assert_eq!(parse("-2.50"), Ok(JsonValue::Float(String::from("-2.50"))));
    assert_eq!(parse("3e-7"), Ok(JsonValue::Float(String::from("3e-7"))));
}

#[test]
fn every_error_variant() {
    assert_eq!(parse(""), Err(ParseError::UnexpectedEof));
    assert_eq!(parse("   "), Err(ParseError::UnexpectedEof));
    assert_eq!(parse(r#"{"a": 1"#), Err(ParseError::UnexpectedEof));
    assert_eq!(parse("nul"), Err(ParseError::UnexpectedEof));
    assert_eq!(parse("}"), Err(ParseError::UnexpectedByte(b'}')));
    assert_eq!(parse("fals!"), Err(ParseError::UnexpectedByte(b'!')));
    assert_eq!(parse("é"), Err(ParseError::UnexpectedByte(0xc3)));
    assert_eq!(parse(r#""\q""#), Err(ParseError::InvalidEscape(b'q')));
    assert_eq!(parse(r#""\u12zz""#), Err(ParseError::InvalidUnicode));
    assert_eq!(parse(r#""\u12"#), Err(ParseError::UnexpectedEof));
    assert_eq!(parse(r#""\uD83D"#), Err(ParseError::UnexpectedEof));
    assert_eq!(parse(r#""\uD83D\u0041""#), Err(ParseError::InvalidUnicode));
    assert_eq!(parse("1-2"), Err(ParseError::InvalidInt(IntErrorKind::InvalidDigit)));
    assert_eq!(parse("-"), Err(ParseError::InvalidInt(IntErrorKind::InvalidDigit)));
    assert_eq!(
        parse("9223372036854775808"),
        Err(ParseError::InvalidInt(IntErrorKind::PosOverflow))
    );
    assert_eq!(
        parse("-9223372036854775809"),
        Err(ParseError::InvalidInt(IntErrorKind::NegOverflow))
    );
    assert_eq!(parse("1.2.3"), Err(ParseError::InvalidFloat(FloatErrorKind::Invalid)));
    assert_eq!(parse("1e"), Err(ParseError::InvalidFloat(FloatErrorKind::Invalid)));
    assert_eq!(
        bytes_to_string(vec![b'a', 0xff]),
        Err(ParseError::InvalidUtf8(Utf8Error { valid_up_to: 1, error_len: Some(1) }))
    );
}

#[test]
fn bytes_to_string_keeps_valid_utf8() {
    assert_eq!(bytes_to_string("héllo 😀".as_bytes().to_vec()), Ok(String::from("héllo 😀")));
    assert_eq!(
        bytes_to_string(vec![0xe4, 0xb8]),
        Err(ParseError::InvalidUtf8(Utf8Error { valid_up_to: 0, error_len: None }))
    );
}

#[test]
fn convert_to_int_follows_i64_from_str() {
    assert_eq!(convert_to_int(b"38793".to_vec()), Ok(38793));
    assert_eq!(convert_to_int(b"-38793".to_vec()), Ok(-38793));
    assert_eq!(convert_to_int(b"+5".to_vec()), Ok(5));
    assert_eq!(convert_to_int(b"".to_vec()), Err(ParseError::InvalidInt(IntErrorKind::Empty)));
    assert_eq!(
        convert_to_int(b"+".to_vec()),
        Err(ParseError::InvalidInt(IntErrorKind::InvalidDigit))
    );
    assert_eq!(
        convert_to_int(vec![b'1', 0xff]),
        Err(ParseError::InvalidUtf8(Utf8Error { valid_up_to: 1, error_len: Some(1) }))
    );
    assert_eq!(parse_i64(b"-9223372036854775808"), Ok(i64::MIN));
    assert_eq!(parse_i64(b"9223372036854775807"), Ok(i64::MAX));
    assert_eq!(parse_i64(b"99999999999999999999x"), Err(IntErrorKind::PosOverflow));
    assert_eq!(parse_i64(b"12x99999999999999999999"), Err(IntErrorKind::InvalidDigit));
}

#[test]
fn convert_to_float_checks_the_literal() {
    assert_eq!(convert_to_float(b"37.7668".to_vec()), Ok(String::from("37.7668")));
    assert_eq!(convert_to_float(b"-122.3959".to_vec()), Ok(String::from("-122.3959")));
    assert_eq!(
        convert_to_float(b"".to_vec()),
        Err(ParseError::InvalidFloat(FloatErrorKind::Empty))
    );
    for ok in ["1.", ".5", "1e5", "1E+5", "1e-05", "+3.25", "inf", "-Infinity", "NaN"] {
        assert!(is_float_literal(ok.as_bytes()), "{}", ok);
        assert!(ok.parse::<f64>().is_ok(), "{}", ok);
    }
    for bad in [".", "e5", "1e", "1e+", "1.2.3", "+", "--1", "1 ", "infinit", "0x10"] {
        assert!(!is_float_literal(bad.as_bytes()), "{}", bad);
        assert!(bad.parse::<f64>().is_err(), "{}", bad);
    }
    assert_eq!(check_float(b""), Err(FloatErrorKind::Empty));
    assert_eq!(check_float(b"1.5"), Ok(()));
}

#[test]
fn hex4_reads_code_units() {
    let mut stream = ByteStream::new(b"00e9ABCDfF09z");
    assert_eq!(read_hex4(&mut stream), Ok(0xe9));
    assert_eq!(read_hex4(&mut stream), Ok(0xabcd));
    assert_eq!(read_hex4(&mut stream), Ok(0xff09));
    assert_eq!(read_hex4(&mut stream), Err(ParseError::UnexpectedEof));
    let mut stream = ByteStream::new(b"+abc");
    assert_eq!(read_hex4(&mut stream), Err(ParseError::InvalidUnicode));
    assert_eq!(parse(r#""\u+0e9""#), Err(ParseError::InvalidUnicode));
    let mut stream = ByteStream::new(b"12g4");
    assert_eq!(read_hex4(&mut stream), Err(ParseError::InvalidUnicode));
}

#[test]
fn token_helpers() {
    assert!(is_whitespace(b' ') && is_whitespace(b'\t') && is_whitespace(b'\n'));
    assert!(is_whitespace(b'\r') && !is_whitespace(b'x'));
    assert!(is_float_number(b"1.5") && is_float_number(b"1e5") && !is_float_number(b"-15"));
    assert_eq!(parse_value_kind(b'['), Ok(ValueKind::BeginArray));
    assert_eq!(parse_value_kind(b'-'), Ok(ValueKind::Number));
    assert_eq!(parse_value_kind(b'f'), Ok(ValueKind::Bool));
    assert_eq!(parse_value_kind(b'+'), Err(ParseError::UnexpectedByte(b'+')));
    let mut stream = ByteStream::new(b"ull!");
    assert_eq!(expect_rest(&mut stream, b"ull"), Ok(()));
    assert_eq!(stream.peek(), Some(b'!'));
    let mut stream = ByteStream::new(b"ux");
    assert_eq!(expect_rest(&mut stream, b"ull"), Err(ParseError::UnexpectedByte(b'x')));
    let mut stream = ByteStream::new(b"   x");
    assert_eq!(read_while(&mut stream, is_whitespace), b"   ".to_vec());
    assert_eq!(stream.next(), Some(b'x'));
    assert_eq!(stream.next(), None);
}

fn write(v: &JsonValue, out: &mut Vec<u8>) {
    match v {
        JsonValue::Null => out.extend_from_slice(b"null"),
        JsonValue::Bool(true) => out.extend_from_slice(b"true"),
        JsonValue::Bool(false) => out.extend_from_slice(b"false"),
        JsonValue::Int(n) => out.extend_from_slice(n.to_string().as_bytes()),
        JsonValue::Float(text) => out.extend_from_slice(text.as_bytes()),
        JsonValue::String(text) => write_text(text, out),
        JsonValue::Array(items) => {
            out.push(b'[');
            for (i, item) in items.iter().enumerate() {
                if i > 0 {
                    out.push(b',');
                }
                write(item, out);
            }
            out.push(b']');
        }
        JsonValue::Object(members) => {
            out.push(b'{');
            for (i, (name, value)) in members.iter().enumerate() {
                if i > 0 {
                    out.push(b',');
                }
                write_text(name, out);
                out.push(b':');
                write(value, out);
            }
            out.push(b'}');
        }
    }
}

fn write_text(text: &str, out: &mut Vec<u8>) {
    out.push(b'"');
    out.extend_from_slice(&escape(text.as_bytes()));
    out.push(b'"');
}

#[test]
fn written_values_parse_back() {
    let values = vec![
        JsonValue::Null,
        JsonValue::Bool(true),
        JsonValue::Int(i64::MIN),
        JsonValue::Float(String::from("-0.5e10")),
        s("tab\there \"quoted\" back\\slash café 😀"),
        JsonValue::Array(vec![]),
        JsonValue::Object(vec![]),
        JsonValue::Array(vec![
            JsonValue::Int(1),
            JsonValue::Array(vec![JsonValue::Bool(false), JsonValue::Null]),
            s(""),
        ]),
        JsonValue::Object(vec![
            (String::from("name"), s("Ada")),
            (String::from("tags"), JsonValue::Array(vec![s("x"), JsonValue::Float(String::from("1.5"))])),
            (String::from("inner"), JsonValue::Object(vec![(String::from("k\n"), JsonValue::Int(-7))])),
        ]),
    ];
    for v in values {
        let mut text = Vec::new();
        write(&v, &mut text);
        let text = String::from_utf8(text).unwrap();
        assert_eq!(parse(&text), Ok(v), "{}", text);
    }
}

#[test]
fn text_input_never_reports_invalid_utf8() {
    let inputs = [
        r#""héllo""#,
        r#"{"clé": "😀", "a" "é": 1}"#,
        "[\"\u{4e2d}\u{6587}\", \"\\u00e9\"]",
        "\"unterminated é",
        "é",
        r#"{"€"#,
    ];
    for input in inputs {
        let r = parse(input);
        assert!(!matches!(r, Err(ParseError::InvalidUtf8(_))), "{}", input);
    }
    assert_eq!(parse(r#"{"clé" "ü": "😀"}"#), Ok(JsonValue::Object(vec![(String::from("cléü"), s("😀"))])));
}

#[test]
fn streams_stop_where_errors_are_found() {
    let mut stream = ByteStream::new(b"ux!");
    assert_eq!(expect_rest(&mut stream, b"ull"), Err(ParseError::UnexpectedByte(b'x')));
    assert_eq!(stream.peek(), Some(b'!'));

    let mut stream = ByteStream::new(br#"ab\q rest"#);
    assert_eq!(read_until(&mut stream, is_double_quote), Err(ParseError::InvalidEscape(b'q')));
    assert_eq!(stream.peek(), Some(b' '));

    let mut stream = ByteStream::new(br#"\uD83Dxy tail"#);
    assert_eq!(read_until(&mut stream, is_double_quote), Err(ParseError::InvalidUnicode));
    assert_eq!(stream.peek(), Some(b' '));

    let mut stream = ByteStream::new(b"12 x");
    assert_eq!(read_hex4(&mut stream), Err(ParseError::InvalidUnicode));
    assert_eq!(stream.peek(), None);

    let mut stream = ByteStream::new(b"1, @ zz");
    assert_eq!(
        parse_nested(&mut stream, Some(ValueKind::BeginArray)),
        Err(ParseError::UnexpectedByte(b'@'))
    );
    assert_eq!(stream.peek(), Some(b' '));

    let mut stream = ByteStream::new(b"1.2.3] after");
    assert_eq!(
        parse_nested(&mut stream, Some(ValueKind::BeginArray)),
        Err(ParseError::InvalidFloat(FloatErrorKind::Invalid))
    );
    assert_eq!(stream.peek(), Some(b']'));

    let mut stream = ByteStream::new(b" [true] rest");
    assert_eq!(
        parse_nested(&mut stream, None),
        Ok(JsonValue::Array(vec![JsonValue::Bool(true)]))
    );
    assert_eq!(stream.peek(), Some(b' '));
}

#[test]
fn stray_separators_are_skipped() {
    assert_eq!(parse(",1"), Ok(JsonValue::Int(1)));
    assert_eq!(parse(": true"), Ok(JsonValue::Bool(true)));
    let expected = Ok(JsonValue::Object(vec![
        (String::from("a"), JsonValue::Int(1)),
        (String::from("b"), JsonValue::Int(2)),
    ]));
    assert_eq!(parse(r#"{"a":1 "b":2}"#), expected);
    assert_eq!(parse(r#"{"a":1,,"b":2,}"#), expected);
    assert_eq!(parse(r#"["x" {} [] null 3]"#), parse(r#"["x",{},[],null,3]"#));
}

fn member<'a>(v: &'a JsonValue, name: &str) -> &'a JsonValue {
    match v {
        JsonValue::Object(members) => &members.iter().find(|(k, _)| k == name).unwrap().1,
        _ => panic!("not an object"),
    }
}

#[test]
fn usage_example_reads_as_documented() {
    let json = r#"
        {
            "name": "Ada Lovelace",
            "age": 36,
            "active": true,
            "languages": ["rust", "ml", null],
            "address": { "city": "London", "zip": "SW1" }
        }
    "#;
    let value = parse(json).unwrap();
    assert_eq!(member(&value, "age"), &JsonValue::Int(36));
    assert_eq!(member(&value, "active"), &JsonValue::Bool(true));
    assert_eq!(
        member(&value, "languages"),
        &JsonValue::Array(vec![s("rust"), s("ml"), JsonValue::Null])
    );
    assert_eq!(member(member(&value, "address"), "city"), &s("London"));
    assert_eq!(parse("null"), Ok(JsonValue::Null));
    assert_eq!(
        parse("[1, 2, 3]"),
        Ok(JsonValue::Array(vec![JsonValue::Int(1), JsonValue::Int(2), JsonValue::Int(3)]))
    );
}

#[test]
fn parse_i64_agrees_with_std() {
    let inputs = [
        "", "+", "-", "0", "-0", "+0", "007", "42", "-42", "+42", "1_000", " 1", "1 ", "12a",
        "a12", "--1", "+-1", "9223372036854775807", "9223372036854775808",
        "-9223372036854775808", "-9223372036854775809", "99999999999999999999",
        "99999999999999999999x", "-99999999999999999999x", "12x99999999999999999999", "٣",
    ];
    for input in inputs {
        let expected = match input.parse::<i64>() {
            Ok(v) => Ok(v),
            Err(e) => Err(match e.kind() {
                std::num::IntErrorKind::Empty => IntErrorKind::Empty,
                std::num::IntErrorKind::InvalidDigit => IntErrorKind::InvalidDigit,
                std::num::IntErrorKind::PosOverflow => IntErrorKind::PosOverflow,
                std::num::IntErrorKind::NegOverflow => IntErrorKind::NegOverflow,
                _ => panic!("unexpected kind for {}", input),
            }),
        };
        assert_eq!(parse_i64(input.as_bytes()), expected, "{}", input);
    }
}

#[test]
fn array_items_are_the_values_of_their_parts() {
    let parts = [" 1 ", "\"a,b\"", "\n[2, {\"k\": null}]\t", "-3.5e1", " true"];
    let doc = format!("[{}]", parts.join(","));
    let items: Vec<JsonValue> = parts.iter().map(|p| parse(p).unwrap()).collect();
    assert_eq!(parse(&doc), Ok(JsonValue::Array(items)));
    assert_eq!(parse("[]"), Ok(JsonValue::Array(vec![])));
}

#[test]
fn whitespace_between_tokens_changes_nothing() {
    let tight = r#"{"a":[1,2,{"b":"x y"}],"c":-7,"d":true}"#;
    let loose = " { \"a\" :\n[ 1 ,\t2 , { \"b\" : \"x y\" } ] ,\r\n\"c\" : -7 , \"d\" : true } ";
    assert_eq!(parse(loose), parse(tight));
    assert_eq!(parse("[1 ,2]"), parse("[1,2]"));
    assert_eq!(parse("12]"), Ok(JsonValue::Int(12)));
}

#[test]
fn object_members_are_the_values_of_their_parts() {
    let names = [" \"a\" ", "\"b\\u00e9\"", "\n\"a\"\t"];
    let parts = [" 1", "[2, \"x\"] ", " {\"k\": null}"];
    let members: Vec<String> = names.iter().zip(parts.iter()).map(|(n, p)| format!("{}:{}", n, p)).collect();
    let doc = format!("{{{}}}", members.join(","));
    assert_eq!(
        parse(&doc),
        Ok(JsonValue::Object(vec![
            (String::from("a"), parse(parts[2]).unwrap()),
            (String::from("bé"), parse(parts[1]).unwrap()),
        ]))
    );
    assert_eq!(parse("{ }"), Ok(JsonValue::Object(vec![])));
}

#[test]
fn whitespace_inside_empty_containers() {
    assert_eq!(parse("[ \n\t]"), Ok(JsonValue::Array(vec![])));
    assert_eq!(parse("{\r\n }"), Ok(JsonValue::Object(vec![])));
}
