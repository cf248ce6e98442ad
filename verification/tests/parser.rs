use jawson::JsonValue as Parsed;
use jawson::{is_double_quote, is_number_char, parse, read_until, read_while, ByteStream, ParseError};
use std::collections::HashMap;

/// The value tree as the tests state it: floats as `f64`, objects as maps.
#[derive(Debug, PartialEq)]
enum JsonValue {
    Null,
    Bool(bool),
    Int(i64),
    Float(f64),
    String(String),
    Array(Vec<JsonValue>),
    Object(HashMap<String, JsonValue>),
}

fn tree(v: Parsed) -> JsonValue {
    match v {
        Parsed::Null => JsonValue::Null,
        Parsed::Bool(b) => JsonValue::Bool(b),
        Parsed::Int(i) => JsonValue::Int(i),
        Parsed::Float(text) => JsonValue::Float(text.parse().unwrap()),
        Parsed::String(s) => JsonValue::String(s),
        Parsed::Array(items) => JsonValue::Array(items.into_iter().map(tree).collect()),
        Parsed::Object(members) => {
            JsonValue::Object(members.into_iter().map(|(k, v)| (k, tree(v))).collect())
        }
    }
}

fn parse_tree(input: &str) -> Result<JsonValue, ParseError> {
    parse(input).map(tree)
}

#[test]
fn read_while_returns_collected_bytes_and_leaves_delimiter() {
    let json = r#"800,"#;
    let bytes = json.as_bytes();
    let mut iter_bytes = ByteStream::new(bytes);

    let collected = read_while(&mut iter_bytes, is_number_char);

    assert_eq!(collected, vec![b'8', b'0', b'0']);
    assert!(matches!(iter_bytes.peek(), Some(b',')));
}

#[test]
fn read_until_collects_body_and_consumes_delimiter() {
    let json = r#"Hello"world"#;
    let bytes = json.as_bytes();
    let mut iter_bytes = ByteStream::new(bytes);

    let collected = read_until(&mut iter_bytes, is_double_quote).unwrap();

    assert_eq!(collected, b"Hello".to_vec());
    assert!(matches!(iter_bytes.peek(), Some(b'w')));
}

#[test]
fn parse_valid_json_object() {
    let json = r#"
        {
            "Image": {
                "Width":  800,
                "Height": 600,
                "Title":  "View from 15th Floor",
                "Thumbnail": {
                    "Url": "http://www.example.com/image/481989943",
                    "Height": 125,
                    "Width":  100
                },
                "Animated" : false,
                "IDs": [116, 943, 234, 38793]
            }
        }
        "#;

    let mut image_json_value = HashMap::<String, JsonValue>::new();
    image_json_value.insert(String::from("Width"), JsonValue::Int(800));
    image_json_value.insert(String::from("Height"), JsonValue::Int(600));
    image_json_value.insert(
        String::from("Title"),
        JsonValue::String(String::from("View from 15th Floor")),
    );

    let mut thumbnail_json_value = HashMap::<String, JsonValue>::new();
    thumbnail_json_value.insert(
        String::from("Url"),
        JsonValue::String(String::from("http://www.example.com/image/481989943")),
    );
    thumbnail_json_value.insert(String::from("Height"), JsonValue::Int(125));
    thumbnail_json_value.insert(String::from("Width"), JsonValue::Int(100));

    image_json_value.insert(
        String::from("Thumbnail"),
        JsonValue::Object(thumbnail_json_value),
    );
    image_json_value.insert(String::from("Animated"), JsonValue::Bool(false));
    image_json_value.insert(
        String::from("IDs"),
        JsonValue::Array(vec![
            JsonValue::Int(116),
            JsonValue::Int(943),
            JsonValue::Int(234),
            JsonValue::Int(38793),
        ]),
    );

    let mut root_json_value = HashMap::<String, JsonValue>::new();
    root_json_value.insert(String::from("Image"), JsonValue::Object(image_json_value));
    let expected_json_value = JsonValue::Object(root_json_value);

    let actual_json_value = parse_tree(json).unwrap();
    assert_eq!(expected_json_value, actual_json_value);
}

#[test]
fn parse_valid_json_array() {
    let json = r#"
        [
            {
               "precision": "zip",
               "Latitude":  37.7668,
               "Longitude": -122.3959,
               "Address":   "",
               "City":      "SAN FRANCISCO",
               "State":     "CA",
               "Zip":       "94107",
               "Country":   "US"
            },
            {
               "precision": "zip",
               "Latitude":  37.371991,
               "Longitude": 37.371991,
               "Address":   "",
               "City":      "SUNNYVALE",
               "State":     "CA",
               "Zip":       "94085",
               "Country":   "US"
            }
        ]
        "#;

    let mut first_object_map = HashMap::new();
    first_object_map.insert(
        String::from("precision"),
        JsonValue::String(String::from("zip")),
    );
    first_object_map.insert(String::from("Latitude"), JsonValue::Float(37.7668));
    first_object_map.insert(String::from("Longitude"), JsonValue::Float(-122.3959));
    first_object_map.insert(String::from("Address"), JsonValue::String(String::from("")));
    first_object_map.insert(
        String::from("City"),
        JsonValue::String(String::from("SAN FRANCISCO")),
    );
    first_object_map.insert(String::from("State"), JsonValue::String(String::from("CA")));
    first_object_map.insert(
        String::from("Zip"),
        JsonValue::String(String::from("94107")),
    );
    first_object_map.insert(
        String::from("Country"),
        JsonValue::String(String::from("US")),
    );

    let mut second_object_map = HashMap::new();
    second_object_map.insert(
        String::from("precision"),
        JsonValue::String(String::from("zip")),
    );
    second_object_map.insert(String::from("Latitude"), JsonValue::Float(37.371991));
    second_object_map.insert(String::from("Longitude"), JsonValue::Float(37.371991));
    second_object_map.insert(String::from("Address"), JsonValue::String(String::from("")));
    second_object_map.insert(
        String::from("City"),
        JsonValue::String(String::from("SUNNYVALE")),
    );
    second_object_map.insert(String::from("State"), JsonValue::String(String::from("CA")));
    second_object_map.insert(
        String::from("Zip"),
        JsonValue::String(String::from("94085")),
    );
    second_object_map.insert(
        String::from("Country"),
        JsonValue::String(String::from("US")),
    );

    let expected_json_value = JsonValue::Array(vec![
        JsonValue::Object(first_object_map),
        JsonValue::Object(second_object_map),
    ]);

    let actual_json_value = parse_tree(json).unwrap();
    assert_eq!(expected_json_value, actual_json_value);
}

#[test]
fn parse_string_with_escaped_quotes() {
    let json = r#""he said \"hi\"""#;
    let expected = JsonValue::String(String::from(r#"he said "hi""#));

    assert_eq!(expected, parse_tree(json).unwrap());
}

#[test]
fn parse_string_with_unicode_escape() {
    let json = r#""caf\u00e9""#;
    let expected = JsonValue::String(String::from("café"));

    assert_eq!(expected, parse_tree(json).unwrap());
}

#[test]
fn parse_rejects_invalid_escape() {
    // \x is not a valid JSON escape
    assert_eq!(parse(r#""\x""#), Err(ParseError::InvalidEscape(b'x')));
}

#[test]
fn parse_rejects_invalid_unicode_escape() {
    // ZZZZ are not hex digits
    assert_eq!(parse(r#""\uZZZZ""#), Err(ParseError::InvalidUnicode));
}

#[test]
fn parse_rejects_invalid_number() {
    // "1.2.3" isn't a parseable float, so match the variant.
    assert!(matches!(parse("1.2.3"), Err(ParseError::InvalidFloat(_))));
}

#[test]
fn parse_rejects_stray_closing_bracket() {
    // ']' with no open array
    assert_eq!(parse("]"), Err(ParseError::UnexpectedByte(b']')));
}

#[test]
fn parse_rejects_unterminated_array() {
    // input ends mid-structure
    assert_eq!(parse("[1, 2"), Err(ParseError::UnexpectedEof));
}

#[test]
fn parse_rejects_unterminated_string() {
    // closing quote never arrives
    assert_eq!(parse(r#""abc"#), Err(ParseError::UnexpectedEof));
}

#[test]
fn parse_rejects_bad_keyword() {
    // "true" expected after 't', but 'a' breaks it
    assert_eq!(parse("tabc"), Err(ParseError::UnexpectedByte(b'a')));
}

#[test]
fn parse_rejects_unexpected_byte() {
    // '@' is not a valid start of any JSON value
    assert_eq!(parse("@"), Err(ParseError::UnexpectedByte(b'@')));
}

#[test]
fn parse_string_with_surrogate_pair() {
    // U+1F600 as a surrogate pair
    let json = r#""\uD83D\uDE00""#;
    let expected = JsonValue::String(String::from("😀"));
    assert_eq!(expected, parse_tree(json).unwrap());
}

#[test]
fn parse_rejects_lone_low_surrogate() {
    assert_eq!(parse(r#""\uDE00""#), Err(ParseError::InvalidUnicode));
}

#[test]
fn parse_rejects_broken_surrogate_pair() {
    // high surrogate not followed by \u
    assert_eq!(parse(r#""\uD83Dxx""#), Err(ParseError::InvalidUnicode));
}
