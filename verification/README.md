# jawson

A small JSON parser whose behaviour is specified and proved with Verus.
`parse` turns a `&str` into a `JsonValue` tree or a `ParseError`; its
contract gives the result for every input as a function over the input's
UTF-8 bytes (`spec_parse`).

## Layout

- `src/stream.rs`: `ByteStream`, a cursor over the input bytes with one
  byte of lookahead; its view is the bytes not yet read.
- `src/tokens.rs`: byte classes, the keyword, number and string readers
  (escapes, `\uXXXX` and surrogate pairs), each against a spec function.
- `src/numbers.rs`: the integer and float literal grammars that
  `i64::from_str` and `f64::from_str` accept.
- `src/text.rs`: UTF-8 checks through `String::from_utf8`.
- `src/json_value.rs`: `JsonValue`, its model `SpecJson`, and objects as
  member lists in which each name occurs once.
- `src/parser.rs`: the specification of the reader (`spec_nested_loop`,
  `spec_parse`) and the verified `parse_nested` and `parse`.
- `src/laws.rs`, `src/roundtrip.rs`, `src/separators.rs`,
  `src/text_input.rs`: properties of the parser as a whole, such as
  round trips of escapes, integers and written documents, trailing input,
  optional separators, array items and object members read from their own
  texts, whitespace between tokens, and that text input never yields
  invalid UTF-8.
- `app/`: the same API with `f64` floats, `HashMap` objects and errors
  that implement `std::error::Error`.

Floats are held in the library as the text of their literal, checked to be
one that `f64::from_str` accepts; `app/` converts that text to `f64`.
