use json_parser::parse;
use json_parser::parser::{parse_tokens, unescape_string, TokenParseError};
use json_parser::tokenizer::{tokenize, Token, TokenizeError};
use json_parser::{ParseError, Value};

#[test]
fn parses_negative_decimal_text() {
    let actual = parse(String::from("-123.5")).unwrap();
    match &actual {
        Value::Number(n) => assert_eq!(n.parse::<f64>().unwrap(), -123.5),
        _ => panic!("expected a number value"),
    }
    assert_eq!(actual, Value::Number(String::from("-123.5")));
}

#[test]
fn parses_nested_array_text() {
    let actual = parse(String::from("[null,[null]]")).unwrap();
    let expected = Value::Array(vec![Value::Null, Value::Array(vec![Value::Null])]);
    assert_eq!(actual, expected);
}

#[test]
fn parses_object_text() {
    let actual = parse(String::from("{\"name\":\"davimiku\"}")).unwrap();
    let expected = Value::Object(vec![(
        String::from("name"),
        Value::String(String::from("davimiku")),
    )]);
    assert_eq!(actual, expected);
}

#[test]
fn parses_object_inside_array() {
    let actual = parse(String::from("[{}]")).unwrap();
    let expected = Value::Array(vec![Value::Object(vec![])]);
    assert_eq!(actual, expected);
}

#[test]
fn later_duplicate_key_overwrites() {
    let actual = parse(String::from("{\"a\":1,\"a\":2}")).unwrap();
    let expected = Value::Object(vec![(String::from("a"), Value::Number(String::from("2")))]);
    assert_eq!(actual, expected);
}

#[test]
fn missing_colon_skips_property() {
    let actual = parse(String::from("{\"a\",\"b\":true}")).unwrap();
    let expected = Value::Object(vec![(String::from("b"), Value::Boolean(true))]);
    assert_eq!(actual, expected);
}

#[test]
fn accepts_trailing_comma_in_array() {
    let actual = parse(String::from("[true,]")).unwrap();
    let expected = Value::Array(vec![Value::Boolean(true)]);
    assert_eq!(actual, expected);
}

#[test]
fn accepts_trailing_comma_in_object() {
    let actual = parse(String::from("{\"a\":null,}")).unwrap();
    let expected = Value::Object(vec![(String::from("a"), Value::Null)]);
    assert_eq!(actual, expected);
}

#[test]
fn empty_input_expects_value() {
    let actual = parse(String::new());
    assert_eq!(
        actual,
        Err(ParseError::ParseError(TokenParseError::ExpectedValue))
    );
}

#[test]
fn tokens_past_first_value_are_left_unread() {
    let actual = parse(String::from("true false")).unwrap();
    assert_eq!(actual, Value::Boolean(true));
}

#[test]
fn truncated_literal_fails() {
    let actual = tokenize(String::from("nul"));
    assert_eq!(actual, Err(TokenizeError::UnfinishedLiteralValue));
}

#[test]
fn mismatched_literal_fails() {
    let actual = tokenize(String::from("falze"));
    assert_eq!(actual, Err(TokenizeError::UnfinishedLiteralValue));
}

#[test]
fn unknown_character_fails() {
    let actual = tokenize(String::from("@"));
    assert_eq!(actual, Err(TokenizeError::CharNotRecognized('@')));
}

#[test]
fn only_whitespace_fails_with_eof() {
    let actual = tokenize(String::from("   "));
    assert_eq!(actual, Err(TokenizeError::UnexpectedEof));
}

#[test]
fn input_ending_mid_whitespace_fails_with_eof() {
    let actual = tokenize(String::from("true "));
    assert_eq!(actual, Err(TokenizeError::UnexpectedEof));
}

#[test]
fn misplaced_minus_fails_number() {
    let actual = tokenize(String::from("1-2"));
    assert_eq!(actual, Err(TokenizeError::ParseNumberError));
}

#[test]
fn lone_minus_fails_number() {
    let actual = tokenize(String::from("-"));
    assert_eq!(actual, Err(TokenizeError::ParseNumberError));
}

#[test]
fn doubled_minus_fails_number() {
    let actual = tokenize(String::from("--1"));
    assert_eq!(actual, Err(TokenizeError::ParseNumberError));
}

#[test]
fn second_decimal_point_ends_the_numeral() {
    let actual = tokenize(String::from("1.2.3"));
    assert_eq!(actual, Err(TokenizeError::CharNotRecognized('.')));
}

#[test]
fn numeral_may_end_with_decimal_point() {
    let actual = tokenize(String::from("5.")).unwrap();
    assert_eq!(actual, vec![Token::Number(String::from("5."))]);
    assert_eq!("5.".parse::<f64>().unwrap(), 5.0);
}

#[test]
fn unescapes_hex_escapes() {
    let actual = unescape_string(r#"\u0041\u0042"#).unwrap();
    assert_eq!(actual, String::from("AB"));
}

#[test]
fn malformed_hex_fails() {
    let actual = unescape_string(r#"\uZZZZ"#);
    assert_eq!(actual, Err(TokenParseError::InvalidHexValue));
}

#[test]
fn malformed_hex_reported_before_truncation() {
    let actual = unescape_string(r#"\u1Z"#);
    assert_eq!(actual, Err(TokenParseError::InvalidHexValue));
}

#[test]
fn truncated_hex_escape_fails() {
    let actual = unescape_string(r#"\u12"#);
    assert_eq!(actual, Err(TokenParseError::UnfinishedEscape));
}

#[test]
fn lone_surrogate_escape_fails() {
    let actual = unescape_string(r#"\uD800"#);
    assert_eq!(actual, Err(TokenParseError::InvalidCodePointValue));
}

#[test]
fn backslash_ending_the_text_is_dropped() {
    let actual = unescape_string("abc\\").unwrap();
    assert_eq!(actual, String::from("abc"));
}

#[test]
fn unescapes_undefined_escape_to_the_character() {
    let actual = unescape_string("hello \\\u{1F4A9} world").unwrap();
    assert_eq!(actual, String::from("hello \u{1F4A9} world"));
}

#[test]
fn empty_token_sequence_expects_value() {
    let input: [Token; 0] = [];
    let actual = parse_tokens(&input, &mut 0);
    assert_eq!(actual, Err(TokenParseError::ExpectedValue));
}

#[test]
fn cursor_stops_after_one_value() {
    let input = [Token::True, Token::Comma];
    let mut index: usize = 0;
    let actual = parse_tokens(&input, &mut index).unwrap();
    assert_eq!(actual, Value::Boolean(true));
    assert_eq!(index, 1);
}

#[test]
fn non_property_in_object_fails() {
    let input = [Token::LeftBrace, Token::True, Token::RightBrace];
    let actual = parse_tokens(&input, &mut 0);
    assert_eq!(actual, Err(TokenParseError::ExpectedProperty));
}

#[test]
fn missing_comma_between_elements_fails() {
    let input = [
        Token::LeftBracket,
        Token::True,
        Token::True,
        Token::RightBracket,
    ];
    let actual = parse_tokens(&input, &mut 0);
    assert_eq!(actual, Err(TokenParseError::ExpectedComma));
}

#[test]
fn unclosed_array_fails() {
    let actual = parse(String::from("[true"));
    assert_eq!(
        actual,
        Err(ParseError::ParseError(TokenParseError::ExpectedComma))
    );
}

#[test]
fn unclosed_string_wraps_tokenize_error() {
    let actual = parse(String::from("\"unclosed"));
    assert_eq!(
        actual,
        Err(ParseError::TokenizeError(TokenizeError::UnclosedQuotes))
    );
}

#[test]
fn escaped_key_decodes_before_insertion() {
    let actual = parse(String::from("{\"\\u540D\\u524D\":\"davimiku\"}")).unwrap();
    let expected = Value::Object(vec![(
        String::from("\u{540D}\u{524D}"),
        Value::String(String::from("davimiku")),
    )]);
    assert_eq!(actual, expected);
}

#[test]
fn parse_error_from_either_stage() {
    let te: ParseError = ParseError::from(TokenizeError::UnexpectedEof);
    assert_eq!(te, ParseError::TokenizeError(TokenizeError::UnexpectedEof));
    let pe: ParseError = ParseError::from(TokenParseError::ExpectedValue);
    assert_eq!(pe, ParseError::ParseError(TokenParseError::ExpectedValue));
}
