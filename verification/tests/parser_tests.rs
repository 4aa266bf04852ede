use json_parser::parser::{parse_tokens, TokenParseError};
use json_parser::tokenizer::Token;
use json_parser::Value;

fn tok_string(input: &str) -> Token {
    Token::String(String::from(input))
}

fn tok_number(input: &str) -> Token {
    Token::Number(String::from(input))
}

fn val_string(s: &str) -> Value {
    Value::String(String::from(s))
}

fn val_number(n: &str) -> Value {
    Value::Number(String::from(n))
}

fn val_object(pairs: Vec<(&str, Value)>) -> Value {
    let owned_pairs = pairs
        .into_iter()
        .map(|(key, value)| (String::from(key), value))
        .collect();
    Value::Object(owned_pairs)
}

fn assert_parse_tokens(input: &[Token], expected: Value) {
    let actual = parse_tokens(input, &mut 0).unwrap();
    assert_eq!(actual, expected);
}

fn assert_error(input: &[Token], expected: TokenParseError) {
    let actual = parse_tokens(input, &mut 0).unwrap_err();
    assert_eq!(actual, expected);
}

#[test]
fn parses_null() {
    let input = [Token::Null];
    let expected = Value::Null;

    assert_parse_tokens(&input, expected);
}

#[test]
fn parses_true() {
    let input = [Token::True];
    let expected = Value::Boolean(true);

    assert_parse_tokens(&input, expected);
}

#[test]
fn parses_false() {
    let input = [Token::False];
    let expected = Value::Boolean(false);

    assert_parse_tokens(&input, expected);
}

#[test]
fn parses_number() {
    let input = [tok_number("23.31")];
    let expected = val_number("23.31");

    assert_parse_tokens(&input, expected);
    assert_eq!("23.31".parse::<f64>().unwrap(), 23.31);
}

#[test]
fn parses_string_no_escapes() {
    let input = [Token::String("hello world".into())];
    let expected = Value::String("hello world".into());

    assert_parse_tokens(&input, expected);
}

#[test]
fn parses_string_non_ascii() {
    let text = "ol\u{E1}_\u{3053}\u{3093}\u{306B}\u{3061}\u{306F}_\u{928}\u{92E}\u{938}\u{94D}\u{924}\u{947}_\u{43F}\u{440}\u{438}\u{432}\u{456}\u{442}";
    let input = [tok_string(text)];
    let expected = Value::String(String::from(text));

    assert_parse_tokens(&input, expected);
}

#[test]
fn parses_string_with_emoji() {
    let input = [tok_string("hello \u{1F4A9} world")];
    let expected = Value::String(String::from("hello \u{1F4A9} world"));

    assert_parse_tokens(&input, expected);
}

#[test]
fn parses_string_unescape_backslash() {
    let input = [Token::String(r#"hello\\world"#.into())];
    let expected = Value::String(r#"hello\world"#.into());

    assert_parse_tokens(&input, expected);
}

#[test]
fn parses_string_unescape_newline() {
    let input = [tok_string(r#"hello\nworld"#)];
    let expected = Value::String(String::from("hello\nworld"));

    assert_parse_tokens(&input, expected);
}

#[test]
fn all_the_simple_escapes() {
    let input = [tok_string(r#"\"\/\\\b\f\n\r\t"#)];
    let expected = Value::String(String::from("\"/\\\u{8}\u{12}\n\r\t"));

    assert_parse_tokens(&input, expected);
}

#[test]
fn parses_string_with_unescaped_emoji() {
    let input = [tok_string("hello \u{1F4A9} world")];
    let expected = Value::String(String::from("hello \u{1F4A9} world"));

    assert_parse_tokens(&input, expected);
}

#[test]
fn parses_string_with_unnecessarily_escaped_emoji() {
    let input = [tok_string("hello \\\u{1F4A9} world")];
    let expected = Value::String(String::from("hello \u{1F4A9} world"));

    assert_parse_tokens(&input, expected);
}

#[test]
fn parses_empty_arrays() {
    // []
    let input = [Token::LeftBracket, Token::RightBracket];
    let expected = Value::Array(vec![]);

    assert_parse_tokens(&input, expected);
}

#[test]
fn parses_array_one_element() {
    // [true]
    let input = [Token::LeftBracket, Token::True, Token::RightBracket];
    let expected = Value::Array(vec![Value::Boolean(true)]);

    assert_parse_tokens(&input, expected);
}

#[test]
fn parses_array_two_elements() {
    // [null, 16]
    let input = [
        Token::LeftBracket,
        Token::Null,
        Token::Comma,
        tok_number("16"),
        Token::RightBracket,
    ];
    let expected = Value::Array(vec![Value::Null, val_number("16")]);

    assert_parse_tokens(&input, expected);
    assert_eq!("16".parse::<f64>().unwrap(), 16.0);
}

#[test]
fn parses_nested_array() {
    // [null, [null]]
    let input = [
        Token::LeftBracket,
        Token::Null,
        Token::Comma,
        Token::LeftBracket,
        Token::Null,
        Token::RightBracket,
        Token::RightBracket,
    ];
    let expected = Value::Array(vec![Value::Null, Value::Array(vec![Value::Null])]);

    assert_parse_tokens(&input, expected);
}

#[test]
fn fails_array_leading_comma() {
    // [,true]
    let input = [
        Token::LeftBracket,
        Token::Comma,
        Token::True,
        Token::RightBracket,
    ];
    let expected = TokenParseError::ExpectedValue;

    assert_error(&input, expected);
}

#[test]
fn parses_empty_object() {
    let input = [Token::LeftBrace, Token::RightBrace];
    let expected = val_object(vec![]);

    assert_parse_tokens(&input, expected);
}

#[test]
fn parses_object_one_string_value() {
    let input = [
        Token::LeftBrace,
        tok_string("name"),
        Token::Colon,
        tok_string("davimiku"),
        Token::RightBrace,
    ];
    let expected = val_object(vec![("name", val_string("davimiku"))]);

    assert_parse_tokens(&input, expected);
}

#[test]
fn parses_object_escaped_key() {
    let input = [
        Token::LeftBrace,
        tok_string(r#"\u540D\u524D"#),
        Token::Colon,
        tok_string("davimiku"),
        Token::RightBrace,
    ];
    let expected = val_object(vec![("\u{540D}\u{524D}", val_string("davimiku"))]);

    assert_parse_tokens(&input, expected);
}
