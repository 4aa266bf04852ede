use json_parser::tokenizer::{tokenize, Token, TokenizeError};

fn tok_string(input: &str) -> Token {
    Token::String(String::from(input))
}

fn tok_number(input: &str) -> Token {
    Token::Number(String::from(input))
}

fn numeral_value(t: &Token) -> f64 {
    match t {
        Token::Number(n) => n.parse::<f64>().unwrap(),
        _ => panic!("expected a number token"),
    }
}

#[test]
fn just_comma() {
    let input = String::from(",");
    let expected = [Token::Comma];

    let actual = tokenize(input).unwrap();

    assert_eq!(actual, expected);
}

#[test]
fn just_null() {
    let input = String::from("null");
    let expected = [Token::Null];

    let actual = tokenize(input).unwrap();

    assert_eq!(actual, expected);
}

#[test]
fn just_true() {
    let input = String::from("true");
    let expected = [Token::True];

    let actual = tokenize(input).unwrap();

    assert_eq!(actual, expected);
}

#[test]
fn just_false() {
    let input = String::from("false");
    let expected = [Token::False];

    let actual = tokenize(input).unwrap();

    assert_eq!(actual, expected);
}

#[test]
fn true_comma() {
    let input = String::from("true,");
    let expected = [Token::True, Token::Comma];

    let actual = tokenize(input).unwrap();

    assert_eq!(actual, expected);
}

#[test]
fn integer() {
    let input = String::from("123");
    let expected = [tok_number("123")];

    let actual = tokenize(input).unwrap();

    assert_eq!(actual, expected);
    assert_eq!(numeral_value(&actual[0]), 123.0);
}

#[test]
fn floating_point() {
    let input = String::from("1.23");
    let expected = [tok_number("1.23")];

    let actual = tokenize(input).unwrap();

    assert_eq!(actual, expected);
    assert_eq!(numeral_value(&actual[0]), 1.23);
}

#[test]
fn negative_integer() {
    let input = String::from("-123.5");
    let expected = [tok_number("-123.5")];

    let actual = tokenize(input).unwrap();

    assert_eq!(actual, expected);
    assert_eq!(numeral_value(&actual[0]), -123.5);
}

#[test]
fn number_comma() {
    let input = String::from("123,");
    let expected = [tok_number("123"), Token::Comma];

    let actual = tokenize(input).unwrap();

    assert_eq!(actual, expected);
    assert_eq!(numeral_value(&actual[0]), 123.0);
}

#[test]
fn a_string() {
    let input = String::from("\"rust\"");
    let expected = [tok_string("rust")];

    let actual = tokenize(input).unwrap();

    assert_eq!(actual, expected);
}

#[test]
fn empty_string() {
    let input = String::from("[\"\"]");
    let expected = [Token::LeftBracket, tok_string(""), Token::RightBracket];

    let actual = tokenize(input).unwrap();

    assert_eq!(actual, expected);
}

#[test]
fn unclosed_string() {
    let input = String::from("\"unclosed");
    let expected: Result<Vec<Token>, TokenizeError> = Err(TokenizeError::UnclosedQuotes);

    let actual = tokenize(input);

    assert_eq!(actual, expected);
}

#[test]
fn escaped_quote() {
    let input = String::from(r#""the \" is OK""#);
    let expected = [tok_string(r#"the \" is OK"#)];

    let actual = tokenize(input).unwrap();

    assert_eq!(actual, expected);
}

#[test]
fn all_punctuation() {
    let input = String::from("[{]},:");
    let expected = [
        Token::LeftBracket,
        Token::LeftBrace,
        Token::RightBracket,
        Token::RightBrace,
        Token::Comma,
        Token::Colon,
    ];

    let actual = tokenize(input).unwrap();

    assert_eq!(actual, expected);
}

#[test]
fn whitespaces() {
    let input = String::from(r#" "value1": 100,     "value2": 200"#);
    let expected = [
        tok_string("value1"),
        Token::Colon,
        tok_number("100"),
        Token::Comma,
        tok_string("value2"),
        Token::Colon,
        tok_number("200"),
    ];

    let actual = tokenize(input).unwrap();

    assert_eq!(actual, expected);
    assert_eq!(numeral_value(&actual[2]), 100.0);
    assert_eq!(numeral_value(&actual[6]), 200.0);
}

#[test]
fn array_with_null() {
    let input = String::from("[null]");
    let expected = [Token::LeftBracket, Token::Null, Token::RightBracket];

    let actual = tokenize(input).unwrap();

    assert_eq!(actual, expected);
}

#[test]
fn simple_object() {
    let input = String::from("{\"key\":\"value\"}");
    let expected = [
        Token::LeftBrace,
        tok_string("key"),
        Token::Colon,
        tok_string("value"),
        Token::RightBrace,
    ];

    let actual = tokenize(input).unwrap();

    assert_eq!(actual, expected);
}

#[test]
fn array_with_numbers() {
    let input = String::from("[123.4, 567.8]");
    let expected = [
        Token::LeftBracket,
        tok_number("123.4"),
        Token::Comma,
        tok_number("567.8"),
        Token::RightBracket,
    ];

    let actual = tokenize(input).unwrap();

    assert_eq!(actual, expected);
    assert_eq!(numeral_value(&actual[1]), 123.4);
    assert_eq!(numeral_value(&actual[3]), 567.8);
}

#[test]
fn array_with_strings() {
    let input = String::from("[\"A\", \"B\"]");
    let expected = [
        Token::LeftBracket,
        tok_string("A"),
        Token::Comma,
        tok_string("B"),
        Token::RightBracket,
    ];

    let actual = tokenize(input).unwrap();

    assert_eq!(actual, expected);
}

#[test]
fn array_with_true_false() {
    let input = String::from("[true, false]");
    let expected = [
        Token::LeftBracket,
        Token::True,
        Token::Comma,
        Token::False,
        Token::RightBracket,
    ];

    let actual = tokenize(input).unwrap();

    assert_eq!(actual, expected);
}
