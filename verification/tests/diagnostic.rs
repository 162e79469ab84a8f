use joxide::diagnostic::get_message;
use joxide::lexer::{lex, Token, TokenType};
use joxide::parser::{parse, ParseError, ParseErrorType};

fn message_of(raw: &str) -> String {
    let tokens = lex(raw);
    let error = parse(&tokens).unwrap_err();
    get_message(&error)
}

#[test]
fn message_for_each_plain_kind() {
    assert_eq!(message_of("[1, 2, 3"), "File ended unexpectedly");
    assert_eq!(message_of("[1, 2, 3,]"), "Trailing commas are not valid");
    assert_eq!(
        message_of("{\"foo\":123, \"foo\": 432}"),
        "Duplicate keys are not valid"
    );
    assert_eq!(message_of("{foo: 432}"), "Key should be in quotes");
    assert_eq!(message_of("{\"foo\" 123}"), "Missing a ':' separator");
}

#[test]
fn message_for_unexpected_token_names_the_token() {
    assert_eq!(message_of("hello"), "Did not expect 'hello'");
    assert_eq!(message_of("]"), "Did not expect ']'");
    assert_eq!(message_of(":"), "Did not expect ':'");
}

#[test]
fn message_hints_at_a_comma_before_a_closing_bracket() {
    let raw = "{\"a\":\"b\",\"f\":[2 3]}";
    let tokens = lex(raw);
    let error = parse(&tokens).unwrap_err();

    assert_eq!(error.error_type, ParseErrorType::MissingCloseSquare);
    assert_eq!(error.token, Some(&tokens[9]));
    assert_eq!(error.expected, Some(&TokenType::CloseSquare));

    let message = get_message(&error);
    assert!(message.contains("Forgot a comma maybe?"));
    assert_eq!(
        message,
        "Did not expect '3', expected ']'. Forgot a comma maybe?"
    );

    assert_eq!(
        message_of("{\"hello\": \"world\", \"foo\": \"bar\" \"another\": \"1234\"}"),
        "Did not expect '\"another\"', expected '}'. Forgot a comma maybe?"
    );
}

#[test]
fn message_without_a_token() {
    let error = ParseError::new(ParseErrorType::UnexpectedToken, None, None);
    assert_eq!(get_message(&error), "Did not expect this word or character");

    let error = ParseError::new(ParseErrorType::MissingCloseCurly, None, None);
    assert_eq!(get_message(&error), "Did not expect this word or character");
}

#[test]
fn message_with_an_expected_token_that_closes_nothing() {
    let token = Token {
        token_type: TokenType::Bool(true),
        line: 0,
        col: 0,
    };
    let expected = TokenType::Colon;
    let error = ParseError::new(
        ParseErrorType::UnexpectedToken,
        Some(&token),
        Some(&expected),
    );
    assert_eq!(get_message(&error), "Did not expect 'true', expected ':'");
}

#[test]
fn token_texts() {
    assert_eq!(TokenType::Null.text(), "null");
    assert_eq!(TokenType::Bool(true).text(), "true");
    assert_eq!(TokenType::Bool(false).text(), "false");
    assert_eq!(TokenType::Number("12.5".to_string()).text(), "12.5");
    assert_eq!(TokenType::String("a b".to_string()).text(), "\"a b\"");
    assert_eq!(TokenType::Invalid("nil".to_string()).text(), "nil");
    assert_eq!(TokenType::OpenCurly.text(), "{");
    assert_eq!(TokenType::CloseCurly.text(), "}");
    assert_eq!(TokenType::OpenSquare.text(), "[");
    assert_eq!(TokenType::CloseSquare.text(), "]");
    assert_eq!(TokenType::Colon.text(), ":");
    assert_eq!(TokenType::Comma.text(), ",");
}
