use joxide::lexer::{is_punctuator, is_quote, lex, Token, TokenType};

fn token(token_type: TokenType, line: usize, col: usize) -> Token {
    Token {
        token_type,
        line,
        col,
    }
}

fn string(text: &str) -> TokenType {
    TokenType::String(text.to_string())
}

fn invalid(text: &str) -> TokenType {
    TokenType::Invalid(text.to_string())
}

/// The token of the literal whose value is `value`, written the shortest way.
fn number(value: f64) -> TokenType {
    TokenType::Number(format!("{}", value))
}

#[test]
fn test_lexer_1() {
    let tokens = lex("\"foo\" : \n [ \"bar\" }");

    let expected = vec![
        token(string("foo"), 0, 0),
        token(TokenType::Colon, 0, 6),
        token(TokenType::OpenSquare, 1, 1),
        token(string("bar"), 1, 3),
        token(TokenType::CloseCurly, 1, 9),
    ];

    assert_eq!(tokens, expected);
}

#[test]
fn test_lexer_2() {
    let tokens = lex("\n { \"bar\" ]");

    let expected = vec![
        token(TokenType::OpenCurly, 1, 1),
        token(string("bar"), 1, 3),
        token(TokenType::CloseSquare, 1, 9),
    ];

    assert_eq!(tokens, expected);
}

#[test]
fn test_lexer_3() {
    let tokens = lex("\n {\"bar\" ] ,");

    let expected = vec![
        token(TokenType::OpenCurly, 1, 1),
        token(string("bar"), 1, 2),
        token(TokenType::CloseSquare, 1, 8),
        token(TokenType::Comma, 1, 10),
    ];

    assert_eq!(tokens, expected);
}

#[test]
fn test_lexer_4() {
    let tokens = lex("\n {\"bar\"]");

    let expected = vec![
        token(TokenType::OpenCurly, 1, 1),
        token(string("bar"), 1, 2),
        token(TokenType::CloseSquare, 1, 7),
    ];

    assert_eq!(tokens, expected);
}

#[test]
fn test_lexer_5() {
    let tokens = lex("\n {bar]:\n\"foo\"");

    let expected = vec![
        token(TokenType::OpenCurly, 1, 1),
        token(invalid("bar"), 1, 2),
        token(TokenType::CloseSquare, 1, 5),
        token(TokenType::Colon, 1, 6),
        token(string("foo"), 2, 0),
    ];

    assert_eq!(tokens, expected);
}

#[test]
fn test_lexer_6() {
    let tokens = lex("bar");

    let expected = vec![token(invalid("bar"), 0, 0)];

    assert_eq!(tokens, expected);
}

#[test]
fn test_lexer_7() {
    let tokens = lex("\"bar\"");

    let expected = vec![token(string("bar"), 0, 0)];

    assert_eq!(tokens, expected);
}

#[test]
fn test_lexer_8() {
    let tokens = lex("2345");

    let expected = vec![token(number(2345.0), 0, 0)];

    assert_eq!(tokens, expected);
}

#[test]
fn test_lexer_9() {
    let tokens = lex("2345}");

    let expected = vec![
        token(number(2345.0), 0, 0),
        token(TokenType::CloseCurly, 0, 4),
    ];

    assert_eq!(tokens, expected);
}

#[test]
fn test_lexer_10() {
    let tokens = lex("2345      } 456 ");

    let expected = vec![
        token(number(2345.0), 0, 0),
        token(TokenType::CloseCurly, 0, 10),
        token(number(456.0), 0, 12),
    ];

    assert_eq!(tokens, expected);
}

#[test]
fn punctuators_and_quote() {
    for c in ['{', '}', '[', ']', ':', ','] {
        assert!(is_punctuator(c));
        assert!(!is_quote(c));
    }
    for c in ['"', ' ', 'a', '0', '\\', '(', ';'] {
        assert!(!is_punctuator(c));
    }
    assert!(is_quote('"'));
    assert!(!is_quote('\''));
}
