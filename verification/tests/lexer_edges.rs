use joxide::lexer::{lex, Token, TokenType};

fn token(token_type: TokenType, line: usize, col: usize) -> Token {
    Token {
        token_type,
        line,
        col,
    }
}

fn string(text: &str) -> TokenType {
    TokenType::String(text.to_string())
}

fn invalid(text: &str) -> TokenType {
    TokenType::Invalid(text.to_string())
}

fn number(text: &str) -> TokenType {
    TokenType::Number(text.to_string())
}

fn kinds(text: &str) -> Vec<TokenType> {
    lex(text).into_iter().map(|t| t.token_type).collect()
}

#[test]
fn empty_and_blank_texts_have_no_tokens() {
    assert_eq!(lex(""), vec![]);
    assert_eq!(lex("  \n\t \r\n "), vec![]);
}

#[test]
fn every_structural_character_is_a_token() {
    assert_eq!(
        kinds("{}[]:,"),
        vec![
            TokenType::OpenCurly,
            TokenType::CloseCurly,
            TokenType::OpenSquare,
            TokenType::CloseSquare,
            TokenType::Colon,
            TokenType::Comma,
        ]
    );
}

#[test]
fn keywords_are_told_from_other_words() {
    assert_eq!(
        kinds("null true false"),
        vec![
            TokenType::Null,
            TokenType::Bool(true),
            TokenType::Bool(false)
        ]
    );
    assert_eq!(
        kinds("Null TRUE fals nulll"),
        vec![
            invalid("Null"),
            invalid("TRUE"),
            invalid("fals"),
            invalid("nulll")
        ]
    );
}

#[test]
fn numbers_follow_the_grammar() {
    for text in [
        "0", "1", "-1", "+1", "1.", ".5", "-.5", "1.5", "1.5e10", "1E-5", "1e+5", "00012", "5.e3",
        "inf", "-inf", "+INF", "Infinity", "-infinity", "iNfInItY", "nan", "NaN", "-NAN",
    ] {
        assert_eq!(kinds(text), vec![number(text)], "{}", text);
    }
}

#[test]
fn words_that_are_no_numbers_are_invalid() {
    for text in [
        "e5", "1e", "1e+", "1e-", ".", "-", "+", "+-1", "--1", "1.2.3", "1e5.5", "1e5e5", "infinit",
        "infinityy", "in", "na", "nanx", "0x10", "1_000", "1f", "-.", ".e5", "1 e5x",
    ] {
        let expected: Vec<TokenType> = text.split(' ').map(|w| {
            if w == "1" { number(w) } else { invalid(w) }
        }).collect();
        assert_eq!(kinds(text), expected, "{}", text);
    }
}

#[test]
fn a_word_ends_at_a_structural_character() {
    assert_eq!(
        lex("[12,true]"),
        vec![
            token(TokenType::OpenSquare, 0, 0),
            token(number("12"), 0, 1),
            token(TokenType::Comma, 0, 3),
            token(TokenType::Bool(true), 0, 4),
            token(TokenType::CloseSquare, 0, 8),
        ]
    );
}

#[test]
fn a_word_ends_at_the_end_of_its_line() {
    assert_eq!(
        lex("12\ntrue\nx"),
        vec![
            token(number("12"), 0, 0),
            token(TokenType::Bool(true), 1, 0),
            token(invalid("x"), 2, 0),
        ]
    );
}

#[test]
fn a_string_keeps_its_escapes() {
    assert_eq!(
        lex("\"a\\\"b\""),
        vec![token(string("a\\\"b"), 0, 0)]
    );
    assert_eq!(
        lex("\"line\\nbreak\\t\""),
        vec![token(string("line\\nbreak\\t"), 0, 0)]
    );
}

#[test]
fn a_string_holds_structural_characters_and_spaces() {
    assert_eq!(
        lex("\"{ [1, 2] : }\" ,"),
        vec![
            token(string("{ [1, 2] : }"), 0, 0),
            token(TokenType::Comma, 0, 15),
        ]
    );
    assert_eq!(lex("\"\""), vec![token(string(""), 0, 0)]);
}

#[test]
fn a_backslash_shields_just_the_next_character() {
    // After two backslashes the quote is still shielded, by the second.
    assert_eq!(
        lex("\"a\\\\\" \"b\""),
        vec![token(string("a\\\\\" "), 0, 0)]
    );
    // A backslash, another character, then a quote: the quote closes.
    assert_eq!(
        lex("\"a\\n\" 1"),
        vec![token(string("a\\n"), 0, 0), token(number("1"), 0, 6)]
    );
}

#[test]
fn a_string_may_run_over_lines() {
    assert_eq!(
        lex(" \"ab\ncd\" 1"),
        vec![
            token(string("ab\ncd"), 0, 1),
            token(number("1"), 1, 4),
        ]
    );
}

#[test]
fn a_string_without_its_closing_quote_is_no_token() {
    assert_eq!(
        lex("[1, \"abc"),
        vec![
            token(TokenType::OpenSquare, 0, 0),
            token(number("1"), 0, 1),
            token(TokenType::Comma, 0, 2),
        ]
    );
    assert_eq!(lex("\""), vec![]);
}

#[test]
fn a_quote_inside_a_word_begins_a_string() {
    assert_eq!(lex("abc\"def\""), vec![token(string("def"), 0, 3)]);
}

#[test]
fn a_shielded_quote_outside_a_string_is_part_of_a_word() {
    assert_eq!(lex("\\\"a"), vec![token(invalid("\\\"a"), 0, 0)]);
    assert_eq!(lex("a\\\"b c"), vec![
        token(invalid("a\\\"b"), 0, 0),
        token(invalid("c"), 0, 5),
    ]);
}

#[test]
fn white_space_is_what_unicode_calls_so() {
    assert_eq!(
        lex("1\u{a0}2\u{3000}3\u{85}4\u{2003}5\u{1680}6\u{2028}7\u{2029}8\u{202f}9\u{205f}0\t1\u{b}2\u{c}3"),
        vec![
            token(number("1"), 0, 0),
            token(number("2"), 0, 2),
            token(number("3"), 0, 4),
            token(number("4"), 0, 6),
            token(number("5"), 0, 8),
            token(number("6"), 0, 10),
            token(number("7"), 0, 12),
            token(number("8"), 0, 14),
            token(number("9"), 0, 16),
            token(number("0"), 0, 18),
            token(number("1"), 0, 20),
            token(number("2"), 0, 22),
            token(number("3"), 0, 24),
        ]
    );
    // The zero-width space and the Mongolian vowel separator are none.
    assert_eq!(
        lex("a\u{200b}b\u{180e}c"),
        vec![token(invalid("a\u{200b}b\u{180e}c"), 0, 0)]
    );
}

#[test]
fn columns_count_characters() {
    assert_eq!(
        lex("\"é\u{1f600}\" x"),
        vec![
            token(string("é\u{1f600}"), 0, 0),
            token(invalid("x"), 0, 5),
        ]
    );
}

#[test]
fn a_carriage_return_is_white_space_within_its_line() {
    assert_eq!(
        lex("1\r\n2"),
        vec![token(number("1"), 0, 0), token(number("2"), 1, 0)]
    );
}

#[test]
fn token_constructors() {
    assert_eq!(
        Token::from_punctuator('[', 3, 4),
        token(TokenType::OpenSquare, 3, 4)
    );
    assert_eq!(
        Token::from_punctuator(',', 0, 0),
        token(TokenType::Comma, 0, 0)
    );
    let body: Vec<char> = "a b".chars().collect();
    assert_eq!(Token::from_quoted_str(&body, 1, 2), token(string("a b"), 1, 2));
    let word: Vec<char> = "-12.5e3".chars().collect();
    assert_eq!(
        Token::from_key_or_val(&word, 0, 7),
        token(number("-12.5e3"), 0, 7)
    );
    let word: Vec<char> = "false".chars().collect();
    assert_eq!(
        Token::from_key_or_val(&word, 0, 0),
        token(TokenType::Bool(false), 0, 0)
    );
    let word: Vec<char> = "nul".chars().collect();
    assert_eq!(Token::from_key_or_val(&word, 0, 0), token(invalid("nul"), 0, 0));
}
