use joxide::json::{Json, JsonMap};
use joxide::lexer::{lex, TokenType};
use joxide::parser::{parse, ParseContext, ParseError, ParseErrorType};

/// The kind of the error of `raw`, the index of its token and the token
/// that it expected.
fn error_of(raw: &str) -> (ParseErrorType, Option<usize>, Option<TokenType>) {
    let tokens = lex(raw);
    let error = parse(&tokens).unwrap_err();
    let index = error.token.map(|found| {
        tokens
            .iter()
            .position(|token| std::ptr::eq(token, found))
            .unwrap()
    });
    let expected = error.expected.map(|expected| match expected {
        TokenType::Colon => TokenType::Colon,
        TokenType::CloseCurly => TokenType::CloseCurly,
        TokenType::CloseSquare => TokenType::CloseSquare,
        other => panic!("expected {:?}", other),
    });
    (error.error_type, index, expected)
}

#[test]
fn duplicate_key_is_rejected_at_its_second_occurrence() {
    assert_eq!(
        error_of("{\"foo\":123, \"foo\": 432}"),
        (ParseErrorType::DuplicateKey, Some(5), None)
    );
}

#[test]
fn trailing_comma_is_rejected_at_the_comma() {
    assert_eq!(
        error_of("[1, 2, 3,]"),
        (ParseErrorType::TrailingComma, Some(6), None)
    );
}

#[test]
fn unquoted_key_is_rejected() {
    assert_eq!(
        error_of("{foo: 432}"),
        (ParseErrorType::KeyNotInQuotes, Some(1), None)
    );
}

#[test]
fn unterminated_container_is_an_unexpected_end() {
    assert_eq!(error_of("[1, 2, 3"), (ParseErrorType::UnexpectedEnd, None, None));
    assert_eq!(error_of("{\"a\": 1"), (ParseErrorType::UnexpectedEnd, None, None));
    assert_eq!(error_of("{\"a\""), (ParseErrorType::UnexpectedEnd, None, None));
    assert_eq!(error_of("{\"a\":"), (ParseErrorType::UnexpectedEnd, None, None));
    assert_eq!(error_of("["), (ParseErrorType::UnexpectedEnd, None, None));
    assert_eq!(error_of("{"), (ParseErrorType::UnexpectedEnd, None, None));
}

#[test]
fn missing_separator_expects_a_colon() {
    assert_eq!(
        error_of("{\"foo\" 123}"),
        (
            ParseErrorType::MissingColon,
            Some(2),
            Some(TokenType::Colon)
        )
    );
}

#[test]
fn a_keyword_as_key_lacks_its_quotes() {
    assert_eq!(
        error_of("{null: 1}"),
        (ParseErrorType::KeyNotInQuotes, Some(1), None)
    );
    assert_eq!(
        error_of("{false: 1}"),
        (ParseErrorType::KeyNotInQuotes, Some(1), None)
    );
}

#[test]
fn empty_containers_parse() {
    let tokens = lex("[]");
    assert_eq!(parse(&tokens), Ok(Json::Array(vec![])));
    let tokens = lex("{ }");
    assert_eq!(parse(&tokens), Ok(Json::Object(JsonMap::new())));
    let tokens = lex("[[], {}]");
    assert_eq!(
        parse(&tokens),
        Ok(Json::Array(vec![
            Json::Array(vec![]),
            Json::Object(JsonMap::new())
        ]))
    );
}

#[test]
fn a_list_that_begins_with_a_comma_lacks_its_closing_bracket() {
    assert_eq!(
        error_of("[,]"),
        (
            ParseErrorType::MissingCloseSquare,
            Some(1),
            Some(TokenType::CloseSquare)
        )
    );
    assert_eq!(
        error_of("{,}"),
        (
            ParseErrorType::MissingCloseCurly,
            Some(1),
            Some(TokenType::CloseCurly)
        )
    );
}

#[test]
fn a_member_without_a_value_ends_the_list_before_it() {
    assert_eq!(
        error_of("{\"a\": }"),
        (
            ParseErrorType::MissingCloseCurly,
            Some(1),
            Some(TokenType::CloseCurly)
        )
    );
    assert_eq!(
        error_of("{\"a\": 1, \"b\": }"),
        (ParseErrorType::TrailingComma, Some(4), None)
    );
}

#[test]
fn a_wrong_closing_bracket_is_named() {
    assert_eq!(
        error_of("[1, 2}"),
        (
            ParseErrorType::MissingCloseSquare,
            Some(4),
            Some(TokenType::CloseSquare)
        )
    );
    assert_eq!(
        error_of("{\"a\": 1]"),
        (
            ParseErrorType::MissingCloseCurly,
            Some(4),
            Some(TokenType::CloseCurly)
        )
    );
}

#[test]
fn an_error_deep_inside_ends_the_parse() {
    assert_eq!(
        error_of("[[1, }]"),
        (ParseErrorType::TrailingComma, Some(3), None)
    );
    assert_eq!(
        error_of("{\"a\": [1, {\"b\" 2}]}"),
        (
            ParseErrorType::MissingColon,
            Some(8),
            Some(TokenType::Colon)
        )
    );
    assert_eq!(
        error_of("[{\"k\": 1, \"k\": 2}, 3 4]"),
        (ParseErrorType::DuplicateKey, Some(6), None)
    );
}

#[test]
fn the_first_error_is_the_one_reported() {
    assert_eq!(
        error_of("{\"a\":1,\"a\":2,\"b\" 3}"),
        (ParseErrorType::DuplicateKey, Some(5), None)
    );
    assert_eq!(
        error_of("{\"a\" 1,\"a\":2,\"a\":3}"),
        (
            ParseErrorType::MissingColon,
            Some(2),
            Some(TokenType::Colon)
        )
    );
}

#[test]
fn tokens_after_the_value_are_not_looked_at() {
    let tokens = lex("null null");
    assert_eq!(parse(&tokens), Ok(Json::Null));
    let tokens = lex("[1] ] oops");
    assert_eq!(parse(&tokens), Ok(Json::Array(vec![Json::Number("1")])));
}

#[test]
fn numbers_are_kept_as_written() {
    let tokens = lex("[1.0, 1e2, -0, +5, .5, inf]");
    assert_eq!(
        parse(&tokens),
        Ok(Json::Array(vec![
            Json::Number("1.0"),
            Json::Number("1e2"),
            Json::Number("-0"),
            Json::Number("+5"),
            Json::Number(".5"),
            Json::Number("inf"),
        ]))
    );
}

#[test]
fn members_are_held_in_the_order_of_their_keys() {
    let tokens = lex("{\"b\": 1, \"a\": 2, \"c\": 3, \"B\": 0, \"ab\": 4, \"\": 5}");
    let value = parse(&tokens).unwrap();
    let map = match &value {
        Json::Object(map) => map,
        _ => panic!("no object"),
    };
    assert_eq!(map.len(), 6);
    let keys: Vec<&str> = (0..map.len()).map(|i| map.entry(i).unwrap().0).collect();
    assert_eq!(keys, vec!["", "B", "a", "ab", "b", "c"]);
    assert_eq!(map.entry(0), Some(("", &Json::Number("5"))));
    assert_eq!(map.entry(1), Some(("B", &Json::Number("0"))));
    assert_eq!(map.entry(3), Some(("ab", &Json::Number("4"))));
    assert_eq!(map.entry(5), Some(("c", &Json::Number("3"))));
    assert_eq!(map.entry(6), None);
}

#[test]
fn the_order_of_the_members_in_the_text_does_not_matter() {
    let one = lex("{\"x\": [1], \"a\": {\"q\": null, \"p\": true}, \"m\": \"s\"}");
    let other = lex("{\"m\": \"s\", \"x\": [1], \"a\": {\"p\": true, \"q\": null}}");
    assert_eq!(parse(&one).unwrap(), parse(&other).unwrap());
}

#[test]
fn a_map_keeps_one_value_for_each_key() {
    let mut map = JsonMap::new();
    assert_eq!(map.len(), 0);
    assert_eq!(map.insert("k", Json::Bool(true)), None);
    assert_eq!(map.insert("a", Json::Null), None);
    assert_eq!(map.insert("z", Json::Number("1")), None);
    assert_eq!(map.insert("k", Json::Bool(false)), Some(Json::Bool(true)));
    assert_eq!(map.len(), 3);
    assert_eq!(map.entry(0), Some(("a", &Json::Null)));
    assert_eq!(map.entry(1), Some(("k", &Json::Bool(false))));
    assert_eq!(map.entry(2), Some(("z", &Json::Number("1"))));
    assert_eq!(map.entry(3), None);
}

#[test]
fn keys_are_ordered_by_their_characters() {
    let mut map = JsonMap::new();
    for key in ["é", "z", "Z", "\u{1f600}", "a", "aa", "", "\u{ffff}"] {
        assert_eq!(map.insert(key, Json::Null), None);
    }
    let keys: Vec<&str> = (0..map.len()).map(|i| map.entry(i).unwrap().0).collect();
    let mut sorted = keys.clone();
    sorted.sort();
    assert_eq!(keys, sorted);
    assert_eq!(keys, vec!["", "Z", "a", "aa", "z", "é", "\u{ffff}", "\u{1f600}"]);
}

#[test]
fn parse_contexts() {
    let context = ParseContext::new(Json::Bool(true), 3);
    assert_eq!(context.key, "");
    assert_eq!(context.value, Json::Bool(true));
    assert_eq!(context.next, 3);

    let context = ParseContext::key_value_pair("k", Json::Null, 7);
    assert_eq!(context.key, "k");
    assert_eq!(context.value, Json::Null);
    assert_eq!(context.next, 7);
}

#[test]
fn parse_errors_hold_what_they_are_given() {
    let tokens = lex("]");
    let error = ParseError::new(
        ParseErrorType::MissingCloseCurly,
        Some(&tokens[0]),
        Some(&TokenType::CloseCurly),
    );
    assert_eq!(error.error_type, ParseErrorType::MissingCloseCurly);
    assert_eq!(error.token, Some(&tokens[0]));
    assert_eq!(error.expected, Some(&TokenType::CloseCurly));
}
