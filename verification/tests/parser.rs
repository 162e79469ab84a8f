use joxide::json::{Json, JsonMap};
use joxide::lexer::{lex, TokenType};
use joxide::parser::{parse, ParseError, ParseErrorType};

/// The value of the literal whose value is `value`, written the shortest way.
fn number(text: &mut Vec<String>, value: f64) -> usize {
    text.push(format!("{}", value));
    text.len() - 1
}

fn object<'a>(members: Vec<(&'a str, Json<'a>)>) -> Json<'a> {
    let mut map = JsonMap::new();
    for (key, value) in members {
        assert!(map.insert(key, value).is_none());
    }
    Json::Object(map)
}

fn assert_case<'a>(
    case: &'static str,
    actual: Result<Json<'a>, ParseError<'a>>,
    expected: Result<Json<'a>, ParseError<'a>>,
) {
    if actual != expected {
        panic!(
            "\nFailed test case {}\nactual: {:?}\nexpected: {:?}\n",
            case, actual, expected
        );
    }
}

#[test]
fn test_value_unexpected_token() {
    let cases = vec![":", ",", "}", "]", "hello"];

    for raw in cases {
        let tokens = lex(raw);
        let value = parse(&tokens);

        let expected = Err(ParseError::new(
            ParseErrorType::UnexpectedToken,
            Some(&tokens[0]),
            None,
        ));

        assert_eq!(value, expected);
    }
}

#[test]
fn test_parse() {
    let mut texts = Vec::new();
    let n1234 = number(&mut texts, 1234.0);
    let n1 = number(&mut texts, 1.0);
    let n2 = number(&mut texts, 2.0);
    let n3 = number(&mut texts, 3.0);
    let n4 = number(&mut texts, 4.0);
    let num = |i: usize| Json::Number(texts[i].as_str());

    let cases = vec![
        (
            "",
            Err(ParseError::new(ParseErrorType::UnexpectedEnd, None, None)),
        ),
        (
            "[1  , 2",
            Err(ParseError::new(ParseErrorType::UnexpectedEnd, None, None)),
        ),
        (
            "[1, 2,  ",
            Err(ParseError::new(ParseErrorType::UnexpectedEnd, None, None)),
        ),
        ("null  ", Ok(Json::Null)),
        ("true", Ok(Json::Bool(true))),
        ("  false ", Ok(Json::Bool(false))),
        (" 1234", Ok(num(n1234))),
        ("\"foo\"", Ok(Json::String("foo"))),
        (
            "{\"foo\":{   \"bar\":1234}   }",
            Ok(object(vec![("foo", object(vec![("bar", num(n1234))]))])),
        ),
        (
            "{\"foo\":{   \"bar\":1234},  \"another\": \"testing\" }",
            Ok(object(vec![
                ("foo", object(vec![("bar", num(n1234))])),
                ("another", Json::String("testing")),
            ])),
        ),
        (
            "[1,   2,3  ,  4]",
            Ok(Json::Array(vec![num(n1), num(n2), num(n3), num(n4)])),
        ),
    ];

    for case in cases {
        let (raw, expected) = case;
        let tokens = lex(raw);
        let value = parse(&tokens);

        assert_case(raw, value, expected)
    }
}

#[test]
fn test_parse_located_error() {
    let cases: Vec<(&'static str, ParseErrorType, usize, Option<&TokenType>)> = vec![
        (
            "[ 1, 2, 3 4]",
            ParseErrorType::MissingCloseSquare,
            6,
            Some(&TokenType::CloseSquare),
        ),
        (
            "{\"hello\": \"world\", \"foo\": \"bar\",}",
            ParseErrorType::TrailingComma,
            8,
            None,
        ),
        (
            "{\"hello\": \"world\", \"foo\": \"bar\" \"another\": \"1234\"}",
            ParseErrorType::MissingCloseCurly,
            8,
            Some(&TokenType::CloseCurly),
        ),
        (
            "{\"hello\": \"world\", \"foo\": \"bar\", another: \"1234\"}",
            ParseErrorType::KeyNotInQuotes,
            9,
            None,
        ),
        (
            "{\"hello\": \"world\", \"foo\": \"bar\", 1234: \"1234\"}",
            ParseErrorType::KeyNotInQuotes,
            9,
            None,
        ),
        (
            "{\"hello\": \"world\", \"foo\": \"bar\", true: \"1234\"}",
            ParseErrorType::KeyNotInQuotes,
            9,
            None,
        ),
        ("[1, 2, 3,]", ParseErrorType::TrailingComma, 6, None),
        (
            "{\"foo\":123, \"foo\": 432}",
            ParseErrorType::DuplicateKey,
            5,
            None,
        ),
        (
            "{\"foo\":123, foo: 432}",
            ParseErrorType::KeyNotInQuotes,
            5,
            None,
        ),
        (
            "{\"foo\" 123}",
            ParseErrorType::MissingColon,
            2,
            Some(&TokenType::Colon),
        ),
        (
            "{\"a\":\"b\",\"f\":[2 3]}",
            ParseErrorType::MissingCloseSquare,
            9,
            Some(&TokenType::CloseSquare),
        ),
    ];

    for case in cases {
        let (raw, expected_error, token_location, expected_token_type) = case;

        let tokens = lex(raw);
        let expected = Err(ParseError::new(
            expected_error,
            Some(tokens.get(token_location).unwrap()),
            expected_token_type,
        ));

        let value = parse(&tokens);

        assert_case(raw, value, expected)
    }
}
