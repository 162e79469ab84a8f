use joxide::formatter::format_json;
use joxide::lexer::lex;
use joxide::parser::parse;

#[test]
fn test_formatter() {
    let raw = "{\"foo\":[1,{\"bar\":{\"foo\":\"bar\"},\"foo\":[{\"foo\":\"bar\"},{\"foo\":\"bar\"}]},3,4],\"hello\":\"world\",\"qaz\":\"{\\\"bar\\\":0}\"}";

    for i in 0..10 {
        let tokens = lex(raw);
        let value = parse(&tokens).unwrap();
        let formatted = format_json(value, i);

        let tokens_rev = lex(&formatted);
        let value_rev = parse(&tokens_rev).unwrap();
        let formatted_rev = format_json(value_rev, 0);

        assert_eq!(formatted_rev, raw);
    }
}

#[test]
fn test_indent() {
    let expected = [
        "{\"a\":\"b\",\"f\":[{\"a\":\"b\"},1,2,\"three\"]}",
        "{\n \"a\": \"b\",\n \"f\": [\n  {\n   \"a\": \"b\"\n  },\n  1,\n  2,\n  \"three\"\n ]\n}",
        "{\n  \"a\": \"b\",\n  \"f\": [\n    {\n      \"a\": \"b\"\n    },\n    1,\n    2,\n    \"three\"\n  ]\n}",
        "{\n   \"a\": \"b\",\n   \"f\": [\n      {\n         \"a\": \"b\"\n      },\n      1,\n      2,\n      \"three\"\n   ]\n}",
        "{\n    \"a\": \"b\",\n    \"f\": [\n        {\n            \"a\": \"b\"\n        },\n        1,\n        2,\n        \"three\"\n    ]\n}"
    ];

    for i in 0..5 {
        let raw = expected[0];

        let tokens = lex(raw);
        let value = parse(&tokens).unwrap();
        let formatted = format_json(value, i);

        assert_eq!(formatted, expected[i]);
    }
}
