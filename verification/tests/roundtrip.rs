use joxide::formatter::format_json;
use joxide::lexer::lex;
use joxide::parser::parse;

const DOCUMENTS: [&str; 14] = [
    "null",
    " true",
    "false ",
    "12",
    "-1.50e+3",
    "\"\"",
    "\"a \\\"quoted\\\" word\"",
    "[]",
    "{}",
    "[[], {}, [{}], {\"a\": []}]",
    "{\"b\": [1, 2.0, {\"y\": null, \"x\": \"{[,:]}\"}], \"a\": \"\\\\n\", \"\": inf}",
    "[1,\n 2 ,\t3\r\n]",
    "{\"k\": \"line one\nline two\", \"é\": \"\u{1f600}\"}",
    "[nan, +5, .5, 5., 1E5, -Infinity]",
];

#[test]
fn reading_back_what_was_written_gives_the_value_back() {
    for raw in DOCUMENTS {
        let tokens = lex(raw);
        let value = parse(&tokens).unwrap();
        for width in 0..7 {
            let copy = parse(&tokens).unwrap();
            let formatted = format_json(copy, width);

            let tokens_back = lex(&formatted);
            let value_back = parse(&tokens_back).unwrap();
            assert_eq!(value_back, value, "{:?} at width {}", raw, width);
        }
    }
}

#[test]
fn writing_again_at_width_zero_gives_the_same_text() {
    for raw in DOCUMENTS {
        let tokens = lex(raw);
        let compact = format_json(parse(&tokens).unwrap(), 0);
        for width in 0..7 {
            let formatted = format_json(parse(&tokens).unwrap(), width);
            let tokens_back = lex(&formatted);
            let again = format_json(parse(&tokens_back).unwrap(), 0);
            assert_eq!(again, compact, "{:?} at width {}", raw, width);
        }
    }
}

#[test]
fn width_zero_writes_no_space_outside_strings() {
    let tokens = lex(" { \"b\" : [ 1 , true , null ] , \"a\" : { \"c\" : \"d e\" } } ");
    assert_eq!(
        format_json(parse(&tokens).unwrap(), 0),
        "{\"a\":{\"c\":\"d e\"},\"b\":[1,true,null]}"
    );
}

#[test]
fn empty_containers_are_written_with_their_line_break() {
    let tokens = lex("[[], {}]");
    assert_eq!(format_json(parse(&tokens).unwrap(), 0), "[[],{}]");
    assert_eq!(
        format_json(parse(&tokens).unwrap(), 2),
        "[\n  [\n  ],\n  {\n  }\n]"
    );
}

#[test]
fn leaves_are_written_as_they_are() {
    for (raw, expected) in [
        ("null", "null"),
        ("true", "true"),
        ("false", "false"),
        ("1.50", "1.50"),
        ("\"a\\tb\"", "\"a\\tb\""),
    ] {
        let tokens = lex(raw);
        for width in [0, 1, 4] {
            assert_eq!(format_json(parse(&tokens).unwrap(), width), expected);
        }
    }
}

#[test]
fn keys_are_written_in_ascending_order() {
    let tokens = lex("{\"delta\": 4, \"alpha\": 1, \"charlie\": {\"z\": 0, \"y\": 1}, \"bravo\": 2}");
    let text = format_json(parse(&tokens).unwrap(), 0);
    assert_eq!(
        text,
        "{\"alpha\":1,\"bravo\":2,\"charlie\":{\"y\":1,\"z\":0},\"delta\":4}"
    );
    let places: Vec<usize> = ["\"alpha\"", "\"bravo\"", "\"charlie\"", "\"delta\""]
        .iter()
        .map(|key| text.find(key).unwrap())
        .collect();
    assert!(places.windows(2).all(|pair| pair[0] < pair[1]));
}

#[test]
fn each_level_is_indented_by_the_width() {
    let tokens = lex("[[[1]]]");
    assert_eq!(
        format_json(parse(&tokens).unwrap(), 3),
        "[\n   [\n      [\n         1\n      ]\n   ]\n]"
    );
}
