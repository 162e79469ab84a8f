use joxide::lexer::lex;
use joxide::parser::{parse, ParseError, ParseErrorType};
use joxide::pretty::{get_line, render_location, report_parse_error};

#[test]
fn get_line_finds_each_line() {
    let content = "first\nsecond\n\nfourth";
    assert_eq!(get_line(content, 0), Some("first"));
    assert_eq!(get_line(content, 1), Some("second"));
    assert_eq!(get_line(content, 2), Some(""));
    assert_eq!(get_line(content, 3), Some("fourth"));
    assert_eq!(get_line(content, 4), None);
}

#[test]
fn get_line_knows_no_line_after_the_last_break() {
    assert_eq!(get_line("", 0), None);
    assert_eq!(get_line("\n", 0), Some(""));
    assert_eq!(get_line("\n", 1), None);
    assert_eq!(get_line("a\n", 0), Some("a"));
    assert_eq!(get_line("a\n", 1), None);
    assert_eq!(get_line("a\n\n", 1), Some(""));
    assert_eq!(get_line("a\n\n", 2), None);
}

#[test]
fn get_line_counts_characters_not_bytes() {
    assert_eq!(get_line("é\nüber\n", 1), Some("über"));
}

#[test]
fn render_location_points_at_the_column() {
    let text = "{\n  \"a\": tru\n}";
    assert_eq!(
        render_location(text, 1, 7),
        Some(("  \"a\": tru", "       ^".to_string()))
    );
    assert_eq!(render_location(text, 0, 0), Some(("{", "^".to_string())));
    assert_eq!(render_location(text, 3, 0), None);
}

#[test]
fn each_token_stands_in_its_line_at_its_column() {
    for text in [
        "{\"a\": [1, true,\n  null], \"bé\": \"c d\"}\n",
        "  12 \t x\r\n\n [ ]\n:,",
        "\u{3000}é\u{a0}\"ü\" {",
        "[\"two\nlines\", 3]",
    ] {
        let tokens = lex(text);
        assert!(!tokens.is_empty());
        for token in &tokens {
            let written = token.token_type.text();
            let first = written.chars().next().unwrap();
            let (line, pointer) = render_location(text, token.line, token.col).unwrap();
            assert_eq!(line.chars().nth(token.col), Some(first));
            assert_eq!(pointer.chars().count(), token.col + 1);
            assert_eq!(pointer.chars().last(), Some('^'));
            if !written.contains('\n') {
                let rest: String = line.chars().skip(token.col).collect();
                assert!(rest.starts_with(&written), "{:?} in {:?}", written, line);
            }
        }
    }
}

#[test]
fn report_with_a_token() {
    let content = "{\n  \"a\": 1,\n  \"a\": 2\n}";
    let tokens = lex(content);
    let error = parse(&tokens).unwrap_err();
    assert_eq!(error.error_type, ParseErrorType::DuplicateKey);

    let lines = report_parse_error(&error, content, "some/file.json");
    assert_eq!(
        lines,
        vec![
            "At some/file.json:3:3".to_string(),
            "  \"a\": 2".to_string(),
            "  ^".to_string(),
            "Duplicate keys are not valid".to_string(),
        ]
    );
}

#[test]
fn report_without_a_token() {
    let content = "[1, 2";
    let tokens = lex(content);
    let error = parse(&tokens).unwrap_err();

    let lines = report_parse_error(&error, content, "f.json");
    assert_eq!(
        lines,
        vec!["At f.json".to_string(), "File ended unexpectedly".to_string()]
    );
}

#[test]
fn report_counts_lines_and_columns_from_one_in_decimal() {
    let mut content = String::new();
    for _ in 0..11 {
        content.push('\n');
    }
    content.push_str("            nope");
    let tokens = lex(&content);
    let error = parse(&tokens).unwrap_err();
    assert_eq!(
        error,
        ParseError::new(ParseErrorType::UnexpectedToken, Some(&tokens[0]), None)
    );

    let lines = report_parse_error(&error, &content, "x");
    assert_eq!(lines[0], "At x:12:13");
    assert_eq!(lines[1], "            nope");
    assert_eq!(lines[2], "            ^");
    assert_eq!(lines[3], "Did not expect 'nope'");
}
