use joxide::args::{FormatArgs, JoxideArgs, JoxideSubcommand, ValidateArgs};
use joxide::lexer::lex;
use joxide::parser::ParseErrorType;
use joxide::process::{glob_pattern, process_tokens, Output};

fn format(indent_length: usize, write: bool) -> JoxideSubcommand {
    JoxideSubcommand::Format(FormatArgs {
        indent_length,
        write,
        file: "file.json".to_string(),
    })
}

fn validate() -> JoxideSubcommand {
    JoxideSubcommand::Validate(ValidateArgs {
        file: "other.json".to_string(),
    })
}

#[test]
fn a_command_names_its_file() {
    let args = JoxideArgs {
        sub_command: format(4, false),
    };
    assert_eq!(args.sub_command.file(), "file.json");
    assert_eq!(validate().file(), "other.json");
}

#[test]
fn a_directory_stands_for_the_json_files_under_it() {
    assert_eq!(glob_pattern("data", true), "data/**/*.json");
    assert_eq!(glob_pattern("data", false), "data");
    assert_eq!(glob_pattern("*.json", false), "*.json");
}

#[test]
fn validating_asks_for_nothing() {
    let tokens = lex("{\"b\": 1, \"a\": [true, null]}");
    assert_eq!(process_tokens(&tokens, &validate()), Ok(Output::Nothing));
}

#[test]
fn formatting_shows_or_writes_the_text() {
    let tokens = lex("{\"b\": 1, \"a\": [true, null]}");
    assert_eq!(
        process_tokens(&tokens, &format(0, false)),
        Ok(Output::Print("{\"a\":[true,null],\"b\":1}".to_string()))
    );
    assert_eq!(
        process_tokens(&tokens, &format(2, true)),
        Ok(Output::Write(
            "{\n  \"a\": [\n    true,\n    null\n  ],\n  \"b\": 1\n}".to_string()
        ))
    );
}

#[test]
fn a_text_that_does_not_parse_fails_either_command() {
    let tokens = lex("[1, 2,]");
    for sub_command in [validate(), format(4, false), format(0, true)] {
        let error = process_tokens(&tokens, &sub_command).unwrap_err();
        assert_eq!(error.error_type, ParseErrorType::TrailingComma);
        assert_eq!(error.token, Some(&tokens[4]));
    }
}
