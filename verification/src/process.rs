//! What a command does with one file, told apart from doing it: which
//! files a path stands for, and what becomes of the tokens of a file.

use crate::args::JoxideSubcommand;
use crate::formatter::{format_json, format_spec};
use crate::lexer::{token_views, Token, TokenView};
use crate::parser::{parse, parse_spec, ParseError, ParseErrorView};
use vstd::prelude::*;
use vstd::string::StringExecFns;

verus! {

/// What is to be done for a file that parsed.
#[derive(Debug, PartialEq)]
pub enum Output {
    /// Nothing: the file is valid.
    Nothing,
    /// Show this text.
    Print(String),
    /// Replace the text of the file by this text.
    Write(String),
}

/// The mathematical value of an [`Output`].
pub enum OutputView {
    Nothing,
    Print(Seq<char>),
    Write(Seq<char>),
}

impl View for Output {
    type V = OutputView;

    open spec fn view(&self) -> OutputView {
        match self {
            Output::Nothing => OutputView::Nothing,
            Output::Print(text) => OutputView::Print(text@),
            Output::Write(text) => OutputView::Write(text@),
        }
    }
}

/// The pattern of the files that `path` stands for: all the files under it
/// that end in `.json` where it is a directory, else the path itself.
pub open spec fn glob_pattern_spec(path: Seq<char>, is_dir: bool) -> Seq<char> {
    if is_dir {
        path + "/**/*.json"@
    } else {
        path
    }
}

/// The pattern of the files that `path` stands for; `is_dir` tells whether
/// it is the path of a directory.
pub fn glob_pattern(path: &str, is_dir: bool) -> (pattern: String)
    ensures
        pattern@ == glob_pattern_spec(path@, is_dir),
{
    let mut pattern = String::from_str(path);
    if is_dir {
        pattern.append("/**/*.json");
    }
    pattern
}

/// What a command does with the tokens of a file: it fails with the parse
/// error where they do not parse; validating asks for nothing more;
/// formatting gives the text of the value at the indent width asked for,
/// to be written to the file or to be shown.
pub open spec fn process_spec(tokens: Seq<TokenView>, sub_command: JoxideSubcommand) -> Result<
    OutputView,
    ParseErrorView,
> {
    match parse_spec(tokens) {
        Err(error) => Err(error),
        Ok(value) => match sub_command {
            JoxideSubcommand::Validate(_) => Ok(OutputView::Nothing),
            JoxideSubcommand::Format(args) => {
                let text = format_spec(value, args.indent_length as nat);
                if args.write {
                    Ok(OutputView::Write(text))
                } else {
                    Ok(OutputView::Print(text))
                }
            },
        },
    }
}

/// The value of what processing gave.
pub open spec fn output_view<'a>(result: Result<Output, ParseError<'a>>) -> Result<
    OutputView,
    ParseErrorView,
> {
    match result {
        Ok(output) => Ok(output@),
        Err(error) => Err(error@),
    }
}

/// Parses the tokens of a file and does what `sub_command` asks for.
pub fn process_tokens<'a>(tokens: &'a Vec<Token>, sub_command: &JoxideSubcommand) -> (result: Result<
    Output,
    ParseError<'a>,
>)
    ensures
        output_view(result) == process_spec(token_views(tokens@), *sub_command),
{
    let parsed_value = match parse(tokens) {
        Ok(value) => value,
        Err(parse_error) => {
            return Err(parse_error);
        },
    };
    match sub_command {
        JoxideSubcommand::Format(format_args) => {
            let formatted = format_json(parsed_value, format_args.indent_length);
            if format_args.write {
                Ok(Output::Write(formatted))
            } else {
                Ok(Output::Print(formatted))
            }
        },
        JoxideSubcommand::Validate(_) => Ok(Output::Nothing),
    }
}

} // verus!
