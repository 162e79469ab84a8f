//! The message that tells a reader what a parse error is about.

use crate::formatter::quoted;
use crate::lexer::{TokenKind, TokenType};
use crate::parser::{ParseError, ParseErrorType, ParseErrorView};
use vstd::prelude::*;
use vstd::string::StringExecFns;

verus! {

/// A token as it is named in a message: a structural character, a keyword,
/// a number or a word as written, a string between its quotes.
pub open spec fn kind_text(kind: TokenKind) -> Seq<char> {
    match kind {
        TokenKind::Null => "null"@,
        TokenKind::Bool(b) => if b {
            "true"@
        } else {
            "false"@
        },
        TokenKind::Number(text) => text,
        TokenKind::String(text) => quoted(text),
        TokenKind::Invalid(text) => text,
        TokenKind::OpenCurly => "{"@,
        TokenKind::CloseCurly => "}"@,
        TokenKind::OpenSquare => "["@,
        TokenKind::CloseSquare => "]"@,
        TokenKind::Colon => ":"@,
        TokenKind::Comma => ","@,
    }
}

/// The message for a token that stands where it should not: it names the
/// token where the error has one and the expected token where it has one,
/// and after an expected closing bracket it hints at a forgotten comma.
pub open spec fn unexpected_token_message(error: ParseErrorView) -> Seq<char> {
    match error.token {
        None => "Did not expect this word or character"@,
        Some(token) => match error.expected {
            None => "Did not expect '"@ + kind_text(token.kind) + "'"@,
            Some(expected) => {
                let plain = "Did not expect '"@ + kind_text(token.kind) + "', expected '"@
                    + kind_text(expected) + "'"@;
                if expected is CloseCurly || expected is CloseSquare {
                    plain + ". Forgot a comma maybe?"@
                } else {
                    plain
                }
            },
        },
    }
}

/// The message for a parse error.
pub open spec fn message_spec(error: ParseErrorView) -> Seq<char> {
    match error.error_type {
        ParseErrorType::UnexpectedEnd => "File ended unexpectedly"@,
        ParseErrorType::UnexpectedToken => unexpected_token_message(error),
        ParseErrorType::MissingCloseCurly => unexpected_token_message(error),
        ParseErrorType::MissingCloseSquare => unexpected_token_message(error),
        ParseErrorType::TrailingComma => "Trailing commas are not valid"@,
        ParseErrorType::DuplicateKey => "Duplicate keys are not valid"@,
        ParseErrorType::KeyNotInQuotes => "Key should be in quotes"@,
        ParseErrorType::MissingColon => "Missing a ':' separator"@,
    }
}

impl TokenType {
    /// The token as it is named in a message.
    pub fn text(&self) -> (text: String)
        ensures
            text@ == kind_text(self@),
    {
        match self {
            TokenType::Null => String::from_str("null"),
            TokenType::Bool(b) => if *b {
                String::from_str("true")
            } else {
                String::from_str("false")
            },
            TokenType::Number(text) => text.clone(),
            TokenType::String(body) => {
                proof {
                    reveal_strlit("\"");
                }
                let mut text = String::from_str("\"");
                text.append(body.as_str());
                text.append("\"");
                assert(text@ =~= quoted(body@));
                text
            },
            TokenType::Invalid(text) => text.clone(),
            TokenType::OpenCurly => String::from_str("{"),
            TokenType::CloseCurly => String::from_str("}"),
            TokenType::OpenSquare => String::from_str("["),
            TokenType::CloseSquare => String::from_str("]"),
            TokenType::Colon => String::from_str(":"),
            TokenType::Comma => String::from_str(","),
        }
    }
}

/// The message for a token that stands where it should not.
fn get_message_unexpected_token<'a>(parse_error: &'a ParseError<'a>) -> (message: String)
    ensures
        message@ == unexpected_token_message(parse_error@),
{
    match parse_error.token {
        None => String::from_str("Did not expect this word or character"),
        Some(token) => {
            let mut message = String::from_str("Did not expect '");
            message.append(token.token_type.text().as_str());
            match parse_error.expected {
                None => {
                    message.append("'");
                },
                Some(expected) => {
                    message.append("', expected '");
                    message.append(expected.text().as_str());
                    message.append("'");
                    match expected {
                        TokenType::CloseCurly | TokenType::CloseSquare => {
                            message.append(". Forgot a comma maybe?");
                        },
                        _ => {},
                    }
                },
            }
            message
        },
    }
}

/// The message for `parse_error`.
pub fn get_message<'a>(parse_error: &'a ParseError<'a>) -> (message: String)
    ensures
        message@ == message_spec(parse_error@),
{
    match parse_error.error_type {
        ParseErrorType::UnexpectedEnd => String::from_str("File ended unexpectedly"),
        ParseErrorType::UnexpectedToken
        | ParseErrorType::MissingCloseCurly
        | ParseErrorType::MissingCloseSquare => get_message_unexpected_token(parse_error),
        ParseErrorType::TrailingComma => String::from_str("Trailing commas are not valid"),
        ParseErrorType::DuplicateKey => String::from_str("Duplicate keys are not valid"),
        ParseErrorType::KeyNotInQuotes => String::from_str("Key should be in quotes"),
        ParseErrorType::MissingColon => String::from_str("Missing a ':' separator"),
    }
}

} // verus!
