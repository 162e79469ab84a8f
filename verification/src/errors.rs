//! What every error that the parser reports carries: which kinds of error
//! name a token, which token that is, and which token was expected.

use crate::diagnostic::{kind_text, message_spec};
use crate::lexer::{TokenKind, TokenView};
use crate::parser::{
    add_spec, expect_key_spec, expect_spec, member_spec, parse_spec, sequence_spec, token_at,
    value_spec, ItemsView, ParseErrorType, ParseErrorView,
};
use vstd::prelude::*;

verus! {

/// The token of an error, if it has one, is one of `tokens`.
pub open spec fn points_into(error: ParseErrorView, tokens: Seq<TokenView>) -> bool {
    error.token matches Some(token) ==> exists|i: int|
        0 <= i < tokens.len() && #[trigger] tokens[i] == token
}

/// What an error of each kind carries:
///
/// - `UnexpectedEnd`: no token and no expectation;
/// - `UnexpectedToken`: no expectation;
/// - `DuplicateKey`: the string token of the key that came again;
/// - `TrailingComma`: the comma;
/// - `KeyNotInQuotes`: the word, number or keyword that stands for a key;
/// - `MissingColon`: the token that stands where the colon should, and
///   the colon as what was expected;
/// - `MissingCloseCurly`, `MissingCloseSquare`: the token that stands
///   where the bracket should, and the bracket as what was expected.
pub open spec fn well_shaped(error: ParseErrorView) -> bool {
    match error.error_type {
        ParseErrorType::UnexpectedEnd => error.token is None && error.expected is None,
        ParseErrorType::UnexpectedToken => error.expected is None,
        ParseErrorType::DuplicateKey => {
            &&& error.token matches Some(token)
            &&& token.kind is String
            &&& error.expected is None
        },
        ParseErrorType::TrailingComma => {
            &&& error.token matches Some(token)
            &&& token.kind == TokenKind::Comma
            &&& error.expected is None
        },
        ParseErrorType::KeyNotInQuotes => {
            &&& error.token matches Some(token)
            &&& (token.kind is Invalid || token.kind is Number || token.kind is Bool || token.kind
                is Null)
            &&& error.expected is None
        },
        ParseErrorType::MissingColon => {
            &&& error.token matches Some(token)
            &&& token.kind != TokenKind::Colon
            &&& error.expected == Some(TokenKind::Colon)
        },
        ParseErrorType::MissingCloseCurly => {
            &&& error.token matches Some(token)
            &&& token.kind != TokenKind::CloseCurly
            &&& error.expected == Some(TokenKind::CloseCurly)
        },
        ParseErrorType::MissingCloseSquare => {
            &&& error.token matches Some(token)
            &&& token.kind != TokenKind::CloseSquare
            &&& error.expected == Some(TokenKind::CloseSquare)
        },
    }
}

/// An error as the parser reports it for `tokens`.
pub open spec fn sound(error: ParseErrorView, tokens: Seq<TokenView>) -> bool {
    well_shaped(error) && points_into(error, tokens)
}

/// The index of the comma consumed last is that of a comma.
pub open spec fn comma_at(tokens: Seq<TokenView>, last_comma: Option<int>) -> bool {
    last_comma matches Some(index) ==> 0 <= index < tokens.len() && tokens[index].kind
        == TokenKind::Comma
}

/// An error of a value is sound, and where it is an unexpected token it
/// names that token.
pub proof fn lemma_value_error(tokens: Seq<TokenView>, start: int)
    ensures
        value_spec(tokens, start) matches Err(error) ==> sound(error, tokens) && (error.error_type
            == ParseErrorType::UnexpectedToken ==> error.token is Some),
    decreases tokens.len() - start, 0int,
{
    if let Some(token) = token_at(tokens, start) {
        assert(tokens[start] == token);
        match token.kind {
            TokenKind::OpenCurly => {
                lemma_sequence_error(tokens, start + 1, ItemsView::Members(Seq::empty()), None);
                lemma_close_error(
                    tokens,
                    sequence_spec(tokens, start + 1, ItemsView::Members(Seq::empty()), None),
                );
            },
            TokenKind::OpenSquare => {
                lemma_sequence_error(tokens, start + 1, ItemsView::Values(Seq::empty()), None);
                lemma_close_error(
                    tokens,
                    sequence_spec(tokens, start + 1, ItemsView::Values(Seq::empty()), None),
                );
            },
            _ => {},
        }
    }
}

/// Expecting a token fails soundly.
proof fn lemma_expect_error(
    kind: TokenKind,
    error_type: ParseErrorType,
    tokens: Seq<TokenView>,
    i: int,
)
    requires
        error_type != ParseErrorType::UnexpectedEnd,
    ensures
        expect_spec(kind, error_type, tokens, i) matches Some(error) ==> {
            &&& points_into(error, tokens)
            &&& error.error_type == ParseErrorType::UnexpectedEnd ==> well_shaped(error)
            &&& error.error_type != ParseErrorType::UnexpectedEnd ==> {
                &&& error.error_type == error_type
                &&& error.expected == Some(kind)
                &&& error.token is Some
                &&& error.token->0.kind != kind
            }
        },
{
    if let Some(token) = token_at(tokens, i) {
        assert(tokens[i] == token);
    }
}

/// After the elements, a missing closing bracket is a sound error.
proof fn lemma_close_error(
    tokens: Seq<TokenView>,
    gathered: Result<(ItemsView, int), ParseErrorView>,
)
    requires
        gathered matches Err(error) ==> sound(error, tokens) && error.error_type
            != ParseErrorType::UnexpectedToken,
    ensures
        crate::parser::close_spec(tokens, gathered) matches Err(error) ==> sound(error, tokens)
            && error.error_type != ParseErrorType::UnexpectedToken,
{
    match gathered {
        Ok((ItemsView::Members(_), i)) => {
            lemma_expect_error(
                TokenKind::CloseCurly,
                ParseErrorType::MissingCloseCurly,
                tokens,
                i,
            );
        },
        Ok((ItemsView::Values(_), i)) => {
            lemma_expect_error(
                TokenKind::CloseSquare,
                ParseErrorType::MissingCloseSquare,
                tokens,
                i,
            );
        },
        Err(_) => {},
    }
}

/// An error of a member is sound.
pub proof fn lemma_member_error(tokens: Seq<TokenView>, start: int)
    ensures
        member_spec(tokens, start) matches Err(error) ==> sound(error, tokens),
        member_spec(tokens, start) is Ok ==> token_at(tokens, start) is Some && token_at(
            tokens,
            start,
        )->0.kind is String,
    decreases tokens.len() - start, 1int,
{
    if let Some(token) = token_at(tokens, start) {
        assert(tokens[start] == token);
    }
    if expect_key_spec(tokens, start) is Ok {
        lemma_expect_error(TokenKind::Colon, ParseErrorType::MissingColon, tokens, start + 1);
        if expect_spec(TokenKind::Colon, ParseErrorType::MissingColon, tokens, start + 1) is None {
            lemma_value_error(tokens, start + 2);
        }
    }
}

/// An error of a list of elements is sound, and never an unexpected
/// token: that ends a list and is no error of it.
pub proof fn lemma_sequence_error(
    tokens: Seq<TokenView>,
    i: int,
    items: ItemsView,
    last_comma: Option<int>,
)
    requires
        comma_at(tokens, last_comma),
    ensures
        sequence_spec(tokens, i, items, last_comma) matches Err(error) ==> sound(error, tokens)
            && error.error_type != ParseErrorType::UnexpectedToken,
    decreases tokens.len() - i, 2int,
{
    let element = if items is Members {
        lemma_member_error(tokens, i);
        member_spec(tokens, i)
    } else {
        lemma_value_error(tokens, i);
        value_spec(tokens, i)
    };
    if let Some(token) = token_at(tokens, i) {
        assert(tokens[i] == token);
    }
    if let Some(index) = last_comma {
        assert(token_at(tokens, index) == Some(tokens[index]));
    }
    if let Ok(context) = element {
        if let Ok(more) = add_spec(items, context, token_at(tokens, i)) {
            if expect_spec(
                TokenKind::Comma,
                ParseErrorType::UnexpectedToken,
                tokens,
                context.next,
            ) is None && context.next >= i {
                assert(tokens[context.next].kind == TokenKind::Comma);
                lemma_sequence_error(tokens, context.next + 1, more, Some(context.next));
            }
        }
    }
}

/// Every error that the parser reports is sound: it carries what its kind
/// asks for, and its token is one of the tokens parsed. An unexpected
/// token is always named.
pub proof fn lemma_parse_error(tokens: Seq<TokenView>)
    ensures
        parse_spec(tokens) matches Err(error) ==> sound(error, tokens) && (error.error_type
            == ParseErrorType::UnexpectedToken ==> error.token is Some),
{
    lemma_value_error(tokens, 0);
}

/// The message for a closing bracket that the parser misses names the
/// token found in its place and the bracket, and hints at a forgotten
/// comma.
pub proof fn lemma_missing_bracket_message(tokens: Seq<TokenView>)
    ensures
        parse_spec(tokens) matches Err(error) ==> (error.error_type
            == ParseErrorType::MissingCloseCurly || error.error_type
            == ParseErrorType::MissingCloseSquare) ==> message_spec(error) == "Did not expect '"@
            + kind_text(error.token->0.kind) + "', expected '"@ + kind_text(error.expected->0)
            + "'"@ + ". Forgot a comma maybe?"@,
{
    lemma_parse_error(tokens);
}

} // verus!
