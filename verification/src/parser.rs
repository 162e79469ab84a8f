//! The parser: recursive descent over the tokens, with one token of
//! lookahead, ending in a value or in the first error and its place.

use crate::json::{has_key, json_views, put, Json, JsonMap, JsonView};
use crate::lexer::{token_views, Token, TokenKind, TokenType, TokenView};
use vstd::prelude::*;

verus! {

/// The ways in which a text can fail to be JSON.
#[derive(Debug, PartialEq, Eq, Clone, Copy)]
pub enum ParseErrorType {
    UnexpectedEnd,
    UnexpectedToken,
    DuplicateKey,
    TrailingComma,
    KeyNotInQuotes,
    MissingColon,
    MissingCloseCurly,
    MissingCloseSquare,
}

/// Why parsing stopped: the kind of error, the token at which it was
/// found, and the token that was expected there, where there is one.
#[derive(Debug, PartialEq)]
pub struct ParseError<'a> {
    pub error_type: ParseErrorType,
    pub token: Option<&'a Token>,
    pub expected: Option<&'a TokenType>,
}

/// The mathematical value of a [`ParseError`].
pub struct ParseErrorView {
    pub error_type: ParseErrorType,
    pub token: Option<TokenView>,
    pub expected: Option<TokenKind>,
}

impl<'a> View for ParseError<'a> {
    type V = ParseErrorView;

    open spec fn view(&self) -> ParseErrorView {
        ParseErrorView {
            error_type: self.error_type,
            token: match self.token {
                Some(token) => Some(token@),
                None => None,
            },
            expected: match self.expected {
                Some(expected) => Some(expected@),
                None => None,
            },
        }
    }
}

impl<'a> ParseError<'a> {
    pub fn new(
        error_type: ParseErrorType,
        token: Option<&'a Token>,
        expected: Option<&'a TokenType>,
    ) -> (error: ParseError<'a>)
        ensures
            error.error_type == error_type,
            error.token == token,
            error.expected == expected,
    {
        ParseError { error_type, token, expected }
    }
}

/// What parsing one element gave: its value, the key where it is a member
/// of an object, and the index of the token after it.
pub struct ParseContext<'a> {
    pub key: &'a str,
    pub value: Json<'a>,
    pub next: usize,
}

/// The mathematical value of a [`ParseContext`].
pub struct ContextView {
    pub key: Seq<char>,
    pub value: JsonView,
    pub next: int,
}

impl<'a> View for ParseContext<'a> {
    type V = ContextView;

    open spec fn view(&self) -> ContextView {
        ContextView { key: self.key@, value: self.value@, next: self.next as int }
    }
}

impl<'a> ParseContext<'a> {
    /// A value without a key.
    pub fn new(value: Json<'a>, next: usize) -> (context: ParseContext<'a>)
        ensures
            context@ == (ContextView { key: Seq::empty(), value: value@, next: next as int }),
    {
        let key = "";
        proof {
            reveal_strlit("");
            assert(key@ =~= Seq::empty());
        }
        ParseContext { key, value, next }
    }

    /// A member of an object.
    pub fn key_value_pair(key: &'a str, value: Json<'a>, next: usize) -> (context: ParseContext<'a>)
        ensures
            context@ == (ContextView { key: key@, value: value@, next: next as int }),
    {
        ParseContext { key, value, next }
    }
}

/// The elements gathered between two brackets: the members of an object or
/// the values of an array.
pub enum Items<'a> {
    Members(JsonMap<'a>),
    Values(Vec<Json<'a>>),
}

/// The mathematical value of [`Items`].
pub enum ItemsView {
    Members(Seq<(Seq<char>, JsonView)>),
    Values(Seq<JsonView>),
}

impl<'a> View for Items<'a> {
    type V = ItemsView;

    open spec fn view(&self) -> ItemsView {
        match self {
            Items::Members(members) => ItemsView::Members(members@),
            Items::Values(values) => ItemsView::Values(json_views(values@)),
        }
    }
}

/// An error value.
pub open spec fn failure(
    error_type: ParseErrorType,
    token: Option<TokenView>,
    expected: Option<TokenKind>,
) -> ParseErrorView {
    ParseErrorView { error_type, token, expected }
}

/// The token at index `i`, if there is one.
pub open spec fn token_at(tokens: Seq<TokenView>, i: int) -> Option<TokenView> {
    if 0 <= i < tokens.len() {
        Some(tokens[i])
    } else {
        None
    }
}

/// The error, if any, of expecting a token of kind `kind` at index `i`:
/// `UnexpectedEnd` where the tokens have ended, else `error_type` at the
/// token that stands there instead, with `kind` as what was expected.
pub open spec fn expect_spec(
    kind: TokenKind,
    error_type: ParseErrorType,
    tokens: Seq<TokenView>,
    i: int,
) -> Option<ParseErrorView> {
    match token_at(tokens, i) {
        Some(token) => if token.kind == kind {
            None
        } else {
            Some(failure(error_type, Some(token), Some(kind)))
        },
        None => Some(failure(ParseErrorType::UnexpectedEnd, None, None)),
    }
}

/// The key at index `i`. A string is a key. A word, a number or a keyword
/// is a key that lacks its quotes. A structural character is no key at
/// all, which ends a list of members.
pub open spec fn expect_key_spec(tokens: Seq<TokenView>, i: int) -> Result<
    Seq<char>,
    ParseErrorView,
> {
    match token_at(tokens, i) {
        Some(token) => match token.kind {
            TokenKind::String(key) => Ok(key),
            TokenKind::Invalid(_) | TokenKind::Number(_) | TokenKind::Bool(_) | TokenKind::Null => Err(
                failure(ParseErrorType::KeyNotInQuotes, Some(token), None),
            ),
            _ => Err(failure(ParseErrorType::UnexpectedToken, None, None)),
        },
        None => Err(failure(ParseErrorType::UnexpectedEnd, None, None)),
    }
}

/// After a list of elements that ended before index `i`: a comma right
/// before `i` has no element behind it.
pub open spec fn trailing_comma_spec(
    tokens: Seq<TokenView>,
    last_comma: Option<int>,
    i: int,
) -> Option<ParseErrorView> {
    match last_comma {
        Some(index) => if index == i - 1 {
            Some(failure(ParseErrorType::TrailingComma, token_at(tokens, index), None))
        } else {
            None
        },
        None => None,
    }
}

/// The elements with one more. A key that an object already has is an
/// error at `token`.
pub open spec fn add_spec(
    items: ItemsView,
    element: ContextView,
    token: Option<TokenView>,
) -> Result<
    ItemsView,
    ParseErrorView,
> {
    match items {
        ItemsView::Members(members) => if has_key(members, element.key) {
            Err(failure(ParseErrorType::DuplicateKey, token, None))
        } else {
            Ok(ItemsView::Members(put(members, element.key, element.value)))
        },
        ItemsView::Values(values) => Ok(ItemsView::Values(values.push(element.value))),
    }
}

/// The value that begins at index `start`, and where it ends.
pub open spec fn value_spec(tokens: Seq<TokenView>, start: int) -> Result<
    ContextView,
    ParseErrorView,
>
    decreases tokens.len() - start, 0int,
{
    match token_at(tokens, start) {
        None => Err(failure(ParseErrorType::UnexpectedEnd, None, None)),
        Some(token) => match token.kind {
            TokenKind::Null => Ok(
                ContextView { key: Seq::empty(), value: JsonView::Null, next: start + 1 },
            ),
            TokenKind::Bool(b) => Ok(
                ContextView { key: Seq::empty(), value: JsonView::Bool(b), next: start + 1 },
            ),
            TokenKind::Number(text) => Ok(
                ContextView { key: Seq::empty(), value: JsonView::Number(text), next: start + 1 },
            ),
            TokenKind::String(text) => Ok(
                ContextView { key: Seq::empty(), value: JsonView::String(text), next: start + 1 },
            ),
            TokenKind::OpenCurly => close_spec(
                tokens,
                sequence_spec(tokens, start + 1, ItemsView::Members(Seq::empty()), None),
            ),
            TokenKind::OpenSquare => close_spec(
                tokens,
                sequence_spec(tokens, start + 1, ItemsView::Values(Seq::empty()), None),
            ),
            _ => Err(failure(ParseErrorType::UnexpectedToken, Some(token), None)),
        },
    }
}

/// The container whose elements were gathered as `gathered` says: its
/// closing bracket must follow them.
pub open spec fn close_spec(
    tokens: Seq<TokenView>,
    gathered: Result<(ItemsView, int), ParseErrorView>,
) -> Result<ContextView, ParseErrorView> {
    match gathered {
        Err(error) => Err(error),
        Ok((ItemsView::Members(members), i)) => match expect_spec(
            TokenKind::CloseCurly,
            ParseErrorType::MissingCloseCurly,
            tokens,
            i,
        ) {
            Some(error) => Err(error),
            None => Ok(ContextView { key: Seq::empty(), value: JsonView::Object(members), next: i + 1 }),
        },
        Ok((ItemsView::Values(values), i)) => match expect_spec(
            TokenKind::CloseSquare,
            ParseErrorType::MissingCloseSquare,
            tokens,
            i,
        ) {
            Some(error) => Err(error),
            None => Ok(ContextView { key: Seq::empty(), value: JsonView::Array(values), next: i + 1 }),
        },
    }
}

/// The member of an object that begins at index `start`: a key, a colon
/// and a value.
pub open spec fn member_spec(tokens: Seq<TokenView>, start: int) -> Result<
    ContextView,
    ParseErrorView,
>
    decreases tokens.len() - start, 1int,
{
    match expect_key_spec(tokens, start) {
        Err(error) => Err(error),
        Ok(key) => match expect_spec(
            TokenKind::Colon,
            ParseErrorType::MissingColon,
            tokens,
            start + 1,
        ) {
            Some(error) => Err(error),
            None => match value_spec(tokens, start + 2) {
                Err(error) => Err(error),
                Ok(context) => Ok(ContextView { key, ..context }),
            },
        },
    }
}

/// The elements of a container from index `i` on, after `items`, and the
/// index at which they end. Elements are parted by commas. An element that
/// fails with `UnexpectedToken` ends the list; any other error ends the
/// parse. `last_comma` is the index of the comma consumed last.
///
/// An element never ends before it begins, see [`lemma_value_advances`]:
/// the test for that is here for the sake of termination alone.
pub open spec fn sequence_spec(
    tokens: Seq<TokenView>,
    i: int,
    items: ItemsView,
    last_comma: Option<int>,
) -> Result<(ItemsView, int), ParseErrorView>
    decreases tokens.len() - i, 2int,
{
    let element = if items is Members {
        member_spec(tokens, i)
    } else {
        value_spec(tokens, i)
    };
    match element {
        Ok(context) => match add_spec(items, context, token_at(tokens, i)) {
            Err(error) => Err(error),
            Ok(more) => if expect_spec(
                TokenKind::Comma,
                ParseErrorType::UnexpectedToken,
                tokens,
                context.next,
            ) is None && context.next >= i {
                sequence_spec(tokens, context.next + 1, more, Some(context.next))
            } else {
                match trailing_comma_spec(tokens, last_comma, context.next) {
                    Some(error) => Err(error),
                    None => Ok((more, context.next)),
                }
            },
        },
        Err(error) => if error.error_type == ParseErrorType::UnexpectedToken {
            match trailing_comma_spec(tokens, last_comma, i) {
                Some(error) => Err(error),
                None => Ok((items, i)),
            }
        } else {
            Err(error)
        },
    }
}

/// The value that the tokens begin with, or the first error. Tokens after
/// that value are not looked at.
pub open spec fn parse_spec(tokens: Seq<TokenView>) -> Result<JsonView, ParseErrorView> {
    match value_spec(tokens, 0) {
        Ok(context) => Ok(context.value),
        Err(error) => Err(error),
    }
}

/// A value takes at least one token, and no more than there are.
pub proof fn lemma_value_advances(tokens: Seq<TokenView>, start: int)
    ensures
        value_spec(tokens, start) matches Ok(context) ==> 0 <= start < context.next <= tokens.len(),
    decreases tokens.len() - start, 0int,
{
    if let Some(token) = token_at(tokens, start) {
        match token.kind {
            TokenKind::OpenCurly => {
                lemma_sequence_advances(
                    tokens,
                    start + 1,
                    ItemsView::Members(Seq::empty()),
                    None,
                );
            },
            TokenKind::OpenSquare => {
                lemma_sequence_advances(tokens, start + 1, ItemsView::Values(Seq::empty()), None);
            },
            _ => {},
        }
    }
}

/// A member takes at least three tokens, and no more than there are.
pub proof fn lemma_member_advances(tokens: Seq<TokenView>, start: int)
    ensures
        member_spec(tokens, start) matches Ok(context) ==> 0 <= start && start + 2 < context.next
            <= tokens.len(),
    decreases tokens.len() - start, 1int,
{
    if expect_key_spec(tokens, start) is Ok && expect_spec(
        TokenKind::Colon,
        ParseErrorType::MissingColon,
        tokens,
        start + 1,
    ) is None {
        lemma_value_advances(tokens, start + 2);
    }
}

/// A list of elements that begins within the tokens ends within them, and
/// not before it begins.
pub proof fn lemma_sequence_advances(
    tokens: Seq<TokenView>,
    i: int,
    items: ItemsView,
    last_comma: Option<int>,
)
    requires
        0 <= i <= tokens.len(),
    ensures
        sequence_spec(tokens, i, items, last_comma) matches Ok((_, next)) ==> i <= next
            <= tokens.len(),
    decreases tokens.len() - i, 2int,
{
    let element = if items is Members {
        lemma_member_advances(tokens, i);
        member_spec(tokens, i)
    } else {
        lemma_value_advances(tokens, i);
        value_spec(tokens, i)
    };
    if let Ok(context) = element {
        if let Ok(more) = add_spec(items, context, token_at(tokens, i)) {
            if expect_spec(
                TokenKind::Comma,
                ParseErrorType::UnexpectedToken,
                tokens,
                context.next,
            ) is None {
                lemma_sequence_advances(tokens, context.next + 1, more, Some(context.next));
            }
        }
    }
}

/// The value of what parsing an element gave.
pub open spec fn context_view<'a>(result: Result<ParseContext<'a>, ParseError<'a>>) -> Result<
    ContextView,
    ParseErrorView,
> {
    match result {
        Ok(context) => Ok(context@),
        Err(error) => Err(error@),
    }
}

/// Whether two token types are equal.
fn same_type(a: &TokenType, b: &TokenType) -> (same: bool)
    ensures
        same == (a@ == b@),
{
    match (a, b) {
        (TokenType::Null, TokenType::Null) => true,
        (TokenType::Bool(x), TokenType::Bool(y)) => *x == *y,
        (TokenType::Number(x), TokenType::Number(y)) => *x == *y,
        (TokenType::String(x), TokenType::String(y)) => *x == *y,
        (TokenType::Invalid(x), TokenType::Invalid(y)) => *x == *y,
        (TokenType::OpenCurly, TokenType::OpenCurly) => true,
        (TokenType::CloseCurly, TokenType::CloseCurly) => true,
        (TokenType::OpenSquare, TokenType::OpenSquare) => true,
        (TokenType::CloseSquare, TokenType::CloseSquare) => true,
        (TokenType::Colon, TokenType::Colon) => true,
        (TokenType::Comma, TokenType::Comma) => true,
        _ => false,
    }
}

/// The token at index `i`, if there is one.
fn get<'a>(tokens: &'a Vec<Token>, i: usize) -> (token: Option<&'a Token>)
    ensures
        token matches Some(t) ==> i < tokens.len() && *t == tokens[i as int],
        token is None ==> i >= tokens.len(),
        (match token {
            Some(t) => Some(t@),
            None => None,
        }) == token_at(token_views(tokens@), i as int),
{
    if i < tokens.len() {
        Some(&tokens[i])
    } else {
        None
    }
}

/// Expects a token of type `token_type` at index `i`.
fn expect<'a>(
    token_type: &'a TokenType,
    error_type: ParseErrorType,
    tokens: &'a Vec<Token>,
    i: usize,
) -> (result: Result<&'a Token, ParseError<'a>>)
    ensures
        match result {
            Ok(token) => i < tokens.len() && *token == tokens[i as int] && expect_spec(
                token_type@,
                error_type,
                token_views(tokens@),
                i as int,
            ) is None,
            Err(error) => expect_spec(token_type@, error_type, token_views(tokens@), i as int)
                == Some(error@),
        },
{
    match get(tokens, i) {
        Some(token) => {
            if same_type(&token.token_type, token_type) {
                Ok(token)
            } else {
                Err(ParseError::new(error_type, Some(token), Some(token_type)))
            }
        },
        None => Err(ParseError::new(ParseErrorType::UnexpectedEnd, None, None)),
    }
}

/// Tells a list that ends behind a comma from one that ends behind an
/// element.
fn check_trailing_comma<'a>(tokens: &'a Vec<Token>, last_comma: Option<usize>, i: usize) -> (result:
    Result<usize, ParseError<'a>>)
    requires
        last_comma matches Some(index) ==> index < i,
    ensures
        match result {
            Ok(next) => next == i && trailing_comma_spec(
                token_views(tokens@),
                index_view(last_comma),
                i as int,
            ) is None,
            Err(error) => trailing_comma_spec(token_views(tokens@), index_view(last_comma), i as int)
                == Some(error@),
        },
{
    match last_comma {
        Some(index) => {
            if index == i - 1 {
                Err(ParseError::new(ParseErrorType::TrailingComma, get(tokens, index), None))
            } else {
                Ok(i)
            }
        },
        None => Ok(i),
    }
}

/// An index as a mathematical integer.
pub open spec fn index_view(index: Option<usize>) -> Option<int> {
    match index {
        Some(i) => Some(i as int),
        None => None,
    }
}

/// The value of what gathering the elements of a container gave.
pub open spec fn items_view<'a>(result: Result<(Items<'a>, usize), ParseError<'a>>) -> Result<
    (ItemsView, int),
    ParseErrorView,
> {
    match result {
        Ok((items, next)) => Ok((items@, next as int)),
        Err(error) => Err(error@),
    }
}

/// Gathers the elements of a container, which are parted by commas, from
/// index `start` on and into `items`.
fn for_each_comma<'a>(tokens: &'a Vec<Token>, start: usize, items: Items<'a>) -> (result: Result<
    (Items<'a>, usize),
    ParseError<'a>,
>)
    requires
        start <= tokens.len(),
    ensures
        items_view(result) == sequence_spec(token_views(tokens@), start as int, items@, None),
        result matches Ok((_, next)) ==> start <= next <= tokens.len(),
    decreases tokens.len() - start, 3int,
{
    let ghost views = token_views(tokens@);
    let ghost goal = sequence_spec(views, start as int, items@, None);
    let mut gathered = items;
    let mut i = start;
    let mut last_comma: Option<usize> = None;
    loop
        invariant_except_break
            goal == sequence_spec(views, i as int, gathered@, index_view(last_comma)),
        invariant
            views == token_views(tokens@),
            goal == sequence_spec(views, start as int, items@, None),
            start <= i <= tokens.len(),
            last_comma matches Some(index) ==> index < i,
        ensures
            match trailing_comma_spec(views, index_view(last_comma), i as int) {
                Some(error) => goal == Err::<(ItemsView, int), ParseErrorView>(error),
                None => goal == Ok::<(ItemsView, int), ParseErrorView>((gathered@, i as int)),
            },
        decreases tokens.len() - i,
    {
        let element = match gathered {
            Items::Members(_) => key_value_pair(tokens, i),
            Items::Values(_) => value(tokens, i),
        };
        match element {
            Ok(context) => {
                let next = context.next;
                gathered =
                match gathered {
                    Items::Members(members) => {
                        let mut members = members;
                        match members.insert(context.key, context.value) {
                            Some(_) => {
                                return Err(
                                    ParseError::new(
                                        ParseErrorType::DuplicateKey,
                                        get(tokens, i),
                                        None,
                                    ),
                                );
                            },
                            None => {},
                        }
                        Items::Members(members)
                    },
                    Items::Values(values) => {
                        let ghost before = json_views(values@);
                        let ghost added = context.value@;
                        let mut values = values;
                        values.push(context.value);
                        assert(json_views(values@) =~= before.push(added));
                        Items::Values(values)
                    },
                };
                i = next;
                match expect(&TokenType::Comma, ParseErrorType::UnexpectedToken, tokens, i) {
                    Ok(_) => {
                        last_comma = Some(i);
                        i += 1;
                    },
                    Err(_) => {
                        break ;
                    },
                }
            },
            Err(parse_error) => match parse_error.error_type {
                ParseErrorType::UnexpectedToken => {
                    break ;
                },
                _ => {
                    return Err(parse_error);
                },
            },
        }
    }
    match check_trailing_comma(tokens, last_comma, i) {
        Ok(next) => Ok((gathered, next)),
        Err(parse_error) => Err(parse_error),
    }
}

/// Expects the key of a member at index `i`.
fn expect_key<'a>(tokens: &'a Vec<Token>, i: usize) -> (result: Result<&'a str, ParseError<'a>>)
    ensures
        match result {
            Ok(key) => i < tokens.len() && expect_key_spec(token_views(tokens@), i as int) == Ok::<
                Seq<char>,
                ParseErrorView,
            >(key@),
            Err(error) => expect_key_spec(token_views(tokens@), i as int) == Err::<
                Seq<char>,
                ParseErrorView,
            >(error@),
        },
{
    match get(tokens, i) {
        Some(token) => match &token.token_type {
            TokenType::String(s) => Ok(s.as_str()),
            TokenType::Invalid(_) | TokenType::Number(_) | TokenType::Bool(_) | TokenType::Null => Err(
                ParseError::new(ParseErrorType::KeyNotInQuotes, Some(token), None),
            ),
            _ => Err(ParseError::new(ParseErrorType::UnexpectedToken, None, None)),
        },
        None => Err(ParseError::new(ParseErrorType::UnexpectedEnd, None, None)),
    }
}

/// Parses the member of an object that begins at index `start`.
fn key_value_pair<'a>(tokens: &'a Vec<Token>, start: usize) -> (result: Result<
    ParseContext<'a>,
    ParseError<'a>,
>)
    requires
        start <= tokens.len(),
    ensures
        context_view(result) == member_spec(token_views(tokens@), start as int),
        result matches Ok(context) ==> start < context.next <= tokens.len(),
    decreases tokens.len() - start, 2int,
{
    let key = match expect_key(tokens, start) {
        Ok(k) => k,
        Err(parse_error) => {
            return Err(parse_error);
        },
    };
    match expect(&TokenType::Colon, ParseErrorType::MissingColon, tokens, start + 1) {
        Ok(_) => {},
        Err(parse_error) => {
            return Err(parse_error);
        },
    }
    match value(tokens, start + 2) {
        Ok(context) => Ok(ParseContext::key_value_pair(key, context.value, context.next)),
        Err(parse_error) => Err(parse_error),
    }
}

/// Parses the object whose opening bracket stands at index `start`.
fn object<'a>(tokens: &'a Vec<Token>, start: usize) -> (result: Result<
    ParseContext<'a>,
    ParseError<'a>,
>)
    requires
        start < tokens.len(),
    ensures
        context_view(result) == close_spec(
            token_views(tokens@),
            sequence_spec(
                token_views(tokens@),
                start + 1,
                ItemsView::Members(Seq::empty()),
                None,
            ),
        ),
        result matches Ok(context) ==> start < context.next <= tokens.len(),
    decreases tokens.len() - start, 0int,
{
    let (items, i) = match for_each_comma(tokens, start + 1, Items::Members(JsonMap::new())) {
        Ok(gathered) => gathered,
        Err(parse_error) => {
            return Err(parse_error);
        },
    };
    match items {
        Items::Members(members) => {
            match expect(&TokenType::CloseCurly, ParseErrorType::MissingCloseCurly, tokens, i) {
                Ok(_) => Ok(ParseContext::new(Json::Object(members), i + 1)),
                Err(parse_error) => Err(parse_error),
            }
        },
        Items::Values(_) => {
            proof {
                lemma_sequence_keeps_kind(
                    token_views(tokens@),
                    start + 1,
                    ItemsView::Members(Seq::empty()),
                    None,
                );
            }
            Err(ParseError::new(ParseErrorType::UnexpectedToken, None, None))
        },
    }
}

/// Parses the array whose opening bracket stands at index `start`.
fn array<'a>(tokens: &'a Vec<Token>, start: usize) -> (result: Result<
    ParseContext<'a>,
    ParseError<'a>,
>)
    requires
        start < tokens.len(),
    ensures
        context_view(result) == close_spec(
            token_views(tokens@),
            sequence_spec(token_views(tokens@), start + 1, ItemsView::Values(Seq::empty()), None),
        ),
        result matches Ok(context) ==> start < context.next <= tokens.len(),
    decreases tokens.len() - start, 0int,
{
    let empty: Vec<Json<'a>> = Vec::new();
    assert(json_views(empty@) =~= Seq::empty());
    let (items, i) = match for_each_comma(tokens, start + 1, Items::Values(empty)) {
        Ok(gathered) => gathered,
        Err(parse_error) => {
            return Err(parse_error);
        },
    };
    match items {
        Items::Values(values) => {
            match expect(&TokenType::CloseSquare, ParseErrorType::MissingCloseSquare, tokens, i) {
                Ok(_) => {
                    let array = Json::Array(values);
                    assert(array@ =~= JsonView::Array(json_views(values@))) by {
                        assert(array@->Array_0 =~= json_views(values@));
                    }
                    Ok(ParseContext::new(array, i + 1))
                },
                Err(parse_error) => Err(parse_error),
            }
        },
        Items::Members(_) => {
            proof {
                lemma_sequence_keeps_kind(
                    token_views(tokens@),
                    start + 1,
                    ItemsView::Values(Seq::empty()),
                    None,
                );
            }
            Err(ParseError::new(ParseErrorType::UnexpectedToken, None, None))
        },
    }
}

/// Gathering elements never turns members into values or values into
/// members.
pub proof fn lemma_sequence_keeps_kind(
    tokens: Seq<TokenView>,
    i: int,
    items: ItemsView,
    last_comma: Option<int>,
)
    ensures
        sequence_spec(tokens, i, items, last_comma) matches Ok((gathered, _)) ==> (gathered
            is Members <==> items is Members),
    decreases tokens.len() - i,
{
    let element = if items is Members {
        member_spec(tokens, i)
    } else {
        value_spec(tokens, i)
    };
    if let Ok(context) = element {
        if let Ok(more) = add_spec(items, context, token_at(tokens, i)) {
            if expect_spec(
                TokenKind::Comma,
                ParseErrorType::UnexpectedToken,
                tokens,
                context.next,
            ) is None && context.next >= i {
                lemma_sequence_keeps_kind(tokens, context.next + 1, more, Some(context.next));
            }
        }
    }
}

/// Parses the value that begins at index `start`.
fn value<'a>(tokens: &'a Vec<Token>, start: usize) -> (result: Result<
    ParseContext<'a>,
    ParseError<'a>,
>)
    requires
        start <= tokens.len(),
    ensures
        context_view(result) == value_spec(token_views(tokens@), start as int),
        result matches Ok(context) ==> start < context.next <= tokens.len(),
    decreases tokens.len() - start, 1int,
{
    let start_token = match get(tokens, start) {
        Some(token) => token,
        None => {
            return Err(ParseError::new(ParseErrorType::UnexpectedEnd, None, None));
        },
    };
    match &start_token.token_type {
        TokenType::Null => Ok(ParseContext::new(Json::Null, start + 1)),
        TokenType::Bool(x) => Ok(ParseContext::new(Json::Bool(*x), start + 1)),
        TokenType::Number(x) => Ok(ParseContext::new(Json::Number(x.as_str()), start + 1)),
        TokenType::String(x) => Ok(ParseContext::new(Json::String(x.as_str()), start + 1)),
        TokenType::OpenCurly => object(tokens, start),
        TokenType::OpenSquare => array(tokens, start),
        _ => Err(ParseError::new(ParseErrorType::UnexpectedToken, Some(start_token), None)),
    }
}

/// The value of what parsing gave.
pub open spec fn parse_view<'a>(result: Result<Json<'a>, ParseError<'a>>) -> Result<
    JsonView,
    ParseErrorView,
> {
    match result {
        Ok(value) => Ok(value@),
        Err(error) => Err(error@),
    }
}

/// Parses the value that the tokens begin with. Fails with the first error
/// met; tokens after the value are not looked at.
pub fn parse<'a>(tokens: &'a Vec<Token>) -> (result: Result<Json<'a>, ParseError<'a>>)
    ensures
        parse_view(result) == parse_spec(token_views(tokens@)),
{
    match value(tokens, 0) {
        Ok(parse_context) => Ok(parse_context.value),
        Err(parse_error) => Err(parse_error),
    }
}

} // verus!
