//! What holds of every token the lexer emits and of every value the parser
//! builds: strings can be written back between quotes, numbers read as
//! numbers, and the members of an object stand in the order of their keys.

use crate::json::{has_key, lemma_put_members, lemma_put_sorted, put, sorted, JsonView};
use crate::lexer::{lex_spec, scan, Mode, Scan, TokenKind, TokenView};
use crate::parser::{
    add_spec, expect_key_spec, expect_spec, member_spec, parse_spec, sequence_spec,
    token_at, value_spec, ContextView, ItemsView, ParseErrorType,
};
use crate::text::number_text;
use vstd::prelude::*;

verus! {

/// In `s`, a backslash stands right before every quote.
pub open spec fn quotes_escaped(s: Seq<char>) -> bool {
    forall|i: int| 0 <= i < s.len() && (#[trigger] s[i]) == '"' ==> i > 0 && s[i - 1] == '\\'
}

/// `s` can stand between two quotes and be read back as it is: each quote
/// in it has a backslash right before it, and it does not end in a
/// backslash.
pub open spec fn string_body(s: Seq<char>) -> bool {
    &&& quotes_escaped(s)
    &&& s.len() > 0 ==> s.last() != '\\'
}

/// A string token holds a string body, a number token a number.
pub open spec fn clean(token: TokenView) -> bool {
    match token.kind {
        TokenKind::String(text) => string_body(text),
        TokenKind::Number(text) => number_text(text),
        _ => true,
    }
}

/// Every token is [`clean`].
pub open spec fn all_clean(tokens: Seq<TokenView>) -> bool {
    forall|i: int| 0 <= i < tokens.len() ==> clean(#[trigger] tokens[i])
}

/// What holds of the scan at every character: the tokens emitted are
/// clean, and inside a string the escape flag tells whether the string so
/// far ends in a backslash.
pub open spec fn scan_invariant(s: Scan) -> bool {
    &&& all_clean(s.tokens)
    &&& s.mode == Mode::Quoted ==> {
        &&& quotes_escaped(s.pending)
        &&& s.escape == (s.pending.len() > 0 && s.pending.last() == '\\')
    }
}

/// One more character keeps the invariant of the scan.
pub proof fn lemma_step_invariant(s: Scan, c: char)
    requires
        scan_invariant(s),
    ensures
        scan_invariant(s.step(c)),
{
    let after = s.step(c);
    assert(all_clean(after.tokens)) by {
        assert forall|i: int| 0 <= i < after.tokens.len() implies clean(
            #[trigger] after.tokens[i],
        ) by {
            if i < s.tokens.len() {
                assert(after.tokens[i] == s.tokens[i]);
            }
        }
    }
}

/// The invariant of the scan holds after every text.
pub proof fn lemma_scan_invariant(text: Seq<char>)
    ensures
        scan_invariant(scan(text)),
    decreases text.len(),
{
    if text.len() > 0 {
        lemma_scan_invariant(text.drop_last());
        lemma_step_invariant(scan(text.drop_last()), text.last());
    }
}

/// The lexer emits clean tokens only: whatever the text, each string token
/// holds a string body and each number token a number.
pub proof fn lemma_lex_clean(text: Seq<char>)
    ensures
        all_clean(lex_spec(text)),
{
    lemma_scan_invariant(text);
}

/// A value that can be written and read back: its numbers read as
/// numbers, its strings and keys are string bodies, and the members of
/// each object stand in the strictly ascending order of their keys.
pub open spec fn well_formed(value: JsonView) -> bool
    decreases value, 1int,
{
    match value {
        JsonView::Null => true,
        JsonView::Bool(_) => true,
        JsonView::Number(text) => number_text(text),
        JsonView::String(text) => string_body(text),
        JsonView::Array(values) => values_well_formed(values),
        JsonView::Object(members) => members_well_formed(members),
    }
}

/// Each of the values is well formed.
pub open spec fn values_well_formed(values: Seq<JsonView>) -> bool
    decreases values, 0int,
{
    forall|i: int| 0 <= i < values.len() ==> well_formed(#[trigger] values[i])
}

/// The members stand in the strictly ascending order of their keys, each
/// key is a string body and each value is well formed.
pub open spec fn members_well_formed(members: Seq<(Seq<char>, JsonView)>) -> bool
    decreases members, 0int,
{
    &&& sorted(members)
    &&& forall|i: int|
        0 <= i < members.len() ==> string_body((#[trigger] members[i]).0) && well_formed(
            members[i].1,
        )
}

/// Elements that are well formed as the container that they will make.
pub open spec fn well_formed_items(items: ItemsView) -> bool {
    match items {
        ItemsView::Members(members) => members_well_formed(members),
        ItemsView::Values(values) => values_well_formed(values),
    }
}

/// With one more well-formed element, well-formed elements stay so.
proof fn lemma_add_well_formed(items: ItemsView, element: ContextView, token: Option<TokenView>)
    requires
        well_formed_items(items),
        well_formed(element.value),
        items is Members ==> string_body(element.key),
    ensures
        add_spec(items, element, token) matches Ok(more) ==> well_formed_items(more) && (more
            is Members <==> items is Members),
{
    match items {
        ItemsView::Members(members) => {
            if !has_key(members, element.key) {
                let after = put(members, element.key, element.value);
                lemma_put_sorted(members, element.key, element.value);
                assert forall|i: int| 0 <= i < after.len() implies string_body(
                    (#[trigger] after[i]).0,
                ) && well_formed(after[i].1) by {
                    lemma_put_members(members, element.key, element.value, i);
                }
            }
        },
        ItemsView::Values(values) => {
            let after = values.push(element.value);
            assert forall|i: int| 0 <= i < after.len() implies well_formed(#[trigger] after[i]) by {
                if i < values.len() {
                    assert(after[i] == values[i]);
                }
            }
        },
    }
}

/// From clean tokens the parser builds a well-formed value, and the value
/// takes at least one token.
pub proof fn lemma_value_well_formed(tokens: Seq<TokenView>, start: int)
    requires
        all_clean(tokens),
    ensures
        value_spec(tokens, start) matches Ok(context) ==> well_formed(context.value) && 0 <= start
            < context.next <= tokens.len(),
    decreases tokens.len() - start, 0int,
{
    if let Some(token) = token_at(tokens, start) {
        assert(clean(tokens[start]));
        match token.kind {
            TokenKind::OpenCurly => {
                lemma_sequence_well_formed(
                    tokens,
                    start + 1,
                    ItemsView::Members(Seq::empty()),
                    None,
                );
            },
            TokenKind::OpenSquare => {
                lemma_sequence_well_formed(tokens, start + 1, ItemsView::Values(Seq::empty()), None);
            },
            _ => {},
        }
    }
}

/// From clean tokens the parser builds a member with a string body for its
/// key and a well-formed value.
pub proof fn lemma_member_well_formed(tokens: Seq<TokenView>, start: int)
    requires
        all_clean(tokens),
    ensures
        member_spec(tokens, start) matches Ok(context) ==> string_body(context.key) && well_formed(
            context.value,
        ) && 0 <= start < context.next <= tokens.len(),
    decreases tokens.len() - start, 1int,
{
    if let Ok(key) = expect_key_spec(tokens, start) {
        assert(clean(tokens[start]));
        if expect_spec(TokenKind::Colon, ParseErrorType::MissingColon, tokens, start + 1) is None {
            lemma_value_well_formed(tokens, start + 2);
        }
    }
}

/// From clean tokens, and after well-formed elements, the parser gathers
/// well-formed elements of the same sort.
pub proof fn lemma_sequence_well_formed(
    tokens: Seq<TokenView>,
    i: int,
    items: ItemsView,
    last_comma: Option<int>,
)
    requires
        all_clean(tokens),
        well_formed_items(items),
        0 <= i,
    ensures
        sequence_spec(tokens, i, items, last_comma) matches Ok((more, next)) ==> well_formed_items(
            more,
        ) && (more is Members <==> items is Members) && i <= next <= tokens.len(),
    decreases tokens.len() - i, 2int,
{
    let element = if items is Members {
        lemma_member_well_formed(tokens, i);
        member_spec(tokens, i)
    } else {
        lemma_value_well_formed(tokens, i);
        value_spec(tokens, i)
    };
    match element {
        Ok(context) => {
            lemma_add_well_formed(items, context, token_at(tokens, i));
            if let Ok(more) = add_spec(items, context, token_at(tokens, i)) {
                if expect_spec(
                    TokenKind::Comma,
                    ParseErrorType::UnexpectedToken,
                    tokens,
                    context.next,
                ) is None {
                    lemma_sequence_well_formed(tokens, context.next + 1, more, Some(context.next));
                }
            }
        },
        Err(error) => {
            if i > tokens.len() {
                assert(token_at(tokens, i) is None);
            }
        },
    }
}

/// From clean tokens the parser builds a well-formed value.
pub proof fn lemma_parse_well_formed(tokens: Seq<TokenView>)
    requires
        all_clean(tokens),
    ensures
        parse_spec(tokens) matches Ok(value) ==> well_formed(value),
{
    lemma_value_well_formed(tokens, 0);
}

/// Whatever the order of the members in the text, a parsed value holds
/// the members of each of its objects, at every depth, in the strictly
/// ascending order of their keys; and in that order the formatter writes
/// them, see [`crate::formatter::lemma_members_written_in_order`].
pub proof fn lemma_parsed_in_key_order(text: Seq<char>)
    ensures
        parse_spec(lex_spec(text)) matches Ok(value) ==> well_formed(value),
        parse_spec(lex_spec(text)) matches Ok(JsonView::Object(members)) ==> forall|i: int, j: int|
            0 <= i < j < members.len() ==> crate::text::text_lt(
                #[trigger] members[i].0,
                #[trigger] members[j].0,
            ),
{
    lemma_lex_clean(text);
    lemma_parse_well_formed(lex_spec(text));
}

} // verus!
