//! Writing a parsed value and reading the text back gives the value back,
//! whatever the indent width.

use crate::formatter::{
    colon, comma, format_members, format_spec, format_value, format_values, line_break, quoted,
    spaces,
};
use crate::json::{has_key, lemma_rank_is, put, JsonView};
use crate::lexer::{lex_spec, punctuator_kind, scan, word_kind, Mode, Scan, TokenKind, TokenView};
use crate::parser::{
    member_spec, parse_spec, sequence_spec, token_at, value_spec, ContextView, ItemsView,
};
use crate::text::{
    decimal_from, digit, digits_end, number_text, punctuator, reads_inf, reads_infinity, reads_nan,
    sign, white_space,
};
use crate::wellformed::{
    lemma_lex_clean, lemma_parse_well_formed, members_well_formed, quotes_escaped, string_body,
    values_well_formed, well_formed,
};
use vstd::prelude::*;

verus! {

/// The kinds of a sequence of tokens, one by one.
pub open spec fn kinds(tokens: Seq<TokenView>) -> Seq<TokenKind> {
    Seq::new(tokens.len(), |i: int| tokens[i].kind)
}

/// The state of the scan that begins in state `s` and reads `text`.
pub open spec fn run(s: Scan, text: Seq<char>) -> Scan
    decreases text.len(),
{
    if text.len() == 0 {
        s
    } else {
        run(s, text.drop_last()).step(text.last())
    }
}

/// The scan of a text is the run over it from the start.
pub proof fn lemma_scan_is_run(text: Seq<char>)
    ensures
        scan(text) == run(Scan::start(), text),
    decreases text.len(),
{
    if text.len() > 0 {
        lemma_scan_is_run(text.drop_last());
    }
}

/// Reading one text after another is reading the second from where the
/// first ended.
pub proof fn lemma_run_concat(s: Scan, a: Seq<char>, b: Seq<char>)
    ensures
        run(s, a + b) == run(run(s, a), b),
    decreases b.len(),
{
    if b.len() == 0 {
        assert(a + b =~= a);
    } else {
        assert((a + b).drop_last() =~= a + b.drop_last());
        lemma_run_concat(s, a, b.drop_last());
    }
}

/// Reading one character is one step.
pub proof fn lemma_run_one(s: Scan, c: char)
    ensures
        run(s, seq![c]) == s.step(c),
{
    reveal_with_fuel(run, 2);
    assert(seq![c].drop_last() =~= Seq::<char>::empty());
}

/// The kinds of the tokens that would have been emitted if the text ended
/// in state `s`.
pub open spec fn settled(s: Scan) -> Seq<TokenKind> {
    kinds(s.finish())
}

/// Outside a string, and not right after a backslash.
pub open spec fn resting(s: Scan) -> bool {
    s.mode != Mode::Quoted && !s.escape
}

/// Between tokens, and not right after a backslash.
pub open spec fn idle(s: Scan) -> bool {
    s.mode == Mode::Idle && !s.escape
}

/// A character that can stand inside a bare word.
pub open spec fn word_char(c: char) -> bool {
    !white_space(c) && !punctuator(c) && c != '"' && c != '\\'
}

/// A structural character ends the word in progress and is a token of its
/// own.
pub proof fn lemma_step_punctuator(s: Scan, c: char)
    requires
        resting(s),
        punctuator(c),
    ensures
        idle(s.step(c)),
        kinds(s.step(c).tokens) == settled(s).push(punctuator_kind(c)),
{
    assert(kinds(s.step(c).tokens) =~= settled(s).push(punctuator_kind(c)));
}

/// White space ends the word in progress and is no token.
pub proof fn lemma_step_space(s: Scan, c: char)
    requires
        resting(s),
        white_space(c),
    ensures
        idle(s.step(c)),
        kinds(s.step(c).tokens) == settled(s),
{
    assert(kinds(s.step(c).tokens) =~= settled(s));
}

/// Spaces end the word in progress and are no token.
pub proof fn lemma_run_spaces(s: Scan, n: nat)
    requires
        resting(s),
    ensures
        resting(run(s, spaces(n))),
        settled(run(s, spaces(n))) == settled(s),
        idle(s) || n > 0 ==> idle(run(s, spaces(n))),
    decreases n,
{
    if n > 0 {
        assert(spaces(n).drop_last() =~= spaces((n - 1) as nat));
        lemma_run_spaces(s, (n - 1) as nat);
        lemma_step_space(run(s, spaces((n - 1) as nat)), ' ');
    }
}

/// A line break and its indentation end the word in progress and are no
/// token.
pub proof fn lemma_run_line_break(s: Scan, depth: nat, width: nat)
    requires
        resting(s),
    ensures
        resting(run(s, line_break(depth, width))),
        settled(run(s, line_break(depth, width))) == settled(s),
        idle(s) || width > 0 ==> idle(run(s, line_break(depth, width))),
{
    if width > 0 {
        lemma_run_concat(s, seq!['\n'], spaces(depth * width));
        lemma_run_one(s, '\n');
        lemma_step_space(s, '\n');
        lemma_run_spaces(s.step('\n'), depth * width);
    }
}

/// Read from between tokens, the characters of a word make that word the
/// token in progress.
pub proof fn lemma_run_word(s: Scan, word: Seq<char>)
    requires
        idle(s),
        word.len() > 0,
        forall|i: int| 0 <= i < word.len() ==> word_char(#[trigger] word[i]),
    ensures
        run(s, word).mode == Mode::Word,
        run(s, word).pending == word,
        run(s, word).tokens == s.tokens,
        resting(run(s, word)),
        settled(run(s, word)) == kinds(s.tokens).push(word_kind(word)),
    decreases word.len(),
{
    let front = word.drop_last();
    if front.len() == 0 {
        assert(run(s, word).pending =~= word);
    } else {
        lemma_run_word(s, front);
        assert(run(s, word).pending =~= word);
    }
    assert(settled(run(s, word)) =~= kinds(s.tokens).push(word_kind(word)));
}

/// Read after an opening quote, the first `count` characters of a string
/// body are the string in progress.
proof fn lemma_run_body(s: Scan, body: Seq<char>, count: int)
    requires
        s.mode == Mode::Quoted,
        s.pending.len() == 0,
        !s.escape,
        quotes_escaped(body),
        0 <= count <= body.len(),
    ensures
        run(s, body.take(count)).mode == Mode::Quoted,
        run(s, body.take(count)).pending == body.take(count),
        run(s, body.take(count)).tokens == s.tokens,
        run(s, body.take(count)).start_line == s.start_line,
        run(s, body.take(count)).start_col == s.start_col,
        run(s, body.take(count)).escape == (count > 0 && body[count - 1] == '\\'),
    decreases count,
{
    if count == 0 {
        assert(run(s, body.take(0)).pending =~= body.take(0));
    } else {
        lemma_run_body(s, body, count - 1);
        assert(body.take(count).drop_last() =~= body.take(count - 1));
        assert(body.take(count).last() == body[count - 1]);
        assert(run(s, body.take(count)).pending =~= body.take(count));
    }
}

/// Read from between tokens, a string body between quotes is one string
/// token.
pub proof fn lemma_run_quoted(s: Scan, body: Seq<char>)
    requires
        idle(s),
        string_body(body),
    ensures
        idle(run(s, quoted(body))),
        kinds(run(s, quoted(body)).tokens) == kinds(s.tokens).push(TokenKind::String(body)),
{
    let opened = s.step('"');
    lemma_run_concat(s, seq!['"'] + body, seq!['"']);
    lemma_run_concat(s, seq!['"'], body);
    lemma_run_one(s, '"');
    lemma_run_body(opened, body, body.len() as int);
    assert(body.take(body.len() as int) =~= body);
    lemma_run_one(run(opened, body), '"');
    assert(kinds(run(s, quoted(body)).tokens) =~= kinds(s.tokens).push(TokenKind::String(body)));
}

/// A run of digits holds digits only and ends within the text.
proof fn lemma_digits(s: Seq<char>, from: int)
    requires
        0 <= from <= s.len(),
    ensures
        from <= digits_end(s, from) <= s.len(),
        forall|i: int| from <= i < digits_end(s, from) ==> digit(#[trigger] s[i]),
    decreases s.len() - from,
{
    if from < s.len() && digit(s[from]) {
        lemma_digits(s, from + 1);
    }
}

/// A number is a word: it is not empty, and holds no white space, no
/// structural character, no quote and no backslash.
pub proof fn lemma_number_is_word(text: Seq<char>)
    requires
        number_text(text),
    ensures
        text.len() > 0,
        forall|i: int| 0 <= i < text.len() ==> word_char(#[trigger] text[i]),
{
    let from = if text.len() > 0 && sign(text[0]) {
        1int
    } else {
        0int
    };
    if reads_inf(text, from) || reads_infinity(text, from) || reads_nan(text, from) {
        assert forall|i: int| 0 <= i < text.len() implies word_char(#[trigger] text[i]) by {
            let at = i - from;
            if reads_infinity(text, from) {
                assert(at == -1 || at == 0 || at == 1 || at == 2 || at == 3 || at == 4 || at == 5
                    || at == 6 || at == 7);
            } else {
                assert(at == -1 || at == 0 || at == 1 || at == 2);
            }
        }
    } else {
        assert(decimal_from(text, from));
        lemma_digits(text, from);
        let whole = digits_end(text, from);
        let dotted = whole < text.len() && text[whole] == '.';
        if dotted {
            lemma_digits(text, whole + 1);
        }
        let mantissa = if dotted {
            digits_end(text, whole + 1)
        } else {
            whole
        };
        if mantissa != text.len() {
            let exponent = if mantissa + 1 < text.len() && sign(text[mantissa + 1]) {
                mantissa + 2
            } else {
                mantissa + 1
            };
            lemma_digits(text, exponent);
        }
        assert forall|i: int| 0 <= i < text.len() implies word_char(#[trigger] text[i]) by {
            if i < from {
            } else if i < whole {
                assert(digit(text[i]));
            } else if i < mantissa {
                if i > whole {
                    assert(digit(text[i]));
                }
            } else {
                let exponent = if mantissa + 1 < text.len() && sign(text[mantissa + 1]) {
                    mantissa + 2
                } else {
                    mantissa + 1
                };
                if i >= exponent {
                    assert(digit(text[i]));
                }
            }
        }
    }
}

/// The comma token that parts an element from the `before` elements in
/// front of it.
pub open spec fn comma_kind(before: nat) -> Seq<TokenKind> {
    if before == 0 {
        Seq::empty()
    } else {
        seq![TokenKind::Comma]
    }
}

/// The tokens that a value is written with.
pub open spec fn value_tokens(value: JsonView) -> Seq<TokenKind>
    decreases value, 1int,
{
    match value {
        JsonView::Null => seq![TokenKind::Null],
        JsonView::Bool(b) => seq![TokenKind::Bool(b)],
        JsonView::Number(text) => seq![TokenKind::Number(text)],
        JsonView::String(text) => seq![TokenKind::String(text)],
        JsonView::Array(values) => seq![TokenKind::OpenSquare] + values_tokens(values)
            + seq![TokenKind::CloseSquare],
        JsonView::Object(members) => seq![TokenKind::OpenCurly] + members_tokens(members)
            + seq![TokenKind::CloseCurly],
    }
}

/// The tokens that the values of an array are written with.
pub open spec fn values_tokens(values: Seq<JsonView>) -> Seq<TokenKind>
    decreases values, 0int,
{
    if values.len() == 0 {
        Seq::empty()
    } else {
        values_tokens(values.drop_last()) + comma_kind((values.len() - 1) as nat) + value_tokens(
            values.last(),
        )
    }
}

/// The tokens that the members of an object are written with.
pub open spec fn members_tokens(members: Seq<(Seq<char>, JsonView)>) -> Seq<TokenKind>
    decreases members, 0int,
{
    if members.len() == 0 {
        Seq::empty()
    } else {
        members_tokens(members.drop_last()) + comma_kind((members.len() - 1) as nat)
            + seq![TokenKind::String(members.last().0), TokenKind::Colon] + value_tokens(
            members.last().1,
        )
    }
}

/// Read from between tokens, the comma before an element is its token,
/// and the scan is between tokens again.
proof fn lemma_run_comma(s: Scan, before: nat)
    requires
        resting(s),
        before == 0 ==> idle(s),
    ensures
        idle(run(s, comma(before))),
        kinds(run(s, comma(before)).tokens) == settled(s) + comma_kind(before),
{
    if before == 0 {
        assert(kinds(s.tokens) =~= settled(s) + comma_kind(before));
    } else {
        lemma_run_one(s, ',');
        lemma_step_punctuator(s, ',');
        assert(settled(s).push(TokenKind::Comma) =~= settled(s) + comma_kind(before));
    }
}

/// Read from between tokens, a keyword is the token in progress.
proof fn lemma_run_keyword(s: Scan, word: Seq<char>)
    requires
        idle(s),
        word == seq!['n', 'u', 'l', 'l'] || word == seq!['t', 'r', 'u', 'e'] || word == seq![
            'f',
            'a',
            'l',
            's',
            'e',
        ],
    ensures
        resting(run(s, word)),
        settled(run(s, word)) == kinds(s.tokens).push(word_kind(word)),
        !number_text(word),
{
    assert forall|i: int| 0 <= i < word.len() implies word_char(#[trigger] word[i]) by {
        assert(i == 0 || i == 1 || i == 2 || i == 3 || i == 4);
    }
    lemma_run_word(s, word);
}

/// Read from between tokens, the text of a well-formed value gives the
/// tokens of the value; its last token may still be in progress.
pub proof fn lemma_run_value(s: Scan, value: JsonView, depth: nat, width: nat)
    requires
        idle(s),
        well_formed(value),
    ensures
        resting(run(s, format_value(value, depth, width))),
        settled(run(s, format_value(value, depth, width))) == kinds(s.tokens) + value_tokens(value),
    decreases value, 1int,
{
    let text = format_value(value, depth, width);
    let before = kinds(s.tokens);
    match value {
        JsonView::Null => {
            lemma_run_keyword(s, text);
            assert(before.push(word_kind(text)) =~= before + value_tokens(value));
        },
        JsonView::Bool(b) => {
            lemma_run_keyword(s, text);
            assert(seq!['t', 'r', 'u', 'e'] != seq!['n', 'u', 'l', 'l']) by {
                assert(seq!['t', 'r', 'u', 'e'][0] != seq!['n', 'u', 'l', 'l'][0]);
            }
            assert(seq!['f', 'a', 'l', 's', 'e'].len() == 5);
            assert(before.push(word_kind(text)) =~= before + value_tokens(value));
        },
        JsonView::Number(number) => {
            lemma_number_is_word(number);
            lemma_run_word(s, number);
            assert(before.push(word_kind(text)) =~= before + value_tokens(value));
        },
        JsonView::String(body) => {
            lemma_run_quoted(s, body);
            assert(before.push(TokenKind::String(body)) =~= before + value_tokens(value));
        },
        JsonView::Array(values) => {
            let inner = format_values(values, depth, width);
            let close = line_break(depth, width);
            lemma_run_concat(s, seq!['['] + inner + close, seq![']']);
            lemma_run_concat(s, seq!['['] + inner, close);
            lemma_run_concat(s, seq!['['], inner);
            lemma_run_one(s, '[');
            lemma_step_punctuator(s, '[');
            let opened = s.step('[');
            lemma_run_values(opened, values, depth, width);
            let filled = run(opened, inner);
            lemma_run_line_break(filled, depth, width);
            let broken = run(filled, close);
            lemma_run_one(broken, ']');
            lemma_step_punctuator(broken, ']');
            assert(settled(s) =~= before);
            assert(settled(broken.step(']')) =~= kinds(broken.step(']').tokens));
            assert(before.push(TokenKind::OpenSquare) + values_tokens(values) =~= before
                + seq![TokenKind::OpenSquare] + values_tokens(values));
            assert((before.push(TokenKind::OpenSquare) + values_tokens(values)).push(
                TokenKind::CloseSquare,
            ) =~= before + value_tokens(value));
        },
        JsonView::Object(members) => {
            let inner = format_members(members, depth, width);
            let close = line_break(depth, width);
            lemma_run_concat(s, seq!['{'] + inner + close, seq!['}']);
            lemma_run_concat(s, seq!['{'] + inner, close);
            lemma_run_concat(s, seq!['{'], inner);
            lemma_run_one(s, '{');
            lemma_step_punctuator(s, '{');
            let opened = s.step('{');
            lemma_run_members(opened, members, depth, width);
            let filled = run(opened, inner);
            lemma_run_line_break(filled, depth, width);
            let broken = run(filled, close);
            lemma_run_one(broken, '}');
            lemma_step_punctuator(broken, '}');
            assert(settled(s) =~= before);
            assert(settled(broken.step('}')) =~= kinds(broken.step('}').tokens));
            assert((before.push(TokenKind::OpenCurly) + members_tokens(members)).push(
                TokenKind::CloseCurly,
            ) =~= before + value_tokens(value));
        },
    }
}

/// Read from between tokens, the text of the values of an array gives
/// their tokens; the last may still be in progress.
pub proof fn lemma_run_values(s: Scan, values: Seq<JsonView>, depth: nat, width: nat)
    requires
        idle(s),
        values_well_formed(values),
    ensures
        resting(run(s, format_values(values, depth, width))),
        values.len() == 0 ==> run(s, format_values(values, depth, width)) == s,
        settled(run(s, format_values(values, depth, width))) == kinds(s.tokens) + values_tokens(
            values,
        ),
    decreases values, 0int,
{
    let before = kinds(s.tokens);
    if values.len() == 0 {
        assert(settled(s) =~= before + values_tokens(values));
    } else {
        let front = values.drop_last();
        let count = (values.len() - 1) as nat;
        let head = format_values(front, depth, width);
        let mark = comma(count);
        let gap = line_break(depth + 1, width);
        let tail = format_value(values.last(), depth + 1, width);
        assert(values_well_formed(front)) by {
            assert forall|i: int| 0 <= i < front.len() implies well_formed(#[trigger] front[i]) by {
                assert(front[i] == values[i]);
            }
        }
        lemma_run_values(s, front, depth, width);
        let s1 = run(s, head);
        lemma_run_comma(s1, count);
        let s2 = run(s1, mark);
        lemma_run_line_break(s2, depth + 1, width);
        let s3 = run(s2, gap);
        assert(well_formed(values.last()));
        lemma_run_value(s3, values.last(), depth + 1, width);
        lemma_run_concat(s, head + mark + gap, tail);
        lemma_run_concat(s, head + mark, gap);
        lemma_run_concat(s, head, mark);
        assert(settled(s2) =~= kinds(s2.tokens));
        assert(settled(s3) =~= kinds(s3.tokens));
        assert(before + values_tokens(front) + comma_kind(count) + value_tokens(values.last())
            =~= before + values_tokens(values));
    }
}

/// Read from between tokens, the text of the members of an object gives
/// their tokens; the last may still be in progress.
pub proof fn lemma_run_members(
    s: Scan,
    members: Seq<(Seq<char>, JsonView)>,
    depth: nat,
    width: nat,
)
    requires
        idle(s),
        members_well_formed(members),
    ensures
        resting(run(s, format_members(members, depth, width))),
        members.len() == 0 ==> run(s, format_members(members, depth, width)) == s,
        settled(run(s, format_members(members, depth, width))) == kinds(s.tokens) + members_tokens(
            members,
        ),
    decreases members, 0int,
{
    let before = kinds(s.tokens);
    if members.len() == 0 {
        assert(settled(s) =~= before + members_tokens(members));
    } else {
        let front = members.drop_last();
        let count = (members.len() - 1) as nat;
        let head = format_members(front, depth, width);
        let mark = comma(count);
        let gap = line_break(depth + 1, width);
        let key = quoted(members.last().0);
        let part = colon(width);
        let tail = format_value(members.last().1, depth + 1, width);
        assert(members_well_formed(front)) by {
            assert forall|i: int| 0 <= i < front.len() implies string_body(
                (#[trigger] front[i]).0,
            ) && well_formed(front[i].1) by {
                assert(front[i] == members[i]);
            }
            assert forall|i: int, j: int| 0 <= i < j < front.len() implies crate::text::text_lt(
                #[trigger] front[i].0,
                #[trigger] front[j].0,
            ) by {
                assert(front[i] == members[i] && front[j] == members[j]);
            }
        }
        lemma_run_members(s, front, depth, width);
        let s1 = run(s, head);
        lemma_run_comma(s1, count);
        let s2 = run(s1, mark);
        lemma_run_line_break(s2, depth + 1, width);
        let s3 = run(s2, gap);
        assert(string_body(members.last().0) && well_formed(members.last().1));
        lemma_run_quoted(s3, members.last().0);
        let s4 = run(s3, key);
        lemma_run_colon(s4, width);
        let s5 = run(s4, part);
        lemma_run_value(s5, members.last().1, depth + 1, width);
        lemma_run_concat(s, head + mark + gap + key + part, tail);
        lemma_run_concat(s, head + mark + gap + key, part);
        lemma_run_concat(s, head + mark + gap, key);
        lemma_run_concat(s, head + mark, gap);
        lemma_run_concat(s, head, mark);
        assert(settled(s2) =~= kinds(s2.tokens));
        assert(settled(s3) =~= kinds(s3.tokens));
        assert(before + members_tokens(front) + comma_kind(count) + seq![
            TokenKind::String(members.last().0),
            TokenKind::Colon,
        ] + value_tokens(members.last().1) =~= before + members_tokens(members));
        assert(kinds(s5.tokens) =~= before + members_tokens(front) + comma_kind(count) + seq![
            TokenKind::String(members.last().0),
            TokenKind::Colon,
        ]);
    }
}

/// Read from between tokens, the colon after a key is its token, and the
/// scan is between tokens again.
proof fn lemma_run_colon(s: Scan, width: nat)
    requires
        idle(s),
    ensures
        idle(run(s, colon(width))),
        kinds(run(s, colon(width)).tokens) == kinds(s.tokens).push(TokenKind::Colon),
{
    lemma_run_one(s, ':');
    lemma_step_punctuator(s, ':');
    assert(settled(s) =~= kinds(s.tokens));
    if width != 0 {
        assert(seq![':', ' '] =~= seq![':'] + seq![' ']);
        lemma_run_concat(s, seq![':'], seq![' ']);
        lemma_run_one(s.step(':'), ' ');
        lemma_step_space(s.step(':'), ' ');
        assert(settled(s.step(':')) =~= kinds(s.step(':').tokens));
    }
}

/// From index `from` on, the tokens have the kinds `expected`.
pub open spec fn reads_as(tokens: Seq<TokenView>, from: int, expected: Seq<TokenKind>) -> bool {
    &&& 0 <= from
    &&& from + expected.len() <= tokens.len()
    &&& forall|j: int| 0 <= j < expected.len() ==> tokens[from + j].kind == #[trigger] expected[j]
}

/// A value is written with at least one token.
pub proof fn lemma_value_tokens_len(value: JsonView)
    ensures
        value_tokens(value).len() >= 1,
{
}

/// The tokens of the first `count` values stand at the front of the
/// tokens of all.
proof fn lemma_values_tokens_front(values: Seq<JsonView>, count: int)
    requires
        0 <= count <= values.len(),
    ensures
        values_tokens(values.take(count)).is_prefix_of(values_tokens(values)),
    decreases values.len(),
{
    if count == values.len() {
        assert(values.take(count) =~= values);
    } else {
        lemma_values_tokens_front(values.drop_last(), count);
        assert(values.drop_last().take(count) =~= values.take(count));
    }
}

/// The tokens of the first `count` members stand at the front of the
/// tokens of all.
proof fn lemma_members_tokens_front(members: Seq<(Seq<char>, JsonView)>, count: int)
    requires
        0 <= count <= members.len(),
    ensures
        members_tokens(members.take(count)).is_prefix_of(members_tokens(members)),
    decreases members.len(),
{
    if count == members.len() {
        assert(members.take(count) =~= members);
    } else {
        lemma_members_tokens_front(members.drop_last(), count);
        assert(members.drop_last().take(count) =~= members.take(count));
    }
}

/// The tokens of the first `count + 1` values are those of the first
/// `count` and then of one more.
proof fn lemma_values_tokens_next(values: Seq<JsonView>, count: int)
    requires
        0 <= count < values.len(),
    ensures
        values_tokens(values.take(count + 1)) == values_tokens(values.take(count)) + comma_kind(
            count as nat,
        ) + value_tokens(values[count]),
{
    assert(values.take(count + 1).drop_last() =~= values.take(count));
}

/// The tokens of the first `count + 1` members are those of the first
/// `count` and then of one more.
proof fn lemma_members_tokens_next(members: Seq<(Seq<char>, JsonView)>, count: int)
    requires
        0 <= count < members.len(),
    ensures
        members_tokens(members.take(count + 1)) == members_tokens(members.take(count))
            + comma_kind(count as nat) + seq![
            TokenKind::String(members[count].0),
            TokenKind::Colon,
        ] + value_tokens(members[count].1),
{
    assert(members.take(count + 1).drop_last() =~= members.take(count));
}

/// The value of what the parser makes of a value without a key.
pub open spec fn parsed(value: JsonView, next: int) -> Result<ContextView, crate::parser::ParseErrorView> {
    Ok(ContextView { key: Seq::empty(), value, next })
}

/// Where the tokens of a well-formed value stand, the parser reads that
/// value and ends right after them.
pub proof fn lemma_parse_value(tokens: Seq<TokenView>, start: int, value: JsonView)
    requires
        well_formed(value),
        reads_as(tokens, start, value_tokens(value)),
    ensures
        value_spec(tokens, start) == parsed(value, start + value_tokens(value).len()),
    decreases value, 1int, 0int,
{
    let expected = value_tokens(value);
    assert(tokens[start + 0].kind == expected[0]);
    match value {
        JsonView::Array(values) => {
            let inner = values_tokens(values);
            let end = start + 1 + inner.len();
            assert(expected.len() == inner.len() + 2);
            assert(tokens[start + (1 + inner.len())].kind == expected[1 + inner.len() as int]);
            assert(token_at(tokens, end) == Some(tokens[end]));
            assert(token_at(tokens, start) == Some(tokens[start]));
            assert(reads_as(tokens, start + 1, inner + seq![TokenKind::CloseSquare])) by {
                let rest = inner + seq![TokenKind::CloseSquare];
                assert forall|j: int| 0 <= j < rest.len() implies tokens[start + 1 + j].kind
                    == #[trigger] rest[j] by {
                    assert(tokens[start + (j + 1)].kind == expected[j + 1]);
                }
            }
            if values.len() == 0 {
                assert(values =~= Seq::empty());
                assert(token_at(tokens, start + 1) == Some(tokens[start + 1]));
                assert(value_spec(tokens, start + 1) is Err);
            } else {
                assert(values.take(0) =~= Seq::empty());
                lemma_parse_values(tokens, start + 1, values, 0);
            }
            let gathered = sequence_spec(tokens, start + 1, ItemsView::Values(Seq::empty()), None);
            assert(gathered == Ok::<(ItemsView, int), crate::parser::ParseErrorView>(
                (ItemsView::Values(values), end),
            ));
        },
        JsonView::Object(members) => {
            let inner = members_tokens(members);
            let end = start + 1 + inner.len();
            assert(expected.len() == inner.len() + 2);
            assert(tokens[start + (1 + inner.len())].kind == expected[1 + inner.len() as int]);
            assert(token_at(tokens, end) == Some(tokens[end]));
            assert(token_at(tokens, start) == Some(tokens[start]));
            assert(reads_as(tokens, start + 1, inner + seq![TokenKind::CloseCurly])) by {
                let rest = inner + seq![TokenKind::CloseCurly];
                assert forall|j: int| 0 <= j < rest.len() implies tokens[start + 1 + j].kind
                    == #[trigger] rest[j] by {
                    assert(tokens[start + (j + 1)].kind == expected[j + 1]);
                }
            }
            if members.len() == 0 {
                assert(members =~= Seq::empty());
                assert(token_at(tokens, start + 1) == Some(tokens[start + 1]));
                assert(member_spec(tokens, start + 1) is Err);
            } else {
                assert(members.take(0) =~= Seq::empty());
                lemma_parse_members(tokens, start + 1, members, 0);
            }
            let gathered = sequence_spec(tokens, start + 1, ItemsView::Members(Seq::empty()), None);
            assert(gathered == Ok::<(ItemsView, int), crate::parser::ParseErrorView>(
                (ItemsView::Members(members), end),
            ));
        },
        _ => {
            assert(token_at(tokens, start) == Some(tokens[start]));
        },
    }
}

/// Where the tokens of the well-formed values of an array stand, followed
/// by the closing bracket, the parser gathers those values: after the
/// first `count` of them it goes on to gather them all.
proof fn lemma_parse_values(tokens: Seq<TokenView>, base: int, values: Seq<JsonView>, count: int)
    requires
        values_well_formed(values),
        0 <= count < values.len(),
        reads_as(tokens, base, values_tokens(values) + seq![TokenKind::CloseSquare]),
    ensures
        sequence_spec(
            tokens,
            base + values_tokens(values.take(count)).len() + comma_kind(count as nat).len(),
            ItemsView::Values(values.take(count)),
            if count == 0 {
                None
            } else {
                Some(base + values_tokens(values.take(count)).len())
            },
        ) == Ok::<(ItemsView, int), crate::parser::ParseErrorView>(
            (ItemsView::Values(values), base + values_tokens(values).len()),
        ),
    decreases values, 0int, values.len() - count,
{
    let all = values_tokens(values);
    let rest = all + seq![TokenKind::CloseSquare];
    let taken = values_tokens(values.take(count));
    let at = base + taken.len() + comma_kind(count as nat).len();
    let element = value_tokens(values[count]);
    let next = at + element.len();
    let last_comma = if count == 0 {
        None
    } else {
        Some(base + taken.len())
    };
    lemma_values_tokens_next(values, count);
    lemma_values_tokens_front(values, count + 1);
    lemma_value_tokens_len(values[count]);
    let more = values_tokens(values.take(count + 1));
    assert(more.len() == taken.len() + comma_kind(count as nat).len() + element.len());
    assert(reads_as(tokens, at, element)) by {
        assert forall|j: int| 0 <= j < element.len() implies tokens[at + j].kind
            == #[trigger] element[j] by {
            let k = at - base + j;
            assert(more[k] == element[j]);
            assert(all[k] == more[k]);
            assert(tokens[base + k].kind == rest[k]);
        }
    }
    assert(well_formed(values[count]));
    lemma_parse_value(tokens, at, values[count]);
    assert(values.take(count).push(values[count]) =~= values.take(count + 1));
    if count + 1 < values.len() {
        lemma_values_tokens_next(values, count + 1);
        lemma_values_tokens_front(values, count + 2);
        let further = values_tokens(values.take(count + 2));
        assert(further[more.len() as int] == TokenKind::Comma);
        assert(all[more.len() as int] == further[more.len() as int]);
        assert(tokens[base + more.len()].kind == rest[more.len() as int]);
        lemma_parse_values(tokens, base, values, count + 1);
    } else {
        assert(values.take(count + 1) =~= values);
        assert(tokens[base + all.len()].kind == rest[all.len() as int]);
    }
}

/// Where the tokens of the well-formed members of an object stand,
/// followed by the closing bracket, the parser gathers those members:
/// after the first `count` of them it goes on to gather them all.
proof fn lemma_parse_members(
    tokens: Seq<TokenView>,
    base: int,
    members: Seq<(Seq<char>, JsonView)>,
    count: int,
)
    requires
        members_well_formed(members),
        0 <= count < members.len(),
        reads_as(tokens, base, members_tokens(members) + seq![TokenKind::CloseCurly]),
    ensures
        sequence_spec(
            tokens,
            base + members_tokens(members.take(count)).len() + comma_kind(count as nat).len(),
            ItemsView::Members(members.take(count)),
            if count == 0 {
                None
            } else {
                Some(base + members_tokens(members.take(count)).len())
            },
        ) == Ok::<(ItemsView, int), crate::parser::ParseErrorView>(
            (ItemsView::Members(members), base + members_tokens(members).len()),
        ),
    decreases members, 0int, members.len() - count,
{
    let all = members_tokens(members);
    let rest = all + seq![TokenKind::CloseCurly];
    let taken = members_tokens(members.take(count));
    let at = base + taken.len() + comma_kind(count as nat).len();
    let key = members[count].0;
    let head = seq![TokenKind::String(key), TokenKind::Colon];
    let element = value_tokens(members[count].1);
    let next = at + 2 + element.len();
    lemma_members_tokens_next(members, count);
    lemma_members_tokens_front(members, count + 1);
    lemma_value_tokens_len(members[count].1);
    let more = members_tokens(members.take(count + 1));
    assert(more.len() == taken.len() + comma_kind(count as nat).len() + 2 + element.len());
    assert forall|k: int| 0 <= k < more.len() implies tokens[base + k].kind == more[k] by {
        assert(all[k] == more[k]);
        assert(tokens[base + k].kind == rest[k]);
    }
    assert(tokens[at].kind == TokenKind::String(key)) by {
        assert(more[at - base] == head[0]);
        assert(tokens[base + (at - base)].kind == more[at - base]);
    }
    assert(tokens[at + 1].kind == TokenKind::Colon) by {
        assert(more[at - base + 1] == head[1]);
        assert(tokens[base + (at - base + 1)].kind == more[at - base + 1]);
    }
    assert(reads_as(tokens, at + 2, element)) by {
        assert forall|j: int| 0 <= j < element.len() implies tokens[at + 2 + j].kind
            == #[trigger] element[j] by {
            let k = at - base + 2 + j;
            assert(more[k] == element[j]);
            assert(tokens[base + k].kind == more[k]);
        }
    }
    assert(string_body(key) && well_formed(members[count].1));
    lemma_parse_value(tokens, at + 2, members[count].1);
    assert(member_spec(tokens, at) == Ok::<ContextView, crate::parser::ParseErrorView>(
        ContextView { key, value: members[count].1, next },
    ));
    let before = members.take(count);
    assert(!has_key(before, key)) by {
        if has_key(before, key) {
            let i = choose|i: int| 0 <= i < before.len() && (#[trigger] before[i]).0 == key;
            assert(before[i] == members[i]);
            assert(crate::text::text_lt(members[i].0, members[count].0));
            crate::text::lemma_text_lt_irreflexive(key);
        }
    }
    assert(put(before, key, members[count].1) =~= members.take(count + 1)) by {
        assert forall|i: int| 0 <= i < before.len() implies crate::text::text_lt(
            (#[trigger] before[i]).0,
            key,
        ) by {
            assert(before[i] == members[i]);
            assert(crate::text::text_lt(members[i].0, members[count].0));
        }
        lemma_rank_is(before, key, count);
    }
    if count + 1 < members.len() {
        lemma_members_tokens_next(members, count + 1);
        lemma_members_tokens_front(members, count + 2);
        let further = members_tokens(members.take(count + 2));
        assert(further[more.len() as int] == TokenKind::Comma);
        assert(all[more.len() as int] == further[more.len() as int]);
        assert(tokens[base + more.len()].kind == rest[more.len() as int]);
        lemma_parse_members(tokens, base, members, count + 1);
    } else {
        assert(members.take(count + 1) =~= members);
        assert(tokens[base + all.len()].kind == rest[all.len() as int]);
    }
}

/// The text of a well-formed value has the tokens of the value.
pub proof fn lemma_lex_formatted(value: JsonView, width: nat)
    requires
        well_formed(value),
    ensures
        kinds(lex_spec(format_spec(value, width))) == value_tokens(value),
{
    let text = format_spec(value, width);
    lemma_scan_is_run(text);
    lemma_run_value(Scan::start(), value, 0, width);
    assert(kinds(Scan::start().tokens) + value_tokens(value) =~= value_tokens(value));
}

/// Writing a well-formed value and reading the text back gives the value
/// back, whatever the indent width.
pub proof fn lemma_format_then_parse(value: JsonView, width: nat)
    requires
        well_formed(value),
    ensures
        parse_spec(lex_spec(format_spec(value, width))) == Ok::<
            JsonView,
            crate::parser::ParseErrorView,
        >(value),
{
    let tokens = lex_spec(format_spec(value, width));
    lemma_lex_formatted(value, width);
    assert(reads_as(tokens, 0, value_tokens(value))) by {
        assert forall|j: int| 0 <= j < value_tokens(value).len() implies tokens[0 + j].kind
            == #[trigger] value_tokens(value)[j] by {
            assert(kinds(tokens)[j] == tokens[j].kind);
        }
    }
    lemma_parse_value(tokens, 0, value);
}

/// The round trip: where a text parses to a value, the text of that value
/// at any indent width parses to the same value again, so that writing it
/// once more, at width zero, gives the same text as writing the value at
/// width zero.
pub proof fn lemma_round_trip(text: Seq<char>, width: nat)
    ensures
        parse_spec(lex_spec(text)) matches Ok(value) ==> {
            &&& parse_spec(lex_spec(format_spec(value, width))) == Ok::<
                JsonView,
                crate::parser::ParseErrorView,
            >(value)
            &&& format_spec(parse_spec(lex_spec(format_spec(value, width)))->Ok_0, 0)
                == format_spec(value, 0)
        },
{
    if let Ok(value) = parse_spec(lex_spec(text)) {
        lemma_lex_clean(text);
        lemma_parse_well_formed(lex_spec(text));
        lemma_format_then_parse(value, width);
    }
}

} // verus!
