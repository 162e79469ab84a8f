//! The place that a token carries is the place of its first character in
//! the text, and the text holds the token there.

use crate::diagnostic::kind_text;
use crate::formatter::quoted;
use crate::lexer::{lex_spec, scan, word_kind, Mode, Scan, TokenKind, TokenView};
use crate::pretty::{get_line_spec, line_len};
use crate::text::punctuator;
use vstd::prelude::*;

verus! {

/// The line of the character at index `i`: the number of line breaks
/// before it.
pub open spec fn line_of(text: Seq<char>, i: int) -> nat
    decreases i,
{
    if i <= 0 {
        0
    } else if text[i - 1] == '\n' {
        line_of(text, i - 1) + 1
    } else {
        line_of(text, i - 1)
    }
}

/// The column of the character at index `i`: the number of characters
/// between it and the line break before it, or the start of the text.
pub open spec fn col_of(text: Seq<char>, i: int) -> nat
    decreases i,
{
    if i <= 0 {
        0
    } else if text[i - 1] == '\n' {
        0
    } else {
        col_of(text, i - 1) + 1
    }
}

/// The token stands in the text at index `i`: there the text reads as the
/// token is written, and the token carries the line and the column of that
/// index.
pub open spec fn stands_at(text: Seq<char>, token: TokenView, i: int) -> bool {
    &&& 0 <= i
    &&& i + kind_text(token.kind).len() <= text.len()
    &&& token.line == line_of(text, i)
    &&& token.col == col_of(text, i)
    &&& text.subrange(i, i + kind_text(token.kind).len()) == kind_text(token.kind)
}

/// The token stands somewhere in the text.
pub open spec fn located(text: Seq<char>, token: TokenView) -> bool {
    exists|i: int| stands_at(text, token, i)
}

/// A bare word is written as it was read.
proof fn lemma_word_text(word: Seq<char>)
    ensures
        kind_text(word_kind(word)) == word,
{
    reveal_strlit("null");
    reveal_strlit("true");
    reveal_strlit("false");
    match word_kind(word) {
        TokenKind::Null => {
            assert("null"@ =~= word);
        },
        TokenKind::Bool(b) => {
            if b {
                assert("true"@ =~= word);
            } else {
                assert("false"@ =~= word);
            }
        },
        _ => {},
    }
}

/// A structural character is written as itself.
proof fn lemma_punctuator_text(c: char)
    requires
        punctuator(c),
    ensures
        kind_text(crate::lexer::punctuator_kind(c)) == seq![c],
{
    reveal_strlit("{");
    reveal_strlit("}");
    reveal_strlit("[");
    reveal_strlit("]");
    reveal_strlit(":");
    reveal_strlit(",");
    assert(kind_text(crate::lexer::punctuator_kind(c)) =~= seq![c]);
}

/// What holds of the scan after the first `n` characters of `text`: it is
/// at the place of index `n`; each token emitted stands in the text; the
/// token in progress is the text from where it began up to index `n`.
pub open spec fn placed(text: Seq<char>, n: int, s: Scan) -> bool {
    &&& s.line == line_of(text, n)
    &&& s.col == col_of(text, n)
    &&& forall|k: int| 0 <= k < s.tokens.len() ==> located(text, #[trigger] s.tokens[k])
    &&& s.mode == Mode::Word ==> {
        let from = n - s.pending.len();
        &&& s.pending.len() >= 1
        &&& 0 <= from
        &&& s.pending == text.subrange(from, n)
        &&& s.start_line == line_of(text, from)
        &&& s.start_col == col_of(text, from)
    }
    &&& s.mode == Mode::Quoted ==> {
        let from = n - s.pending.len() - 1;
        &&& 0 <= from
        &&& text[from] == '"'
        &&& s.pending == text.subrange(from + 1, n)
        &&& s.start_line == line_of(text, from)
        &&& s.start_col == col_of(text, from)
    }
}

/// Reading the character at index `n` keeps the scan placed.
proof fn lemma_step_placed(text: Seq<char>, n: int, s: Scan)
    requires
        0 <= n < text.len(),
        placed(text, n, s),
    ensures
        placed(text, n + 1, s.step(text[n])),
{
    let c = text[n];
    let after = s.step(c);
    let quote = c == '"' && !s.escape;
    assert forall|k: int| 0 <= k < after.tokens.len() implies located(
        text,
        #[trigger] after.tokens[k],
    ) by {
        if k < s.tokens.len() {
            assert(after.tokens[k] == s.tokens[k]);
        } else {
            let token = after.tokens[k];
            if s.mode == Mode::Quoted {
                let from = n - s.pending.len() - 1;
                assert(text.subrange(from, n + 1) =~= quoted(s.pending));
                assert(stands_at(text, token, from));
            } else if punctuator(c) && k == after.tokens.len() - 1 {
                lemma_punctuator_text(c);
                assert(text.subrange(n, n + 1) =~= seq![c]);
                assert(stands_at(text, token, n));
            } else {
                let from = n - s.pending.len();
                lemma_word_text(s.pending);
                assert(stands_at(text, token, from));
            }
        }
    }
    if after.mode == Mode::Word {
        if s.mode == Mode::Word {
            assert(after.pending =~= text.subrange(n - s.pending.len(), n + 1));
        } else {
            assert(after.pending =~= text.subrange(n, n + 1));
        }
    }
    if after.mode == Mode::Quoted {
        if s.mode == Mode::Quoted {
            assert(after.pending =~= text.subrange(n - s.pending.len(), n + 1));
        } else {
            assert(after.pending =~= text.subrange(n + 1, n + 1));
        }
    }
}

/// The scan is placed after every prefix of the text.
proof fn lemma_scan_placed(text: Seq<char>, n: int)
    requires
        0 <= n <= text.len(),
    ensures
        placed(text, n, scan(text.take(n))),
    decreases n,
{
    if n > 0 {
        lemma_scan_placed(text, n - 1);
        assert(text.take(n).drop_last() =~= text.take(n - 1));
        lemma_step_placed(text, n - 1, scan(text.take(n - 1)));
    }
}

/// Every token of a text stands in the text: at the place that the token
/// carries, the text reads as the token is written.
pub proof fn lemma_tokens_located(text: Seq<char>)
    ensures
        forall|k: int| 0 <= k < lex_spec(text).len() ==> located(text, #[trigger] lex_spec(text)[k]),
{
    let n = text.len() as int;
    lemma_scan_placed(text, n);
    assert(text.take(n) =~= text);
    let s = scan(text);
    assert forall|k: int| 0 <= k < lex_spec(text).len() implies located(
        text,
        #[trigger] lex_spec(text)[k],
    ) by {
        if k < s.tokens.len() {
            assert(lex_spec(text)[k] == s.tokens[k]);
        } else {
            lemma_word_text(s.pending);
            assert(stands_at(text, lex_spec(text)[k], n - s.pending.len()));
        }
    }
}

/// No line break stands within the first line.
proof fn lemma_first_line(text: Seq<char>, i: int)
    requires
        0 <= i < line_len(text),
    ensures
        i < text.len(),
        text[i] != '\n',
    decreases text.len(),
{
    if i > 0 {
        lemma_first_line(text.drop_first(), i - 1);
    }
}

/// The first line ends within the text, at a line break or at the end.
proof fn lemma_line_end(text: Seq<char>)
    ensures
        0 <= line_len(text) <= text.len(),
        line_len(text) < text.len() ==> text[line_len(text)] == '\n',
    decreases text.len(),
{
    if text.len() > 0 && text[0] != '\n' {
        lemma_line_end(text.drop_first());
    }
}

/// Within the first line, the line is line zero and the column is the
/// index.
proof fn lemma_place_in_first_line(text: Seq<char>, i: int)
    requires
        0 <= i <= line_len(text),
    ensures
        line_of(text, i) == 0,
        col_of(text, i) == i,
    decreases i,
{
    if i > 0 {
        lemma_first_line(text, i - 1);
        lemma_place_in_first_line(text, i - 1);
    }
}

/// Behind the first line, places are those in the rest of the text, one
/// line further down.
proof fn lemma_place_behind_first_line(text: Seq<char>, j: int)
    requires
        line_len(text) < text.len(),
        0 <= j <= text.len() - line_len(text) - 1,
    ensures
        line_of(text, line_len(text) + 1 + j) == line_of(text.skip(line_len(text) + 1), j) + 1,
        col_of(text, line_len(text) + 1 + j) == col_of(text.skip(line_len(text) + 1), j),
    decreases j,
{
    let end = line_len(text);
    lemma_line_end(text);
    if j == 0 {
        lemma_place_in_first_line(text, end);
    } else {
        lemma_place_behind_first_line(text, j - 1);
        assert(text.skip(end + 1)[j - 1] == text[end + 1 + j - 1]);
    }
}

/// The line of a character is a line of the text, and holds the character
/// at its column.
pub proof fn lemma_line_holds(text: Seq<char>, i: int)
    requires
        0 <= i < text.len(),
        text[i] != '\n',
    ensures
        get_line_spec(text, line_of(text, i)) is Some,
        col_of(text, i) < get_line_spec(text, line_of(text, i))->0.len(),
        get_line_spec(text, line_of(text, i))->0[col_of(text, i) as int] == text[i],
    decreases text.len(),
{
    let end = line_len(text);
    lemma_line_end(text);
    if i < end {
        lemma_place_in_first_line(text, i);
    } else {
        let rest = text.skip(end + 1);
        let j = i - end - 1;
        lemma_place_behind_first_line(text, j);
        assert(rest[j] == text[i]);
        lemma_line_holds(rest, j);
    }
}

/// The first character of each token of a text stands, in the line that
/// the token carries, at the column that the token carries: so the caret
/// under that line points at the token.
pub proof fn lemma_token_in_its_line(text: Seq<char>, k: int)
    requires
        0 <= k < lex_spec(text).len(),
    ensures
        kind_text(lex_spec(text)[k].kind).len() > 0,
        get_line_spec(text, lex_spec(text)[k].line) is Some,
        lex_spec(text)[k].col < get_line_spec(text, lex_spec(text)[k].line)->0.len(),
        get_line_spec(text, lex_spec(text)[k].line)->0[lex_spec(text)[k].col as int] == kind_text(
            lex_spec(text)[k].kind,
        )[0],
{
    let token = lex_spec(text)[k];
    lemma_tokens_located(text);
    let i = choose|i: int| stands_at(text, token, i);
    let written = kind_text(token.kind);
    assert(written.len() > 0 && written[0] != '\n') by {
        lemma_written(text, k);
    }
    assert(text.subrange(i, i + written.len())[0] == text[i]);
    lemma_line_holds(text, i);
}

/// A token of a text is written with at least one character, the first of
/// which is no line break.
proof fn lemma_written(text: Seq<char>, k: int)
    requires
        0 <= k < lex_spec(text).len(),
    ensures
        kind_text(lex_spec(text)[k].kind).len() > 0,
        kind_text(lex_spec(text)[k].kind)[0] != '\n',
{
    let token = lex_spec(text)[k];
    reveal_strlit("null");
    reveal_strlit("true");
    reveal_strlit("false");
    reveal_strlit("{");
    reveal_strlit("}");
    reveal_strlit("[");
    reveal_strlit("]");
    reveal_strlit(":");
    reveal_strlit(",");
    lemma_words_begin(text, text.len() as int);
    assert(text.take(text.len() as int) =~= text);
    let s = scan(text);
    if k < s.tokens.len() {
        assert(lex_spec(text)[k] == s.tokens[k]);
    }
    match token.kind {
        TokenKind::String(body) => {
            assert(quoted(body)[0] == '"');
        },
        _ => {},
    }
}

/// A word token begins with a character that is no line break.
pub open spec fn begins_well(kind: TokenKind) -> bool {
    match kind {
        TokenKind::Number(word) => word.len() > 0 && word[0] != '\n',
        TokenKind::Invalid(word) => word.len() > 0 && word[0] != '\n',
        _ => true,
    }
}

/// Every word that the scan emits or has in progress begins well.
proof fn lemma_words_begin(text: Seq<char>, n: int)
    requires
        0 <= n <= text.len(),
    ensures
        forall|k: int|
            0 <= k < scan(text.take(n)).tokens.len() ==> begins_well(
                (#[trigger] scan(text.take(n)).tokens[k]).kind,
            ),
        scan(text.take(n)).mode == Mode::Word ==> scan(text.take(n)).pending.len() > 0 && scan(
            text.take(n),
        ).pending[0] != '\n',
    decreases n,
{
    if n > 0 {
        lemma_words_begin(text, n - 1);
        assert(text.take(n).drop_last() =~= text.take(n - 1));
        let s = scan(text.take(n - 1));
        let after = scan(text.take(n));
        assert forall|k: int| 0 <= k < after.tokens.len() implies begins_well(
            (#[trigger] after.tokens[k]).kind,
        ) by {
            if k < s.tokens.len() {
                assert(after.tokens[k] == s.tokens[k]);
            }
        }
    }
}

} // verus!
