//! Showing where in a text an error was found: the line, and a caret under
//! the column.

use crate::diagnostic::{get_message, message_spec};
use crate::formatter::spaces;
use crate::parser::{ParseError, ParseErrorView};
use crate::text::char_limit;
use vstd::prelude::*;
use vstd::string::StrSliceExecFns;
use vstd::string::StringExecFns;

verus! {

/// The number of characters before the first line break of `text`, or all
/// of them where it has none.
pub open spec fn line_len(text: Seq<char>) -> int
    decreases text.len(),
{
    if text.len() == 0 || text[0] == '\n' {
        0
    } else {
        1 + line_len(text.drop_first())
    }
}

/// Line `n` of `text`, counted from zero, without its line break. A line
/// ends at a line break or at the end of the text; after the last line
/// break no empty line follows.
pub open spec fn get_line_spec(text: Seq<char>, n: nat) -> Option<Seq<char>>
    decreases text.len(),
{
    if text.len() == 0 {
        None
    } else if n == 0 {
        Some(text.take(line_len(text)))
    } else if 0 <= line_len(text) < text.len() {
        get_line_spec(text.skip(line_len(text) + 1), (n - 1) as nat)
    } else {
        None
    }
}

/// Where no line break stands before index `end`, and one stands at `end`
/// or the text ends there, the first line is `end` characters long.
proof fn lemma_line_len_is(text: Seq<char>, end: int)
    requires
        0 <= end <= text.len(),
        forall|i: int| 0 <= i < end ==> text[i] != '\n',
        end < text.len() ==> text[end] == '\n',
    ensures
        line_len(text) == end,
    decreases text.len(),
{
    if end > 0 {
        lemma_line_len_is(text.drop_first(), end - 1);
    }
}

/// Line `line_number` of `content`, counted from zero.
pub fn get_line(content: &str, line_number: usize) -> (line: Option<&str>)
    ensures
        match line {
            Some(text) => get_line_spec(content@, line_number as nat) == Some(text@),
            None => get_line_spec(content@, line_number as nat) is None,
        },
{
    broadcast use vstd::string::group_string_axioms;

    let limit = char_limit(content);
    let mut line_no: usize = 0;
    let mut start: usize = 0;
    let mut at: usize = 0;
    assert(content@.skip(0) =~= content@);
    for c in it: content.chars()
        invariant
            it.seq() == content@,
            content@.len() <= limit,
            at == it.index(),
            line_no <= line_number,
            line_no <= start <= at,
            forall|i: int| start <= i < at ==> content@[i] != '\n',
            get_line_spec(content@, line_number as nat) == get_line_spec(
                content@.skip(start as int),
                (line_number - line_no) as nat,
            ),
    {
        if c == '\n' {
            proof {
                lemma_line_len_is(content@.skip(start as int), at - start);
                assert(content@.skip(start as int).skip(at - start + 1) =~= content@.skip(at + 1));
                assert(content@.skip(start as int).take(at - start) =~= content@.subrange(
                    start as int,
                    at as int,
                ));
            }
            if line_no == line_number {
                return Some(content.substring_char(start, at));
            }
            line_no += 1;
            start = at + 1;
        }
        at += 1;
    }
    proof {
        lemma_line_len_is(content@.skip(start as int), at - start);
        assert(content@.skip(start as int).take(at - start) =~= content@.subrange(
            start as int,
            at as int,
        ));
    }
    if line_no == line_number && start < at {
        Some(content.substring_char(start, at))
    } else {
        None
    }
}

/// The line under a source line that points at column `col`: `col`
/// spaces, then a caret.
pub open spec fn caret_spec(col: nat) -> Seq<char> {
    spaces(col).push('^')
}

/// Line `line` of `text` and the caret line for column `col`, or nothing
/// where the text has no such line.
pub open spec fn render_location_spec(text: Seq<char>, line: nat, col: nat) -> Option<
    (Seq<char>, Seq<char>),
> {
    match get_line_spec(text, line) {
        Some(source) => Some((source, caret_spec(col))),
        None => None,
    }
}

/// The line that points at column `col`.
fn caret(col: usize) -> (line: String)
    ensures
        line@ == caret_spec(col as nat),
{
    let mut line = String::new();
    let mut count: usize = 0;
    while count < col
        invariant
            count <= col,
            line@ == spaces(count as nat),
        decreases col - count,
    {
        proof {
            reveal_strlit(" ");
        }
        line.append(" ");
        count += 1;
        assert(line@ =~= spaces(count as nat));
    }
    proof {
        reveal_strlit("^");
    }
    line.append("^");
    assert(line@ =~= caret_spec(col as nat));
    line
}

/// The source line `line` of `text`, and under it the line that points at
/// column `col`. Nothing where `text` has no line `line`.
pub fn render_location<'a>(text: &'a str, line: usize, col: usize) -> (rendered: Option<
    (&'a str, String),
>)
    ensures
        match rendered {
            Some((source, pointer)) => render_location_spec(text@, line as nat, col as nat) == Some(
                (source@, pointer@),
            ),
            None => render_location_spec(text@, line as nat, col as nat) is None,
        },
{
    match get_line(text, line) {
        Some(source) => Some((source, caret(col))),
        None => None,
    }
}

/// The decimal digit for a number below ten.
pub open spec fn digit_char(d: nat) -> char {
    if d == 0 {
        '0'
    } else if d == 1 {
        '1'
    } else if d == 2 {
        '2'
    } else if d == 3 {
        '3'
    } else if d == 4 {
        '4'
    } else if d == 5 {
        '5'
    } else if d == 6 {
        '6'
    } else if d == 7 {
        '7'
    } else if d == 8 {
        '8'
    } else {
        '9'
    }
}

/// A number in decimal digits, without leading zeros.
pub open spec fn decimal_spec(n: nat) -> Seq<char>
    decreases n,
{
    if n < 10 {
        seq![digit_char(n)]
    } else {
        decimal_spec(n / 10).push(digit_char(n % 10))
    }
}

/// Appends `n` in decimal digits.
fn push_decimal(out: &mut String, n: u128)
    ensures
        final(out)@ == old(out)@ + decimal_spec(n as nat),
    decreases n,
{
    if n >= 10 {
        push_decimal(out, n / 10);
    }
    let d = n % 10;
    let c = if d == 0 {
        '0'
    } else if d == 1 {
        '1'
    } else if d == 2 {
        '2'
    } else if d == 3 {
        '3'
    } else if d == 4 {
        '4'
    } else if d == 5 {
        '5'
    } else if d == 6 {
        '6'
    } else if d == 7 {
        '7'
    } else if d == 8 {
        '8'
    } else {
        '9'
    };
    out.push(c);
    assert(out@ =~= old(out)@ + decimal_spec(n as nat));
}

/// The first line of a report: the file and, where the error has a token,
/// the line and the column of the token, both counted from one.
pub open spec fn heading_spec(error: ParseErrorView, file_path: Seq<char>) -> Seq<char> {
    match error.token {
        Some(token) => "At "@ + file_path + ":"@ + decimal_spec(token.line + 1) + ":"@
            + decimal_spec(token.col + 1),
        None => "At "@ + file_path,
    }
}

/// The lines that tell of a parse error in the text `content` of the file
/// `file_path`: the heading; where the error has a token whose line the
/// text has, that line and a caret under the token; and the message.
pub open spec fn report_spec(error: ParseErrorView, content: Seq<char>, file_path: Seq<char>) -> Seq<
    Seq<char>,
> {
    let located = match error.token {
        Some(token) => match render_location_spec(content, token.line, token.col) {
            Some((source, pointer)) => seq![source, pointer],
            None => Seq::empty(),
        },
        None => Seq::empty(),
    };
    seq![heading_spec(error, file_path)] + located + seq![message_spec(error)]
}

/// The texts of a sequence of strings, one by one.
pub open spec fn line_views(lines: Seq<String>) -> Seq<Seq<char>> {
    Seq::new(lines.len(), |i: int| lines[i]@)
}

/// The lines of the report on `parse_error`, which was found in the text
/// `content` of the file `file_path`.
pub fn report_parse_error(parse_error: &ParseError, content: &str, file_path: &str) -> (lines: Vec<
    String,
>)
    ensures
        line_views(lines@) == report_spec(parse_error@, content@, file_path@),
{
    let mut lines: Vec<String> = Vec::new();
    let mut heading = String::from_str("At ");
    heading.append(file_path);
    match parse_error.token {
        Some(token) => {
            heading.append(":");
            push_decimal(&mut heading, token.line as u128 + 1);
            heading.append(":");
            push_decimal(&mut heading, token.col as u128 + 1);
            lines.push(heading);
            match render_location(content, token.line, token.col) {
                Some((source, pointer)) => {
                    lines.push(String::from_str(source));
                    lines.push(pointer);
                },
                None => {},
            }
        },
        None => {
            lines.push(heading);
        },
    }
    lines.push(get_message(parse_error));
    assert(line_views(lines@) =~= report_spec(parse_error@, content@, file_path@));
    lines
}

} // verus!
