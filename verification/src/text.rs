//! Characters and texts: the character classes the lexer tells apart, the
//! grammar of number literals, and the order in which object keys are kept.

use vstd::prelude::*;
use vstd::std_specs::iter::IteratorSpec;

verus! {

/// The characters with the Unicode property `White_Space`.
pub open spec fn white_space(c: char) -> bool {
    ||| '\u{9}' <= c <= '\u{d}'
    ||| c == ' '
    ||| c == '\u{85}'
    ||| c == '\u{a0}'
    ||| c == '\u{1680}'
    ||| '\u{2000}' <= c <= '\u{200a}'
    ||| c == '\u{2028}'
    ||| c == '\u{2029}'
    ||| c == '\u{202f}'
    ||| c == '\u{205f}'
    ||| c == '\u{3000}'
}

/// `char::is_whitespace` answers whether the character has the Unicode
/// property `White_Space`. The contract spells that property out as the
/// code points which the Unicode Character Database lists for it; it is
/// taken on trust, not proved.
pub assume_specification[ char::is_whitespace ](c: char) -> (b: bool)
    ensures
        b == white_space(c),
;

/// `String::push` appends one character to the end of the string. Taken on
/// trust, not proved.
pub assume_specification[ std::string::String::push ](s: &mut std::string::String, ch: char)
    ensures
        final(s)@ == old(s)@.push(ch),
;

/// The six structural characters of JSON.
pub open spec fn punctuator(c: char) -> bool {
    c == '{' || c == '}' || c == '[' || c == ']' || c == ':' || c == ','
}

/// A decimal digit.
pub open spec fn digit(c: char) -> bool {
    '0' <= c <= '9'
}

/// A sign that may open a number or an exponent.
pub open spec fn sign(c: char) -> bool {
    c == '+' || c == '-'
}

/// The index at which the run of digits that starts at `from` ends.
pub open spec fn digits_end(s: Seq<char>, from: int) -> int
    decreases s.len() - from,
{
    if 0 <= from < s.len() && digit(s[from]) {
        digits_end(s, from + 1)
    } else {
        from
    }
}

/// `c` is the letter given in lower case as `small` and in upper case as
/// `capital`.
pub open spec fn letter(c: char, small: char, capital: char) -> bool {
    c == small || c == capital
}

/// From index `from` on, `s` reads `inf`, in any letter case.
pub open spec fn reads_inf(s: Seq<char>, from: int) -> bool {
    &&& s.len() == from + 3
    &&& letter(s[from], 'i', 'I')
    &&& letter(s[from + 1], 'n', 'N')
    &&& letter(s[from + 2], 'f', 'F')
}

/// From index `from` on, `s` reads `infinity`, in any letter case.
pub open spec fn reads_infinity(s: Seq<char>, from: int) -> bool {
    &&& s.len() == from + 8
    &&& letter(s[from], 'i', 'I')
    &&& letter(s[from + 1], 'n', 'N')
    &&& letter(s[from + 2], 'f', 'F')
    &&& letter(s[from + 3], 'i', 'I')
    &&& letter(s[from + 4], 'n', 'N')
    &&& letter(s[from + 5], 'i', 'I')
    &&& letter(s[from + 6], 't', 'T')
    &&& letter(s[from + 7], 'y', 'Y')
}

/// From index `from` on, `s` reads `nan`, in any letter case.
pub open spec fn reads_nan(s: Seq<char>, from: int) -> bool {
    &&& s.len() == from + 3
    &&& letter(s[from], 'n', 'N')
    &&& letter(s[from + 1], 'a', 'A')
    &&& letter(s[from + 2], 'n', 'N')
}

/// `s`, from index `from` on, is `Digit* ('.' Digit*)? Exponent?` with at
/// least one digit before the exponent, where `Exponent` is
/// `('e' | 'E') Sign? Digit+`.
pub open spec fn decimal_from(s: Seq<char>, from: int) -> bool {
    let whole = digits_end(s, from);
    let dotted = whole < s.len() && s[whole] == '.';
    let mantissa = if dotted {
        digits_end(s, whole + 1)
    } else {
        whole
    };
    let digits = if dotted {
        mantissa - from - 1
    } else {
        mantissa - from
    };
    &&& digits >= 1
    &&& mantissa == s.len() || {
        let exponent = if mantissa + 1 < s.len() && sign(s[mantissa + 1]) {
            mantissa + 2
        } else {
            mantissa + 1
        };
        &&& s[mantissa] == 'e' || s[mantissa] == 'E'
        &&& exponent < s.len()
        &&& digits_end(s, exponent) == s.len()
    }
}

/// The texts that the lexer takes for numbers:
///
/// ```text
/// Number   ::= Sign? ( 'inf' | 'infinity' | 'nan' | Decimal )
/// Decimal  ::= ( Digit+ | Digit+ '.' Digit* | Digit* '.' Digit+ ) Exponent?
/// Exponent ::= ( 'e' | 'E' ) Sign? Digit+
/// Sign     ::= '+' | '-'
/// ```
///
/// The three names are read without regard to letter case.
pub open spec fn number_text(s: Seq<char>) -> bool {
    let from = if s.len() > 0 && sign(s[0]) {
        1int
    } else {
        0int
    };
    ||| reads_inf(s, from)
    ||| reads_infinity(s, from)
    ||| reads_nan(s, from)
    ||| decimal_from(s, from)
}

fn is_letter(c: char, small: char, capital: char) -> (r: bool)
    ensures
        r == letter(c, small, capital),
{
    c == small || c == capital
}

fn is_digit(c: char) -> (r: bool)
    ensures
        r == digit(c),
{
    '0' <= c && c <= '9'
}

fn is_sign(c: char) -> (r: bool)
    ensures
        r == sign(c),
{
    c == '+' || c == '-'
}

/// Walks over the digits that start at `from`.
fn skip_digits(word: &Vec<char>, from: usize) -> (end: usize)
    requires
        from <= word.len(),
    ensures
        end == digits_end(word@, from as int),
        from <= end <= word.len(),
{
    let mut i = from;
    while i < word.len() && is_digit(word[i])
        invariant
            from <= i <= word.len(),
            digits_end(word@, from as int) == digits_end(word@, i as int),
        decreases word.len() - i,
    {
        i += 1;
    }
    i
}

fn is_decimal_from(word: &Vec<char>, from: usize) -> (r: bool)
    requires
        from <= word.len(),
    ensures
        r == decimal_from(word@, from as int),
{
    let n = word.len();
    let whole = skip_digits(word, from);
    let dotted = whole < n && word[whole] == '.';
    let mantissa = if dotted {
        skip_digits(word, whole + 1)
    } else {
        whole
    };
    let digits = if dotted {
        mantissa - from - 1
    } else {
        mantissa - from
    };
    if digits < 1 {
        return false;
    }
    if mantissa == n {
        return true;
    }
    if !is_letter(word[mantissa], 'e', 'E') {
        return false;
    }
    let exponent = if mantissa + 1 < n && is_sign(word[mantissa + 1]) {
        mantissa + 2
    } else {
        mantissa + 1
    };
    if exponent >= n {
        return false;
    }
    skip_digits(word, exponent) == n
}

fn is_name_from(word: &Vec<char>, from: usize) -> (r: bool)
    requires
        from <= word.len(),
    ensures
        r == (reads_inf(word@, from as int) || reads_infinity(word@, from as int) || reads_nan(
            word@,
            from as int,
        )),
{
    let n = word.len() - from;
    if n == 3 {
        (is_letter(word[from], 'i', 'I') && is_letter(word[from + 1], 'n', 'N') && is_letter(
            word[from + 2],
            'f',
            'F',
        )) || (is_letter(word[from], 'n', 'N') && is_letter(word[from + 1], 'a', 'A') && is_letter(
            word[from + 2],
            'n',
            'N',
        ))
    } else if n == 8 {
        is_letter(word[from], 'i', 'I') && is_letter(word[from + 1], 'n', 'N') && is_letter(
            word[from + 2],
            'f',
            'F',
        ) && is_letter(word[from + 3], 'i', 'I') && is_letter(word[from + 4], 'n', 'N')
            && is_letter(word[from + 5], 'i', 'I') && is_letter(word[from + 6], 't', 'T')
            && is_letter(word[from + 7], 'y', 'Y')
    } else {
        false
    }
}

/// Whether `word` is a number literal.
pub fn is_number(word: &Vec<char>) -> (r: bool)
    ensures
        r == number_text(word@),
{
    let from: usize = if word.len() > 0 && is_sign(word[0]) {
        1
    } else {
        0
    };
    is_name_from(word, from) || is_decimal_from(word, from)
}

/// Each character takes at least one byte in UTF-8.
proof fn lemma_encoding_len(chars: Seq<char>)
    ensures
        chars.len() <= vstd::utf8::encode_utf8(chars).len(),
    decreases chars.len(),
{
    if chars.len() > 0 {
        lemma_encoding_len(chars.drop_first());
    }
}

/// The number of bytes that `s` takes in UTF-8, which the number of its
/// characters does not exceed.
pub fn char_limit(s: &str) -> (limit: usize)
    ensures
        limit == vstd::utf8::encode_utf8(s@).len(),
        s@.len() <= limit,
{
    proof {
        lemma_encoding_len(s@);
    }
    s.as_bytes().len()
}

/// Copies characters into a fresh `String`.
pub fn string_of(chars: &Vec<char>) -> (s: String)
    ensures
        s@ == chars@,
{
    let mut s = String::new();
    let mut i: usize = 0;
    while i < chars.len()
        invariant
            i <= chars.len(),
            s@ == chars@.take(i as int),
        decreases chars.len() - i,
    {
        s.push(chars[i]);
        i += 1;
        assert(chars@.take(i as int) =~= chars@.take(i - 1).push(chars@[i - 1]));
    }
    assert(chars@.take(i as int) =~= chars@);
    s
}

/// How one text stands to another.
#[derive(Debug, PartialEq, Eq, Clone, Copy)]
pub enum Order {
    Less,
    Equal,
    Greater,
}

/// `a` comes before `b`: at the first place where they differ `a` has the
/// smaller character, or `a` ends there and `b` goes on.
pub open spec fn text_lt(a: Seq<char>, b: Seq<char>) -> bool
    decreases a.len(),
{
    if b.len() == 0 {
        false
    } else if a.len() == 0 {
        true
    } else if a[0] != b[0] {
        a[0] < b[0]
    } else {
        text_lt(a.drop_first(), b.drop_first())
    }
}

/// How `a` stands to `b` in the order of [`text_lt`].
pub open spec fn text_order(a: Seq<char>, b: Seq<char>) -> Order {
    if a == b {
        Order::Equal
    } else if text_lt(a, b) {
        Order::Less
    } else {
        Order::Greater
    }
}

/// No text comes before itself.
pub proof fn lemma_text_lt_irreflexive(a: Seq<char>)
    ensures
        !text_lt(a, a),
    decreases a.len(),
{
    if a.len() > 0 {
        lemma_text_lt_irreflexive(a.drop_first());
    }
}

/// Of two different texts, exactly one comes before the other.
pub proof fn lemma_text_lt_total(a: Seq<char>, b: Seq<char>)
    ensures
        a == b || text_lt(a, b) || text_lt(b, a),
        !(text_lt(a, b) && text_lt(b, a)),
    decreases a.len(),
{
    if a.len() > 0 && b.len() > 0 && a[0] == b[0] {
        lemma_text_lt_total(a.drop_first(), b.drop_first());
        if a.drop_first() == b.drop_first() {
            assert(a =~= seq![a[0]] + a.drop_first());
            assert(b =~= seq![b[0]] + b.drop_first());
        }
    } else if a.len() == 0 && b.len() == 0 {
        assert(a =~= b);
    }
}

/// The order is transitive.
pub proof fn lemma_text_lt_transitive(a: Seq<char>, b: Seq<char>, c: Seq<char>)
    requires
        text_lt(a, b),
        text_lt(b, c),
    ensures
        text_lt(a, c),
    decreases a.len(),
{
    if a.len() > 0 && a[0] == b[0] && b[0] == c[0] {
        lemma_text_lt_transitive(a.drop_first(), b.drop_first(), c.drop_first());
    }
}

/// With equal first characters, two texts stand as their rests do.
proof fn lemma_text_order_rest(a: Seq<char>, b: Seq<char>)
    requires
        a.len() > 0,
        b.len() > 0,
        a[0] == b[0],
    ensures
        text_order(a, b) == text_order(a.drop_first(), b.drop_first()),
{
    if a.drop_first() == b.drop_first() {
        assert(a =~= seq![a[0]] + a.drop_first());
        assert(b =~= seq![b[0]] + b.drop_first());
    }
}

/// Compares two texts character by character.
pub fn compare(a: &str, b: &str) -> (r: Order)
    ensures
        r == text_order(a@, b@),
{
    broadcast use vstd::string::group_string_axioms;

    let mut rest_a = a.chars();
    let mut rest_b = b.chars();
    loop
        invariant
            text_order(a@, b@) == text_order(rest_a.remaining(), rest_b.remaining()),
            rest_a.decrease() is Some,
        decreases rest_a.decrease()->0,
    {
        let ghost before_a = rest_a.remaining();
        let ghost before_b = rest_b.remaining();
        match (rest_a.next(), rest_b.next()) {
            (None, None) => {
                assert(before_a =~= before_b);
                return Order::Equal;
            },
            (None, Some(_)) => {
                return Order::Less;
            },
            (Some(_), None) => {
                return Order::Greater;
            },
            (Some(x), Some(y)) => {
                if x < y {
                    return Order::Less;
                }
                if y < x {
                    return Order::Greater;
                }
                proof {
                    lemma_text_order_rest(before_a, before_b);
                }
            },
        }
    }
}

} // verus!
