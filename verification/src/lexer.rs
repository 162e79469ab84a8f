//! The lexer: one forward scan that turns a text into positioned tokens.

use crate::text::{char_limit, is_number, number_text, punctuator, string_of, white_space};
use vstd::prelude::*;

verus! {

/// What a token is. The three variants with a `String` own a copy of the
/// characters they were read from.
#[derive(Debug, PartialEq, Eq)]
pub enum TokenType {
    Null,
    Bool(bool),
    /// A number literal, kept as it was written.
    Number(String),
    /// The characters between the quotes of a string, escapes untouched.
    String(String),
    /// A word that is neither a number nor `null`, `true` or `false`.
    Invalid(String),
    OpenCurly,
    CloseCurly,
    OpenSquare,
    CloseSquare,
    Colon,
    Comma,
}

/// A token and the place of its first character, both counted from zero.
#[derive(Debug, PartialEq, Eq)]
pub struct Token {
    pub token_type: TokenType,
    pub line: usize,
    pub col: usize,
}

/// The mathematical value of a [`TokenType`].
pub enum TokenKind {
    Null,
    Bool(bool),
    Number(Seq<char>),
    String(Seq<char>),
    Invalid(Seq<char>),
    OpenCurly,
    CloseCurly,
    OpenSquare,
    CloseSquare,
    Colon,
    Comma,
}

/// The mathematical value of a [`Token`].
pub struct TokenView {
    pub kind: TokenKind,
    pub line: nat,
    pub col: nat,
}

impl View for TokenType {
    type V = TokenKind;

    open spec fn view(&self) -> TokenKind {
        match self {
            TokenType::Null => TokenKind::Null,
            TokenType::Bool(b) => TokenKind::Bool(*b),
            TokenType::Number(t) => TokenKind::Number(t@),
            TokenType::String(t) => TokenKind::String(t@),
            TokenType::Invalid(t) => TokenKind::Invalid(t@),
            TokenType::OpenCurly => TokenKind::OpenCurly,
            TokenType::CloseCurly => TokenKind::CloseCurly,
            TokenType::OpenSquare => TokenKind::OpenSquare,
            TokenType::CloseSquare => TokenKind::CloseSquare,
            TokenType::Colon => TokenKind::Colon,
            TokenType::Comma => TokenKind::Comma,
        }
    }
}

impl View for Token {
    type V = TokenView;

    open spec fn view(&self) -> TokenView {
        TokenView { kind: self.token_type@, line: self.line as nat, col: self.col as nat }
    }
}

/// The values of a sequence of tokens, one by one.
pub open spec fn token_views(tokens: Seq<Token>) -> Seq<TokenView> {
    Seq::new(tokens.len(), |i: int| tokens[i]@)
}

/// The kind of the token that a structural character stands for.
pub open spec fn punctuator_kind(c: char) -> TokenKind
    recommends
        punctuator(c),
{
    if c == '{' {
        TokenKind::OpenCurly
    } else if c == '}' {
        TokenKind::CloseCurly
    } else if c == '[' {
        TokenKind::OpenSquare
    } else if c == ']' {
        TokenKind::CloseSquare
    } else if c == ':' {
        TokenKind::Colon
    } else {
        TokenKind::Comma
    }
}

/// The kind of the token that a bare word stands for: a number if it reads
/// as one, else one of the three keywords, else an invalid word.
pub open spec fn word_kind(word: Seq<char>) -> TokenKind {
    if number_text(word) {
        TokenKind::Number(word)
    } else if word == seq!['n', 'u', 'l', 'l'] {
        TokenKind::Null
    } else if word == seq!['t', 'r', 'u', 'e'] {
        TokenKind::Bool(true)
    } else if word == seq!['f', 'a', 'l', 's', 'e'] {
        TokenKind::Bool(false)
    } else {
        TokenKind::Invalid(word)
    }
}

/// What the scan is in the middle of.
#[derive(Debug, PartialEq, Eq, Clone, Copy)]
pub enum Mode {
    /// Between tokens.
    Idle,
    /// Inside a bare word.
    Word,
    /// Inside a quoted string, after its opening quote.
    Quoted,
}

/// The state of the scan after some prefix of the text.
pub struct Scan {
    /// The tokens emitted so far.
    pub tokens: Seq<TokenView>,
    pub mode: Mode,
    /// The characters of the token in progress: all of a bare word so far,
    /// or what follows the opening quote of a string.
    pub pending: Seq<char>,
    /// Where the token in progress began.
    pub start_line: nat,
    pub start_col: nat,
    /// Whether the character just read was a backslash.
    pub escape: bool,
    /// The place of the next character.
    pub line: nat,
    pub col: nat,
}

impl Scan {
    /// The state before any character is read.
    pub open spec fn start() -> Scan {
        Scan {
            tokens: Seq::empty(),
            mode: Mode::Idle,
            pending: Seq::empty(),
            start_line: 0,
            start_col: 0,
            escape: false,
            line: 0,
            col: 0,
        }
    }

    /// The token for the bare word in progress.
    pub open spec fn word_token(self) -> TokenView {
        TokenView { kind: word_kind(self.pending), line: self.start_line, col: self.start_col }
    }

    /// The token for the string in progress.
    pub open spec fn string_token(self) -> TokenView {
        TokenView {
            kind: TokenKind::String(self.pending),
            line: self.start_line,
            col: self.start_col,
        }
    }

    /// The token for the structural character `c` at the current place.
    pub open spec fn punctuator_token(self, c: char) -> TokenView {
        TokenView { kind: punctuator_kind(c), line: self.line, col: self.col }
    }

    /// The state in which a token begins at the current place, in `mode`
    /// and with `pending` read of it.
    pub open spec fn begin(self, mode: Mode, pending: Seq<char>) -> Scan {
        Scan { mode, pending, start_line: self.line, start_col: self.col, ..self }
    }

    /// The state between tokens, with `tokens` emitted.
    pub open spec fn idle(self, tokens: Seq<TokenView>) -> Scan {
        Scan {
            tokens,
            mode: Mode::Idle,
            pending: Seq::empty(),
            start_line: 0,
            start_col: 0,
            ..self
        }
    }

    /// What reading `c` does to the tokens, the mode and the token in
    /// progress. A quote counts only when no backslash stands right before
    /// it.
    pub open spec fn react(self, c: char) -> Scan {
        let quote = c == '"' && !self.escape;
        match self.mode {
            Mode::Idle => {
                if white_space(c) {
                    self
                } else if punctuator(c) {
                    self.idle(self.tokens.push(self.punctuator_token(c)))
                } else if quote {
                    self.begin(Mode::Quoted, Seq::empty())
                } else {
                    self.begin(Mode::Word, seq![c])
                }
            },
            Mode::Word => {
                if punctuator(c) {
                    self.idle(self.tokens.push(self.word_token()).push(self.punctuator_token(c)))
                } else if white_space(c) {
                    self.idle(self.tokens.push(self.word_token()))
                } else if quote {
                    self.begin(Mode::Quoted, Seq::empty())
                } else {
                    Scan { pending: self.pending.push(c), ..self }
                }
            },
            Mode::Quoted => {
                if quote {
                    self.idle(self.tokens.push(self.string_token()))
                } else {
                    Scan { pending: self.pending.push(c), ..self }
                }
            },
        }
    }

    /// The state after reading `c`: the reaction to it, then the place moves
    /// on, to the next column or to the start of the next line.
    pub open spec fn step(self, c: char) -> Scan {
        let after = self.react(c);
        Scan {
            escape: c == '\\',
            line: if c == '\n' {
                self.line + 1
            } else {
                self.line
            },
            col: if c == '\n' {
                0
            } else {
                self.col + 1
            },
            ..after
        }
    }

    /// The tokens once the text has ended: a bare word in progress is
    /// emitted, a string without its closing quote is dropped.
    pub open spec fn finish(self) -> Seq<TokenView> {
        if self.mode == Mode::Word {
            self.tokens.push(self.word_token())
        } else {
            self.tokens
        }
    }
}

/// The state of the scan after all of `text`.
pub open spec fn scan(text: Seq<char>) -> Scan
    decreases text.len(),
{
    if text.len() == 0 {
        Scan::start()
    } else {
        scan(text.drop_last()).step(text.last())
    }
}

/// The tokens of `text`.
pub open spec fn lex_spec(text: Seq<char>) -> Seq<TokenView> {
    scan(text).finish()
}

/// Whether `c` is one of `{ } [ ] : ,`.
pub fn is_punctuator(c: char) -> (r: bool)
    ensures
        r == punctuator(c),
{
    c == '{' || c == '}' || c == '[' || c == ']' || c == ':' || c == ','
}

/// Whether `c` is the double quote.
pub fn is_quote(c: char) -> (r: bool)
    ensures
        r == (c == '"'),
{
    c == '"'
}

impl Token {
    /// The token for the structural character `c`, which stands at `line`
    /// and `col`.
    pub fn from_punctuator(c: char, line: usize, col: usize) -> (token: Token)
        requires
            punctuator(c),
        ensures
            token@ == (TokenView { kind: punctuator_kind(c), line: line as nat, col: col as nat }),
    {
        let token_type = if c == '{' {
            TokenType::OpenCurly
        } else if c == '}' {
            TokenType::CloseCurly
        } else if c == '[' {
            TokenType::OpenSquare
        } else if c == ']' {
            TokenType::CloseSquare
        } else if c == ':' {
            TokenType::Colon
        } else {
            TokenType::Comma
        };
        Token { token_type, line, col }
    }

    /// The string token for `body`, the characters between two quotes, the
    /// first of which stands at `line` and `col`.
    pub fn from_quoted_str(body: &Vec<char>, line: usize, col: usize) -> (token: Token)
        ensures
            token@ == (TokenView {
                kind: TokenKind::String(body@),
                line: line as nat,
                col: col as nat,
            }),
    {
        Token { token_type: TokenType::String(string_of(body)), line, col }
    }

    /// The token for the bare word `symbol`, which begins at `line` and
    /// `col`: a number, a keyword or an invalid word.
    pub fn from_key_or_val(symbol: &Vec<char>, line: usize, col: usize) -> (token: Token)
        ensures
            token@ == (TokenView { kind: word_kind(symbol@), line: line as nat, col: col as nat }),
    {
        let n = symbol.len();
        let token_type = if is_number(symbol) {
            TokenType::Number(string_of(symbol))
        } else if n == 4 && symbol[0] == 'n' && symbol[1] == 'u' && symbol[2] == 'l' && symbol[3]
            == 'l' {
            assert(symbol@ =~= seq!['n', 'u', 'l', 'l']);
            TokenType::Null
        } else if n == 4 && symbol[0] == 't' && symbol[1] == 'r' && symbol[2] == 'u' && symbol[3]
            == 'e' {
            assert(symbol@ =~= seq!['t', 'r', 'u', 'e']);
            TokenType::Bool(true)
        } else if n == 5 && symbol[0] == 'f' && symbol[1] == 'a' && symbol[2] == 'l' && symbol[3]
            == 's' && symbol[4] == 'e' {
            assert(symbol@ =~= seq!['f', 'a', 'l', 's', 'e']);
            TokenType::Bool(false)
        } else {
            TokenType::Invalid(string_of(symbol))
        };
        Token { token_type, line, col }
    }
}

/// The scan as it runs: the tokens so far and the token in progress.
struct Scanner {
    tokens: Vec<Token>,
    mode: Mode,
    pending: Vec<char>,
    start_line: usize,
    start_col: usize,
    escape: bool,
    line: usize,
    col: usize,
}

impl View for Scanner {
    type V = Scan;

    closed spec fn view(&self) -> Scan {
        Scan {
            tokens: token_views(self.tokens@),
            mode: self.mode,
            pending: self.pending@,
            start_line: self.start_line as nat,
            start_col: self.start_col as nat,
            escape: self.escape,
            line: self.line as nat,
            col: self.col as nat,
        }
    }
}

impl Scanner {
    fn new() -> (scanner: Scanner)
        ensures
            scanner@ == Scan::start(),
    {
        let scanner = Scanner {
            tokens: Vec::new(),
            mode: Mode::Idle,
            pending: Vec::new(),
            start_line: 0,
            start_col: 0,
            escape: false,
            line: 0,
            col: 0,
        };
        assert(token_views(scanner.tokens@) =~= Seq::empty());
        scanner
    }

    /// Emits `token` and goes back to the state between tokens.
    fn emit(&mut self, token: Token)
        ensures
            final(self)@ == old(self)@.idle(old(self)@.tokens.push(token@)),
    {
        self.tokens.push(token);
        self.mode = Mode::Idle;
        self.pending.clear();
        self.start_line = 0;
        self.start_col = 0;
        assert(token_views(self.tokens@) =~= token_views(old(self).tokens@).push(token@));
    }

    /// Begins a token at the current place.
    fn begin(&mut self, mode: Mode)
        ensures
            final(self)@ == old(self)@.begin(mode, Seq::empty()),
    {
        self.mode = mode;
        self.pending.clear();
        self.start_line = self.line;
        self.start_col = self.col;
    }

    /// Reads one character.
    fn step(&mut self, c: char)
        requires
            old(self).line < usize::MAX,
            old(self).col < usize::MAX,
        ensures
            final(self)@ == old(self)@.step(c),
    {
        let quote = is_quote(c) && !self.escape;
        match self.mode {
            Mode::Idle => {
                if c.is_whitespace() {
                } else if is_punctuator(c) {
                    let token = Token::from_punctuator(c, self.line, self.col);
                    self.emit(token);
                } else if quote {
                    self.begin(Mode::Quoted);
                } else {
                    self.begin(Mode::Word);
                    self.pending.push(c);
                    assert(self.pending@ =~= seq![c]);
                }
            },
            Mode::Word => {
                if is_punctuator(c) {
                    let word = Token::from_key_or_val(&self.pending, self.start_line, self.start_col);
                    let token = Token::from_punctuator(c, self.line, self.col);
                    self.emit(word);
                    self.emit(token);
                } else if c.is_whitespace() {
                    let word = Token::from_key_or_val(&self.pending, self.start_line, self.start_col);
                    self.emit(word);
                } else if quote {
                    self.begin(Mode::Quoted);
                } else {
                    self.pending.push(c);
                }
            },
            Mode::Quoted => {
                if quote {
                    let token = Token::from_quoted_str(&self.pending, self.start_line, self.start_col);
                    self.emit(token);
                } else {
                    self.pending.push(c);
                }
            },
        }
        self.escape = c == '\\';
        if c == '\n' {
            self.line += 1;
            self.col = 0;
        } else {
            self.col += 1;
        }
    }

    /// Ends the scan.
    fn finish(self) -> (tokens: Vec<Token>)
        ensures
            token_views(tokens@) == self@.finish(),
    {
        let mut scanner = self;
        match scanner.mode {
            Mode::Word => {
                let word = Token::from_key_or_val(
                    &scanner.pending,
                    scanner.start_line,
                    scanner.start_col,
                );
                scanner.tokens.push(word);
                assert(token_views(scanner.tokens@) =~= token_views(self.tokens@).push(word@));
            },
            _ => {},
        }
        scanner.tokens
    }
}

/// Whatever the text, the place of the next character after it is no
/// further than the number of characters read.
proof fn lemma_scan_place(text: Seq<char>)
    ensures
        scan(text).line + scan(text).col <= text.len(),
    decreases text.len(),
{
    if text.len() > 0 {
        lemma_scan_place(text.drop_last());
    }
}

/// Splits `s` into tokens. Every text has tokens: a word that is no number
/// and no keyword becomes an `Invalid` token.
pub fn lex(s: &str) -> (tokens: Vec<Token>)
    ensures
        token_views(tokens@) == lex_spec(s@),
{
    broadcast use vstd::string::group_string_axioms;

    let limit = char_limit(s);
    let mut scanner = Scanner::new();
    assert(s@.take(0) =~= Seq::<char>::empty());
    for c in it: s.chars()
        invariant
            it.seq() == s@,
            s@.len() <= limit,
            scanner@ == scan(s@.take(it.index() as int)),
    {
        proof {
            lemma_scan_place(s@.take(it.index() as int));
            assert(s@.take(it.index() + 1).drop_last() =~= s@.take(it.index() as int));
        }
        scanner.step(c);
    }
    assert(s@.take(s@.len() as int) =~= s@);
    scanner.finish()
}

} // verus!
