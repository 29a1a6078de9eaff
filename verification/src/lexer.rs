//! The scanner: a character-by-character, one-character-lookahead lexical
//! analyzer.
//!
//! [`Lexer::next_token`] skips whitespace and returns the next token of the
//! source text, or [`Token::EOF`] at the end of the input. Its behaviour is
//! pinned to the specification function [`spec_scan`]; the whole token
//! sequence of an input is described by [`spec_tokens`].
//!
//! Numeric literals are scanned directly into 64-bit signed integers; a
//! decimal point or a value that does not fit is a [`LexError`]. `&&` and
//! `||` are recognized with a dedicated two-character lookahead, like the
//! relational operators; a lone `&` or `|` is a [`LexError`].

use vstd::prelude::*;
use vstd::string::StrSliceExecFns;

verus! {

/// A lexical token. Literal-bearing cases carry a payload; others are
/// nullary.
#[derive(Debug, Clone, PartialEq)]
pub enum Token {
    /// Numeric literal, narrowed to a 64-bit signed integer.
    Number(i64),
    /// Identifier.
    Ident(String),
    /// One of `int`, `return`, `if`, `else`.
    Keyword(String),
    Plus,
    Minus,
    Star,
    Slash,
    LParen,
    RParen,
    LBrace,
    RBrace,
    Semi,
    Colon,
    Question,
    /// `~`
    Bitwise,
    /// `!`
    LogicalNot,
    /// `&&`
    LogAnd,
    /// `||`
    LogOr,
    /// `==`
    EqualTo,
    /// `!=`
    NEqualTo,
    /// `<`
    Less,
    /// `<=`
    LessEq,
    /// `>`
    GreatTh,
    /// `>=`
    GreatThEq,
    /// `=`
    Assign,
    /// End of the input.
    EOF,
}

/// The mathematical model of a [`Token`]: payloads are abstract sequences
/// and integers.
pub enum TokenV {
    Number(int),
    Ident(Seq<char>),
    Keyword(Seq<char>),
    Plus,
    Minus,
    Star,
    Slash,
    LParen,
    RParen,
    LBrace,
    RBrace,
    Semi,
    Colon,
    Question,
    Bitwise,
    LogicalNot,
    LogAnd,
    LogOr,
    EqualTo,
    NEqualTo,
    Less,
    LessEq,
    GreatTh,
    GreatThEq,
    Assign,
    EOF,
}

impl View for Token {
    type V = TokenV;

    open spec fn view(&self) -> TokenV {
        match self {
            Token::Number(n) => TokenV::Number(*n as int),
            Token::Ident(s) => TokenV::Ident(s@),
            Token::Keyword(s) => TokenV::Keyword(s@),
            Token::Plus => TokenV::Plus,
            Token::Minus => TokenV::Minus,
            Token::Star => TokenV::Star,
            Token::Slash => TokenV::Slash,
            Token::LParen => TokenV::LParen,
            Token::RParen => TokenV::RParen,
            Token::LBrace => TokenV::LBrace,
            Token::RBrace => TokenV::RBrace,
            Token::Semi => TokenV::Semi,
            Token::Colon => TokenV::Colon,
            Token::Question => TokenV::Question,
            Token::Bitwise => TokenV::Bitwise,
            Token::LogicalNot => TokenV::LogicalNot,
            Token::LogAnd => TokenV::LogAnd,
            Token::LogOr => TokenV::LogOr,
            Token::EqualTo => TokenV::EqualTo,
            Token::NEqualTo => TokenV::NEqualTo,
            Token::Less => TokenV::Less,
            Token::LessEq => TokenV::LessEq,
            Token::GreatTh => TokenV::GreatTh,
            Token::GreatThEq => TokenV::GreatThEq,
            Token::Assign => TokenV::Assign,
            Token::EOF => TokenV::EOF,
        }
    }
}

impl Token {
    /// An exact copy of the token, including its payload.
    pub fn dup(&self) -> (t: Token)
        ensures
            t@ == self@,
    {
        match self {
            Token::Number(n) => Token::Number(*n),
            Token::Ident(s) => Token::Ident(s.clone()),
            Token::Keyword(s) => Token::Keyword(s.clone()),
            Token::Plus => Token::Plus,
            Token::Minus => Token::Minus,
            Token::Star => Token::Star,
            Token::Slash => Token::Slash,
            Token::LParen => Token::LParen,
            Token::RParen => Token::RParen,
            Token::LBrace => Token::LBrace,
            Token::RBrace => Token::RBrace,
            Token::Semi => Token::Semi,
            Token::Colon => Token::Colon,
            Token::Question => Token::Question,
            Token::Bitwise => Token::Bitwise,
            Token::LogicalNot => Token::LogicalNot,
            Token::LogAnd => Token::LogAnd,
            Token::LogOr => Token::LogOr,
            Token::EqualTo => Token::EqualTo,
            Token::NEqualTo => Token::NEqualTo,
            Token::Less => Token::Less,
            Token::LessEq => Token::LessEq,
            Token::GreatTh => Token::GreatTh,
            Token::GreatThEq => Token::GreatThEq,
            Token::Assign => Token::Assign,
            Token::EOF => Token::EOF,
        }
    }
}

/// Structural equality on tokens, reflected into specifications.
pub fn token_eq(a: &Token, b: &Token) -> (r: bool)
    ensures
        r == (a@ == b@),
{
    match (a, b) {
        (Token::Number(x), Token::Number(y)) => *x == *y,
        (Token::Ident(x), Token::Ident(y)) => *x == *y,
        (Token::Keyword(x), Token::Keyword(y)) => *x == *y,
        (Token::Plus, Token::Plus) => true,
        (Token::Minus, Token::Minus) => true,
        (Token::Star, Token::Star) => true,
        (Token::Slash, Token::Slash) => true,
        (Token::LParen, Token::LParen) => true,
        (Token::RParen, Token::RParen) => true,
        (Token::LBrace, Token::LBrace) => true,
        (Token::RBrace, Token::RBrace) => true,
        (Token::Semi, Token::Semi) => true,
        (Token::Colon, Token::Colon) => true,
        (Token::Question, Token::Question) => true,
        (Token::Bitwise, Token::Bitwise) => true,
        (Token::LogicalNot, Token::LogicalNot) => true,
        (Token::LogAnd, Token::LogAnd) => true,
        (Token::LogOr, Token::LogOr) => true,
        (Token::EqualTo, Token::EqualTo) => true,
        (Token::NEqualTo, Token::NEqualTo) => true,
        (Token::Less, Token::Less) => true,
        (Token::LessEq, Token::LessEq) => true,
        (Token::GreatTh, Token::GreatTh) => true,
        (Token::GreatThEq, Token::GreatThEq) => true,
        (Token::Assign, Token::Assign) => true,
        (Token::EOF, Token::EOF) => true,
        _ => false,
    }
}

/// A fatal scanning error.
#[derive(Debug, Clone, PartialEq)]
pub enum LexError {
    /// A character that starts no token.
    UnknownChar(char),
    /// A numeric literal containing a decimal point (the payload is `'.'`),
    /// or one whose value does not fit in a 64-bit signed integer (the
    /// payload is its first digit).
    MalformedNumber(char),
    /// A lone `&` or `|` not followed by its partner.
    UnterminatedOp(char),
}

// ---------------------------------------------------------------------
// Character classes
// ---------------------------------------------------------------------

pub open spec fn is_ws_char(c: char) -> bool {
    c == ' ' || c == '\t' || c == '\n' || c == '\r'
}

pub open spec fn is_digit_char(c: char) -> bool {
    48 <= c as u32 <= 57
}

pub open spec fn is_ident_start_char(c: char) -> bool {
    (97 <= c as u32 <= 122) || (65 <= c as u32 <= 90) || c == '_'
}

pub open spec fn is_ident_char(c: char) -> bool {
    is_ident_start_char(c) || is_digit_char(c)
}

/// A character that continues a numeric-literal run.
pub open spec fn is_num_char(c: char) -> bool {
    is_digit_char(c) || c == '.'
}

fn ch_is_ws(c: char) -> (b: bool)
    ensures
        b == is_ws_char(c),
{
    c == ' ' || c == '\t' || c == '\n' || c == '\r'
}

fn ch_is_digit(c: char) -> (b: bool)
    ensures
        b == is_digit_char(c),
{
    let u = c as u32;
    48 <= u && u <= 57
}

fn ch_is_ident_start(c: char) -> (b: bool)
    ensures
        b == is_ident_start_char(c),
{
    let u = c as u32;
    (97 <= u && u <= 122) || (65 <= u && u <= 90) || c == '_'
}

fn ch_is_ident(c: char) -> (b: bool)
    ensures
        b == is_ident_char(c),
{
    ch_is_ident_start(c) || ch_is_digit(c)
}

fn ch_is_num(c: char) -> (b: bool)
    ensures
        b == is_num_char(c),
{
    ch_is_digit(c) || c == '.'
}

// ---------------------------------------------------------------------
// Runs and numeric values
// ---------------------------------------------------------------------

/// The first index at or after `pos` that does not continue a numeric run.
pub open spec fn num_run_end(s: Seq<char>, pos: int) -> int
    decreases s.len() - pos,
{
    if 0 <= pos < s.len() && is_num_char(s[pos]) {
        num_run_end(s, pos + 1)
    } else {
        pos
    }
}

/// The first index at or after `pos` that does not continue an identifier
/// run.
pub open spec fn ident_run_end(s: Seq<char>, pos: int) -> int
    decreases s.len() - pos,
{
    if 0 <= pos < s.len() && is_ident_char(s[pos]) {
        ident_run_end(s, pos + 1)
    } else {
        pos
    }
}

/// The numeric value of a digit character.
pub open spec fn digit_val(c: char) -> nat {
    (c as u32 - 48) as nat
}

/// The value of a run of decimal digits.
pub open spec fn digits_val(s: Seq<char>) -> nat
    decreases s.len(),
{
    if s.len() == 0 {
        0
    } else {
        digits_val(s.drop_last()) * 10 + digit_val(s.last())
    }
}

proof fn lemma_num_run_end_is(s: Seq<char>, pos: int, end: int)
    requires
        0 <= pos <= end <= s.len(),
        forall|i: int| pos <= i < end ==> is_num_char(#[trigger] s[i]),
        end == s.len() || !is_num_char(s[end]),
    ensures
        num_run_end(s, pos) == end,
    decreases end - pos,
{
    if pos < end {
        lemma_num_run_end_is(s, pos + 1, end);
    }
}

proof fn lemma_ident_run_end_is(s: Seq<char>, pos: int, end: int)
    requires
        0 <= pos <= end <= s.len(),
        forall|i: int| pos <= i < end ==> is_ident_char(#[trigger] s[i]),
        end == s.len() || !is_ident_char(s[end]),
    ensures
        ident_run_end(s, pos) == end,
    decreases end - pos,
{
    if pos < end {
        lemma_ident_run_end_is(s, pos + 1, end);
    }
}

/// Bounds of a numeric run.
pub proof fn lemma_num_run_bounds(s: Seq<char>, pos: int)
    requires
        0 <= pos <= s.len(),
    ensures
        pos <= num_run_end(s, pos) <= s.len(),
    decreases s.len() - pos,
{
    if pos < s.len() && is_num_char(s[pos]) {
        lemma_num_run_bounds(s, pos + 1);
    }
}

/// Every character of an identifier run continues an identifier.
pub proof fn lemma_ident_run_chars(s: Seq<char>, pos: int)
    requires
        0 <= pos <= s.len(),
    ensures
        forall|i: int| pos <= i < ident_run_end(s, pos) ==> is_ident_char(#[trigger] s[i]),
    decreases s.len() - pos,
{
    if pos < s.len() && is_ident_char(s[pos]) {
        lemma_ident_run_chars(s, pos + 1);
    }
}

/// Bounds of an identifier run.
pub proof fn lemma_ident_run_bounds(s: Seq<char>, pos: int)
    requires
        0 <= pos <= s.len(),
    ensures
        pos <= ident_run_end(s, pos) <= s.len(),
    decreases s.len() - pos,
{
    if pos < s.len() && is_ident_char(s[pos]) {
        lemma_ident_run_bounds(s, pos + 1);
    }
}

// ---------------------------------------------------------------------
// The scanner's specification
// ---------------------------------------------------------------------

/// The outcome of scanning one token: the token and the position after it,
/// or a fatal error.
pub enum ScanResult {
    Tok(TokenV, int),
    Fail(LexError),
}

/// Is this sequence one of the keyword lexemes?
pub open spec fn is_keyword_lexeme(run: Seq<char>) -> bool {
    run == "int"@ || run == "return"@ || run == "if"@ || run == "else"@
}

/// Scanning a numeric literal whose run starts at `pos`.
pub open spec fn spec_scan_number(s: Seq<char>, pos: int) -> ScanResult {
    let end = num_run_end(s, pos);
    let run = s.subrange(pos, end);
    if exists|i: int| 0 <= i < run.len() && run[i] == '.' {
        ScanResult::Fail(LexError::MalformedNumber('.'))
    } else if digits_val(run) > i64::MAX as nat {
        ScanResult::Fail(LexError::MalformedNumber(s[pos]))
    } else {
        ScanResult::Tok(TokenV::Number(digits_val(run) as int), end)
    }
}

/// Scanning an identifier or keyword whose run starts at `pos`.
pub open spec fn spec_scan_ident(s: Seq<char>, pos: int) -> ScanResult {
    let end = ident_run_end(s, pos + 1);
    let run = s.subrange(pos, end);
    if is_keyword_lexeme(run) {
        ScanResult::Tok(TokenV::Keyword(run), end)
    } else {
        ScanResult::Tok(TokenV::Ident(run), end)
    }
}

/// The scanner: the next token of `s` starting at `pos`, together with the
/// position after it. Whitespace is skipped; the end of the input scans as
/// `EOF`.
pub open spec fn spec_scan(s: Seq<char>, pos: int) -> ScanResult
    decreases s.len() - pos,
{
    if !(0 <= pos < s.len()) {
        ScanResult::Tok(TokenV::EOF, s.len() as int)
    } else {
        let c = s[pos];
        if is_ws_char(c) {
            spec_scan(s, pos + 1)
        } else if c == '+' {
            ScanResult::Tok(TokenV::Plus, pos + 1)
        } else if c == '-' {
            ScanResult::Tok(TokenV::Minus, pos + 1)
        } else if c == '*' {
            ScanResult::Tok(TokenV::Star, pos + 1)
        } else if c == '/' {
            ScanResult::Tok(TokenV::Slash, pos + 1)
        } else if c == '(' {
            ScanResult::Tok(TokenV::LParen, pos + 1)
        } else if c == ')' {
            ScanResult::Tok(TokenV::RParen, pos + 1)
        } else if c == '{' {
            ScanResult::Tok(TokenV::LBrace, pos + 1)
        } else if c == '}' {
            ScanResult::Tok(TokenV::RBrace, pos + 1)
        } else if c == ';' {
            ScanResult::Tok(TokenV::Semi, pos + 1)
        } else if c == ':' {
            ScanResult::Tok(TokenV::Colon, pos + 1)
        } else if c == '?' {
            ScanResult::Tok(TokenV::Question, pos + 1)
        } else if c == '~' {
            ScanResult::Tok(TokenV::Bitwise, pos + 1)
        } else if c == '&' {
            if pos + 1 < s.len() && s[pos + 1] == '&' {
                ScanResult::Tok(TokenV::LogAnd, pos + 2)
            } else {
                ScanResult::Fail(LexError::UnterminatedOp('&'))
            }
        } else if c == '|' {
            if pos + 1 < s.len() && s[pos + 1] == '|' {
                ScanResult::Tok(TokenV::LogOr, pos + 2)
            } else {
                ScanResult::Fail(LexError::UnterminatedOp('|'))
            }
        } else if c == '!' {
            if pos + 1 < s.len() && s[pos + 1] == '=' {
                ScanResult::Tok(TokenV::NEqualTo, pos + 2)
            } else {
                ScanResult::Tok(TokenV::LogicalNot, pos + 1)
            }
        } else if c == '=' {
            if pos + 1 < s.len() && s[pos + 1] == '=' {
                ScanResult::Tok(TokenV::EqualTo, pos + 2)
            } else {
                ScanResult::Tok(TokenV::Assign, pos + 1)
            }
        } else if c == '<' {
            if pos + 1 < s.len() && s[pos + 1] == '=' {
                ScanResult::Tok(TokenV::LessEq, pos + 2)
            } else {
                ScanResult::Tok(TokenV::Less, pos + 1)
            }
        } else if c == '>' {
            if pos + 1 < s.len() && s[pos + 1] == '=' {
                ScanResult::Tok(TokenV::GreatThEq, pos + 2)
            } else {
                ScanResult::Tok(TokenV::GreatTh, pos + 1)
            }
        } else if is_digit_char(c) {
            spec_scan_number(s, pos)
        } else if is_ident_start_char(c) {
            spec_scan_ident(s, pos)
        } else {
            ScanResult::Fail(LexError::UnknownChar(c))
        }
    }
}

/// Every scanned token lies within the input, a non-`EOF` token consumes at
/// least one character, and `EOF` is only scanned at the very end.
pub proof fn lemma_scan_bounds(s: Seq<char>, pos: int)
    requires
        0 <= pos <= s.len(),
    ensures
        match spec_scan(s, pos) {
            ScanResult::Tok(t, p) => {
                &&& pos <= p <= s.len()
                &&& (t is EOF ==> p == s.len())
                &&& (!(t is EOF) ==> pos < p)
            },
            ScanResult::Fail(e) => true,
        },
    decreases s.len() - pos,
{
    if pos < s.len() {
        let c = s[pos];
        if is_ws_char(c) {
            lemma_scan_bounds(s, pos + 1);
        } else if c == '+' || c == '-' || c == '*' || c == '/' || c == '(' || c == ')' || c == '{'
            || c == '}' || c == ';' || c == ':' || c == '?' || c == '~' || c == '&' || c == '|'
            || c == '!' || c == '=' || c == '<' || c == '>' {
        } else if is_digit_char(c) {
            lemma_num_run_bounds(s, pos + 1);
            assert(num_run_end(s, pos) == num_run_end(s, pos + 1));
        } else if is_ident_start_char(c) {
            lemma_ident_run_bounds(s, pos + 1);
        }
    }
}

// ---------------------------------------------------------------------
// The whole token sequence of an input
// ---------------------------------------------------------------------

/// The token sequence scanned from an input: the tokens before `EOF`, and
/// the error that cuts the sequence short, if any.
pub ghost struct TokenStream {
    pub toks: Seq<TokenV>,
    pub terminal: Option<LexError>,
}

/// All tokens of `s` from `pos` on, up to `EOF` or the first error.
pub open spec fn scan_stream(s: Seq<char>, pos: int) -> TokenStream
    decreases s.len() - pos,
{
    match spec_scan(s, pos) {
        ScanResult::Tok(t, p) => {
            if t is EOF {
                TokenStream { toks: Seq::empty(), terminal: None }
            } else {
                proof {
                    if 0 <= pos <= s.len() {
                        lemma_scan_bounds(s, pos);
                    }
                }
                if 0 <= pos <= s.len() {
                    let rest = scan_stream(s, p);
                    TokenStream { toks: seq![t] + rest.toks, terminal: rest.terminal }
                } else {
                    TokenStream { toks: Seq::empty(), terminal: None }
                }
            }
        },
        ScanResult::Fail(e) => TokenStream { toks: Seq::empty(), terminal: Some(e) },
    }
}

/// The token sequence of a whole input.
pub open spec fn spec_tokens(s: Seq<char>) -> TokenStream {
    scan_stream(s, 0)
}

/// Lexing is a function of the input string alone: equal inputs scan to
/// identical token sequences.
pub proof fn lemma_lexing_deterministic(s1: Seq<char>, s2: Seq<char>)
    requires
        s1 == s2,
    ensures
        spec_tokens(s1) == spec_tokens(s2),
{
}

// ---------------------------------------------------------------------
// The scanner
// ---------------------------------------------------------------------

/// The mathematical model of a [`Lexer`]: the text and the cursor.
pub ghost struct LexerV {
    pub text: Seq<char>,
    pub pos: int,
}

/// The stateful scanner over one source text.
pub struct Lexer {
    input: String,
    pos: usize,
}

impl View for Lexer {
    type V = LexerV;

    closed spec fn view(&self) -> LexerV {
        LexerV { text: self.input@, pos: self.pos as int }
    }
}

impl Lexer {
    /// The cursor never passes the end of the text.
    pub open spec fn wf(&self) -> bool {
        0 <= self@.pos <= self@.text.len()
    }

    /// A scanner at the start of `input`.
    pub fn new(input: &str) -> (l: Lexer)
        ensures
            l.wf(),
            l@.text == input@,
            l@.pos == 0,
    {
        Lexer { input: input.to_owned(), pos: 0 }
    }

    /// Consumes and returns the next character, or `None` at the end of the
    /// text.
    pub fn next_char(&mut self) -> (c: Option<char>)
        requires
            old(self).wf(),
        ensures
            final(self).wf(),
            final(self)@.text == old(self)@.text,
            old(self)@.pos < old(self)@.text.len() ==> c == Some(
                old(self)@.text[old(self)@.pos],
            ) && final(self)@.pos == old(self)@.pos + 1,
            old(self)@.pos >= old(self)@.text.len() ==> c is None && final(self)@.pos == old(
                self,
            )@.pos,
    {
        if self.pos < self.input.as_str().unicode_len() {
            let ch = self.input.as_str().get_char(self.pos);
            self.pos = self.pos + 1;
            Some(ch)
        } else {
            None
        }
    }

    /// Returns the next character without consuming it.
    pub fn peek_char(&self) -> (c: Option<char>)
        requires
            self.wf(),
        ensures
            self@.pos < self@.text.len() ==> c == Some(self@.text[self@.pos]),
            self@.pos >= self@.text.len() ==> c is None,
    {
        if self.pos < self.input.as_str().unicode_len() {
            Some(self.input.as_str().get_char(self.pos))
        } else {
            None
        }
    }

    /// True when the cursor stands on whitespace.
    fn at_ws(&self) -> (b: bool)
        requires
            self.wf(),
        ensures
            b == (self@.pos < self@.text.len() && is_ws_char(self@.text[self@.pos])),
    {
        match self.peek_char() {
            Some(c) => ch_is_ws(c),
            None => false,
        }
    }

    /// True when the cursor stands on a numeric-run character.
    fn at_num(&self) -> (b: bool)
        requires
            self.wf(),
        ensures
            b == (self@.pos < self@.text.len() && is_num_char(self@.text[self@.pos])),
    {
        match self.peek_char() {
            Some(c) => ch_is_num(c),
            None => false,
        }
    }

    /// True when the cursor stands on an identifier character.
    fn at_ident(&self) -> (b: bool)
        requires
            self.wf(),
        ensures
            b == (self@.pos < self@.text.len() && is_ident_char(self@.text[self@.pos])),
    {
        match self.peek_char() {
            Some(c) => ch_is_ident(c),
            None => false,
        }
    }

    /// Consumes the pending `=` of a two-character operator if it is there,
    /// and returns `two` in that case, `one` otherwise.
    fn two_char_op(&mut self, one: Token, two: Token) -> (r: Token)
        requires
            old(self).wf(),
        ensures
            final(self).wf(),
            final(self)@.text == old(self)@.text,
            if old(self)@.pos < old(self)@.text.len() && old(self)@.text[old(self)@.pos] == '=' {
                r@ == two@ && final(self)@.pos == old(self)@.pos + 1
            } else {
                r@ == one@ && final(self)@.pos == old(self)@.pos
            },
    {
        match self.peek_char() {
            Some(c) => {
                if c == '=' {
                    let _ = self.next_char();
                    two
                } else {
                    one
                }
            },
            None => one,
        }
    }

    /// Scans the rest of a numeric literal whose first digit `first` has
    /// just been consumed.
    fn lex_number(&mut self, first: char) -> (r: Result<Token, LexError>)
        requires
            old(self).wf(),
            old(self)@.pos >= 1,
            old(self)@.text[old(self)@.pos - 1] == first,
            is_digit_char(first),
        ensures
            final(self).wf(),
            final(self)@.text == old(self)@.text,
            match spec_scan_number(old(self)@.text, old(self)@.pos - 1) {
                ScanResult::Tok(t, p) => r matches Ok(tok) && tok@ == t && final(self)@.pos == p,
                ScanResult::Fail(e) => r matches Err(e2) && e2 == e,
            },
    {
        let ghost text = self@.text;
        let ghost start = self@.pos - 1;
        let mut val: u64 = (first as u32 - 48) as u64;
        let mut saw_dot: bool = false;
        let mut over: bool = false;
        proof {
            assert(text.subrange(start, start + 1) =~= seq![first]);
            assert(seq![first].len() == 1);
            assert(seq![first].last() == first);
            assert(seq![first].drop_last() =~= Seq::<char>::empty());
            assert(digits_val(Seq::<char>::empty()) == 0);
            assert(digits_val(seq![first]) == digit_val(first));
        }
        while self.at_num()
            invariant
                self.wf(),
                self@.text == text,
                0 <= start,
                start + 1 <= self@.pos <= text.len(),
                text[start] == first,
                is_digit_char(first),
                forall|i: int| start <= i < self@.pos ==> is_num_char(#[trigger] text[i]),
                saw_dot == exists|i: int| start <= i < self@.pos && text[i] == '.',
                !saw_dot ==> (over <==> digits_val(text.subrange(start, self@.pos)) > i64::MAX
                    as nat),
                !saw_dot && !over ==> val as nat == digits_val(text.subrange(start, self@.pos)),
            decreases text.len() - self@.pos,
        {
            let ghost mid = self@.pos;
            let ghost run = text.subrange(start, mid);
            let c_opt = self.next_char();
            let ch = c_opt.unwrap();
            proof {
                assert(text.subrange(start, mid + 1) =~= run + seq![ch]);
                assert((run + seq![ch]).drop_last() =~= run);
                assert((run + seq![ch]).last() == ch);
                assert(digits_val(run + seq![ch]) == digits_val(run) * 10 + digit_val(ch));
            }
            if ch == '.' {
                saw_dot = true;
            } else {
                let d: u64 = (ch as u32 - 48) as u64;
                if !over {
                    if val > (0x7fff_ffff_ffff_ffffu64 - d) / 10 {
                        over = true;
                        proof {
                            let m = i64::MAX as int;
                            assert(m - d == 10 * ((m - d) / 10) + (m - d) % 10);
                            assert(val * 10 + d > m);
                        }
                    } else {
                        proof {
                            let m = i64::MAX as int;
                            assert(m - d == 10 * ((m - d) / 10) + (m - d) % 10);
                            assert(val * 10 + d <= m);
                        }
                        val = val * 10 + d;
                    }
                } else {
                    proof {
                        if !saw_dot {
                            let run2 = run + seq![ch];
                            assert(digits_val(run2) >= digits_val(run) * 10);
                        }
                    }
                }
            }
        }
        proof {
            lemma_num_run_end_is(text, start, self@.pos);
            let end = self@.pos;
            let run = text.subrange(start, end);
            if exists|i: int| 0 <= i < run.len() && run[i] == '.' {
                let i = choose|i: int| 0 <= i < run.len() && run[i] == '.';
                assert(text[start + i] == '.');
            }
            if exists|i: int| start <= i < end && text[i] == '.' {
                let j = choose|j: int| start <= j < end && text[j] == '.';
                assert(run[j - start] == '.');
            }
            assert((exists|i: int| 0 <= i < run.len() && run[i] == '.') == (exists|i: int|
                start <= i < end && text[i] == '.'));
        }
        if saw_dot {
            Err(LexError::MalformedNumber('.'))
        } else if over {
            Err(LexError::MalformedNumber(first))
        } else {
            Ok(Token::Number(val as i64))
        }
    }

    /// Scans the rest of an identifier or keyword whose first character has
    /// just been consumed.
    fn lex_identifier(&mut self) -> (r: Token)
        requires
            old(self).wf(),
            old(self)@.pos >= 1,
            is_ident_start_char(old(self)@.text[old(self)@.pos - 1]),
        ensures
            final(self).wf(),
            final(self)@.text == old(self)@.text,
            match spec_scan_ident(old(self)@.text, old(self)@.pos - 1) {
                ScanResult::Tok(t, p) => r@ == t && final(self)@.pos == p,
                ScanResult::Fail(e) => false,
            },
    {
        let ghost text = self@.text;
        let start: usize = self.pos - 1;
        while self.at_ident()
            invariant
                self.wf(),
                self@.text == text,
                start + 1 <= self@.pos <= text.len(),
                forall|i: int| start + 1 <= i < self@.pos ==> is_ident_char(#[trigger] text[i]),
            decreases text.len() - self@.pos,
        {
            let _ = self.next_char();
        }
        proof {
            lemma_ident_run_end_is(text, start + 1, self@.pos);
        }
        let lexeme: String = self.input.as_str().substring_char(start, self.pos).to_owned();
        proof {
            assert(lexeme@ == text.subrange(start as int, self@.pos));
        }
        let is_kw = {
            let s = lexeme.as_str();
            str_eq(s, "int") || str_eq(s, "return") || str_eq(s, "if") || str_eq(s, "else")
        };
        if is_kw {
            Token::Keyword(lexeme)
        } else {
            Token::Ident(lexeme)
        }
    }

    /// Advances past any whitespace and returns the next token, or
    /// [`Token::EOF`] at the end of the input. A second call never rewinds.
    pub fn next_token(&mut self) -> (r: Result<Token, LexError>)
        requires
            old(self).wf(),
        ensures
            final(self).wf(),
            final(self)@.text == old(self)@.text,
            match spec_scan(old(self)@.text, old(self)@.pos) {
                ScanResult::Tok(t, p) => r matches Ok(tok) && tok@ == t && final(self)@.pos == p,
                ScanResult::Fail(e) => r matches Err(e2) && e2 == e,
            },
    {
        let ghost text = self@.text;
        let ghost pos0 = self@.pos;
        while self.at_ws()
            invariant
                self.wf(),
                self@.text == text,
                spec_scan(text, self@.pos) == spec_scan(text, pos0),
            decreases text.len() - self@.pos,
        {
            let ghost p = self@.pos;
            let _ = self.next_char();
            proof {
                assert(spec_scan(text, p) == spec_scan(text, p + 1));
            }
        }
        let ghost tpos = self@.pos;
        let c_opt = self.next_char();
        match c_opt {
            None => {
                proof {
                    assert(self@.pos == text.len());
                }
                Ok(Token::EOF)
            },
            Some(c) => {
                if c == '+' {
                    Ok(Token::Plus)
                } else if c == '-' {
                    Ok(Token::Minus)
                } else if c == '*' {
                    Ok(Token::Star)
                } else if c == '/' {
                    Ok(Token::Slash)
                } else if c == '(' {
                    Ok(Token::LParen)
                } else if c == ')' {
                    Ok(Token::RParen)
                } else if c == '{' {
                    Ok(Token::LBrace)
                } else if c == '}' {
                    Ok(Token::RBrace)
                } else if c == ';' {
                    Ok(Token::Semi)
                } else if c == ':' {
                    Ok(Token::Colon)
                } else if c == '?' {
                    Ok(Token::Question)
                } else if c == '~' {
                    Ok(Token::Bitwise)
                } else if c == '&' {
                    match self.peek_char() {
                        Some(c2) => {
                            if c2 == '&' {
                                let _ = self.next_char();
                                Ok(Token::LogAnd)
                            } else {
                                Err(LexError::UnterminatedOp('&'))
                            }
                        },
                        None => Err(LexError::UnterminatedOp('&')),
                    }
                } else if c == '|' {
                    match self.peek_char() {
                        Some(c2) => {
                            if c2 == '|' {
                                let _ = self.next_char();
                                Ok(Token::LogOr)
                            } else {
                                Err(LexError::UnterminatedOp('|'))
                            }
                        },
                        None => Err(LexError::UnterminatedOp('|')),
                    }
                } else if c == '!' {
                    Ok(self.two_char_op(Token::LogicalNot, Token::NEqualTo))
                } else if c == '=' {
                    Ok(self.two_char_op(Token::Assign, Token::EqualTo))
                } else if c == '<' {
                    Ok(self.two_char_op(Token::Less, Token::LessEq))
                } else if c == '>' {
                    Ok(self.two_char_op(Token::GreatTh, Token::GreatThEq))
                } else if ch_is_digit(c) {
                    self.lex_number(c)
                } else if ch_is_ident_start(c) {
                    Ok(self.lex_identifier())
                } else {
                    Err(LexError::UnknownChar(c))
                }
            },
        }
    }
}

/// String-slice equality, reflected into specifications.
pub fn str_eq(a: &str, b: &str) -> (r: bool)
    ensures
        r == (a@ == b@),
{
    let alen = a.unicode_len();
    let blen = b.unicode_len();
    if alen != blen {
        proof {
            assert(a@ != b@);
        }
        return false;
    }
    let mut i: usize = 0;
    while i < alen
        invariant
            alen == a@.len(),
            alen == b@.len(),
            0 <= i <= alen,
            forall|j: int| 0 <= j < i ==> a@[j] == b@[j],
        decreases alen - i,
    {
        if a.get_char(i) != b.get_char(i) {
            proof {
                assert(a@[i as int] != b@[i as int]);
            }
            return false;
        }
        i = i + 1;
    }
    proof {
        assert(a@ =~= b@);
    }
    true
}

} // verus!
