//! The scanner: from characters to tokens, one token per call.
use vstd::prelude::*;
use vstd::string::*;
use crate::chars::{
    CharClass, char_in_class, char_is_digit, in_class, is_digit, string_chars, string_of_range,
    unicode_alphabetic,
};
use crate::token::{Token, TokenKind, TokenView, eof_token, keyword_of};

verus! {

/// The input cannot be split into tokens at the place the scanner has
/// reached.
#[derive(Clone, Copy, Debug, PartialEq, Eq, Structural)]
pub struct LexingError;

impl LexingError {
    /// The diagnostic for this error.
    pub fn message(&self) -> (text: String)
        ensures
            text@ == "invalid lexing token"@,
    {
        String::from_str("invalid lexing token")
    }
}

/// The character at `pos`, or NUL outside the text.
pub open spec fn char_at(src: Seq<char>, pos: int) -> char {
    if 0 <= pos < src.len() {
        src[pos]
    } else {
        '\0'
    }
}

/// Where the maximal run of characters of `class` that starts at `pos` ends:
/// the first position from `pos` on that holds a character outside the class,
/// or the end of the text.
pub open spec fn run_end(src: Seq<char>, pos: int, class: CharClass) -> int
    decreases src.len() - pos,
{
    if 0 <= pos < src.len() && in_class(class, src[pos]) {
        run_end(src, pos + 1, class)
    } else {
        pos
    }
}

/// Where the token starts that follows `pos`: behind the blanks and, if a `#`
/// follows them, at the end of that line.
pub open spec fn token_start(src: Seq<char>, pos: int) -> int {
    let p = run_end(src, pos, CharClass::Blank);
    if char_at(src, p) == '#' {
        run_end(src, p, CharClass::Comment)
    } else {
        p
    }
}

/// What one step of the scanner finds.
pub enum Scan {
    /// A token, and the position behind it.
    Found { token: TokenView, next: int },
    /// No token: the scanner stopped at `at`.
    Failed { at: int },
}

/// A token of kind `kind` made of the characters `src[from..to]`, with the
/// scanner left at `next`.
pub open spec fn found(src: Seq<char>, from: int, to: int, kind: TokenKind, next: int) -> Scan {
    Scan::Found { token: TokenView { text: src.subrange(from, to), kind }, next }
}

/// A numeric literal at `p`: digits, then optionally a point and at least one
/// more digit.
pub open spec fn scan_number(src: Seq<char>, p: int) -> Scan {
    let q = run_end(src, p, CharClass::Digit);
    if char_at(src, q) == '.' {
        if is_digit(char_at(src, q + 1)) {
            let r = run_end(src, q + 1, CharClass::Digit);
            found(src, p, r, TokenKind::NUMBER, r)
        } else {
            Scan::Failed { at: q }
        }
    } else {
        found(src, p, q, TokenKind::NUMBER, q)
    }
}

/// A keyword or an identifier at `p`: a letter, then letters and digits.
pub open spec fn scan_word(src: Seq<char>, p: int) -> Scan {
    let q = run_end(src, p + 1, CharClass::Word);
    let kind = match keyword_of(src.subrange(p, q)) {
        Some(keyword) => keyword,
        None => TokenKind::IDENT,
    };
    found(src, p, q, kind, q)
}

/// A string literal whose opening quote stands at `p`. The token's text is
/// what stands between the quotes.
pub open spec fn scan_string(src: Seq<char>, p: int) -> Scan {
    let q = run_end(src, p + 1, CharClass::StringBody);
    if char_at(src, q) == '"' {
        found(src, p + 1, q, TokenKind::STRING, q + 1)
    } else {
        Scan::Failed { at: q }
    }
}

/// An operator of one character at `p`, or of two where `=` follows; `alone`
/// is its kind without the `=`, `with_eq` its kind with it.
pub open spec fn scan_operator(
    src: Seq<char>,
    p: int,
    alone: Option<TokenKind>,
    with_eq: TokenKind,
) -> Scan {
    if char_at(src, p + 1) == '=' {
        found(src, p, p + 2, with_eq, p + 2)
    } else {
        match alone {
            Some(kind) => found(src, p, p + 1, kind, p + 1),
            None => Scan::Failed { at: p },
        }
    }
}

/// The token that starts exactly at `p`.
pub open spec fn scan_at(src: Seq<char>, p: int) -> Scan {
    if p >= src.len() {
        Scan::Found { token: eof_token(), next: p }
    } else {
        let c = char_at(src, p);
        if is_digit(c) {
            scan_number(src, p)
        } else if c == '+' {
            found(src, p, p + 1, TokenKind::PLUS, p + 1)
        } else if c == '-' {
            found(src, p, p + 1, TokenKind::MINUS, p + 1)
        } else if c == '*' {
            found(src, p, p + 1, TokenKind::ASTERISK, p + 1)
        } else if c == '/' {
            found(src, p, p + 1, TokenKind::SLASH, p + 1)
        } else if c == '\n' {
            found(src, p, p + 1, TokenKind::NEWLINE, p + 1)
        } else if c == '=' {
            scan_operator(src, p, Some(TokenKind::EQ), TokenKind::EQEQ)
        } else if c == '>' {
            scan_operator(src, p, Some(TokenKind::GT), TokenKind::GTEQ)
        } else if c == '<' {
            scan_operator(src, p, Some(TokenKind::LT), TokenKind::LTEQ)
        } else if c == '!' {
            scan_operator(src, p, None, TokenKind::NOTEQ)
        } else if c == '"' {
            scan_string(src, p)
        } else if unicode_alphabetic(c) {
            scan_word(src, p)
        } else {
            Scan::Failed { at: p }
        }
    }
}

/// The next token from `pos` on: blanks and a comment are passed over, then a
/// token is read.
pub open spec fn scan(src: Seq<char>, pos: int) -> Scan {
    scan_at(src, token_start(src, pos))
}

/// The maximal run from `pos` ends between `pos` and the end of the text,
/// holds only characters of the class, and is followed by none.
pub proof fn lemma_run_end(src: Seq<char>, pos: int, class: CharClass)
    requires
        0 <= pos <= src.len(),
    ensures
        pos <= run_end(src, pos, class) <= src.len(),
        forall|i: int| pos <= i < run_end(src, pos, class) ==> in_class(class, #[trigger] src[i]),
        run_end(src, pos, class) < src.len() ==> !in_class(
            class,
            src[run_end(src, pos, class)],
        ),
    decreases src.len() - pos,
{
    if pos < src.len() && in_class(class, src[pos]) {
        lemma_run_end(src, pos + 1, class);
    }
}

/// The scanner never moves backwards. Every token but the end-of-file token
/// lies in the text and takes at least one character; the end-of-file token
/// is found only at or behind the end of the text, and then again and again.
pub proof fn lemma_scan_progress(src: Seq<char>, pos: int)
    requires
        0 <= pos,
    ensures
        match scan(src, pos) {
            Scan::Found { token, next } => {
                &&& pos <= next
                &&& token.kind != TokenKind::EOF ==> pos < next <= src.len()
                &&& token.kind == TokenKind::EOF ==> token == eof_token() && next >= src.len()
                    && scan(src, next) == scan(src, pos)
            },
            Scan::Failed { at } => pos <= at <= src.len(),
        },
{
    if pos > src.len() {
        assert(token_start(src, pos) == pos);
        return ;
    }
    let blank_end = run_end(src, pos, CharClass::Blank);
    lemma_run_end(src, pos, CharClass::Blank);
    lemma_run_end(src, blank_end, CharClass::Comment);
    let p = token_start(src, pos);
    if p < src.len() {
        lemma_run_end(src, p, CharClass::Digit);
        lemma_run_end(src, p + 1, CharClass::Word);
        lemma_run_end(src, p + 1, CharClass::StringBody);
        let q = run_end(src, p, CharClass::Digit);
        if q < src.len() {
            lemma_run_end(src, q + 1, CharClass::Digit);
        }
    } else {
        assert(run_end(src, p, CharClass::Blank) == p);
    }
}

/// At the end of the text and behind it the scanner finds the end-of-file
/// token and stays where it is.
pub proof fn lemma_scan_at_end(src: Seq<char>, pos: int)
    requires
        pos >= src.len(),
    ensures
        scan(src, pos) == (Scan::Found { token: eof_token(), next: pos }),
{
    assert(run_end(src, pos, CharClass::Blank) == pos);
}

/// The tokens from a position on, as far as the scanner can read them.
pub struct Ahead {
    /// The tokens in front of the end-of-file token or of the place where
    /// the scanner fails.
    pub tokens: Seq<TokenView>,
    /// Whether the scanner reaches the end of the text.
    pub complete: bool,
}

/// What the scanner reads from `pos` on, call after call.
pub open spec fn ahead(src: Seq<char>, pos: int) -> Ahead
    decreases src.len() - pos,
{
    if 0 <= pos {
        match scan(src, pos) {
            Scan::Failed { at } => Ahead { tokens: Seq::empty(), complete: false },
            Scan::Found { token, next } => if token.kind == TokenKind::EOF {
                Ahead { tokens: Seq::empty(), complete: true }
            } else {
                proof {
                    lemma_scan_progress(src, pos);
                }
                let rest = ahead(src, next);
                Ahead { tokens: seq![token] + rest.tokens, complete: rest.complete }
            },
        }
    } else {
        Ahead { tokens: Seq::empty(), complete: true }
    }
}

/// The scanner's state: the text, the position it has reached, and the
/// character there.
pub struct Lexer {
    pub source: Vec<char>,
    pub cur_char: char,
    pub cur_pos: usize,
}

impl Default for Lexer {
    /// A scanner at the end of an empty text.
    fn default() -> (lexer: Self)
        ensures
            lexer.wf(),
            lexer.source@ == Seq::<char>::empty(),
            lexer.cur_pos == 0,
    {
        Lexer { source: Vec::new(), cur_char: '\0', cur_pos: 0 }
    }
}

impl Lexer {
    /// `cur_char` is the character at the position, NUL where the position
    /// is the end of the text or lies behind it.
    pub open spec fn wf(&self) -> bool {
        self.cur_char == char_at(self.source@, self.cur_pos as int)
    }

    /// A scanner at the start of `source`, to which a line terminator is
    /// appended.
    pub fn build(source: String) -> (lexer: Lexer)
        ensures
            lexer.wf(),
            lexer.source@ == source@.push('\n'),
            lexer.cur_pos == 0,
    {
        let mut chars = string_chars(&source);
        chars.push('\n');
        let first = chars[0];
        Lexer { source: chars, cur_char: first, cur_pos: 0 }
    }

    /// Steps to the next character. Behind the end of the text the position
    /// still counts on, and the character there is NUL.
    pub fn next_char(&mut self)
        requires
            old(self).cur_pos < usize::MAX,
        ensures
            final(self).source == old(self).source,
            final(self).cur_pos == old(self).cur_pos + 1,
            final(self).cur_char == char_at(final(self).source@, final(self).cur_pos as int),
    {
        self.cur_pos += 1;
        if self.cur_pos >= self.source.len() {
            self.cur_char = '\0';
        } else {
            self.cur_char = self.source[self.cur_pos];
        }
    }

    /// The character behind the current one, or NUL if there is none.
    pub fn peek(&self) -> (c: char)
        ensures
            c == char_at(self.source@, self.cur_pos + 1),
    {
        if self.cur_pos >= self.source.len() || self.cur_pos + 1 >= self.source.len() {
            return '\0';
        }
        self.source[self.cur_pos + 1]
    }

    /// Passes over the maximal run of characters of `class` at the current
    /// position.
    fn skip_run(&mut self, class: CharClass)
        requires
            old(self).wf(),
        ensures
            final(self).wf(),
            final(self).source == old(self).source,
            final(self).cur_pos == run_end(old(self).source@, old(self).cur_pos as int, class),
            old(self).cur_pos <= final(self).cur_pos,
            final(self).cur_pos <= final(self).source.len() || final(self).cur_pos == old(
                self,
            ).cur_pos,
    {
        while self.cur_pos < self.source.len() && char_in_class(class, self.cur_char)
            invariant
                self.wf(),
                self.source == old(self).source,
                old(self).cur_pos <= self.cur_pos,
                self.cur_pos <= self.source.len() || self.cur_pos == old(self).cur_pos,
                run_end(self.source@, self.cur_pos as int, class) == run_end(
                    old(self).source@,
                    old(self).cur_pos as int,
                    class,
                ),
            decreases self.source.len() - self.cur_pos,
        {
            self.next_char();
        }
    }

    /// Passes over blanks: spaces, tabs and carriage returns.
    pub fn skip_whitespace(&mut self)
        requires
            old(self).wf(),
        ensures
            final(self).wf(),
            final(self).source == old(self).source,
            final(self).cur_pos == run_end(
                old(self).source@,
                old(self).cur_pos as int,
                CharClass::Blank,
            ),
    {
        self.skip_run(CharClass::Blank);
    }

    /// At a `#`, passes over the rest of the line, up to but not past its
    /// terminator.
    pub fn skip_comment(&mut self)
        requires
            old(self).wf(),
        ensures
            final(self).wf(),
            final(self).source == old(self).source,
            final(self).cur_pos == if old(self).cur_char == '#' {
                run_end(old(self).source@, old(self).cur_pos as int, CharClass::Comment)
            } else {
                old(self).cur_pos as int
            },
    {
        if self.cur_char == '#' {
            self.skip_run(CharClass::Comment);
        }
    }

    /// A token of kind `kind` with the text `source[from..to]`.
    fn token_of(&self, from: usize, to: usize, kind: TokenKind) -> (token: Token)
        requires
            from <= to <= self.source.len(),
        ensures
            token@ == (TokenView { text: self.source@.subrange(from as int, to as int), kind }),
    {
        Token { text: string_of_range(&self.source, from, to), kind }
    }

    /// Reads an operator that may be followed by `=`.
    fn operator(&mut self, alone: Option<TokenKind>, with_eq: TokenKind) -> (result: Result<
        Token,
        LexingError,
    >)
        requires
            old(self).wf(),
            old(self).cur_pos < old(self).source.len(),
        ensures
            final(self).wf(),
            final(self).source == old(self).source,
            reports(
                scan_operator(old(self).source@, old(self).cur_pos as int, alone, with_eq),
                result,
                final(self).cur_pos as int,
            ),
    {
        let start = self.cur_pos;
        if self.peek() == '=' {
            self.next_char();
            self.next_char();
            Ok(self.token_of(start, start + 2, with_eq))
        } else {
            match alone {
                Some(kind) => {
                    self.next_char();
                    Ok(self.token_of(start, start + 1, kind))
                },
                None => Err(LexingError),
            }
        }
    }

    /// Reads the next token and moves behind it. At the end of the text and
    /// behind it, the token is the end-of-file token and the scanner stays where
    /// it is.
    pub fn get_token(&mut self) -> (result: Result<Token, LexingError>)
        requires
            old(self).wf(),
        ensures
            final(self).wf(),
            final(self).source == old(self).source,
            reports(
                scan(old(self).source@, old(self).cur_pos as int),
                result,
                final(self).cur_pos as int,
            ),
    {
        self.skip_whitespace();
        self.skip_comment();
        let start = self.cur_pos;
        if start >= self.source.len() {
            let mut text = String::new();
            text.push('\0');
            assert(text@ == seq!['\0']);
            return Ok(Token { text, kind: TokenKind::EOF });
        }
        let c = self.cur_char;
        if char_is_digit(c) {
            self.skip_run(CharClass::Digit);
            if self.cur_char == '.' {
                if !char_is_digit(self.peek()) {
                    return Err(LexingError);
                }
                self.next_char();
                self.skip_run(CharClass::Digit);
            }
            Ok(self.token_of(start, self.cur_pos, TokenKind::NUMBER))
        } else if c == '+' {
            self.next_char();
            Ok(self.token_of(start, start + 1, TokenKind::PLUS))
        } else if c == '-' {
            self.next_char();
            Ok(self.token_of(start, start + 1, TokenKind::MINUS))
        } else if c == '*' {
            self.next_char();
            Ok(self.token_of(start, start + 1, TokenKind::ASTERISK))
        } else if c == '/' {
            self.next_char();
            Ok(self.token_of(start, start + 1, TokenKind::SLASH))
        } else if c == '\n' {
            self.next_char();
            Ok(self.token_of(start, start + 1, TokenKind::NEWLINE))
        } else if c == '=' {
            self.operator(Some(TokenKind::EQ), TokenKind::EQEQ)
        } else if c == '>' {
            self.operator(Some(TokenKind::GT), TokenKind::GTEQ)
        } else if c == '<' {
            self.operator(Some(TokenKind::LT), TokenKind::LTEQ)
        } else if c == '!' {
            self.operator(None, TokenKind::NOTEQ)
        } else if c == '"' {
            self.next_char();
            self.skip_run(CharClass::StringBody);
            if self.cur_char != '"' {
                return Err(LexingError);
            }
            let end = self.cur_pos;
            self.next_char();
            Ok(self.token_of(start + 1, end, TokenKind::STRING))
        } else if c.is_alphabetic() {
            self.next_char();
            self.skip_run(CharClass::Word);
            let text = string_of_range(&self.source, start, self.cur_pos);
            let kind = match Token::check_if_keyword(&text) {
                Some(keyword) => keyword,
                None => TokenKind::IDENT,
            };
            Ok(Token { text, kind })
        } else {
            Err(LexingError)
        }
    }
}

/// A call that was to find `scan` returned `result` and left the scanner at
/// `pos`: the token found and the position behind it, or an error and the
/// position at which the scanner stopped.
pub open spec fn reports(scan: Scan, result: Result<Token, LexingError>, pos: int) -> bool {
    match scan {
        Scan::Found { token, next } => result.is_ok() && result.unwrap()@ == token && pos == next,
        Scan::Failed { at } => result.is_err() && pos == at,
    }
}

} // verus!
