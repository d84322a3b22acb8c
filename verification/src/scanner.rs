//! The scanner: from source text to tokens.
//!
//! The text is scanned as a sequence of characters. Whitespace and comments, which run from
//! `//` to the end of their line, separate tokens and are skipped. The line counter starts
//! at one and goes up by one for each line feed that is passed, inside a string literal too;
//! a token carries the value of the counter at its end.

use vstd::prelude::*;
use crate::chars::{
    char_is_digit, char_is_identifier_part, char_is_identifier_start, char_is_whitespace, chars_of,
    is_digit, is_identifier_part, is_identifier_start, is_whitespace, string_of,
};
use crate::number::{decimal_value, digits_to_bits, nearest_binary64};
use crate::tokens::{keyword_in, keyword_kind, Kind, Token, TokenType, TokenView, token_views};

verus! {

/// Why a text could not be scanned. Each error carries the line it was met on.
#[derive(Debug, Clone, Copy, PartialEq, Eq)]
pub enum ScanError {
    /// A character that begins no token, with the character.
    UnexpectedCharacter(usize, char),
    /// A string literal whose closing quote is missing.
    UnterminatedString(usize),
    /// A look past the end of the text. Only `Scanner::peek` gives this error.
    UnexpectedEndOfFile(usize),
    /// A comment that the end of the text cuts off before its line ends.
    UnterminatedComment(usize),
    /// A number literal that denotes no number. No text gives this error, since every run
    /// of digits denotes a number (see `lemma_scan_errors`).
    InvalidNumber(usize),
}

/// The classes of character that a lexeme may run on with.
#[derive(Clone, Copy)]
pub enum Class {
    /// Decimal digits.
    Digits,
    /// The characters of an identifier after its first.
    Identifier,
    /// Anything but a double quote: the inside of a string literal.
    Quoted,
    /// Anything but a line feed: the inside of a comment.
    Comment,
}

impl Class {
    /// Whether a run of this class goes on over `c`.
    pub open spec fn holds(self, c: char) -> bool {
        match self {
            Class::Digits => is_digit(c),
            Class::Identifier => is_identifier_part(c),
            Class::Quoted => c != '"',
            Class::Comment => c != '\n',
        }
    }

    fn test(self, c: char) -> (r: bool)
        ensures
            r == self.holds(c),
    {
        match self {
            Class::Digits => char_is_digit(c),
            Class::Identifier => char_is_identifier_part(c),
            Class::Quoted => c != '"',
            Class::Comment => c != '\n',
        }
    }
}

/// The length of the longest run of characters of the given class that begins at `pos`.
pub open spec fn run_len(source: Seq<char>, pos: int, class: Class) -> nat
    decreases source.len() - pos,
{
    if 0 <= pos < source.len() && class.holds(source[pos]) {
        1 + run_len(source, pos + 1, class)
    } else {
        0
    }
}

/// The line counter after one more line feed. It stops at the largest `usize`.
pub open spec fn next_line(line: usize) -> usize {
    if line < usize::MAX {
        (line + 1) as usize
    } else {
        line
    }
}

/// The line counter after the characters `source[from..to]`, starting from `line`.
pub open spec fn line_after(source: Seq<char>, from: int, to: int, line: usize) -> usize
    decreases to - from,
{
    if from >= to || from < 0 || from >= source.len() {
        line
    } else if source[from] == '\n' {
        line_after(source, from + 1, to, next_line(line))
    } else {
        line_after(source, from + 1, to, line)
    }
}

/// Whether a comment begins at `pos`.
pub open spec fn comment_at(source: Seq<char>, pos: int) -> bool {
    0 <= pos && pos + 1 < source.len() && source[pos] == '/' && source[pos + 1] == '/'
}

/// Where the whitespace and comments that begin at `pos` end, and the line counter there.
/// A comment that the end of the text cuts off is an error.
pub open spec fn skip_trivia(source: Seq<char>, pos: int, line: usize) -> Result<
    (int, usize),
    ScanError,
>
    decreases source.len() - pos,
{
    if pos < 0 || pos >= source.len() {
        Ok((pos, line))
    } else if source[pos] == '\n' {
        skip_trivia(source, pos + 1, next_line(line))
    } else if is_whitespace(source[pos]) {
        skip_trivia(source, pos + 1, line)
    } else if comment_at(source, pos) {
        let end = pos + run_len(source, pos, Class::Comment);
        if end >= source.len() {
            Err(ScanError::UnterminatedComment(line))
        } else {
            skip_trivia(source, end + 1, next_line(line))
        }
    } else {
        Ok((pos, line))
    }
}

/// A lexeme that was recognised: its kind, the position after it, and the line counter
/// there, which is also the line of its token.
pub struct Lexeme {
    pub kind: Kind,
    pub end: int,
    pub line: usize,
}

/// The operator or delimiter that begins with `c`, and its length. `followed` says whether
/// an equals sign comes next.
pub open spec fn punctuation(c: char, followed: bool) -> Option<(Kind, int)> {
    if c == '(' {
        Some((Kind::LeftParen, 1))
    } else if c == ')' {
        Some((Kind::RightParen, 1))
    } else if c == '{' {
        Some((Kind::LeftBrace, 1))
    } else if c == '}' {
        Some((Kind::RightBrace, 1))
    } else if c == ',' {
        Some((Kind::Comma, 1))
    } else if c == '.' {
        Some((Kind::Dot, 1))
    } else if c == '-' {
        Some((Kind::Minus, 1))
    } else if c == '+' {
        Some((Kind::Plus, 1))
    } else if c == ';' {
        Some((Kind::Semicolon, 1))
    } else if c == '*' {
        Some((Kind::Star, 1))
    } else if c == '/' {
        Some((Kind::Slash, 1))
    } else if c == '!' {
        Some(if followed { (Kind::BangEqual, 2) } else { (Kind::Bang, 1) })
    } else if c == '=' {
        Some(if followed { (Kind::EqualEqual, 2) } else { (Kind::Equal, 1) })
    } else if c == '<' {
        Some(if followed { (Kind::LessEqual, 2) } else { (Kind::Less, 1) })
    } else if c == '>' {
        Some(if followed { (Kind::GreaterEqual, 2) } else { (Kind::Greater, 1) })
    } else {
        None
    }
}

/// The kind of the word `text`: a reserved word, or else an identifier.
pub open spec fn word_kind(text: Seq<char>) -> Kind {
    match keyword_kind(text) {
        Some(kind) => kind,
        None => Kind::Identifier(text),
    }
}

/// The lexeme that begins at `pos`, where a character stands that is neither whitespace nor
/// the beginning of a comment.
pub open spec fn lex_at(source: Seq<char>, pos: int, line: usize) -> Result<Lexeme, ScanError>
    recommends
        0 <= pos < source.len(),
{
    let c = source[pos];
    let followed = pos + 1 < source.len() && source[pos + 1] == '=';
    if let Some((kind, len)) = punctuation(c, followed) {
        Ok(Lexeme { kind, end: pos + len, line })
    } else if is_digit(c) {
        let end = pos + run_len(source, pos, Class::Digits);
        let bits = nearest_binary64(decimal_value(source.subrange(pos, end)));
        Ok(Lexeme { kind: Kind::Number(bits), end, line })
    } else if c == '"' {
        let close = pos + 1 + run_len(source, pos + 1, Class::Quoted);
        if close >= source.len() {
            Err(ScanError::UnterminatedString(line))
        } else {
            Ok(
                Lexeme {
                    kind: Kind::String(source.subrange(pos + 1, close)),
                    end: close + 1,
                    line: line_after(source, pos + 1, close, line),
                },
            )
        }
    } else if is_identifier_start(c) {
        let end = pos + run_len(source, pos, Class::Identifier);
        Ok(Lexeme { kind: word_kind(source.subrange(pos, end)), end, line })
    } else {
        Err(ScanError::UnexpectedCharacter(line, c))
    }
}

/// What one step of scanning does from `pos`.
pub enum Step {
    /// Nothing but whitespace and comments was left. The position is the end of the text.
    End { pos: int, line: usize },
    /// A token was read. The position is the one after its lexeme.
    Read { token: TokenView, pos: int, line: usize },
    /// The text cannot be scanned at this point.
    Stuck { error: ScanError },
}

/// One step of scanning: whitespace and comments are skipped, then one lexeme is read.
pub open spec fn scan_step(source: Seq<char>, pos: int, line: usize) -> Step {
    match skip_trivia(source, pos, line) {
        Err(error) => Step::Stuck { error },
        Ok((p, l)) => if p < 0 || p >= source.len() {
            Step::End { pos: p, line: l }
        } else {
            match lex_at(source, p, l) {
                Err(error) => Step::Stuck { error },
                Ok(lexeme) => Step::Read {
                    token: TokenView { kind: lexeme.kind, line: lexeme.line },
                    pos: lexeme.end,
                    line: lexeme.line,
                },
            }
        },
    }
}

/// The outcome of scanning a text to its end, or to the first error: the tokens that were
/// read, the position and line reached, and the error that stopped the scan, if any.
pub struct Scanned {
    pub tokens: Seq<TokenView>,
    pub pos: int,
    pub line: usize,
    pub error: Option<ScanError>,
}

/// The tokens of the text from `pos` on, without the closing `Eof`. After an error the
/// position and line are those at which the failing step began.
pub open spec fn scan_rest(source: Seq<char>, pos: int, line: usize) -> Scanned
    decreases source.len() - pos,
    via scan_rest_decreases
{
    match scan_step(source, pos, line) {
        Step::End { pos: p, line: l } => Scanned { tokens: seq![], pos: p, line: l, error: None },
        Step::Stuck { error } => Scanned { tokens: seq![], pos, line, error: Some(error) },
        Step::Read { token, pos: p, line: l } => {
            let rest = scan_rest(source, p, l);
            Scanned { tokens: seq![token] + rest.tokens, ..rest }
        },
    }
}

#[via_fn]
proof fn scan_rest_decreases(source: Seq<char>, pos: int, line: usize) {
    lemma_step_advances(source, pos, line);
}

/// The tokens of a whole text: `Ok` with the tokens and the closing `Eof`, or the first
/// error.
pub open spec fn scan(source: Seq<char>) -> Result<Seq<TokenView>, ScanError> {
    let all = scan_rest(source, 0, 1);
    match all.error {
        Some(error) => Err(error),
        None => Ok(all.tokens.push(TokenView { kind: Kind::Eof, line: all.line })),
    }
}

/// The end of the longest run of characters of the given class that begins at `pos`.
fn run_end(source: &Vec<char>, pos: usize, class: Class) -> (end: usize)
    requires
        pos <= source.len(),
    ensures
        end == pos + run_len(source@, pos as int, class),
        pos <= end <= source.len(),
{
    let mut end: usize = pos;
    while end < source.len() && class.test(source[end])
        invariant
            pos <= end <= source.len(),
            run_len(source@, pos as int, class) == (end - pos) + run_len(source@, end as int, class),
        decreases source.len() - end,
    {
        end = end + 1;
    }
    end
}

/// The line counter after one more line feed.
fn bump(line: usize) -> (r: usize)
    ensures
        r == next_line(line),
{
    if line < usize::MAX {
        line + 1
    } else {
        line
    }
}

/// The line counter after the characters `source[from..to]`.
fn count_lines(source: &Vec<char>, from: usize, to: usize, line: usize) -> (r: usize)
    requires
        from <= to <= source.len(),
    ensures
        r == line_after(source@, from as int, to as int, line),
{
    let mut i: usize = from;
    let mut now: usize = line;
    while i < to
        invariant
            from <= i <= to <= source.len(),
            line_after(source@, from as int, to as int, line) == line_after(
                source@,
                i as int,
                to as int,
                now,
            ),
        decreases to - i,
    {
        if source[i] == '\n' {
            now = bump(now);
        }
        i = i + 1;
    }
    now
}

/// Skips the whitespace and comments that begin at `pos`.
fn skip_all(source: &Vec<char>, pos: usize, line: usize) -> (r: Result<(usize, usize), ScanError>)
    ensures
        match r {
            Ok((p, l)) => skip_trivia(source@, pos as int, line) == Ok::<(int, usize), ScanError>(
                (p as int, l),
            ),
            Err(e) => skip_trivia(source@, pos as int, line) == Err::<(int, usize), ScanError>(e),
        },
{
    let mut p: usize = pos;
    let mut l: usize = line;
    while p < source.len()
        invariant
            skip_trivia(source@, pos as int, line) == skip_trivia(source@, p as int, l),
        decreases source.len() - p,
    {
        let c = source[p];
        if c == '\n' {
            l = bump(l);
            p = p + 1;
        } else if char_is_whitespace(c) {
            p = p + 1;
        } else if c == '/' && p + 1 < source.len() && source[p + 1] == '/' {
            let end = run_end(source, p, Class::Comment);
            if end >= source.len() {
                return Err(ScanError::UnterminatedComment(l));
            }
            l = bump(l);
            p = end + 1;
        } else {
            return Ok((p, l));
        }
    }
    Ok((p, l))
}

/// The token that the operator or delimiter at the front spells, and its length.
fn tok_punctuation(c: char, followed: bool) -> (r: Option<(TokenType, usize)>)
    ensures
        match r {
            Some((t, n)) => punctuation(c, followed) == Some((t@, n as int)) && 1 <= n <= 2 && (n
                == 2 ==> followed),
            None => punctuation(c, followed) is None,
        },
{
    if c == '(' {
        Some((TokenType::LeftParen, 1))
    } else if c == ')' {
        Some((TokenType::RightParen, 1))
    } else if c == '{' {
        Some((TokenType::LeftBrace, 1))
    } else if c == '}' {
        Some((TokenType::RightBrace, 1))
    } else if c == ',' {
        Some((TokenType::Comma, 1))
    } else if c == '.' {
        Some((TokenType::Dot, 1))
    } else if c == '-' {
        Some((TokenType::Minus, 1))
    } else if c == '+' {
        Some((TokenType::Plus, 1))
    } else if c == ';' {
        Some((TokenType::Semicolon, 1))
    } else if c == '*' {
        Some((TokenType::Star, 1))
    } else if c == '/' {
        Some((TokenType::Slash, 1))
    } else if c == '!' {
        Some(if followed { (TokenType::BangEqual, 2) } else { (TokenType::Bang, 1) })
    } else if c == '=' {
        Some(if followed { (TokenType::EqualEqual, 2) } else { (TokenType::Equal, 1) })
    } else if c == '<' {
        Some(if followed { (TokenType::LessEqual, 2) } else { (TokenType::Less, 1) })
    } else if c == '>' {
        Some(if followed { (TokenType::GreaterEqual, 2) } else { (TokenType::Greater, 1) })
    } else {
        None
    }
}

/// The number literal that begins at `pos`, and the position after it.
fn tok_num(source: &Vec<char>, pos: usize) -> (r: (TokenType, usize))
    requires
        pos < source.len(),
        is_digit(source@[pos as int]),
    ensures
        r.1 == pos + run_len(source@, pos as int, Class::Digits),
        pos < r.1 <= source.len(),
        r.0@ == Kind::Number(
            nearest_binary64(decimal_value(source@.subrange(pos as int, r.1 as int))),
        ),
{
    let end = run_end(source, pos, Class::Digits);
    proof {
        lemma_run_len(source@, pos as int, Class::Digits);
    }
    (TokenType::Number(digits_to_bits(source, pos, end)), end)
}

/// The string literal whose opening quote is at `pos`: its token, the position after its
/// closing quote and the line counter there, or `None` where no closing quote follows.
fn tok_string(source: &Vec<char>, pos: usize, line: usize) -> (r: Option<(TokenType, usize, usize)>)
    requires
        pos < source.len(),
    ensures
        ({
            let close = pos + 1 + run_len(source@, pos + 1, Class::Quoted);
            match r {
                None => close >= source.len(),
                Some((t, end, l)) => {
                    &&& close < source.len()
                    &&& end == close + 1
                    &&& l == line_after(source@, pos + 1, close, line)
                    &&& t@ == Kind::String(source@.subrange(pos + 1, close))
                },
            }
        }),
{
    let close = run_end(source, pos + 1, Class::Quoted);
    if close >= source.len() {
        None
    } else {
        let text = string_of(source, pos + 1, close);
        let l = count_lines(source, pos + 1, close, line);
        Some((TokenType::String(text), close + 1, l))
    }
}

/// The word that begins at `pos`, a reserved word or an identifier, and the position
/// after it.
fn tok_ident(source: &Vec<char>, pos: usize) -> (r: (TokenType, usize))
    requires
        pos < source.len(),
    ensures
        r.1 == pos + run_len(source@, pos as int, Class::Identifier),
        pos <= r.1 <= source.len(),
        r.0@ == word_kind(source@.subrange(pos as int, r.1 as int)),
{
    let end = run_end(source, pos, Class::Identifier);
    match keyword_in(source, pos, end) {
        Some(t) => (t, end),
        None => (TokenType::Identifier(string_of(source, pos, end)), end),
    }
}

/// The scanner: a text, the tokens read from it so far, and the place reached in it.
pub struct Scanner {
    /// The whole text.
    pub source: Vec<char>,
    /// The tokens read so far.
    pub tokens: Vec<Token>,
    /// The number of characters that have been scanned.
    pub current: usize,
    /// The line counter: the line of the character at `current`.
    pub line: usize,
}

impl Scanner {
    /// A scanner at the beginning of `source`, on line one, with no token read.
    pub fn new(source: &str) -> (r: Self)
        ensures
            r.source@ == source@,
            r.tokens@.len() == 0,
            r.current == 0,
            r.line == 1,
    {
        Scanner { source: chars_of(source), tokens: Vec::new(), current: 0, line: 1 }
    }

    /// Appends a token to those read so far.
    pub fn add_token(&mut self, token_type: TokenType, line: usize)
        ensures
            final(self).tokens@ == old(self).tokens@.push(Token { token_type, line }),
            final(self).source == old(self).source,
            final(self).current == old(self).current,
            final(self).line == old(self).line,
    {
        self.tokens.push(Token::new(token_type, line));
    }

    /// Whether the whole text has been scanned.
    pub fn is_at_end(&self) -> (r: bool)
        ensures
            r == (self.current >= self.source@.len()),
    {
        self.current >= self.source.len()
    }

    /// The character after the next one. There is none when fewer than two characters
    /// are left.
    pub fn peek(&self) -> (r: Result<char, ScanError>)
        ensures
            r == if self.current + 1 < self.source@.len() {
                Ok::<char, ScanError>(self.source@[self.current + 1])
            } else {
                Err::<char, ScanError>(ScanError::UnexpectedEndOfFile(self.line))
            },
    {
        if self.current < self.source.len() && self.current + 1 < self.source.len() {
            Ok(self.source[self.current + 1])
        } else {
            Err(ScanError::UnexpectedEndOfFile(self.line))
        }
    }

    /// Skips whitespace and comments and reads one token, if one is left. On an error the
    /// scanner stays as it was.
    pub fn scan_token(&mut self) -> (r: Result<(), ScanError>)
        ensures
            final(self).source == old(self).source,
            match scan_step(old(self).source@, old(self).current as int, old(self).line) {
                Step::End { pos, line } => {
                    &&& r is Ok
                    &&& final(self).current == pos
                    &&& final(self).line == line
                    &&& final(self).tokens == old(self).tokens
                },
                Step::Read { token, pos, line } => {
                    &&& r is Ok
                    &&& final(self).current == pos
                    &&& final(self).line == line
                    &&& final(self).tokens@.len() == old(self).tokens@.len() + 1
                    &&& final(self).tokens@.drop_last() == old(self).tokens@
                    &&& final(self).tokens@.last()@ == token
                },
                Step::Stuck { error } => r == Err::<(), ScanError>(error) && *final(self) == *old(
                    self,
                ),
            },
    {
        let (pos, line) = skip_all(&self.source, self.current, self.line)?;
        if pos >= self.source.len() {
            self.current = pos;
            self.line = line;
            return Ok(());
        }
        proof {
            lemma_skip_trivia(self.source@, self.current as int, self.line);
        }
        let c = self.source[pos];
        let followed = pos + 1 < self.source.len() && self.source[pos + 1] == '=';
        if let Some((token_type, len)) = tok_punctuation(c, followed) {
            self.current = pos + len;
            self.line = line;
            self.tokens.push(Token::new(token_type, line));
        } else if char_is_digit(c) {
            let (token_type, end) = tok_num(&self.source, pos);
            self.current = end;
            self.line = line;
            self.tokens.push(Token::new(token_type, line));
        } else if c == '"' {
            match tok_string(&self.source, pos, line) {
                None => {
                    return Err(ScanError::UnterminatedString(line));
                },
                Some((token_type, end, l)) => {
                    self.current = end;
                    self.line = l;
                    self.tokens.push(Token::new(token_type, l));
                },
            }
        } else if char_is_identifier_start(c) {
            let (token_type, end) = tok_ident(&self.source, pos);
            self.current = end;
            self.line = line;
            self.tokens.push(Token::new(token_type, line));
        } else {
            return Err(ScanError::UnexpectedCharacter(line, c));
        }
        proof {
            assert(final(self).tokens@.drop_last() =~= old(self).tokens@);
        }
        Ok(())
    }

    /// Scans the rest of the text and closes the tokens with `Eof`. Returns all the tokens
    /// read, or the first error; after an error the scanner holds the tokens read before it.
    pub fn scan_tokens(&mut self) -> (r: Result<Vec<Token>, ScanError>)
        ensures
            final(self).source == old(self).source,
            ({
                let all = scan_rest(
                    old(self).source@,
                    old(self).current as int,
                    old(self).line,
                );
                &&& final(self).current == all.pos
                &&& final(self).line == all.line
                &&& match all.error {
                    Some(error) => {
                        &&& r == Err::<Vec<Token>, ScanError>(error)
                        &&& token_views(final(self).tokens@) == token_views(old(self).tokens@)
                            + all.tokens
                    },
                    None => {
                        &&& r matches Ok(tokens)
                        &&& tokens@ == final(self).tokens@
                        &&& token_views(final(self).tokens@) == token_views(old(self).tokens@)
                            + all.tokens.push(TokenView { kind: Kind::Eof, line: all.line })
                    },
                }
            }),
    {
        let ghost all = scan_rest(old(self).source@, old(self).current as int, old(self).line);
        let ghost mut read: Seq<TokenView> = seq![];
        proof {
            assert(token_views(self.tokens@) =~= token_views(old(self).tokens@) + read);
        }
        while !self.is_at_end()
            invariant
                self.source == old(self).source,
                token_views(self.tokens@) == token_views(old(self).tokens@) + read,
                ({
                    let rest = scan_rest(self.source@, self.current as int, self.line);
                    &&& all.error == rest.error
                    &&& all.pos == rest.pos
                    &&& all.line == rest.line
                    &&& all.tokens == read + rest.tokens
                }),
                all == scan_rest(old(self).source@, old(self).current as int, old(self).line),
            decreases self.source@.len() - self.current,
        {
            let ghost before = *self;
            proof {
                lemma_step_advances(self.source@, self.current as int, self.line);
            }
            match self.scan_token() {
                Err(error) => {
                    proof {
                        assert(read + Seq::<TokenView>::empty() =~= read);
                    }
                    return Err(error);
                },
                Ok(()) => {},
            }
            proof {
                match scan_step(before.source@, before.current as int, before.line) {
                    Step::Read { token, pos, line } => {
                        let rest = scan_rest(self.source@, self.current as int, self.line);
                        assert(read + (seq![token] + rest.tokens) =~= read.push(token)
                            + rest.tokens);
                        assert(self.tokens@ =~= before.tokens@.push(self.tokens@.last()));
                        assert(token_views(self.tokens@) =~= token_views(before.tokens@).push(
                            token,
                        ));
                        read = read.push(token);
                        assert(token_views(self.tokens@) =~= token_views(old(self).tokens@) + read);
                    },
                    _ => {
                        lemma_scan_rest_at_end(self.source@, self.current as int, self.line);
                    },
                }
            }
        }
        proof {
            lemma_scan_rest_at_end(self.source@, self.current as int, self.line);
            assert(read + Seq::<TokenView>::empty() =~= read);
        }
        let line = self.line;
        let ghost before = self.tokens@;
        self.tokens.push(Token::new(TokenType::Eof, line));
        proof {
            assert(all.tokens == read);
            assert(token_views(self.tokens@) =~= token_views(before).push(
                TokenView { kind: Kind::Eof, line },
            ));
            assert(token_views(self.tokens@) =~= token_views(old(self).tokens@) + all.tokens.push(
                TokenView { kind: Kind::Eof, line: all.line },
            ));
        }
        Ok(clone_tokens(&self.tokens))
    }
}

/// A copy of a list of tokens.
pub fn clone_tokens(tokens: &Vec<Token>) -> (r: Vec<Token>)
    ensures
        r@ == tokens@,
{
    let mut out: Vec<Token> = Vec::new();
    let mut i: usize = 0;
    while i < tokens.len()
        invariant
            i <= tokens.len(),
            out@ == tokens@.take(i as int),
        decreases tokens.len() - i,
    {
        out.push(tokens[i].clone());
        proof {
            assert(tokens@.take(i + 1) =~= tokens@.take(i as int).push(tokens@[i as int]));
        }
        i = i + 1;
    }
    proof {
        assert(tokens@.take(tokens@.len() as int) =~= tokens@);
    }
    out
}

/// At the end of the text nothing is left to scan.
pub proof fn lemma_scan_rest_at_end(source: Seq<char>, pos: int, line: usize)
    requires
        pos >= source.len(),
    ensures
        scan_rest(source, pos, line) == (Scanned { tokens: seq![], pos, line, error: None }),
{
}

/// Skipping never moves backwards, and stops inside the text only at a character that
/// is neither whitespace nor the beginning of a comment.
pub proof fn lemma_skip_trivia(source: Seq<char>, pos: int, line: usize)
    requires
        0 <= pos <= source.len(),
    ensures
        skip_trivia(source, pos, line) matches Ok((p, l)) ==> {
            &&& pos <= p <= source.len()
            &&& p < source.len() ==> !is_whitespace(source[p]) && !comment_at(source, p)
        },
    decreases source.len() - pos,
{
    if pos < source.len() {
        if source[pos] == '\n' {
            lemma_skip_trivia(source, pos + 1, next_line(line));
        } else if is_whitespace(source[pos]) {
            lemma_skip_trivia(source, pos + 1, line);
        } else if comment_at(source, pos) {
            let end = pos + run_len(source, pos, Class::Comment);
            lemma_run_len(source, pos, Class::Comment);
            if end < source.len() {
                lemma_skip_trivia(source, end + 1, next_line(line));
            }
        }
    }
}

/// A run stays inside the text, holds of each of its characters, and ends at the end of
/// the text or before a character of which it does not hold.
pub proof fn lemma_run_len(source: Seq<char>, pos: int, class: Class)
    requires
        0 <= pos <= source.len(),
    ensures
        pos + run_len(source, pos, class) <= source.len(),
        forall|i: int| pos <= i < pos + run_len(source, pos, class) ==> class.holds(#[trigger] source[i]),
        pos + run_len(source, pos, class) < source.len() ==> !class.holds(
            source[pos + run_len(source, pos, class)],
        ),
    decreases source.len() - pos,
{
    if pos < source.len() && class.holds(source[pos]) {
        lemma_run_len(source, pos + 1, class);
    }
}

/// A lexeme is at least one character long and ends inside the text.
pub proof fn lemma_lex_at(source: Seq<char>, pos: int, line: usize)
    requires
        0 <= pos < source.len(),
    ensures
        lex_at(source, pos, line) matches Ok(lexeme) ==> pos < lexeme.end <= source.len(),
{
    lemma_run_len(source, pos, Class::Digits);
    lemma_run_len(source, pos, Class::Identifier);
    lemma_run_len(source, pos + 1, Class::Quoted);
}

/// A step that reads a token moves forward.
pub proof fn lemma_step_advances(source: Seq<char>, pos: int, line: usize)
    ensures
        scan_step(source, pos, line) matches Step::Read { pos: p, .. } ==> pos < p
            <= source.len() && 0 <= pos,
        scan_step(source, pos, line) matches Step::End { pos: p, .. } ==> pos <= p && (0 <= pos
            <= source.len() ==> p == source.len()),
{
    if 0 <= pos <= source.len() {
        lemma_skip_trivia(source, pos, line);
        if let Ok((p, l)) = skip_trivia(source, pos, line) {
            if p < source.len() {
                lemma_lex_at(source, p, l);
            }
        }
    }
}

/// Whether the kind is one of the operators and delimiters, of one or two characters.
pub open spec fn is_punctuation(kind: Kind) -> bool {
    kind is LeftParen || kind is RightParen || kind is LeftBrace || kind is RightBrace
        || kind is Comma || kind is Dot || kind is Minus || kind is Plus || kind is Semicolon
        || kind is Slash || kind is Star || kind is Bang || kind is BangEqual || kind is Equal
        || kind is EqualEqual || kind is Greater || kind is GreaterEqual || kind is Less
        || kind is LessEqual
}

/// Whether the kind is one of the reserved words.
pub open spec fn is_reserved_word(kind: Kind) -> bool {
    kind is And || kind is Class || kind is Else || kind is False || kind is Fun || kind is For
        || kind is If || kind is Nil || kind is Or || kind is Print || kind is Return
        || kind is Super || kind is This || kind is True || kind is Var || kind is While
}

/// The tokens of a text that holds one lexeme and nothing else: the token of that kind
/// and `Eof`, both on line one.
pub open spec fn alone(kind: Kind) -> Result<Seq<TokenView>, ScanError> {
    Ok(seq![TokenView { kind, line: 1 }, TokenView { kind: Kind::Eof, line: 1 }])
}

/// What the texts of the operators, delimiters and reserved words are, character by
/// character.
proof fn lemma_texts()
    ensures
        "("@ == seq!['('],
        ")"@ == seq![')'],
        "{"@ == seq!['{'],
        "}"@ == seq!['}'],
        ","@ == seq![','],
        "."@ == seq!['.'],
        "-"@ == seq!['-'],
        "+"@ == seq!['+'],
        ";"@ == seq![';'],
        "/"@ == seq!['/'],
        "*"@ == seq!['*'],
        "!"@ == seq!['!'],
        "!="@ == seq!['!', '='],
        "="@ == seq!['='],
        "=="@ == seq!['=', '='],
        ">"@ == seq!['>'],
        ">="@ == seq!['>', '='],
        "<"@ == seq!['<'],
        "<="@ == seq!['<', '='],
        "and"@ == seq!['a', 'n', 'd'],
        "class"@ == seq!['c', 'l', 'a', 's', 's'],
        "else"@ == seq!['e', 'l', 's', 'e'],
        "false"@ == seq!['f', 'a', 'l', 's', 'e'],
        "fun"@ == seq!['f', 'u', 'n'],
        "for"@ == seq!['f', 'o', 'r'],
        "if"@ == seq!['i', 'f'],
        "nil"@ == seq!['n', 'i', 'l'],
        "or"@ == seq!['o', 'r'],
        "print"@ == seq!['p', 'r', 'i', 'n', 't'],
        "return"@ == seq!['r', 'e', 't', 'u', 'r', 'n'],
        "super"@ == seq!['s', 'u', 'p', 'e', 'r'],
        "this"@ == seq!['t', 'h', 'i', 's'],
        "true"@ == seq!['t', 'r', 'u', 'e'],
        "var"@ == seq!['v', 'a', 'r'],
        "while"@ == seq!['w', 'h', 'i', 'l', 'e'],
{
    reveal_strlit("(");
    reveal_strlit(")");
    reveal_strlit("{");
    reveal_strlit("}");
    reveal_strlit(",");
    reveal_strlit(".");
    reveal_strlit("-");
    reveal_strlit("+");
    reveal_strlit(";");
    reveal_strlit("/");
    reveal_strlit("*");
    reveal_strlit("!");
    reveal_strlit("!=");
    reveal_strlit("=");
    reveal_strlit("==");
    reveal_strlit(">");
    reveal_strlit(">=");
    reveal_strlit("<");
    reveal_strlit("<=");
    reveal_strlit("and");
    reveal_strlit("class");
    reveal_strlit("else");
    reveal_strlit("false");
    reveal_strlit("fun");
    reveal_strlit("for");
    reveal_strlit("if");
    reveal_strlit("nil");
    reveal_strlit("or");
    reveal_strlit("print");
    reveal_strlit("return");
    reveal_strlit("super");
    reveal_strlit("this");
    reveal_strlit("true");
    reveal_strlit("var");
    reveal_strlit("while");
    assert("("@ =~= seq!['(']);
    assert(")"@ =~= seq![')']);
    assert("{"@ =~= seq!['{']);
    assert("}"@ =~= seq!['}']);
    assert(","@ =~= seq![',']);
    assert("."@ =~= seq!['.']);
    assert("-"@ =~= seq!['-']);
    assert("+"@ =~= seq!['+']);
    assert(";"@ =~= seq![';']);
    assert("/"@ =~= seq!['/']);
    assert("*"@ =~= seq!['*']);
    assert("!"@ =~= seq!['!']);
    assert("!="@ =~= seq!['!', '=']);
    assert("="@ =~= seq!['=']);
    assert("=="@ =~= seq!['=', '=']);
    assert(">"@ =~= seq!['>']);
    assert(">="@ =~= seq!['>', '=']);
    assert("<"@ =~= seq!['<']);
    assert("<="@ =~= seq!['<', '=']);
    assert("and"@ =~= seq!['a', 'n', 'd']);
    assert("class"@ =~= seq!['c', 'l', 'a', 's', 's']);
    assert("else"@ =~= seq!['e', 'l', 's', 'e']);
    assert("false"@ =~= seq!['f', 'a', 'l', 's', 'e']);
    assert("fun"@ =~= seq!['f', 'u', 'n']);
    assert("for"@ =~= seq!['f', 'o', 'r']);
    assert("if"@ =~= seq!['i', 'f']);
    assert("nil"@ =~= seq!['n', 'i', 'l']);
    assert("or"@ =~= seq!['o', 'r']);
    assert("print"@ =~= seq!['p', 'r', 'i', 'n', 't']);
    assert("return"@ =~= seq!['r', 'e', 't', 'u', 'r', 'n']);
    assert("super"@ =~= seq!['s', 'u', 'p', 'e', 'r']);
    assert("this"@ =~= seq!['t', 'h', 'i', 's']);
    assert("true"@ =~= seq!['t', 'r', 'u', 'e']);
    assert("var"@ =~= seq!['v', 'a', 'r']);
    assert("while"@ =~= seq!['w', 'h', 'i', 'l', 'e']);
}

/// A text of one operator or delimiter, of one character or of two, scans to its token
/// and `Eof`.
proof fn lemma_sign_alone(source: Seq<char>, kind: Kind)
    requires
        1 <= source.len() <= 2,
        source.len() == 2 ==> source[1] == '=',
        punctuation(source[0], source.len() == 2) == Some((kind, source.len() as int)),
    ensures
        scan(source) == alone(kind),
{
    let token = TokenView { kind, line: 1 };
    assert(!is_whitespace(source[0]) && source[0] != '\n');
    assert(!comment_at(source, 0));
    assert(skip_trivia(source, 0, 1) == Ok::<(int, usize), ScanError>((0, 1)));
    assert(lex_at(source, 0, 1) == Ok::<Lexeme, ScanError>(
        Lexeme { kind, end: source.len() as int, line: 1 },
    ));
    assert(scan_step(source, 0, 1) == Step::Read { token, pos: source.len() as int, line: 1 });
    lemma_scan_rest_at_end(source, source.len() as int, 1);
    assert(scan_rest(source, 0, 1).tokens =~= seq![token]);
    assert(seq![token].push(TokenView { kind: Kind::Eof, line: 1 }) =~= seq![
        token,
        TokenView { kind: Kind::Eof, line: 1 },
    ]);
}

/// A text that is one operator or delimiter and nothing else scans to the token of that
/// operator or delimiter and `Eof`.
pub proof fn lemma_punctuation_alone(kind: Kind)
    requires
        is_punctuation(kind),
    ensures
        scan(kind.text()) == alone(kind),
{
    lemma_texts();
    let source = kind.text();
    assert(1 <= source.len() <= 2);
    assert(source.len() == 2 ==> source[1] == '=');
    assert(punctuation(source[0], source.len() == 2) == Some((kind, source.len() as int)));
    lemma_sign_alone(source, kind);
}

/// A word of ASCII letters is one run of identifier characters.
proof fn lemma_word_run(source: Seq<char>, pos: int)
    requires
        0 <= pos <= source.len(),
        forall|i: int| 0 <= i < source.len() ==> crate::chars::is_ascii_letter(#[trigger] source[i]),
    ensures
        run_len(source, pos, Class::Identifier) == source.len() - pos,
    decreases source.len() - pos,
{
    if pos < source.len() {
        assert(crate::chars::is_ascii_letter(source[pos]));
        lemma_word_run(source, pos + 1);
    }
}

/// A word of ASCII letters that is no reserved word scans to an identifier, and one that
/// is a reserved word to the token of that word.
pub proof fn lemma_word_alone(word: Seq<char>)
    requires
        word.len() > 0,
        forall|i: int| 0 <= i < word.len() ==> crate::chars::is_ascii_letter(#[trigger] word[i]),
    ensures
        scan(word) == alone(word_kind(word)),
{
    let kind = word_kind(word);
    lemma_word_run(word, 0);
    assert(word.subrange(0, word.len() as int) =~= word);
    assert(crate::chars::is_ascii_letter(word[0]));
    assert(punctuation(word[0], word.len() > 1 && word[1] == '=') is None);
    assert(skip_trivia(word, 0, 1) == Ok::<(int, usize), ScanError>((0, 1)));
    assert(lex_at(word, 0, 1) == Ok::<Lexeme, ScanError>(
        Lexeme { kind, end: word.len() as int, line: 1 },
    ));
    let first = scan_step(word, 0, 1);
    assert(first == Step::Read { token: TokenView { kind, line: 1 }, pos: word.len() as int, line: 1 });
    lemma_scan_rest_at_end(word, word.len() as int, 1);
    assert(scan_rest(word, 0, 1).tokens =~= seq![TokenView { kind, line: 1 }]);
    assert(seq![TokenView { kind, line: 1 }].push(TokenView { kind: Kind::Eof, line: 1 }) =~= seq![
        TokenView { kind, line: 1 },
        TokenView { kind: Kind::Eof, line: 1 },
    ]);
}

/// The text of a reserved word spells that word and no other.
proof fn lemma_keyword_text(kind: Kind)
    requires
        is_reserved_word(kind),
    ensures
        keyword_kind(kind.text()) == Some(kind),
        kind.text().len() > 0,
        forall|i: int|
            0 <= i < kind.text().len() ==> crate::chars::is_ascii_letter(#[trigger] kind.text()[i]),
{
    lemma_texts();
    let text = kind.text();
    assert(text.len() != "and"@.len() || text[0] != "and"@[0] || kind is And);
    assert(text.len() != "class"@.len() || text[0] != "class"@[0] || kind is Class);
    assert(text.len() != "else"@.len() || text[0] != "else"@[0] || kind is Else);
    assert(text.len() != "false"@.len() || text[0] != "false"@[0] || kind is False);
    assert(text.len() != "for"@.len() || text[1] != "for"@[1] || kind is For);
    assert(text.len() != "fun"@.len() || text[1] != "fun"@[1] || kind is Fun);
    assert(text.len() != "if"@.len() || text[0] != "if"@[0] || kind is If);
    assert(text.len() != "nil"@.len() || text[0] != "nil"@[0] || kind is Nil);
    assert(text.len() != "or"@.len() || text[0] != "or"@[0] || kind is Or);
    assert(text.len() != "print"@.len() || text[0] != "print"@[0] || kind is Print);
    assert(text.len() != "return"@.len() || text[0] != "return"@[0] || kind is Return);
    assert(text.len() != "super"@.len() || text[0] != "super"@[0] || kind is Super);
    assert(text.len() != "this"@.len() || text[1] != "this"@[1] || kind is This);
    assert(text.len() != "true"@.len() || text[1] != "true"@[1] || kind is True);
    assert(text.len() != "var"@.len() || text[0] != "var"@[0] || kind is Var);
}

/// A text that is one reserved word and nothing else scans to the token of that word and
/// `Eof`.
pub proof fn lemma_reserved_word_alone(kind: Kind)
    requires
        is_reserved_word(kind),
    ensures
        scan(kind.text()) == alone(kind),
{
    lemma_keyword_text(kind);
    lemma_word_alone(kind.text());
}

/// No token that is read from a text is `Eof`.
pub proof fn lemma_scan_rest_without_eof(source: Seq<char>, pos: int, line: usize)
    ensures
        forall|i: int|
            0 <= i < scan_rest(source, pos, line).tokens.len() ==> !(#[trigger] scan_rest(
                source,
                pos,
                line,
            ).tokens[i].kind is Eof),
    decreases source.len() - pos,
{
    lemma_step_advances(source, pos, line);
    match scan_step(source, pos, line) {
        Step::Read { token, pos: p, line: l } => {
            lemma_scan_rest_without_eof(source, p, l);
            let rest = scan_rest(source, p, l);
            assert forall|i: int| 0 <= i < scan_rest(source, pos, line).tokens.len() implies !(
            #[trigger] scan_rest(source, pos, line).tokens[i].kind is Eof) by {
                if i > 0 {
                    assert(scan_rest(source, pos, line).tokens[i] == rest.tokens[i - 1]);
                }
            }
        },
        _ => {},
    }
}

/// The tokens of a text end with `Eof`, and hold no other `Eof`.
pub proof fn lemma_scan_ends_with_eof(source: Seq<char>)
    ensures
        scan(source) matches Ok(tokens) ==> {
            &&& tokens.len() >= 1
            &&& tokens.last().kind is Eof
            &&& forall|i: int| 0 <= i < tokens.len() - 1 ==> !((#[trigger] tokens[i]).kind is Eof)
        },
{
    lemma_scan_rest_without_eof(source, 0, 1);
}

/// A scan fails only on a character that begins no token, on a string without its closing
/// quote, or on a comment that the end of the text cuts off.
pub proof fn lemma_scan_errors(source: Seq<char>, pos: int, line: usize)
    ensures
        scan_rest(source, pos, line).error matches Some(error) ==> error is UnexpectedCharacter
            || error is UnterminatedString || error is UnterminatedComment,
    decreases source.len() - pos,
{
    lemma_step_advances(source, pos, line);
    match scan_step(source, pos, line) {
        Step::Read { token, pos: p, line: l } => {
            lemma_scan_errors(source, p, l);
        },
        Step::Stuck { error } => {
            lemma_skip_errors(source, pos, line);
        },
        _ => {},
    }
}

/// Skipping fails only on a comment that the end of the text cuts off.
proof fn lemma_skip_errors(source: Seq<char>, pos: int, line: usize)
    ensures
        skip_trivia(source, pos, line) matches Err(error) ==> error is UnterminatedComment,
    decreases source.len() - pos,
{
    if 0 <= pos < source.len() {
        if source[pos] == '\n' {
            lemma_skip_errors(source, pos + 1, next_line(line));
        } else if is_whitespace(source[pos]) {
            lemma_skip_errors(source, pos + 1, line);
        } else if comment_at(source, pos) {
            let end = pos + run_len(source, pos, Class::Comment);
            if end < source.len() {
                lemma_skip_errors(source, end + 1, next_line(line));
            }
        }
    }
}

/// The line counter never goes down over a stretch of text.
proof fn lemma_line_after(source: Seq<char>, from: int, to: int, line: usize)
    ensures
        line_after(source, from, to, line) >= line,
    decreases to - from,
{
    if !(from >= to || from < 0 || from >= source.len()) {
        if source[from] == '\n' {
            lemma_line_after(source, from + 1, to, next_line(line));
        } else {
            lemma_line_after(source, from + 1, to, line);
        }
    }
}

/// The line counter never goes down over whitespace and comments.
proof fn lemma_skip_lines(source: Seq<char>, pos: int, line: usize)
    ensures
        skip_trivia(source, pos, line) matches Ok((p, l)) ==> l >= line,
    decreases source.len() - pos,
{
    if 0 <= pos < source.len() {
        if source[pos] == '\n' {
            lemma_skip_lines(source, pos + 1, next_line(line));
        } else if is_whitespace(source[pos]) {
            lemma_skip_lines(source, pos + 1, line);
        } else if comment_at(source, pos) {
            let end = pos + run_len(source, pos, Class::Comment);
            if end < source.len() {
                lemma_skip_lines(source, end + 1, next_line(line));
            }
        }
    }
}

/// The lines of the tokens that are read from a text never go down: each token is on the
/// line at which the scan began or on a later one, no token is on an earlier line than
/// the token before it, and the line that the scan ends on is that of the last token or
/// a later one.
pub proof fn lemma_scan_rest_lines(source: Seq<char>, pos: int, line: usize)
    ensures
        scan_rest(source, pos, line).line >= line,
        forall|i: int|
            0 <= i < scan_rest(source, pos, line).tokens.len() ==> line <= (#[trigger] scan_rest(
                source,
                pos,
                line,
            ).tokens[i]).line <= scan_rest(source, pos, line).line,
        forall|i: int, j: int|
            0 <= i <= j < scan_rest(source, pos, line).tokens.len() ==> (#[trigger] scan_rest(
                source,
                pos,
                line,
            ).tokens[i]).line <= (#[trigger] scan_rest(source, pos, line).tokens[j]).line,
    decreases source.len() - pos,
{
    lemma_step_advances(source, pos, line);
    lemma_skip_lines(source, pos, line);
    let all = scan_rest(source, pos, line);
    match scan_step(source, pos, line) {
        Step::Read { token, pos: p, line: l } => {
            if let Ok((start, before)) = skip_trivia(source, pos, line) {
                lemma_line_after(source, start + 1, start + 1 + run_len(
                    source,
                    start + 1,
                    Class::Quoted,
                ), before);
            }
            lemma_scan_rest_lines(source, p, l);
            let rest = scan_rest(source, p, l);
            assert(token.line == l && l >= line);
            assert forall|i: int| 0 <= i < all.tokens.len() implies line <= (
            #[trigger] all.tokens[i]).line <= all.line by {
                if i > 0 {
                    assert(all.tokens[i] == rest.tokens[i - 1]);
                }
            }
            assert forall|i: int, j: int| 0 <= i <= j < all.tokens.len() implies (
            #[trigger] all.tokens[i]).line <= (#[trigger] all.tokens[j]).line by {
                if j > 0 {
                    assert(all.tokens[j] == rest.tokens[j - 1]);
                }
                if i > 0 {
                    assert(all.tokens[i] == rest.tokens[i - 1]);
                }
            }
        },
        _ => {},
    }
}

/// The tokens of a text are on line one or later, and their lines never go down from one
/// token to the next, the closing `Eof` included.
pub proof fn lemma_scan_lines(source: Seq<char>)
    ensures
        scan(source) matches Ok(tokens) ==> {
            &&& forall|i: int| 0 <= i < tokens.len() ==> (#[trigger] tokens[i]).line >= 1
            &&& forall|i: int, j: int|
                0 <= i <= j < tokens.len() ==> (#[trigger] tokens[i]).line <= (
                #[trigger] tokens[j]).line
        },
{
    lemma_scan_rest_lines(source, 0, 1);
    let all = scan_rest(source, 0, 1);
    if let Ok(tokens) = scan(source) {
        assert forall|i: int| 0 <= i < tokens.len() implies 1 <= (#[trigger] tokens[i]).line
            <= all.line by {
            if i < all.tokens.len() {
                assert(tokens[i] == all.tokens[i]);
            }
        }
        assert forall|i: int, j: int| 0 <= i <= j < tokens.len() implies (
        #[trigger] tokens[i]).line <= (#[trigger] tokens[j]).line by {
            if j < all.tokens.len() {
                assert(tokens[i] == all.tokens[i]);
                assert(tokens[j] == all.tokens[j]);
            } else if i < all.tokens.len() {
                assert(tokens[i] == all.tokens[i]);
            }
        }
    }
}

/// The text `123` scans to the number 123, given as the bits of its double.
pub proof fn lemma_number_text()
    ensures
        scan("123"@) == alone(Kind::Number(0x405e_c000_0000_0000)),
{
    reveal_strlit("123");
    let source = "123"@;
    assert(source =~= seq!['1', '2', '3']);
    crate::number::lemma_one_two_three();
    reveal_with_fuel(run_len, 4);
    assert(run_len(source, 0, Class::Digits) == 3);
    assert(source.subrange(0, 3) =~= source);
    let kind = Kind::Number(0x405e_c000_0000_0000);
    assert(scan_step(source, 0, 1) == Step::Read { token: TokenView { kind, line: 1 }, pos: 3, line: 1 });
    lemma_scan_rest_at_end(source, 3, 1);
    assert(scan_rest(source, 0, 1).tokens =~= seq![TokenView { kind, line: 1 }]);
    assert(seq![TokenView { kind, line: 1 }].push(TokenView { kind: Kind::Eof, line: 1 }) =~= seq![
        TokenView { kind, line: 1 },
        TokenView { kind: Kind::Eof, line: 1 },
    ]);
}

/// The text `"abc"` scans to the string `abc`, and the text `"abc`, which lacks the
/// closing quote, is an error.
pub proof fn lemma_string_text()
    ensures
        scan("\"abc\""@) == alone(Kind::String("abc"@)),
        scan("\"abc"@) == Err::<Seq<TokenView>, ScanError>(ScanError::UnterminatedString(1)),
{
    reveal_strlit("\"abc\"");
    reveal_strlit("\"abc");
    reveal_strlit("abc");
    reveal_with_fuel(run_len, 5);
    reveal_with_fuel(line_after, 5);
    let closed = "\"abc\""@;
    assert(closed =~= seq!['"', 'a', 'b', 'c', '"']);
    assert(run_len(closed, 1, Class::Quoted) == 3);
    assert(closed.subrange(1, 4) =~= "abc"@);
    let kind = Kind::String("abc"@);
    assert(line_after(closed, 1, 4, 1) == 1);
    assert(lex_at(closed, 0, 1) == Ok::<Lexeme, ScanError>(Lexeme { kind, end: 5, line: 1 }));
    assert(scan_step(closed, 0, 1) == Step::Read { token: TokenView { kind, line: 1 }, pos: 5, line: 1 });
    lemma_scan_rest_at_end(closed, 5, 1);
    assert(scan_rest(closed, 0, 1).tokens =~= seq![TokenView { kind, line: 1 }]);
    assert(seq![TokenView { kind, line: 1 }].push(TokenView { kind: Kind::Eof, line: 1 }) =~= seq![
        TokenView { kind, line: 1 },
        TokenView { kind: Kind::Eof, line: 1 },
    ]);
    let open = "\"abc"@;
    assert(open =~= seq!['"', 'a', 'b', 'c']);
    assert(run_len(open, 1, Class::Quoted) == 3);
    assert(lex_at(open, 0, 1) == Err::<Lexeme, ScanError>(ScanError::UnterminatedString(1)));
    assert(scan_step(open, 0, 1) == Step::Stuck { error: ScanError::UnterminatedString(1) });
}

} // verus!
