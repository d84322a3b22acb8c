//! The vocabulary shared by the scanner, the parser and the interpreter: token kinds,
//! tokens, the reserved words, and the values that a running program computes.
//!
//! A number is held as the 64 bits of its IEEE 754 double-precision encoding. The library
//! builds them from a run of digits, compares them and changes their sign; arithmetic that
//! rounds, and the rendering of a number in decimal, belong to the caller.

use vstd::prelude::*;
use vstd::string::*;
use crate::chars::chars_of;
use crate::number::{number_eq, numbers_equal};

verus! {

/// The mathematical value of a `TokenType`: the same variants, with text as a sequence of
/// characters.
pub enum Kind {
    LeftParen,
    RightParen,
    LeftBrace,
    RightBrace,
    Comma,
    Dot,
    Minus,
    Plus,
    Semicolon,
    Slash,
    Star,
    Bang,
    BangEqual,
    Equal,
    EqualEqual,
    Greater,
    GreaterEqual,
    Less,
    LessEqual,
    Identifier(Seq<char>),
    String(Seq<char>),
    Number(u64),
    And,
    Class,
    Else,
    False,
    Fun,
    For,
    If,
    Nil,
    Or,
    Print,
    Return,
    Super,
    This,
    True,
    Var,
    While,
    Eof,
}

/// The kind of a token. `Number`, `String`, `True`, `False` and `Nil` double as the values
/// of the language at run time.
///
/// `==` on kinds compares numbers bit by bit. The equality of the language, which compares
/// them as doubles, is `equals`.
#[derive(Debug, PartialEq)]
pub enum TokenType {
    LeftParen,
    RightParen,
    LeftBrace,
    RightBrace,
    Comma,
    Dot,
    Minus,
    Plus,
    Semicolon,
    Slash,
    Star,
    Bang,
    BangEqual,
    Equal,
    EqualEqual,
    Greater,
    GreaterEqual,
    Less,
    LessEqual,
    Identifier(String),
    String(String),
    Number(u64),
    And,
    Class,
    Else,
    False,
    Fun,
    For,
    If,
    Nil,
    Or,
    Print,
    Return,
    Super,
    This,
    True,
    Var,
    While,
    Eof,
}

impl View for TokenType {
    type V = Kind;

    open spec fn view(&self) -> Kind {
        match self {
            TokenType::LeftParen => Kind::LeftParen,
            TokenType::RightParen => Kind::RightParen,
            TokenType::LeftBrace => Kind::LeftBrace,
            TokenType::RightBrace => Kind::RightBrace,
            TokenType::Comma => Kind::Comma,
            TokenType::Dot => Kind::Dot,
            TokenType::Minus => Kind::Minus,
            TokenType::Plus => Kind::Plus,
            TokenType::Semicolon => Kind::Semicolon,
            TokenType::Slash => Kind::Slash,
            TokenType::Star => Kind::Star,
            TokenType::Bang => Kind::Bang,
            TokenType::BangEqual => Kind::BangEqual,
            TokenType::Equal => Kind::Equal,
            TokenType::EqualEqual => Kind::EqualEqual,
            TokenType::Greater => Kind::Greater,
            TokenType::GreaterEqual => Kind::GreaterEqual,
            TokenType::Less => Kind::Less,
            TokenType::LessEqual => Kind::LessEqual,
            TokenType::Identifier(s) => Kind::Identifier(s@),
            TokenType::String(s) => Kind::String(s@),
            TokenType::Number(n) => Kind::Number(*n),
            TokenType::And => Kind::And,
            TokenType::Class => Kind::Class,
            TokenType::Else => Kind::Else,
            TokenType::False => Kind::False,
            TokenType::Fun => Kind::Fun,
            TokenType::For => Kind::For,
            TokenType::If => Kind::If,
            TokenType::Nil => Kind::Nil,
            TokenType::Or => Kind::Or,
            TokenType::Print => Kind::Print,
            TokenType::Return => Kind::Return,
            TokenType::Super => Kind::Super,
            TokenType::This => Kind::This,
            TokenType::True => Kind::True,
            TokenType::Var => Kind::Var,
            TokenType::While => Kind::While,
            TokenType::Eof => Kind::Eof,
        }
    }
}

impl Kind {
    /// The kind with its text or number taken out: two kinds are of the same variant
    /// exactly when their classes are equal.
    pub open spec fn class(self) -> Kind {
        match self {
            Kind::Identifier(_) => Kind::Identifier(Seq::empty()),
            Kind::String(_) => Kind::String(Seq::empty()),
            Kind::Number(_) => Kind::Number(0),
            _ => self,
        }
    }

    /// Whether a token of this kind is a literal: it stands for a value.
    pub open spec fn is_literal(self) -> bool {
        self is False || self is True || self is Nil || self is Number || self is String
    }

    /// Whether a token of this kind is one of the operators that take one operand.
    pub open spec fn is_unary_operator(self) -> bool {
        self is Minus || self is Bang
    }

    /// Whether a token of this kind is one of the operators of arithmetic: `-`, `/`, `*`.
    /// The operator `+`, which also joins strings, is not among them.
    pub open spec fn is_arithmetic(self) -> bool {
        self is Minus || self is Slash || self is Star
    }

    /// Whether a token of this kind is one of the operators that order two numbers.
    pub open spec fn is_comparison(self) -> bool {
        self is Greater || self is GreaterEqual || self is Less || self is LessEqual
    }

    /// Whether a token of this kind is `==` or `!=`.
    pub open spec fn is_equality(self) -> bool {
        self is EqualEqual || self is BangEqual
    }

    /// Whether a token of this kind is one of the operators that take two operands and
    /// evaluate both.
    pub open spec fn is_binary_operator(self) -> bool {
        self.is_arithmetic() || self is Plus || self.is_comparison() || self.is_equality()
    }

    /// Whether a token of this kind is `and` or `or`.
    pub open spec fn is_logical_operator(self) -> bool {
        self is And || self is Or
    }

    /// Whether the kind counts as true in a condition: everything but `Nil` and `False`.
    pub open spec fn truthy(self) -> bool {
        !(self is Nil || self is False)
    }

    /// The kind that stands for a boolean.
    pub open spec fn of_bool(b: bool) -> Kind {
        if b {
            Kind::True
        } else {
            Kind::False
        }
    }

    /// The text a kind is written as: its lexeme for punctuation and reserved words, its own
    /// text for an identifier or a string, `EOF` for the end marker. A number has no text
    /// here (see `TokenType::lexeme`).
    pub open spec fn text(self) -> Seq<char> {
        match self {
            Kind::Identifier(s) => s,
            Kind::String(s) => s,
            Kind::Number(_) => Seq::empty(),
            Kind::LeftParen => "("@,
            Kind::RightParen => ")"@,
            Kind::LeftBrace => "{"@,
            Kind::RightBrace => "}"@,
            Kind::Comma => ","@,
            Kind::Dot => "."@,
            Kind::Minus => "-"@,
            Kind::Plus => "+"@,
            Kind::Semicolon => ";"@,
            Kind::Slash => "/"@,
            Kind::Star => "*"@,
            Kind::Bang => "!"@,
            Kind::BangEqual => "!="@,
            Kind::Equal => "="@,
            Kind::EqualEqual => "=="@,
            Kind::Greater => ">"@,
            Kind::GreaterEqual => ">="@,
            Kind::Less => "<"@,
            Kind::LessEqual => "<="@,
            Kind::And => "and"@,
            Kind::Class => "class"@,
            Kind::Else => "else"@,
            Kind::False => "false"@,
            Kind::Fun => "fun"@,
            Kind::For => "for"@,
            Kind::If => "if"@,
            Kind::Nil => "nil"@,
            Kind::Or => "or"@,
            Kind::Print => "print"@,
            Kind::Return => "return"@,
            Kind::Super => "super"@,
            Kind::This => "this"@,
            Kind::True => "true"@,
            Kind::Var => "var"@,
            Kind::While => "while"@,
            Kind::Eof => "EOF"@,
        }
    }
}

/// Whether two values of the language are equal. Two numbers are equal as doubles are, so
/// that a NaN equals nothing and the two zeros equal each other. Any other two values are
/// equal where they are the same: values of different types never are.
pub open spec fn values_equal(a: Kind, b: Kind) -> bool {
    match (a, b) {
        (Kind::Number(x), Kind::Number(y)) => number_eq(x, y),
        _ => a == b,
    }
}

/// Values that are equal are of the same type: a number equals only a number, a string
/// only a string, and so on. That both count as false does not make `nil` and `false`
/// equal.
pub proof fn lemma_equal_values_same_type(a: Kind, b: Kind)
    requires
        values_equal(a, b),
    ensures
        a.class() == b.class(),
{
}

/// The reserved word that `text` spells, if it spells one.
pub open spec fn keyword_kind(text: Seq<char>) -> Option<Kind> {
    if text == "and"@ {
        Some(Kind::And)
    } else if text == "class"@ {
        Some(Kind::Class)
    } else if text == "else"@ {
        Some(Kind::Else)
    } else if text == "false"@ {
        Some(Kind::False)
    } else if text == "fun"@ {
        Some(Kind::Fun)
    } else if text == "for"@ {
        Some(Kind::For)
    } else if text == "if"@ {
        Some(Kind::If)
    } else if text == "nil"@ {
        Some(Kind::Nil)
    } else if text == "or"@ {
        Some(Kind::Or)
    } else if text == "print"@ {
        Some(Kind::Print)
    } else if text == "return"@ {
        Some(Kind::Return)
    } else if text == "super"@ {
        Some(Kind::Super)
    } else if text == "this"@ {
        Some(Kind::This)
    } else if text == "true"@ {
        Some(Kind::True)
    } else if text == "var"@ {
        Some(Kind::Var)
    } else if text == "while"@ {
        Some(Kind::While)
    } else {
        None
    }
}

/// A failed conversion of a token kind, with the text of the kind and the name of the
/// type that was asked for.
#[derive(Debug)]
pub enum TypeError {
    InvalidConvertion(String, String),
}

impl Clone for TokenType {
    fn clone(&self) -> (r: Self)
        ensures
            r == *self,
    {
        match self {
            TokenType::Identifier(s) => TokenType::Identifier(s.clone()),
            TokenType::String(s) => TokenType::String(s.clone()),
            TokenType::Number(n) => TokenType::Number(*n),
            TokenType::LeftParen => TokenType::LeftParen,
            TokenType::RightParen => TokenType::RightParen,
            TokenType::LeftBrace => TokenType::LeftBrace,
            TokenType::RightBrace => TokenType::RightBrace,
            TokenType::Comma => TokenType::Comma,
            TokenType::Dot => TokenType::Dot,
            TokenType::Minus => TokenType::Minus,
            TokenType::Plus => TokenType::Plus,
            TokenType::Semicolon => TokenType::Semicolon,
            TokenType::Slash => TokenType::Slash,
            TokenType::Star => TokenType::Star,
            TokenType::Bang => TokenType::Bang,
            TokenType::BangEqual => TokenType::BangEqual,
            TokenType::Equal => TokenType::Equal,
            TokenType::EqualEqual => TokenType::EqualEqual,
            TokenType::Greater => TokenType::Greater,
            TokenType::GreaterEqual => TokenType::GreaterEqual,
            TokenType::Less => TokenType::Less,
            TokenType::LessEqual => TokenType::LessEqual,
            TokenType::And => TokenType::And,
            TokenType::Class => TokenType::Class,
            TokenType::Else => TokenType::Else,
            TokenType::False => TokenType::False,
            TokenType::Fun => TokenType::Fun,
            TokenType::For => TokenType::For,
            TokenType::If => TokenType::If,
            TokenType::Nil => TokenType::Nil,
            TokenType::Or => TokenType::Or,
            TokenType::Print => TokenType::Print,
            TokenType::Return => TokenType::Return,
            TokenType::Super => TokenType::Super,
            TokenType::This => TokenType::This,
            TokenType::True => TokenType::True,
            TokenType::Var => TokenType::Var,
            TokenType::While => TokenType::While,
            TokenType::Eof => TokenType::Eof,
        }
    }
}

impl TokenType {
    /// Whether two kinds are the same variant, whatever text or number they carry.
    pub fn same_kind(&self, other: &TokenType) -> (r: bool)
        ensures
            r == (self@.class() == other@.class()),
    {
        match (self, other) {
            (TokenType::Identifier(_), TokenType::Identifier(_)) => true,
            (TokenType::String(_), TokenType::String(_)) => true,
            (TokenType::Number(_), TokenType::Number(_)) => true,
            (TokenType::LeftParen, TokenType::LeftParen) => true,
            (TokenType::RightParen, TokenType::RightParen) => true,
            (TokenType::LeftBrace, TokenType::LeftBrace) => true,
            (TokenType::RightBrace, TokenType::RightBrace) => true,
            (TokenType::Comma, TokenType::Comma) => true,
            (TokenType::Dot, TokenType::Dot) => true,
            (TokenType::Minus, TokenType::Minus) => true,
            (TokenType::Plus, TokenType::Plus) => true,
            (TokenType::Semicolon, TokenType::Semicolon) => true,
            (TokenType::Slash, TokenType::Slash) => true,
            (TokenType::Star, TokenType::Star) => true,
            (TokenType::Bang, TokenType::Bang) => true,
            (TokenType::BangEqual, TokenType::BangEqual) => true,
            (TokenType::Equal, TokenType::Equal) => true,
            (TokenType::EqualEqual, TokenType::EqualEqual) => true,
            (TokenType::Greater, TokenType::Greater) => true,
            (TokenType::GreaterEqual, TokenType::GreaterEqual) => true,
            (TokenType::Less, TokenType::Less) => true,
            (TokenType::LessEqual, TokenType::LessEqual) => true,
            (TokenType::And, TokenType::And) => true,
            (TokenType::Class, TokenType::Class) => true,
            (TokenType::Else, TokenType::Else) => true,
            (TokenType::False, TokenType::False) => true,
            (TokenType::Fun, TokenType::Fun) => true,
            (TokenType::For, TokenType::For) => true,
            (TokenType::If, TokenType::If) => true,
            (TokenType::Nil, TokenType::Nil) => true,
            (TokenType::Or, TokenType::Or) => true,
            (TokenType::Print, TokenType::Print) => true,
            (TokenType::Return, TokenType::Return) => true,
            (TokenType::Super, TokenType::Super) => true,
            (TokenType::This, TokenType::This) => true,
            (TokenType::True, TokenType::True) => true,
            (TokenType::Var, TokenType::Var) => true,
            (TokenType::While, TokenType::While) => true,
            (TokenType::Eof, TokenType::Eof) => true,
            _ => false,
        }
    }

    /// Whether two values are equal: as numbers where both are numbers, else as kinds.
    pub fn equals(&self, other: &TokenType) -> (r: bool)
        ensures
            r == values_equal(self@, other@),
    {
        match (self, other) {
            (TokenType::Number(a), TokenType::Number(b)) => numbers_equal(*a, *b),
            (TokenType::String(a), TokenType::String(b)) => *a == *b,
            (TokenType::Identifier(a), TokenType::Identifier(b)) => *a == *b,
            _ => self.same_kind(other),
        }
    }

    /// The truth value of a kind taken as a condition: `Nil` and `False` are false, every
    /// other kind is true.
    pub fn is_truthy(&self) -> (r: bool)
        ensures
            r == self@.truthy(),
    {
        match self {
            TokenType::Nil => false,
            TokenType::False => false,
            _ => true,
        }
    }

    /// `True` or `False`.
    pub fn from_bool(value: bool) -> (r: TokenType)
        ensures
            r@ == Kind::of_bool(value),
    {
        if value {
            TokenType::True
        } else {
            TokenType::False
        }
    }

    /// The bits of the number that a kind converts to: its own for a `Number`, those of one
    /// for `True`, those of zero for `False`. Every other kind has no number and is refused
    /// with its text.
    pub fn to_number(&self) -> (r: Result<u64, TypeError>)
        ensures
            self@ matches Kind::Number(n) ==> r == Ok::<u64, TypeError>(n),
            self@ is True ==> r == Ok::<u64, TypeError>(0x3ff0_0000_0000_0000u64),
            self@ is False ==> r == Ok::<u64, TypeError>(0u64),
            !(self@ is Number || self@ is True || self@ is False) ==> (r matches Err(
                TypeError::InvalidConvertion(from, to),
            ) && from@ == self@.text() && to@ == "f64"@),
    {
        match self {
            TokenType::Number(n) => Ok(*n),
            TokenType::True => Ok(0x3ff0_0000_0000_0000u64),
            TokenType::False => Ok(0u64),
            _ => Err(TypeError::InvalidConvertion(self.text(), String::from_str("f64"))),
        }
    }

    /// The text of a kind that is no number.
    pub(crate) fn text(&self) -> (r: String)
        requires
            !(self@ is Number),
        ensures
            r@ == self@.text(),
    {
        match self {
            TokenType::Identifier(s) => s.clone(),
            TokenType::String(s) => s.clone(),
            TokenType::Number(_) => vstd::pervasive::unreached(),
            TokenType::LeftParen => String::from_str("("),
            TokenType::RightParen => String::from_str(")"),
            TokenType::LeftBrace => String::from_str("{"),
            TokenType::RightBrace => String::from_str("}"),
            TokenType::Comma => String::from_str(","),
            TokenType::Dot => String::from_str("."),
            TokenType::Minus => String::from_str("-"),
            TokenType::Plus => String::from_str("+"),
            TokenType::Semicolon => String::from_str(";"),
            TokenType::Slash => String::from_str("/"),
            TokenType::Star => String::from_str("*"),
            TokenType::Bang => String::from_str("!"),
            TokenType::BangEqual => String::from_str("!="),
            TokenType::Equal => String::from_str("="),
            TokenType::EqualEqual => String::from_str("=="),
            TokenType::Greater => String::from_str(">"),
            TokenType::GreaterEqual => String::from_str(">="),
            TokenType::Less => String::from_str("<"),
            TokenType::LessEqual => String::from_str("<="),
            TokenType::And => String::from_str("and"),
            TokenType::Class => String::from_str("class"),
            TokenType::Else => String::from_str("else"),
            TokenType::False => String::from_str("false"),
            TokenType::Fun => String::from_str("fun"),
            TokenType::For => String::from_str("for"),
            TokenType::If => String::from_str("if"),
            TokenType::Nil => String::from_str("nil"),
            TokenType::Or => String::from_str("or"),
            TokenType::Print => String::from_str("print"),
            TokenType::Return => String::from_str("return"),
            TokenType::Super => String::from_str("super"),
            TokenType::This => String::from_str("this"),
            TokenType::True => String::from_str("true"),
            TokenType::Var => String::from_str("var"),
            TokenType::While => String::from_str("while"),
            TokenType::Eof => String::from_str("EOF"),
        }
    }

    /// The text of a kind, or `None` for a `Number`: rendering a number in decimal is
    /// floating-point work, which this library leaves to its caller.
    pub fn lexeme(&self) -> (r: Option<String>)
        ensures
            self@ is Number <==> r is None,
            r matches Some(s) ==> s@ == self@.text(),
    {
        match self {
            TokenType::Number(_) => None,
            _ => Some(self.text()),
        }
    }
}

/// Whether the characters `source[from..to]` spell `word`.
fn spells(source: &Vec<char>, from: usize, to: usize, word: &str) -> (r: bool)
    requires
        from <= to <= source.len(),
    ensures
        r == (source@.subrange(from as int, to as int) == word@),
{
    let n = word.unicode_len();
    if to - from != n {
        return false;
    }
    let mut i: usize = 0;
    while i < n
        invariant
            from <= to <= source.len(),
            n == word@.len(),
            to - from == n,
            i <= n,
            forall|j: int| 0 <= j < i ==> source@[from + j] == word@[j],
        decreases n - i,
    {
        if source[from + i] != word.get_char(i) {
            assert(source@.subrange(from as int, to as int)[i as int] != word@[i as int]);
            return false;
        }
        i = i + 1;
    }
    assert(source@.subrange(from as int, to as int) =~= word@);
    true
}

/// The reserved word that the characters `source[from..to]` spell, if they spell one.
pub fn keyword_in(source: &Vec<char>, from: usize, to: usize) -> (r: Option<TokenType>)
    requires
        from <= to <= source.len(),
    ensures
        match r {
            Some(t) => keyword_kind(source@.subrange(from as int, to as int)) == Some(t@),
            None => keyword_kind(source@.subrange(from as int, to as int)) is None,
        },
{
    if spells(source, from, to, "and") {
        Some(TokenType::And)
    } else if spells(source, from, to, "class") {
        Some(TokenType::Class)
    } else if spells(source, from, to, "else") {
        Some(TokenType::Else)
    } else if spells(source, from, to, "false") {
        Some(TokenType::False)
    } else if spells(source, from, to, "fun") {
        Some(TokenType::Fun)
    } else if spells(source, from, to, "for") {
        Some(TokenType::For)
    } else if spells(source, from, to, "if") {
        Some(TokenType::If)
    } else if spells(source, from, to, "nil") {
        Some(TokenType::Nil)
    } else if spells(source, from, to, "or") {
        Some(TokenType::Or)
    } else if spells(source, from, to, "print") {
        Some(TokenType::Print)
    } else if spells(source, from, to, "return") {
        Some(TokenType::Return)
    } else if spells(source, from, to, "super") {
        Some(TokenType::Super)
    } else if spells(source, from, to, "this") {
        Some(TokenType::This)
    } else if spells(source, from, to, "true") {
        Some(TokenType::True)
    } else if spells(source, from, to, "var") {
        Some(TokenType::Var)
    } else if spells(source, from, to, "while") {
        Some(TokenType::While)
    } else {
        None
    }
}

/// The reserved word that `text` spells, if it spells one.
pub fn keyword(text: &str) -> (r: Option<TokenType>)
    ensures
        match r {
            Some(t) => keyword_kind(text@) == Some(t@),
            None => keyword_kind(text@) is None,
        },
{
    let chars = chars_of(text);
    assert(chars@.subrange(0, chars@.len() as int) =~= text@);
    keyword_in(&chars, 0, chars.len())
}

/// The mathematical value of a `Token`.
pub struct TokenView {
    pub kind: Kind,
    pub line: usize,
}

/// A token: a kind and the line of the source text it was read on, counted from one.
#[derive(Debug, PartialEq)]
pub struct Token {
    pub token_type: TokenType,
    pub line: usize,
}

impl View for Token {
    type V = TokenView;

    open spec fn view(&self) -> TokenView {
        TokenView { kind: self.token_type@, line: self.line }
    }
}

impl Clone for Token {
    fn clone(&self) -> (r: Self)
        ensures
            r == *self,
    {
        Token { token_type: self.token_type.clone(), line: self.line }
    }
}

impl Token {
    pub fn new(token_type: TokenType, line: usize) -> (r: Self)
        ensures
            r == (Token { token_type, line }),
    {
        Token { token_type, line }
    }

    /// The text of the token's kind between square brackets, or `None` for a number.
    pub fn lexeme(&self) -> (r: Option<String>)
        ensures
            self@.kind is Number <==> r is None,
            r matches Some(s) ==> s@ == "["@ + self@.kind.text() + "]"@,
    {
        match self.token_type.lexeme() {
            Some(text) => {
                let mut out = String::from_str("[");
                out.append(text.as_str());
                out.append("]");
                Some(out)
            },
            None => None,
        }
    }
}

/// The views of a sequence of tokens, one for one.
pub open spec fn token_views(tokens: Seq<Token>) -> Seq<TokenView> {
    Seq::new(tokens.len(), |i: int| tokens[i]@)
}

} // verus!
