//! The tokens that the parser consumes. Producing them from characters is
//! the business of a tokenizer, which is not part of this crate.

use vstd::prelude::*;
use crate::location::{DMError, DMErrorView, Location};

verus! {

/// A punctuation symbol.
#[derive(Clone, Copy, Debug, PartialEq, Eq, Structural)]
pub enum Punctuation {
    Slash,
    Dot,
    Colon,
    Semicolon,
    Comma,
    LParen,
    RParen,
    LBracket,
    RBracket,
    LBrace,
    RBrace,
    Assign,
    Add,
    Sub,
    Mul,
    Mod,
    Pow,
    Not,
    BitNot,
    BitAnd,
    BitOr,
    BitXor,
    And,
    Or,
    Less,
    Greater,
    LessEq,
    GreaterEq,
    Eq,
    NotEq,
    LessGreater,
    LShift,
    RShift,
    AddAssign,
    SubAssign,
    MulAssign,
    DivAssign,
    BitAndAssign,
    BitOrAssign,
    BitXorAssign,
    LShiftAssign,
    RShiftAssign,
}

impl Punctuation {
    /// The symbol as it is written in source text.
    #[verifier::opaque]
    pub open spec fn text(self) -> Seq<char> {
        match self {
            Punctuation::Slash => "/"@,
            Punctuation::Dot => "."@,
            Punctuation::Colon => ":"@,
            Punctuation::Semicolon => ";"@,
            Punctuation::Comma => ","@,
            Punctuation::LParen => "("@,
            Punctuation::RParen => ")"@,
            Punctuation::LBracket => "["@,
            Punctuation::RBracket => "]"@,
            Punctuation::LBrace => "{"@,
            Punctuation::RBrace => "}"@,
            Punctuation::Assign => "="@,
            Punctuation::Add => "+"@,
            Punctuation::Sub => "-"@,
            Punctuation::Mul => "*"@,
            Punctuation::Mod => "%"@,
            Punctuation::Pow => "**"@,
            Punctuation::Not => "!"@,
            Punctuation::BitNot => "~"@,
            Punctuation::BitAnd => "&"@,
            Punctuation::BitOr => "|"@,
            Punctuation::BitXor => "^"@,
            Punctuation::And => "&&"@,
            Punctuation::Or => "||"@,
            Punctuation::Less => "<"@,
            Punctuation::Greater => ">"@,
            Punctuation::LessEq => "<="@,
            Punctuation::GreaterEq => ">="@,
            Punctuation::Eq => "=="@,
            Punctuation::NotEq => "!="@,
            Punctuation::LessGreater => "<>"@,
            Punctuation::LShift => "<<"@,
            Punctuation::RShift => ">>"@,
            Punctuation::AddAssign => "+="@,
            Punctuation::SubAssign => "-="@,
            Punctuation::MulAssign => "*="@,
            Punctuation::DivAssign => "/="@,
            Punctuation::BitAndAssign => "&="@,
            Punctuation::BitOrAssign => "|="@,
            Punctuation::BitXorAssign => "^="@,
            Punctuation::LShiftAssign => "<<="@,
            Punctuation::RShiftAssign => ">>="@,
        }
    }

    /// The symbol as it is written in source text.
    pub fn as_str(self) -> (s: &'static str)
        ensures
            s@ == self.text(),
    {
        reveal(Punctuation::text);
        match self {
            Punctuation::Slash => "/",
            Punctuation::Dot => ".",
            Punctuation::Colon => ":",
            Punctuation::Semicolon => ";",
            Punctuation::Comma => ",",
            Punctuation::LParen => "(",
            Punctuation::RParen => ")",
            Punctuation::LBracket => "[",
            Punctuation::RBracket => "]",
            Punctuation::LBrace => "{",
            Punctuation::RBrace => "}",
            Punctuation::Assign => "=",
            Punctuation::Add => "+",
            Punctuation::Sub => "-",
            Punctuation::Mul => "*",
            Punctuation::Mod => "%",
            Punctuation::Pow => "**",
            Punctuation::Not => "!",
            Punctuation::BitNot => "~",
            Punctuation::BitAnd => "&",
            Punctuation::BitOr => "|",
            Punctuation::BitXor => "^",
            Punctuation::And => "&&",
            Punctuation::Or => "||",
            Punctuation::Less => "<",
            Punctuation::Greater => ">",
            Punctuation::LessEq => "<=",
            Punctuation::GreaterEq => ">=",
            Punctuation::Eq => "==",
            Punctuation::NotEq => "!=",
            Punctuation::LessGreater => "<>",
            Punctuation::LShift => "<<",
            Punctuation::RShift => ">>",
            Punctuation::AddAssign => "+=",
            Punctuation::SubAssign => "-=",
            Punctuation::MulAssign => "*=",
            Punctuation::DivAssign => "/=",
            Punctuation::BitAndAssign => "&=",
            Punctuation::BitOrAssign => "|=",
            Punctuation::BitXorAssign => "^=",
            Punctuation::LShiftAssign => "<<=",
            Punctuation::RShiftAssign => ">>=",
        }
    }
}

/// One decimal digit as text.
pub open spec fn digit(d: nat) -> Seq<char> {
    if d == 0 {
        "0"@
    } else if d == 1 {
        "1"@
    } else if d == 2 {
        "2"@
    } else if d == 3 {
        "3"@
    } else if d == 4 {
        "4"@
    } else if d == 5 {
        "5"@
    } else if d == 6 {
        "6"@
    } else if d == 7 {
        "7"@
    } else if d == 8 {
        "8"@
    } else {
        "9"@
    }
}

/// A natural number in decimal notation, without leading zeros.
pub open spec fn decimal(n: nat) -> Seq<char>
    decreases n,
{
    if n < 10 {
        digit(n)
    } else {
        decimal(n / 10) + digit(n % 10)
    }
}

/// An integer in decimal notation, with `-` in front if it is negative.
pub open spec fn integer_text(i: int) -> Seq<char> {
    if i < 0 {
        "-"@ + decimal((-i) as nat)
    } else {
        decimal(i as nat)
    }
}

fn digit_text(d: u64) -> (s: &'static str)
    requires
        d < 10,
    ensures
        s@ == digit(d as nat),
{
    if d == 0 {
        "0"
    } else if d == 1 {
        "1"
    } else if d == 2 {
        "2"
    } else if d == 3 {
        "3"
    } else if d == 4 {
        "4"
    } else if d == 5 {
        "5"
    } else if d == 6 {
        "6"
    } else if d == 7 {
        "7"
    } else if d == 8 {
        "8"
    } else {
        "9"
    }
}

fn decimal_text(n: u64) -> (s: String)
    ensures
        s@ == decimal(n as nat),
    decreases n,
{
    if n < 10 {
        digit_text(n).to_owned()
    } else {
        let mut s = decimal_text(n / 10);
        s.append(digit_text(n % 10));
        s
    }
}

/// The decimal notation of an integer.
pub fn integer_to_text(i: i32) -> (s: String)
    ensures
        s@ == integer_text(i as int),
{
    let wide: i64 = i as i64;
    if wide < 0 {
        let mut s = "-".to_owned();
        let digits = decimal_text((0 - wide) as u64);
        s.append(digits.as_str());
        s
    } else {
        decimal_text(wide as u64)
    }
}

/// One token. A floating-point literal is carried as the bit pattern of the
/// single-precision number it denotes.
#[derive(Debug, PartialEq)]
pub enum Token {
    /// The end of the input.
    Eof,
    Punct(Punctuation),
    /// An identifier, and whether whitespace follows it.
    Ident(String, bool),
    String(String),
    Resource(String),
    Int(i32),
    Float(u32),
}

/// The mathematical content of a [`Token`].
pub enum TokenView {
    Eof,
    Punct(Punctuation),
    Ident(Seq<char>, bool),
    String(Seq<char>),
    Resource(Seq<char>),
    Int(i32),
    Float(u32),
}

impl View for Token {
    type V = TokenView;

    open spec fn view(&self) -> TokenView {
        match self {
            Token::Eof => TokenView::Eof,
            Token::Punct(p) => TokenView::Punct(*p),
            Token::Ident(s, ws) => TokenView::Ident(s@, *ws),
            Token::String(s) => TokenView::String(s@),
            Token::Resource(s) => TokenView::Resource(s@),
            Token::Int(i) => TokenView::Int(*i),
            Token::Float(bits) => TokenView::Float(*bits),
        }
    }
}

impl TokenView {
    /// How a token is shown in a diagnostic: punctuation and identifiers as
    /// written, text literals between their quotes, integers in decimal
    /// notation. A floating-point literal is shown by its kind: its bits do
    /// not tell how it was written.
    pub open spec fn text(self) -> Seq<char> {
        match self {
            TokenView::Eof => "end of file"@,
            TokenView::Punct(p) => p.text(),
            TokenView::Ident(s, _) => s,
            TokenView::String(s) => "\""@ + s + "\""@,
            TokenView::Resource(s) => "'"@ + s + "'"@,
            TokenView::Int(i) => integer_text(i as int),
            TokenView::Float(_) => "number"@,
        }
    }
}

impl Token {
    /// Whether two tokens are the same token: same kind, same content.
    pub fn same(&self, other: &Token) -> (r: bool)
        ensures
            r == (self@ == other@),
    {
        match (self, other) {
            (Token::Eof, Token::Eof) => true,
            (Token::Punct(a), Token::Punct(b)) => *a == *b,
            (Token::Ident(a, x), Token::Ident(b, y)) => *a == *b && *x == *y,
            (Token::String(a), Token::String(b)) => *a == *b,
            (Token::Resource(a), Token::Resource(b)) => *a == *b,
            (Token::Int(a), Token::Int(b)) => *a == *b,
            (Token::Float(a), Token::Float(b)) => *a == *b,
            _ => false,
        }
    }

    /// Whether this is the given punctuation symbol.
    pub fn is_punct(&self, p: Punctuation) -> (r: bool)
        ensures
            r == (self@ == TokenView::Punct(p)),
    {
        match self {
            Token::Punct(q) => *q == p,
            _ => false,
        }
    }

    /// The text that stands for this token in a diagnostic.
    pub fn describe(&self) -> (d: String)
        ensures
            d@ == self@.text(),
    {
        match self {
            Token::Eof => "end of file".to_owned(),
            Token::Punct(p) => p.as_str().to_owned(),
            Token::Ident(s, _) => s.clone(),
            Token::String(s) => {
                let mut d = "\"".to_owned();
                d.append(s.as_str());
                d.append("\"");
                d
            },
            Token::Resource(s) => {
                let mut d = "'".to_owned();
                d.append(s.as_str());
                d.append("'");
                d
            },
            Token::Int(i) => integer_to_text(*i),
            Token::Float(_) => "number".to_owned(),
        }
    }
}

impl Clone for Token {
    fn clone(&self) -> (t: Token)
        ensures
            t@ == self@,
    {
        match self {
            Token::Eof => Token::Eof,
            Token::Punct(p) => Token::Punct(*p),
            Token::Ident(s, ws) => Token::Ident(s.clone(), *ws),
            Token::String(s) => Token::String(s.clone()),
            Token::Resource(s) => Token::Resource(s.clone()),
            Token::Int(i) => Token::Int(*i),
            Token::Float(bits) => Token::Float(*bits),
        }
    }
}

/// A token together with the place where it was found.
#[derive(Debug, PartialEq)]
pub struct LocatedToken {
    pub location: Location,
    pub token: Token,
}

/// The mathematical content of a [`LocatedToken`].
pub struct LocatedTokenView {
    pub location: Location,
    pub token: TokenView,
}

impl View for LocatedToken {
    type V = LocatedTokenView;

    open spec fn view(&self) -> LocatedTokenView {
        LocatedTokenView { location: self.location, token: self.token@ }
    }
}

impl LocatedToken {
    pub fn new(location: Location, token: Token) -> (t: LocatedToken)
        ensures
            t@ == (LocatedTokenView { location, token: token@ }),
    {
        LocatedToken { location, token }
    }
}

/// A list of tokens as a sequence of mathematical values.
pub open spec fn tokens_view(tokens: Seq<Token>) -> Seq<TokenView> {
    Seq::new(tokens.len(), |i: int| tokens[i]@)
}

/// One element of the input: a located token, or the failure of the stage
/// that was to produce it.
pub open spec fn item_view(item: Result<LocatedToken, DMError>) -> Result<LocatedTokenView, DMErrorView> {
    match item {
        Ok(t) => Ok(t@),
        Err(e) => Err(e@),
    }
}

/// The input as a sequence of mathematical values.
pub open spec fn items_view(items: Seq<Result<LocatedToken, DMError>>) -> Seq<Result<LocatedTokenView, DMErrorView>> {
    Seq::new(items.len(), |i: int| item_view(items[i]))
}

} // verus!
