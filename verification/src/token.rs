//! Tokens, their source spans, and the mathematical values they stand for.
use vstd::prelude::*;

verus! {

/// Half-open byte range `[start, end)` into the source buffer.
#[derive(Debug, Clone, Copy, PartialEq, Eq, Structural)]
pub struct Span {
    pub start: usize,
    pub end: usize,
}

/// The kind of a token, with its payload where it has one.
///
/// `String` carries the contents of the literal with every escape sequence
/// resolved. `Number` carries the literal exactly as it is written in the
/// source, so that no precision is lost before the caller converts it.
#[derive(Debug, PartialEq, Eq)]
pub enum JSONToken {
    LBrace,
    RBrace,
    LBracket,
    RBracket,
    Comma,
    Colon,
    String(String),
    Number(String),
    True,
    False,
    Null,
    Eof,
}

/// One lexical unit: what it is and where it stands in the source.
#[derive(Debug, PartialEq, Eq)]
pub struct Token {
    pub kind: JSONToken,
    pub span: Span,
}

/// The mathematical value of a [`JSONToken`]: payloads are character sequences.
pub enum TokenKind {
    LBrace,
    RBrace,
    LBracket,
    RBracket,
    Comma,
    Colon,
    String(Seq<char>),
    Number(Seq<char>),
    True,
    False,
    Null,
    Eof,
}

/// The mathematical value of a [`Token`]: a kind and the positions `start <= end`
/// that bound it in the source.
pub struct Lexeme {
    pub kind: TokenKind,
    pub start: int,
    pub end: int,
}

impl TokenKind {
    /// One of the six punctuation marks `{ } [ ] : ,`.
    pub open spec fn is_structural(self) -> bool {
        self is LBrace || self is RBrace || self is LBracket || self is RBracket || self is Colon
            || self is Comma
    }
}

impl Lexeme {
    /// Number of source bytes that the lexeme covers.
    pub open spec fn len(self) -> int {
        self.end - self.start
    }
}

impl View for JSONToken {
    type V = TokenKind;

    open spec fn view(&self) -> TokenKind {
        match *self {
            JSONToken::LBrace => TokenKind::LBrace,
            JSONToken::RBrace => TokenKind::RBrace,
            JSONToken::LBracket => TokenKind::LBracket,
            JSONToken::RBracket => TokenKind::RBracket,
            JSONToken::Comma => TokenKind::Comma,
            JSONToken::Colon => TokenKind::Colon,
            JSONToken::String(text) => TokenKind::String(text@),
            JSONToken::Number(text) => TokenKind::Number(text@),
            JSONToken::True => TokenKind::True,
            JSONToken::False => TokenKind::False,
            JSONToken::Null => TokenKind::Null,
            JSONToken::Eof => TokenKind::Eof,
        }
    }
}

impl View for Token {
    type V = Lexeme;

    open spec fn view(&self) -> Lexeme {
        Lexeme { kind: self.kind@, start: self.span.start as int, end: self.span.end as int }
    }
}

} // verus!
