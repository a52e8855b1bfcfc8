//! Lexical errors: what went wrong, where, and what stood there.
use vstd::prelude::*;

verus! {

/// What the lexer met at the point where it could not go on.
#[derive(Debug, Clone, Copy, PartialEq, Eq, Structural)]
pub enum Found {
    Byte(u8),
    Eof,
}

/// Position and offender of a lexical error.
#[derive(Debug, Clone, Copy, PartialEq, Eq, Structural)]
pub struct ErrorInfo {
    pub offset: usize,
    pub found: Found,
}

/// The five ways in which input can fail to be a token.
#[derive(Debug, Clone, Copy, PartialEq, Eq, Structural)]
pub enum JSONError {
    /// A byte that starts no token, or that breaks off a keyword.
    UnexpectedByte(ErrorInfo),
    /// The input ends inside a string literal.
    UnterminatedString(ErrorInfo),
    /// A backslash followed by a character that names no escape.
    InvalidEscape(ErrorInfo),
    /// A `\u` escape that is malformed, or a surrogate without its partner.
    InvalidUnicodeEscape(ErrorInfo),
    /// A number literal that breaks the number grammar.
    InvalidNumber(ErrorInfo),
}

/// The variant of a [`JSONError`], without its details.
pub enum ErrorKind {
    UnexpectedByte,
    UnterminatedString,
    InvalidEscape,
    InvalidUnicodeEscape,
    InvalidNumber,
}

/// The mathematical value of a [`JSONError`].
pub struct Failure {
    pub kind: ErrorKind,
    pub offset: int,
    pub found: Found,
}

impl JSONError {
    /// The variant of this error.
    pub open spec fn kind(self) -> ErrorKind {
        match self {
            JSONError::UnexpectedByte(_) => ErrorKind::UnexpectedByte,
            JSONError::UnterminatedString(_) => ErrorKind::UnterminatedString,
            JSONError::InvalidEscape(_) => ErrorKind::InvalidEscape,
            JSONError::InvalidUnicodeEscape(_) => ErrorKind::InvalidUnicodeEscape,
            JSONError::InvalidNumber(_) => ErrorKind::InvalidNumber,
        }
    }

    /// The details that every variant carries.
    pub open spec fn info(self) -> ErrorInfo {
        match self {
            JSONError::UnexpectedByte(info) => info,
            JSONError::UnterminatedString(info) => info,
            JSONError::InvalidEscape(info) => info,
            JSONError::InvalidUnicodeEscape(info) => info,
            JSONError::InvalidNumber(info) => info,
        }
    }
}

impl JSONError {
    /// The byte position at which the error was detected.
    pub fn offset(&self) -> (offset: usize)
        ensures
            offset == self.info().offset,
            offset == self@.offset,
    {
        match self {
            JSONError::UnexpectedByte(info) => info.offset,
            JSONError::UnterminatedString(info) => info.offset,
            JSONError::InvalidEscape(info) => info.offset,
            JSONError::InvalidUnicodeEscape(info) => info.offset,
            JSONError::InvalidNumber(info) => info.offset,
        }
    }
}

impl View for JSONError {
    type V = Failure;

    open spec fn view(&self) -> Failure {
        Failure {
            kind: self.kind(),
            offset: self.info().offset as int,
            found: self.info().found,
        }
    }
}

} // verus!
