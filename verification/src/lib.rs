//! A lexical analyzer for JSON text.
//!
//! The lexer turns a byte buffer into tokens, each with the exact byte range
//! it covers, and reports malformed input at the position where it fails.
//!
//! - [`token`] and [`error`] hold the vocabulary: tokens, spans and errors,
//!   with the mathematical values that contracts speak of.
//! - [`grammar`] states the token grammar as functions on byte sequences.
//! - [`lexer`] holds the [`Lexer`], whose `next_token` is proved to follow the
//!   grammar, and [`stream`] the driver [`run`] for whole inputs.
//! - [`text`] turns decoded bytes into `String` payloads.
//! - [`laws`] states what holds of every token and every run; [`lemmas`] and
//!   [`unicode`] hold the facts those proofs rest on.
pub mod error;
pub mod grammar;
pub mod laws;
pub mod lemmas;
pub mod lexer;
pub mod stream;
pub mod text;
pub mod token;
pub mod unicode;

pub use error::{ErrorInfo, Found, JSONError};
pub use lexer::Lexer;
pub use stream::run;
pub use token::{JSONToken, Span, Token};
