//! Whole runs: the sequence of tokens that an input holds.
use vstd::prelude::*;
use vstd::string::StringSliceAdditionalSpecFns;
use vstd::utf8::{decode_utf8, valid_utf8};
use crate::error::{Failure, JSONError};
use crate::grammar::{lex, scan_string};
use crate::laws::{lemma_run_ends_with_eof, lemma_string_texts_of_run_exact};
use crate::lemmas::lemma_lex;
use crate::lexer::Lexer;
use crate::token::{JSONToken, Lexeme, Token, TokenKind};

verus! {

/// Puts `head` in front of the tokens of a successful run.
pub open spec fn prepend_tokens(head: Seq<Lexeme>, run: Result<Seq<Lexeme>, Failure>) -> Result<
    Seq<Lexeme>,
    Failure,
> {
    match run {
        Ok(tokens) => Ok(head + tokens),
        Err(failure) => Err(failure),
    }
}

/// The tokens of `input` from `pos` on, up to and with the first `Eof`, or
/// the first error on the way.
pub open spec fn tokens_from(input: Seq<u8>, pos: int) -> Result<Seq<Lexeme>, Failure>
    decreases input.len() - pos,
    when 0 <= pos <= input.len()
    via tokens_from_decreases
{
    match lex(input, pos) {
        Err(failure) => Err(failure),
        Ok(lexeme) => if lexeme.kind is Eof {
            Ok(seq![lexeme])
        } else {
            prepend_tokens(seq![lexeme], tokens_from(input, lexeme.end))
        },
    }
}

#[via_fn]
proof fn tokens_from_decreases(input: Seq<u8>, pos: int) {
    lemma_lex(input, pos);
}

/// The tokens of a whole input: every token in source order, closed by one
/// `Eof`, or the first error.
pub open spec fn tokenize(input: Seq<u8>) -> Result<Seq<Lexeme>, Failure> {
    tokens_from(input, 0)
}

/// The mathematical values of a sequence of tokens.
pub open spec fn lexemes(tokens: Seq<Token>) -> Seq<Lexeme> {
    tokens.map_values(|token: Token| token@)
}

/// The mathematical value of what a run returns.
pub open spec fn token_stream(run: Result<Vec<Token>, JSONError>) -> Result<Seq<Lexeme>, Failure> {
    match run {
        Ok(tokens) => Ok(lexemes(tokens@)),
        Err(error) => Err(error@),
    }
}

/// The string token `lexeme` of `input` decodes to valid UTF-8, and its text
/// is exactly the characters that the decoded bytes encode.
pub open spec fn exact_text(input: Seq<u8>, lexeme: Lexeme) -> bool {
    let scan = scan_string(input, lexeme.start, lexeme.start + 1);
    &&& scan is Ok
    &&& valid_utf8(scan->Ok_0.0)
    &&& lexeme.kind == TokenKind::String(decode_utf8(scan->Ok_0.0))
}

/// Reads all tokens of `input`.
///
/// Returns every token in source order, with the closing `Eof` as the last
/// one, or the first error, in which case no token is returned. As `input` is
/// valid UTF-8, so is what every string literal decodes to: the text of each
/// string token is exact.
pub fn run(input: &str) -> (r: Result<Vec<Token>, JSONError>)
    ensures
        token_stream(r) == tokenize(input.spec_bytes()),
        r matches Ok(tokens) ==> {
            &&& tokens@.len() >= 1
            &&& tokens@.last().kind is Eof
            &&& forall|k: int| 0 <= k < tokens@.len() - 1 ==> !(#[trigger] tokens@[k].kind is Eof)
            &&& forall|k: int|
                0 <= k < tokens@.len() && (#[trigger] tokens@[k]).kind is String ==> exact_text(
                    input.spec_bytes(),
                    tokens@[k]@,
                )
        },
{
    let mut result: Vec<Token> = Vec::new();
    let mut lexer = Lexer::new(input.as_bytes());
    let ghost source = input.spec_bytes();
    loop
        invariant
            source == input.spec_bytes(),
            lexer.source() == source,
            0 <= lexer.cursor() <= source.len(),
            tokenize(source) == prepend_tokens(
                lexemes(result@),
                tokens_from(source, lexer.cursor()),
            ),
        decreases source.len() - lexer.cursor(),
    {
        let ghost pos = lexer.cursor();
        let ghost before = result@;
        proof {
            lemma_lex(source, pos);
        }
        match lexer.next_token() {
            Ok(token) => {
                let ghost lexeme = token@;
                match token.kind {
                    JSONToken::Eof => {
                        result.push(token);
                        proof {
                            lemma_run_ends_with_eof(source);
                            let all = tokenize(source)->Ok_0;
                            assert(all == lexemes(result@));
                            assert forall|k: int| 0 <= k < result@.len() - 1 implies !(
                            #[trigger] result@[k].kind is Eof) by {
                                assert(!(all[k].kind is Eof));
                            }
                            vstd::utf8::encode_utf8_valid_utf8(input@);
                            assert forall|k: int|
                                0 <= k < result@.len() && (
                                #[trigger] result@[k]).kind is String implies exact_text(
                                source,
                                result@[k]@,
                            ) by {
                                lemma_string_texts_of_run_exact(source, k);
                            }
                        }
                        return Ok(result);
                    },
                    _ => {
                        result.push(token);
                        proof {
                            if let Ok(rest) = tokens_from(source, lexeme.end) {
                                assert(lexemes(result@) + rest =~= lexemes(before) + (seq![lexeme]
                                    + rest));
                            }
                        }
                    },
                }
            },
            Err(error) => {
                return Err(error);
            },
        }
    }
}

} // verus!
