//! Laws of the lexer: what holds of every token and of every run.
use vstd::prelude::*;
use vstd::utf8::{decode_utf8, encode_utf8, valid_utf8};
use crate::error::Failure;
use crate::grammar::{
    cursor_after, false_word, is_number_literal, is_ws, lex, lex_at, null_word, number_end,
    number_shape, scan_string, skip_ws, true_word, QUOTE,
};
use crate::lemmas::{
    lemma_agreement, lemma_agreement_in_cut, lemma_lex, lemma_number_end,
    lemma_number_has_shape, lemma_number_in_cut, lemma_scan_string, lemma_scan_string_in_cut,
    lemma_shape_is_number, lemma_skip_ws,
};
use crate::stream::{exact_text, tokenize, tokens_from};
use crate::text::{ascii_text, lemma_ascii_text};
use crate::unicode::{
    lemma_scan_string_is_valid, lemma_valid_behind_ascii, lemma_valid_from_ascii,
};
use crate::token::{Lexeme, TokenKind};

verus! {

/// Every token of a run is the token that the lexer yields at some position
/// of the input.
pub proof fn lemma_token_of_run(input: Seq<u8>, pos: int, k: int) -> (at: int)
    requires
        0 <= pos <= input.len(),
        tokens_from(input, pos) is Ok,
        0 <= k < tokens_from(input, pos)->Ok_0.len(),
    ensures
        pos <= at <= input.len(),
        lex(input, at) == Ok::<Lexeme, Failure>(tokens_from(input, pos)->Ok_0[k]),
    decreases input.len() - pos,
{
    lemma_lex(input, pos);
    let first = lex(input, pos)->Ok_0;
    if k == 0 {
        pos
    } else {
        lemma_token_of_run(input, first.end, k - 1)
    }
}

/// A successful run ends with `Eof`, and holds no other `Eof`.
pub proof fn lemma_run_ends_with_eof(input: Seq<u8>)
    requires
        tokenize(input) is Ok,
    ensures
        tokenize(input)->Ok_0.len() >= 1,
        tokenize(input)->Ok_0.last().kind is Eof,
        forall|k: int|
            0 <= k < tokenize(input)->Ok_0.len() - 1 ==> !(#[trigger] tokenize(input)->Ok_0[k].kind
                is Eof),
{
    lemma_eof_closes(input, 0);
}

/// From any position on, a successful run ends with `Eof` and holds no other
/// `Eof`.
pub proof fn lemma_eof_closes(input: Seq<u8>, pos: int)
    requires
        0 <= pos <= input.len(),
        tokens_from(input, pos) is Ok,
    ensures
        tokens_from(input, pos)->Ok_0.len() >= 1,
        tokens_from(input, pos)->Ok_0.last().kind is Eof,
        forall|k: int|
            0 <= k < tokens_from(input, pos)->Ok_0.len() - 1 ==> !(#[trigger] tokens_from(
                input,
                pos,
            )->Ok_0[k].kind is Eof),
    decreases input.len() - pos,
{
    lemma_lex(input, pos);
    let first = lex(input, pos)->Ok_0;
    if !(first.kind is Eof) {
        lemma_eof_closes(input, first.end);
    }
}

/// The tokens of a successful run lie inside the input, in source order:
/// none starts before the one before it ends.
pub proof fn lemma_run_in_order(input: Seq<u8>)
    requires
        tokenize(input) is Ok,
    ensures
        forall|k: int|
            0 <= k < tokenize(input)->Ok_0.len() ==> 0 <= (#[trigger] tokenize(
                input,
            )->Ok_0[k]).start <= tokenize(input)->Ok_0[k].end <= input.len(),
        forall|j: int, k: int|
            0 <= j < k < tokenize(input)->Ok_0.len() ==> (#[trigger] tokenize(input)->Ok_0[j]).end
                <= (#[trigger] tokenize(input)->Ok_0[k]).start,
{
    lemma_in_order_from(input, 0);
}

/// From any position on, the tokens of a successful run lie between that
/// position and the end of the input, in source order.
pub proof fn lemma_in_order_from(input: Seq<u8>, pos: int)
    requires
        0 <= pos <= input.len(),
        tokens_from(input, pos) is Ok,
    ensures
        forall|k: int|
            0 <= k < tokens_from(input, pos)->Ok_0.len() ==> pos <= (#[trigger] tokens_from(
                input,
                pos,
            )->Ok_0[k]).start <= tokens_from(input, pos)->Ok_0[k].end <= input.len(),
        forall|j: int, k: int|
            0 <= j < k < tokens_from(input, pos)->Ok_0.len() ==> (#[trigger] tokens_from(
                input,
                pos,
            )->Ok_0[j]).end <= (#[trigger] tokens_from(input, pos)->Ok_0[k]).start,
    decreases input.len() - pos,
{
    lemma_lex(input, pos);
    let first = lex(input, pos)->Ok_0;
    if !(first.kind is Eof) {
        lemma_in_order_from(input, first.end);
    }
}

/// Some token of `tokens` covers position `p`.
pub open spec fn covered(tokens: Seq<Lexeme>, p: int) -> bool {
    exists|k: int| 0 <= k < tokens.len() && (#[trigger] tokens[k]).start <= p < tokens[k].end
}

/// A successful run leaves nothing out: every byte of the input is
/// whitespace or lies in the span of a token.
pub proof fn lemma_run_covers_input(input: Seq<u8>)
    requires
        tokenize(input) is Ok,
    ensures
        forall|p: int|
            0 <= p < input.len() ==> is_ws(#[trigger] input[p]) || covered(
                tokenize(input)->Ok_0,
                p,
            ),
{
    lemma_covers_from(input, 0);
}

/// From any position on, every byte of the input is whitespace or lies in the
/// span of a token of the run.
pub proof fn lemma_covers_from(input: Seq<u8>, pos: int)
    requires
        0 <= pos <= input.len(),
        tokens_from(input, pos) is Ok,
    ensures
        forall|p: int|
            pos <= p < input.len() ==> is_ws(#[trigger] input[p]) || covered(
                tokens_from(input, pos)->Ok_0,
                p,
            ),
    decreases input.len() - pos,
{
    lemma_lex(input, pos);
    lemma_skip_ws(input, pos);
    let first = lex(input, pos)->Ok_0;
    let all = tokens_from(input, pos)->Ok_0;
    if !(first.kind is Eof) {
        lemma_covers_from(input, first.end);
        let rest = tokens_from(input, first.end)->Ok_0;
        assert forall|p: int| pos <= p < input.len() implies is_ws(#[trigger] input[p]) || covered(
            all,
            p,
        ) by {
            if first.start <= p < first.end {
                assert(all[0] == first);
            } else if p >= first.end && !is_ws(input[p]) {
                let k = choose|k: int|
                    0 <= k < rest.len() && (#[trigger] rest[k]).start <= p < rest[k].end;
                assert(all[k + 1] == rest[k]);
            }
        }
    }
}

/// An input of whitespace only holds one token: `Eof`, with the empty span at
/// the end of the input. The empty input is the case of no whitespace at all.
pub proof fn lemma_whitespace_only(input: Seq<u8>)
    requires
        forall|i: int| 0 <= i < input.len() ==> is_ws(#[trigger] input[i]),
    ensures
        tokenize(input) == Ok::<Seq<Lexeme>, Failure>(
            seq![
                Lexeme { kind: TokenKind::Eof, start: input.len() as int, end: input.len() as int },
            ],
        ),
{
    lemma_skip_ws(input, 0);
}

/// A punctuation token covers exactly one byte.
pub proof fn lemma_structural_span(input: Seq<u8>, pos: int)
    requires
        lex(input, pos) is Ok,
        lex(input, pos)->Ok_0.kind.is_structural(),
    ensures
        lex(input, pos)->Ok_0.len() == 1,
{
}

/// In a successful run every punctuation token covers exactly one byte.
pub proof fn lemma_structural_spans_of_run(input: Seq<u8>)
    requires
        tokenize(input) is Ok,
    ensures
        forall|k: int|
            0 <= k < tokenize(input)->Ok_0.len() && (#[trigger] tokenize(
                input,
            )->Ok_0[k]).kind.is_structural() ==> tokenize(input)->Ok_0[k].len() == 1,
{
    let all = tokenize(input)->Ok_0;
    assert forall|k: int| 0 <= k < all.len() && (#[trigger] all[k]).kind.is_structural() implies
        all[k].len() == 1 by {
        let at = lemma_token_of_run(input, 0, k);
        lemma_structural_span(input, at);
    }
}

/// Once the lexer has yielded `Eof`, it yields the same `Eof` again from where
/// it stands, and never an error.
pub proof fn lemma_eof_again(input: Seq<u8>, pos: int)
    requires
        0 <= pos <= input.len(),
        lex(input, pos) is Ok,
        lex(input, pos)->Ok_0.kind is Eof,
    ensures
        lex(input, cursor_after(lex(input, pos))) == lex(input, pos),
{
    lemma_lex(input, pos);
}

/// The text of a number token is the source text of its span: one character
/// for each byte, and the UTF-8 bytes of the text are the bytes of the span.
pub proof fn lemma_number_text(input: Seq<u8>, pos: int)
    requires
        0 <= pos <= input.len(),
        lex(input, pos) is Ok,
        lex(input, pos)->Ok_0.kind is Number,
    ensures
        ({
            let token = lex(input, pos)->Ok_0;
            let literal = input.subrange(token.start, token.end);
            &&& token.kind == TokenKind::Number(ascii_text(literal))
            &&& encode_utf8(token.kind->Number_0) == literal
        }),
{
    lemma_skip_ws(input, pos);
    let start = skip_ws(input, pos);
    lemma_number_end(input, start);
    let token = lex(input, pos)->Ok_0;
    lemma_ascii_text(input.subrange(token.start, token.end));
}

/// The number grammar, both ways: a byte string is read as one number from
/// its first byte to its last exactly if it matches
/// `-?(0|[1-9][0-9]*)(\.[0-9]+)?([eE][+-]?[0-9]+)?`.
pub proof fn lemma_number_grammar(s: Seq<u8>)
    ensures
        is_number_literal(s) <==> number_end(s, 0) == Ok::<int, int>(s.len() as int),
{
    if is_number_literal(s) {
        let (i, j, k) = choose|i: int, j: int, k: int| number_shape(s, i, j, k);
        lemma_shape_is_number(s, i, j, k);
    }
    if number_end(s, 0) == Ok::<int, int>(s.len() as int) {
        lemma_number_has_shape(s);
    }
}

/// The span of a number token holds a number literal of the grammar, from
/// its first byte to its last.
pub proof fn lemma_number_span(input: Seq<u8>, pos: int)
    requires
        0 <= pos <= input.len(),
        lex(input, pos) is Ok,
        lex(input, pos)->Ok_0.kind is Number,
    ensures
        is_number_literal(
            input.subrange(lex(input, pos)->Ok_0.start, lex(input, pos)->Ok_0.end),
        ),
{
    lemma_lex(input, pos);
    let token = lex(input, pos)->Ok_0;
    lemma_number_in_cut(input, token.start, token.end);
    lemma_number_grammar(input.subrange(token.start, token.end));
}

/// A number token takes all it can: no longer stretch of the input from its
/// start on is a number literal of the grammar.
pub proof fn lemma_number_is_longest(input: Seq<u8>, pos: int, longer: int)
    requires
        0 <= pos <= input.len(),
        lex(input, pos) is Ok,
        lex(input, pos)->Ok_0.kind is Number,
        lex(input, pos)->Ok_0.end < longer <= input.len(),
    ensures
        !is_number_literal(input.subrange(lex(input, pos)->Ok_0.start, longer)),
{
    lemma_lex(input, pos);
    let token = lex(input, pos)->Ok_0;
    lemma_number_in_cut(input, token.start, longer);
    lemma_number_grammar(input.subrange(token.start, longer));
}

/// The span of a string token opens with a quote and closes with one.
pub proof fn lemma_string_span(input: Seq<u8>, pos: int)
    requires
        0 <= pos <= input.len(),
        lex(input, pos) is Ok,
        lex(input, pos)->Ok_0.kind is String,
    ensures
        ({
            let token = lex(input, pos)->Ok_0;
            &&& token.len() >= 2
            &&& input[token.start] == QUOTE
            &&& input[token.end - 1] == QUOTE
        }),
{
    lemma_lex(input, pos);
    let start = lex(input, pos)->Ok_0.start;
    lemma_scan_string(input, start, start + 1);
}

/// A token depends on the bytes of its own span only: cut out of the input
/// and read on their own, those bytes give the same token, over the whole of
/// the cut. So the span of a number or a string token holds the literal
/// exactly as it is written, no byte more and none less.
pub proof fn lemma_token_in_own_span(input: Seq<u8>, pos: int)
    requires
        0 <= pos <= input.len(),
        lex(input, pos) is Ok,
    ensures
        ({
            let token = lex(input, pos)->Ok_0;
            let literal = input.subrange(token.start, token.end);
            lex_at(literal, 0) == Ok::<Lexeme, Failure>(
                Lexeme { kind: token.kind, start: 0, end: literal.len() as int },
            )
        }),
{
    lemma_lex(input, pos);
    let token = lex(input, pos)->Ok_0;
    let start = token.start;
    let literal = input.subrange(start, token.end);
    if start < input.len() {
        match token.kind {
            TokenKind::True => {
                lemma_agreement(input, start, true_word(), 0);
                lemma_agreement_in_cut(input, start, true_word(), 0);
            },
            TokenKind::False => {
                lemma_agreement(input, start, false_word(), 0);
                lemma_agreement_in_cut(input, start, false_word(), 0);
            },
            TokenKind::Null => {
                lemma_agreement(input, start, null_word(), 0);
                lemma_agreement_in_cut(input, start, null_word(), 0);
            },
            TokenKind::Number(_) => {
                lemma_number_in_cut(input, start, token.end);
                assert(literal.subrange(0, literal.len() as int) =~= literal);
            },
            TokenKind::String(_) => {
                lemma_scan_string(input, start, start + 1);
                lemma_scan_string_in_cut(input, start, start + 1, token.end);
            },
            _ => {},
        }
    }
}

/// In an input that is valid UTF-8, what a string token decodes to is valid
/// UTF-8 too. Its text is exactly the characters that the decoded bytes
/// encode, and the replacement character never enters.
pub proof fn lemma_string_text_exact(input: Seq<u8>, pos: int)
    requires
        valid_utf8(input),
        0 <= pos <= input.len(),
        lex(input, pos) is Ok,
        lex(input, pos)->Ok_0.kind is String,
    ensures
        ({
            let token = lex(input, pos)->Ok_0;
            let scan = scan_string(input, token.start, token.start + 1);
            &&& scan is Ok
            &&& valid_utf8(scan->Ok_0.0)
            &&& token.kind == TokenKind::String(decode_utf8(scan->Ok_0.0))
            &&& encode_utf8(token.kind->String_0) == scan->Ok_0.0
        }),
{
    lemma_lex(input, pos);
    let start = lex(input, pos)->Ok_0.start;
    lemma_valid_from_ascii(input, start);
    lemma_valid_behind_ascii(input, start);
    lemma_scan_string_is_valid(input, start, start + 1);
    vstd::utf8::decode_utf8_encode_utf8(scan_string(input, start, start + 1)->Ok_0.0);
}

/// In a successful run over valid UTF-8, the text of every string token is
/// exactly the characters that its decoded bytes encode.
pub proof fn lemma_string_texts_of_run_exact(input: Seq<u8>, k: int)
    requires
        valid_utf8(input),
        tokenize(input) is Ok,
        0 <= k < tokenize(input)->Ok_0.len(),
        tokenize(input)->Ok_0[k].kind is String,
    ensures
        exact_text(input, tokenize(input)->Ok_0[k]),
{
    let at = lemma_token_of_run(input, 0, k);
    lemma_string_text_exact(input, at);
}

} // verus!
