//! What holds of the grammar: facts about positions, spans and payloads that
//! follow from the definitions, each proved once for every input.
use vstd::prelude::*;
use crate::error::Failure;
use crate::grammar::{
    agreement, byte_at, digit_at, digits_end, escape_at, exponent_end, false_word, fraction_end,
    hex_quad, hex_run, integer_end, is_digit, is_digits, is_number_literal, is_ws, keyword, lex,
    lex_at, null_word, number_end, number_shape, scan_string, skip_ws, true_word, BACKSLASH, DOT,
    LOWER_E, LOWER_U, MINUS, PLUS, QUOTE, UPPER_E, ZERO,
};
use crate::token::{Lexeme, TokenKind};
use crate::text::is_ascii_bytes;

verus! {

/// A byte that can occur in a number literal.
pub open spec fn is_number_byte(b: u8) -> bool {
    is_digit(b) || b == MINUS || b == PLUS || b == DOT || b == LOWER_E || b == UPPER_E
}

/// All bytes of `input` in `[from, to)` are decimal digits.
pub open spec fn all_digits(input: Seq<u8>, from: int, to: int) -> bool {
    forall|i: int| from <= i < to ==> digit_at(input, i)
}

/// All bytes of `input` in `[from, to)` can occur in a number literal.
pub open spec fn all_number_bytes(input: Seq<u8>, from: int, to: int) -> bool {
    forall|i: int| from <= i < to ==> 0 <= i < input.len() && is_number_byte(#[trigger] input[i])
}

/// A run of digits ends inside the input, holds digits only, and cannot be
/// made longer.
pub proof fn lemma_digits_end(input: Seq<u8>, from: int)
    requires
        0 <= from <= input.len(),
    ensures
        from <= digits_end(input, from) <= input.len(),
        all_digits(input, from, digits_end(input, from)),
        !digit_at(input, digits_end(input, from)),
    decreases input.len() - from,
{
    if digit_at(input, from) {
        lemma_digits_end(input, from + 1);
    }
}

/// A run of digits ends where the digits end: at the first position behind
/// them that holds none.
pub proof fn lemma_digits_end_is(input: Seq<u8>, from: int, to: int)
    requires
        0 <= from <= to <= input.len(),
        forall|i: int| from <= i < to ==> is_digit(#[trigger] input[i]),
        !digit_at(input, to),
    ensures
        digits_end(input, from) == to,
    decreases to - from,
{
    if from < to {
        lemma_digits_end_is(input, from + 1, to);
    }
}

/// What is read as one number from the first byte to the last has the shape
/// of a number literal.
pub proof fn lemma_number_has_shape(s: Seq<u8>)
    requires
        number_end(s, 0) == Ok::<int, int>(s.len() as int),
    ensures
        is_number_literal(s),
{
    let i: int = if byte_at(s, 0, MINUS) {
        1
    } else {
        0
    };
    let j = integer_end(s, i)->Ok_0;
    let k = fraction_end(s, j)->Ok_0;
    if s[i] != ZERO {
        lemma_digits_end(s, i + 1);
    }
    assert(is_digits(s, i, j)) by {
        assert forall|x: int| i <= x < j implies is_digit(#[trigger] s[x]) by {
            assert(digit_at(s, x));
        }
    }
    if byte_at(s, j, DOT) {
        lemma_digits_end(s, j + 2);
        assert(is_digits(s, j + 1, k)) by {
            assert forall|x: int| j + 1 <= x < k implies is_digit(#[trigger] s[x]) by {
                assert(digit_at(s, x));
            }
        }
    }
    if byte_at(s, k, LOWER_E) || byte_at(s, k, UPPER_E) {
        let digits = if byte_at(s, k + 1, PLUS) || byte_at(s, k + 1, MINUS) {
            k + 2
        } else {
            k + 1
        };
        lemma_digits_end(s, digits + 1);
        assert(is_digits(s, digits, s.len() as int)) by {
            assert forall|x: int| digits <= x < s.len() implies is_digit(#[trigger] s[x]) by {
                assert(digit_at(s, x));
            }
        }
    }
    assert(number_shape(s, i, j, k));
}

/// What has the shape of a number literal is read as one number from the
/// first byte to the last.
pub proof fn lemma_shape_is_number(s: Seq<u8>, i: int, j: int, k: int)
    requires
        number_shape(s, i, j, k),
    ensures
        number_end(s, 0) == Ok::<int, int>(s.len() as int),
{
    let n = s.len() as int;
    // Behind each run of digits stands a byte that is no digit, or nothing.
    assert(!digit_at(s, j) && !digit_at(s, k));
    assert(integer_end(s, i) == Ok::<int, int>(j)) by {
        if s[i] != ZERO {
            lemma_digits_end_is(s, i + 1, j);
        }
    }
    assert(fraction_end(s, j) == Ok::<int, int>(k)) by {
        if k > j {
            lemma_digits_end_is(s, j + 2, k);
        }
    }
    assert(exponent_end(s, k) == Ok::<int, int>(n)) by {
        if k < n {
            if is_digits(s, k + 1, n) {
                lemma_digits_end_is(s, k + 2, n);
            } else {
                lemma_digits_end_is(s, k + 3, n);
            }
        }
    }
}

/// A number literal is not empty, ends inside the input, and is made of
/// ASCII bytes only. A malformed one breaks off inside the input or at its
/// end.
pub proof fn lemma_number_end(input: Seq<u8>, start: int)
    requires
        0 <= start <= input.len(),
    ensures
        match number_end(input, start) {
            Ok(end) => start < end <= input.len() && all_number_bytes(input, start, end)
                && is_ascii_bytes(input.subrange(start, end)),
            Err(at) => start <= at <= input.len(),
        },
{
    let digits = if byte_at(input, start, MINUS) {
        start + 1
    } else {
        start
    };
    if let Ok(i) = integer_end(input, digits) {
        if input[digits] != ZERO {
            lemma_digits_end(input, digits + 1);
        }
        assert(all_number_bytes(input, start, i)) by {
            assert forall|k: int| start <= k < i implies 0 <= k < input.len() && is_number_byte(
                #[trigger] input[k],
            ) by {
                if k > digits {
                    assert(digit_at(input, k));
                }
            }
        }
        if let Ok(j) = fraction_end(input, i) {
            if byte_at(input, i, DOT) {
                lemma_digits_end(input, i + 2);
            }
            assert(all_number_bytes(input, start, j)) by {
                assert forall|k: int| start <= k < j implies 0 <= k < input.len()
                    && is_number_byte(#[trigger] input[k]) by {
                    if k >= i + 2 {
                        assert(digit_at(input, k));
                    }
                }
            }
            if byte_at(input, j, LOWER_E) || byte_at(input, j, UPPER_E) {
                let exponent = if byte_at(input, j + 1, PLUS) || byte_at(input, j + 1, MINUS) {
                    j + 2
                } else {
                    j + 1
                };
                if digit_at(input, exponent) {
                    lemma_digits_end(input, exponent + 1);
                    let end = digits_end(input, exponent + 1);
                    assert forall|k: int| start <= k < end implies 0 <= k < input.len()
                        && is_number_byte(#[trigger] input[k]) by {
                        if k > exponent {
                            assert(digit_at(input, k));
                        }
                    }
                }
            }
        }
    }
    if let Ok(end) = number_end(input, start) {
        let literal = input.subrange(start, end);
        assert forall|k: int| 0 <= k < literal.len() implies #[trigger] literal[k] < 0x80 by {
        }
    }
}

/// Whitespace is passed over up to the first byte that is none, and no
/// further.
pub proof fn lemma_skip_ws(input: Seq<u8>, from: int)
    requires
        0 <= from <= input.len(),
    ensures
        from <= skip_ws(input, from) <= input.len(),
        forall|i: int| from <= i < skip_ws(input, from) ==> is_ws(#[trigger] input[i]),
        skip_ws(input, from) < input.len() ==> !is_ws(input[skip_ws(input, from)]),
    decreases input.len() - from,
{
    if from < input.len() && is_ws(input[from]) {
        lemma_skip_ws(input, from + 1);
    }
}

/// The input agrees with `word` up to the point of agreement, which lies
/// inside both.
pub proof fn lemma_agreement(input: Seq<u8>, start: int, word: Seq<u8>, from: int)
    requires
        0 <= start,
        0 <= from <= word.len(),
        start + from <= input.len(),
    ensures
        from <= agreement(input, start, word, from) <= word.len(),
        start + agreement(input, start, word, from) <= input.len(),
        forall|k: int|
            from <= k < agreement(input, start, word, from) ==> input[start + k]
                == #[trigger] word[k],
    decreases word.len() - from,
{
    if from < word.len() && byte_at(input, start + from, word[from]) {
        lemma_agreement(input, start, word, from + 1);
    }
}

/// A keyword token covers exactly the word; a mismatch is reported inside the
/// word's reach and inside the input, or at its end.
pub proof fn lemma_keyword(input: Seq<u8>, start: int, word: Seq<u8>, kind: TokenKind)
    requires
        0 <= start <= input.len(),
    ensures
        match keyword(input, start, word, kind) {
            Ok(lexeme) => lexeme == (Lexeme { kind, start, end: start + word.len() }) && start
                + word.len() <= input.len() && input.subrange(start, start + word.len()) == word,
            Err(failure) => start <= failure.offset <= input.len() && failure.offset < start
                + word.len(),
        },
{
    lemma_agreement(input, start, word, 0);
}

/// An escape sequence ends inside the input, behind where it began; a
/// rejected one is reported at its backslash or at the byte after it.
pub proof fn lemma_escape_at(input: Seq<u8>, i: int)
    requires
        0 <= i,
        i + 1 < input.len(),
    ensures
        match escape_at(input, i) {
            Ok((_, next)) => i + 2 <= next <= input.len(),
            Err(failure) => i <= failure.offset <= i + 1,
        },
{
}

/// A string literal ends behind its closing quote, inside the input; an error
/// in it is reported inside the input.
pub proof fn lemma_scan_string(input: Seq<u8>, open: int, i: int)
    requires
        0 <= open < i <= input.len(),
    ensures
        match scan_string(input, open, i) {
            Ok((_, end)) => i < end <= input.len() && input[end - 1] == QUOTE,
            Err(failure) => open <= failure.offset < input.len(),
        },
    decreases input.len() - i,
{
    if i < input.len() && input[i] != QUOTE {
        if input[i] == BACKSLASH {
            if i + 1 < input.len() {
                lemma_escape_at(input, i);
                if let Ok((_, next)) = escape_at(input, i) {
                    lemma_scan_string(input, open, next);
                }
            }
        } else {
            lemma_scan_string(input, open, i + 1);
        }
    }
}

/// The token at a position that holds no whitespace starts there and ends
/// inside the input. It is `Eof` exactly at the end of the input, and every
/// other token is at least one byte long. An error is reported at or behind
/// that position, inside the input or at its end.
pub proof fn lemma_lex_at(input: Seq<u8>, start: int)
    requires
        0 <= start <= input.len(),
    ensures
        match lex_at(input, start) {
            Ok(lexeme) => {
                &&& lexeme.start == start
                &&& start <= lexeme.end <= input.len()
                &&& (lexeme.kind is Eof <==> start == input.len())
                &&& (lexeme.kind is Eof <==> lexeme.end == start)
            },
            Err(failure) => start <= failure.offset <= input.len(),
        },
{
    if start < input.len() {
        lemma_keyword(input, start, true_word(), TokenKind::True);
        lemma_keyword(input, start, false_word(), TokenKind::False);
        lemma_keyword(input, start, null_word(), TokenKind::Null);
        lemma_number_end(input, start);
        lemma_scan_string(input, start, start + 1);
    }
}

/// The next token at or after `pos` lies between `pos` and the end of the
/// input, with nothing but whitespace before it. It is `Eof` exactly when
/// only whitespace is left, and every other token is at least one byte long.
/// An error is reported at or behind `pos`, inside the input or at its end.
pub proof fn lemma_lex(input: Seq<u8>, pos: int)
    requires
        0 <= pos <= input.len(),
    ensures
        match lex(input, pos) {
            Ok(lexeme) => {
                &&& lexeme.start == skip_ws(input, pos)
                &&& pos <= lexeme.start <= lexeme.end <= input.len()
                &&& (lexeme.kind is Eof <==> lexeme.start == input.len())
                &&& (lexeme.kind is Eof <==> lexeme.end == lexeme.start)
            },
            Err(failure) => pos <= failure.offset <= input.len(),
        },
{
    lemma_skip_ws(input, pos);
    lemma_lex_at(input, skip_ws(input, pos));
}

// ------------------------------------------------------- one span at a time
//
// What follows shows that a token depends on the bytes of its own span only:
// each part of the grammar reads the cut `input.subrange(a, b)` as it reads
// the input, as long as what it reads ends at or before `b`.

/// A run of digits that ends at or before `b` is the same run in the cut.
pub proof fn lemma_digits_end_in_cut(input: Seq<u8>, a: int, b: int, i: int)
    requires
        0 <= a <= i <= b <= input.len(),
        digits_end(input, i) <= b,
    ensures
        digits_end(input.subrange(a, b), i - a) == digits_end(input, i) - a,
    decreases b - i,
{
    if digit_at(input, i) {
        lemma_digits_end(input, i + 1);
        lemma_digits_end_in_cut(input, a, b, i + 1);
    }
}

/// A number literal is the same literal in every cut that starts where it
/// starts and holds the whole of it.
pub proof fn lemma_number_in_cut(input: Seq<u8>, start: int, b: int)
    requires
        0 <= start <= input.len(),
        number_end(input, start) is Ok,
        number_end(input, start)->Ok_0 <= b <= input.len(),
    ensures
        number_end(input.subrange(start, b), 0) == Ok::<int, int>(
            number_end(input, start)->Ok_0 - start,
        ),
{
    let end = number_end(input, start)->Ok_0;
    let cut = input.subrange(start, b);
    lemma_number_end(input, start);
    assert forall|k: int| start <= k < b implies #[trigger] cut[k - start] == input[k] by {}
    let digits = if byte_at(input, start, MINUS) {
        start + 1
    } else {
        start
    };
    let i = integer_end(input, digits)->Ok_0;
    let j = fraction_end(input, i)->Ok_0;
    // The three parts end one behind the other, the last at `end`, and each
    // run of digits in them is the same run in the cut.
    if input[digits] != ZERO {
        lemma_digits_end(input, digits + 1);
    }
    if byte_at(input, i, DOT) {
        lemma_digits_end(input, i + 2);
    }
    if byte_at(input, j, LOWER_E) || byte_at(input, j, UPPER_E) {
        let exponent = if byte_at(input, j + 1, PLUS) || byte_at(input, j + 1, MINUS) {
            j + 2
        } else {
            j + 1
        };
        lemma_digits_end(input, exponent + 1);
        lemma_digits_end_in_cut(input, start, b, exponent + 1);
    }
    if input[digits] != ZERO {
        lemma_digits_end_in_cut(input, start, b, digits + 1);
    }
    if byte_at(input, i, DOT) {
        lemma_digits_end_in_cut(input, start, b, i + 2);
    }
}

/// Four hexadecimal digits that end at or before `b` are the same four in the
/// cut.
pub proof fn lemma_hex_quad_in_cut(input: Seq<u8>, a: int, b: int, from: int)
    requires
        0 <= a <= from,
        from + 4 <= b <= input.len(),
    ensures
        hex_run(input.subrange(a, b), from - a) == hex_run(input, from),
        hex_quad(input.subrange(a, b), from - a) == hex_quad(input, from),
{
}

/// An escape sequence that ends at or before `b` is the same sequence in the
/// cut.
pub proof fn lemma_escape_in_cut(input: Seq<u8>, a: int, b: int, i: int)
    requires
        0 <= a <= i,
        i + 1 < input.len(),
        b <= input.len(),
        escape_at(input, i) is Ok,
        escape_at(input, i)->Ok_0.1 <= b,
    ensures
        escape_at(input.subrange(a, b), i - a) == Ok::<(Seq<u8>, int), Failure>(
            (escape_at(input, i)->Ok_0.0, escape_at(input, i)->Ok_0.1 - a),
        ),
{
    let next = escape_at(input, i)->Ok_0.1;
    if input[i + 1] == LOWER_U {
        lemma_hex_quad_in_cut(input, a, b, i + 2);
        if next == i + 12 {
            lemma_hex_quad_in_cut(input, a, b, i + 8);
        }
    }
}

/// A string literal that closes at `b` is the same literal in the cut.
pub proof fn lemma_scan_string_in_cut(input: Seq<u8>, open: int, i: int, b: int)
    requires
        0 <= open < i <= b <= input.len(),
        scan_string(input, open, i) is Ok,
        scan_string(input, open, i)->Ok_0.1 == b,
    ensures
        scan_string(input.subrange(open, b), 0, i - open) == Ok::<(Seq<u8>, int), Failure>(
            (scan_string(input, open, i)->Ok_0.0, b - open),
        ),
    decreases input.len() - i,
{
    lemma_scan_string(input, open, i);
    if input[i] == BACKSLASH {
        lemma_escape_at(input, i);
        let next = escape_at(input, i)->Ok_0.1;
        lemma_scan_string(input, open, next);
        lemma_escape_in_cut(input, open, b, i);
        lemma_scan_string_in_cut(input, open, next, b);
    } else if input[i] != QUOTE {
        lemma_scan_string_in_cut(input, open, i + 1, b);
    }
}

/// A word that the input spells out in full is spelled out by the cut to the
/// word's length.
pub proof fn lemma_agreement_in_cut(input: Seq<u8>, start: int, word: Seq<u8>, from: int)
    requires
        0 <= start,
        0 <= from <= word.len(),
        start + word.len() <= input.len(),
        agreement(input, start, word, from) >= word.len(),
    ensures
        agreement(input.subrange(start, start + word.len()), 0, word, from) >= word.len(),
    decreases word.len() - from,
{
    if from < word.len() {
        lemma_agreement_in_cut(input, start, word, from + 1);
    }
}

} // verus!
