//! The token grammar, stated as mathematical functions on byte sequences.
//!
//! Positions are integers into the input. Every function here is total: a
//! position at or past the end of the input reads as end of input.
use vstd::prelude::*;
use vstd::utf8::encode_scalar;
use crate::error::{ErrorKind, Failure, Found};
use crate::text::{ascii_text, text_of};
use crate::token::{Lexeme, TokenKind};

verus! {

pub const TAB: u8 = 0x09;
pub const LINE_FEED: u8 = 0x0A;
pub const CARRIAGE_RETURN: u8 = 0x0D;
pub const SPACE: u8 = 0x20;
pub const QUOTE: u8 = 0x22;
pub const PLUS: u8 = 0x2B;
pub const COMMA: u8 = 0x2C;
pub const MINUS: u8 = 0x2D;
pub const DOT: u8 = 0x2E;
pub const SLASH: u8 = 0x2F;
pub const ZERO: u8 = 0x30;
pub const NINE: u8 = 0x39;
pub const COLON: u8 = 0x3A;
pub const UPPER_E: u8 = 0x45;
pub const LBRACKET: u8 = 0x5B;
pub const BACKSLASH: u8 = 0x5C;
pub const RBRACKET: u8 = 0x5D;
pub const LOWER_A: u8 = 0x61;
pub const LOWER_B: u8 = 0x62;
pub const LOWER_E: u8 = 0x65;
pub const LOWER_F: u8 = 0x66;
pub const LOWER_L: u8 = 0x6C;
pub const LOWER_N: u8 = 0x6E;
pub const LOWER_R: u8 = 0x72;
pub const LOWER_S: u8 = 0x73;
pub const LOWER_T: u8 = 0x74;
pub const LOWER_U: u8 = 0x75;
pub const LBRACE: u8 = 0x7B;
pub const RBRACE: u8 = 0x7D;

/// The bytes of `true`.
pub open spec fn true_word() -> Seq<u8> {
    seq![LOWER_T, LOWER_R, LOWER_U, LOWER_E]
}

/// The bytes of `false`.
pub open spec fn false_word() -> Seq<u8> {
    seq![LOWER_F, LOWER_A, LOWER_L, LOWER_S, LOWER_E]
}

/// The bytes of `null`.
pub open spec fn null_word() -> Seq<u8> {
    seq![LOWER_N, LOWER_U, LOWER_L, LOWER_L]
}

/// Space, horizontal tab, line feed or carriage return.
pub open spec fn is_ws(b: u8) -> bool {
    b == SPACE || b == TAB || b == LINE_FEED || b == CARRIAGE_RETURN
}

/// An ASCII decimal digit.
pub open spec fn is_digit(b: u8) -> bool {
    ZERO <= b <= NINE
}

/// An ASCII hexadecimal digit, in either case.
pub open spec fn is_hex_digit(b: u8) -> bool {
    (0x30 <= b <= 0x39) || (0x41 <= b <= 0x46) || (0x61 <= b <= 0x66)
}

/// The number that a hexadecimal digit stands for.
pub open spec fn hex_digit_value(b: u8) -> int
    recommends
        is_hex_digit(b),
{
    if b <= 0x39 {
        b - 0x30
    } else if b <= 0x46 {
        b - 0x41 + 10
    } else {
        b - 0x61 + 10
    }
}

/// The byte `b` stands at position `i` of the input.
pub open spec fn byte_at(input: Seq<u8>, i: int, b: u8) -> bool {
    0 <= i < input.len() && input[i] == b
}

/// A decimal digit stands at position `i` of the input.
pub open spec fn digit_at(input: Seq<u8>, i: int) -> bool {
    0 <= i < input.len() && is_digit(input[i])
}

/// A hexadecimal digit stands at position `i` of the input.
pub open spec fn hex_at(input: Seq<u8>, i: int) -> bool {
    0 <= i < input.len() && is_hex_digit(input[i])
}

/// What stands at position `i`: the byte there, or the end of the input.
pub open spec fn found_at(input: Seq<u8>, i: int) -> Found {
    if 0 <= i < input.len() {
        Found::Byte(input[i])
    } else {
        Found::Eof
    }
}

/// The first position at or after `from` that holds no whitespace.
pub open spec fn skip_ws(input: Seq<u8>, from: int) -> int
    decreases input.len() - from,
{
    if 0 <= from < input.len() && is_ws(input[from]) {
        skip_ws(input, from + 1)
    } else {
        from
    }
}

/// The first position at or after `from` that holds no decimal digit.
pub open spec fn digits_end(input: Seq<u8>, from: int) -> int
    decreases input.len() - from,
{
    if digit_at(input, from) {
        digits_end(input, from + 1)
    } else {
        from
    }
}

/// The first index `k >= from` at which the input, read from `start`, stops
/// agreeing with `word`: either `word` is used up, or the input is, or the two
/// bytes differ.
pub open spec fn agreement(input: Seq<u8>, start: int, word: Seq<u8>, from: int) -> int
    decreases word.len() - from,
{
    if 0 <= from < word.len() && byte_at(input, start + from, word[from]) {
        agreement(input, start, word, from + 1)
    } else {
        from
    }
}

/// A literal word expected at `start`: the token `kind` over the whole word if
/// the input spells it out, else the first position that departs from it.
pub open spec fn keyword(input: Seq<u8>, start: int, word: Seq<u8>, kind: TokenKind) -> Result<
    Lexeme,
    Failure,
> {
    let k = agreement(input, start, word, 0);
    if k >= word.len() {
        Ok(Lexeme { kind, start, end: start + word.len() })
    } else {
        Err(
            Failure {
                kind: ErrorKind::UnexpectedByte,
                offset: start + k,
                found: found_at(input, start + k),
            },
        )
    }
}

/// The token kind of a punctuation byte.
pub open spec fn structural(b: u8) -> Option<TokenKind> {
    if b == LBRACE {
        Some(TokenKind::LBrace)
    } else if b == RBRACE {
        Some(TokenKind::RBrace)
    } else if b == LBRACKET {
        Some(TokenKind::LBracket)
    } else if b == RBRACKET {
        Some(TokenKind::RBracket)
    } else if b == COLON {
        Some(TokenKind::Colon)
    } else if b == COMMA {
        Some(TokenKind::Comma)
    } else {
        None
    }
}

// ---------------------------------------------------------------- numbers

/// A failed number literal that starts at `start` and breaks off at `at`.
pub open spec fn invalid_number(input: Seq<u8>, start: int, at: int) -> Failure {
    Failure { kind: ErrorKind::InvalidNumber, offset: start, found: found_at(input, at) }
}

/// End of the integer part `0 | [1-9][0-9]*` that starts at `i`, or the
/// position at which the input breaks the rule.
pub open spec fn integer_end(input: Seq<u8>, i: int) -> Result<int, int> {
    if !digit_at(input, i) {
        Err(i)
    } else if input[i] == ZERO {
        if digit_at(input, i + 1) {
            Err(i + 1)
        } else {
            Ok(i + 1)
        }
    } else {
        Ok(digits_end(input, i + 1))
    }
}

/// End of the optional fraction `. [0-9]+` at `i`, or the position at which
/// the input breaks the rule. Without a `.` at `i` the fraction is empty.
pub open spec fn fraction_end(input: Seq<u8>, i: int) -> Result<int, int> {
    if byte_at(input, i, DOT) {
        if digit_at(input, i + 1) {
            Ok(digits_end(input, i + 2))
        } else {
            Err(i + 1)
        }
    } else {
        Ok(i)
    }
}

/// End of the optional exponent `[eE] [+-]? [0-9]+` at `i`, or the position at
/// which the input breaks the rule. Without an `e` or `E` at `i` the exponent
/// is empty.
pub open spec fn exponent_end(input: Seq<u8>, i: int) -> Result<int, int> {
    if byte_at(input, i, LOWER_E) || byte_at(input, i, UPPER_E) {
        let digits = if byte_at(input, i + 1, PLUS) || byte_at(input, i + 1, MINUS) {
            i + 2
        } else {
            i + 1
        };
        if digit_at(input, digits) {
            Ok(digits_end(input, digits + 1))
        } else {
            Err(digits)
        }
    } else {
        Ok(i)
    }
}

/// End of the number literal `-? integer fraction? exponent?` that starts at
/// `start`, or the position at which the input breaks the grammar.
pub open spec fn number_end(input: Seq<u8>, start: int) -> Result<int, int> {
    let digits = if byte_at(input, start, MINUS) {
        start + 1
    } else {
        start
    };
    match integer_end(input, digits) {
        Err(at) => Err(at),
        Ok(i) => match fraction_end(input, i) {
            Err(at) => Err(at),
            Ok(j) => exponent_end(input, j),
        },
    }
}

/// The bytes of `s` in `[from, to)` are decimal digits, and at least one.
pub open spec fn is_digits(s: Seq<u8>, from: int, to: int) -> bool {
    &&& 0 <= from < to <= s.len()
    &&& forall|i: int| from <= i < to ==> is_digit(#[trigger] s[i])
}

/// `s` is a number literal whose integer part is `[i, j)`, whose fraction, if
/// it has one, is `[j, k)`, and whose exponent, if it has one, is the rest.
pub open spec fn number_shape(s: Seq<u8>, i: int, j: int, k: int) -> bool {
    &&& i == 0 || (i == 1 && s[0] == MINUS)
    &&& is_digits(s, i, j)
    &&& s[i] == ZERO ==> j == i + 1
    &&& j <= k <= s.len()
    &&& k == j || (s[j] == DOT && is_digits(s, j + 1, k))
    &&& k == s.len() || {
        &&& s[k] == LOWER_E || s[k] == UPPER_E
        &&& is_digits(s, k + 1, s.len() as int) || {
            &&& k + 1 < s.len()
            &&& s[k + 1] == PLUS || s[k + 1] == MINUS
            &&& is_digits(s, k + 2, s.len() as int)
        }
    }
}

/// `s` matches `-?(0|[1-9][0-9]*)(\.[0-9]+)?([eE][+-]?[0-9]+)?` from its first
/// byte to its last.
pub open spec fn is_number_literal(s: Seq<u8>) -> bool {
    exists|i: int, j: int, k: int| number_shape(s, i, j, k)
}

/// The number token that starts at `start`. Its text is the literal as written.
/// A malformed literal is reported at `start`, with what stood where it broke
/// off.
pub open spec fn lex_number(input: Seq<u8>, start: int) -> Result<Lexeme, Failure> {
    match number_end(input, start) {
        Ok(end) => Ok(
            Lexeme { kind: TokenKind::Number(ascii_text(input.subrange(start, end))), start, end },
        ),
        Err(at) => Err(invalid_number(input, start, at)),
    }
}

// ---------------------------------------------------------------- strings

/// The byte that a one-character escape stands for.
pub open spec fn simple_escape(c: u8) -> Option<u8> {
    if c == QUOTE || c == BACKSLASH || c == SLASH {
        Some(c)
    } else if c == LOWER_B {
        Some(0x08u8)
    } else if c == LOWER_F {
        Some(0x0Cu8)
    } else if c == LOWER_N {
        Some(0x0Au8)
    } else if c == LOWER_R {
        Some(0x0Du8)
    } else if c == LOWER_T {
        Some(0x09u8)
    } else {
        None
    }
}

/// How many of the four positions from `from` on hold hexadecimal digits,
/// counted up to the first that does not.
pub open spec fn hex_run(input: Seq<u8>, from: int) -> int {
    if !hex_at(input, from) {
        0
    } else if !hex_at(input, from + 1) {
        1
    } else if !hex_at(input, from + 2) {
        2
    } else if !hex_at(input, from + 3) {
        3
    } else {
        4
    }
}

/// The value of the four hexadecimal digits from `from` on.
pub open spec fn hex_quad(input: Seq<u8>, from: int) -> int
    recommends
        hex_run(input, from) == 4,
{
    hex_digit_value(input[from]) * 0x1000 + hex_digit_value(input[from + 1]) * 0x100
        + hex_digit_value(input[from + 2]) * 0x10 + hex_digit_value(input[from + 3])
}

/// A code unit that opens a surrogate pair.
pub open spec fn is_high_surrogate(unit: int) -> bool {
    0xD800 <= unit <= 0xDBFF
}

/// A code unit that closes a surrogate pair.
pub open spec fn is_low_surrogate(unit: int) -> bool {
    0xDC00 <= unit <= 0xDFFF
}

/// A complete `\u` escape whose four digits name a low surrogate starts at
/// `i`.
pub open spec fn low_surrogate_at(input: Seq<u8>, i: int) -> bool {
    &&& byte_at(input, i, BACKSLASH)
    &&& byte_at(input, i + 1, LOWER_U)
    &&& hex_run(input, i + 2) == 4
    &&& is_low_surrogate(hex_quad(input, i + 2))
}

/// The code point that a surrogate pair encodes.
pub open spec fn surrogate_pair(high: int, low: int) -> int
    recommends
        is_high_surrogate(high),
        is_low_surrogate(low),
{
    0x10000 + (high - 0xD800) * 0x400 + (low - 0xDC00)
}

/// A surrogate escape at `i` that lacks its partner.
pub open spec fn unpaired_surrogate(i: int) -> Failure {
    Failure { kind: ErrorKind::InvalidUnicodeEscape, offset: i, found: Found::Byte(BACKSLASH) }
}

/// The `\u` escape whose backslash stands at `i`: the UTF-8 bytes of the code
/// point it names and the position after it, or the reason it is rejected.
///
/// Fewer than four hexadecimal digits are reported at the `u`, with what stood
/// in place of the missing digit. A high surrogate takes the low surrogate
/// escape that must follow it at once; a surrogate without its partner is
/// reported at its own backslash.
pub open spec fn unicode_escape_at(input: Seq<u8>, i: int) -> Result<(Seq<u8>, int), Failure> {
    let digits = hex_run(input, i + 2);
    if digits < 4 {
        Err(
            Failure {
                kind: ErrorKind::InvalidUnicodeEscape,
                offset: i + 1,
                found: found_at(input, i + 2 + digits),
            },
        )
    } else {
        let unit = hex_quad(input, i + 2);
        if is_high_surrogate(unit) {
            if low_surrogate_at(input, i + 6) {
                Ok((encode_scalar(surrogate_pair(unit, hex_quad(input, i + 8)) as u32), i + 12))
            } else {
                Err(unpaired_surrogate(i))
            }
        } else if is_low_surrogate(unit) {
            Err(unpaired_surrogate(i))
        } else {
            Ok((encode_scalar(unit as u32), i + 6))
        }
    }
}

/// The escape sequence whose backslash stands at `i`, where `i + 1` is still
/// inside the input: the bytes it stands for and the position after it, or the
/// reason it is rejected. An unknown escape character is reported at the
/// backslash.
pub open spec fn escape_at(input: Seq<u8>, i: int) -> Result<(Seq<u8>, int), Failure>
    recommends
        0 <= i,
        i + 1 < input.len(),
{
    let c = input[i + 1];
    if c == LOWER_U {
        unicode_escape_at(input, i)
    } else {
        match simple_escape(c) {
            Some(b) => Ok((seq![b], i + 2)),
            None => Err(
                Failure { kind: ErrorKind::InvalidEscape, offset: i, found: Found::Byte(c) },
            ),
        }
    }
}

/// A string literal that opens at `open` and that the input ends inside of.
pub open spec fn unterminated(open: int) -> Failure {
    Failure { kind: ErrorKind::UnterminatedString, offset: open, found: Found::Eof }
}

/// Puts `head` in front of the bytes of a successful scan.
pub open spec fn prepend(head: Seq<u8>, scan: Result<(Seq<u8>, int), Failure>) -> Result<
    (Seq<u8>, int),
    Failure,
> {
    match scan {
        Ok((bytes, end)) => Ok((head + bytes, end)),
        Err(failure) => Err(failure),
    }
}

/// The rest of the string literal that opened at `open`, read from `i`: the
/// decoded bytes up to the closing quote and the position after that quote,
/// or the first error on the way. Bytes other than the quote and the
/// backslash stand for themselves.
pub open spec fn scan_string(input: Seq<u8>, open: int, i: int) -> Result<(Seq<u8>, int), Failure>
    decreases input.len() - i,
{
    if i < 0 || i >= input.len() {
        Err(unterminated(open))
    } else if input[i] == QUOTE {
        Ok((Seq::empty(), i + 1))
    } else if input[i] == BACKSLASH {
        if i + 1 >= input.len() {
            Err(unterminated(open))
        } else {
            match escape_at(input, i) {
                Ok((bytes, next)) => prepend(bytes, scan_string(input, open, next)),
                Err(failure) => Err(failure),
            }
        }
    } else {
        prepend(seq![input[i]], scan_string(input, open, i + 1))
    }
}

/// The string token whose opening quote stands at `start`. Its span covers
/// the literal with both of its quotes; its text is what the decoded bytes
/// stand for.
pub open spec fn lex_string(input: Seq<u8>, start: int) -> Result<Lexeme, Failure> {
    match scan_string(input, start, start + 1) {
        Ok((bytes, end)) => Ok(Lexeme { kind: TokenKind::String(text_of(bytes)), start, end }),
        Err(failure) => Err(failure),
    }
}

// ---------------------------------------------------------------- tokens

/// The token that starts at `start`, a position that holds no whitespace.
pub open spec fn lex_at(input: Seq<u8>, start: int) -> Result<Lexeme, Failure> {
    if start < 0 || start >= input.len() {
        Ok(Lexeme { kind: TokenKind::Eof, start, end: start })
    } else {
        let b = input[start];
        match structural(b) {
            Some(kind) => Ok(Lexeme { kind, start, end: start + 1 }),
            None => if b == LOWER_T {
                keyword(input, start, true_word(), TokenKind::True)
            } else if b == LOWER_F {
                keyword(input, start, false_word(), TokenKind::False)
            } else if b == LOWER_N {
                keyword(input, start, null_word(), TokenKind::Null)
            } else if b == QUOTE {
                lex_string(input, start)
            } else if b == MINUS || is_digit(b) {
                lex_number(input, start)
            } else {
                Err(
                    Failure {
                        kind: ErrorKind::UnexpectedByte,
                        offset: start,
                        found: Found::Byte(b),
                    },
                )
            },
        }
    }
}

/// The next token at or after `pos`: whitespace is passed over, and what
/// follows is read as one token.
pub open spec fn lex(input: Seq<u8>, pos: int) -> Result<Lexeme, Failure> {
    lex_at(input, skip_ws(input, pos))
}

/// Where the cursor stands after a step: behind the token, or at the error.
pub open spec fn cursor_after(step: Result<Lexeme, Failure>) -> int {
    match step {
        Ok(lexeme) => lexeme.end,
        Err(failure) => failure.offset,
    }
}

} // verus!
