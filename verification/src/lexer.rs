//! The lexer: a cursor over a borrowed byte buffer that yields one token for
//! each call of [`Lexer::next_token`].
use vstd::prelude::*;
use vstd::slice::slice_subrange;
use crate::error::{ErrorInfo, Failure, Found, JSONError};
use crate::grammar;
use crate::grammar::{
    agreement, cursor_after, digits_end, escape_at, exponent_end, fraction_end, hex_at,
    hex_digit_value, hex_quad, hex_run, integer_end, is_digit, is_ws, keyword, lex, number_end,
    prepend, scan_string, simple_escape, unicode_escape_at, BACKSLASH, CARRIAGE_RETURN, COLON,
    COMMA, DOT, LBRACE, LBRACKET, LINE_FEED, LOWER_A, LOWER_B, LOWER_E, LOWER_F, LOWER_L, LOWER_N,
    LOWER_R, LOWER_S, LOWER_T, LOWER_U, MINUS, NINE, PLUS, QUOTE, RBRACE, RBRACKET, SLASH, SPACE,
    TAB, UPPER_E, ZERO,
};
use crate::lemmas::{lemma_lex, lemma_number_end};
use crate::text::{lemma_ascii_text, push_scalar, text_from_bytes};
use crate::token::{JSONToken, Lexeme, Span, Token};

verus! {

/// The mathematical value of what a call of the lexer returns.
pub open spec fn lexed(step: Result<Token, JSONError>) -> Result<Lexeme, Failure> {
    match step {
        Ok(token) => Ok(token@),
        Err(error) => Err(error@),
    }
}

/// Whether `b` is whitespace.
fn is_whitespace(b: u8) -> (r: bool)
    ensures
        r == is_ws(b),
{
    b == SPACE || b == TAB || b == LINE_FEED || b == CARRIAGE_RETURN
}

/// Whether `b` is a decimal digit.
fn is_decimal_digit(b: u8) -> (r: bool)
    ensures
        r == is_digit(b),
{
    ZERO <= b && b <= NINE
}

/// What stands at position `i` of the input.
fn found_at(input: &[u8], i: usize) -> (found: Found)
    ensures
        found == grammar::found_at(input@, i as int),
{
    if i < input.len() {
        Found::Byte(input[i])
    } else {
        Found::Eof
    }
}

/// Positions as the grammar speaks of them.
spec fn positions(r: Result<usize, usize>) -> Result<int, int> {
    match r {
        Ok(end) => Ok(end as int),
        Err(at) => Err(at as int),
    }
}

/// Reads decimal digits from `from` on and returns the position behind them.
fn scan_digits(input: &[u8], from: usize) -> (end: usize)
    requires
        from <= input@.len(),
    ensures
        end == digits_end(input@, from as int),
        from <= end <= input@.len(),
{
    let mut i: usize = from;
    while i < input.len() && is_decimal_digit(input[i])
        invariant
            from <= i <= input@.len(),
            digits_end(input@, from as int) == digits_end(input@, i as int),
        decreases input@.len() - i,
    {
        i += 1;
    }
    i
}

/// Reads the integer part of a number at `i`.
fn scan_integer(input: &[u8], i: usize) -> (r: Result<usize, usize>)
    requires
        i <= input@.len(),
    ensures
        positions(r) == integer_end(input@, i as int),
        r matches Ok(end) ==> i < end <= input@.len(),
        r matches Err(at) ==> i <= at <= input@.len(),
{
    if i >= input.len() || !is_decimal_digit(input[i]) {
        Err(i)
    } else if input[i] == ZERO {
        if i + 1 < input.len() && is_decimal_digit(input[i + 1]) {
            Err(i + 1)
        } else {
            Ok(i + 1)
        }
    } else {
        Ok(scan_digits(input, i + 1))
    }
}

/// Reads the optional fraction of a number at `i`.
fn scan_fraction(input: &[u8], i: usize) -> (r: Result<usize, usize>)
    requires
        i <= input@.len(),
    ensures
        positions(r) == fraction_end(input@, i as int),
        r matches Ok(end) ==> i <= end <= input@.len(),
        r matches Err(at) ==> i <= at <= input@.len(),
{
    if i < input.len() && input[i] == DOT {
        if i + 1 < input.len() && is_decimal_digit(input[i + 1]) {
            Ok(scan_digits(input, i + 2))
        } else {
            Err(i + 1)
        }
    } else {
        Ok(i)
    }
}

/// Reads the optional exponent of a number at `i`.
fn scan_exponent(input: &[u8], i: usize) -> (r: Result<usize, usize>)
    requires
        i <= input@.len(),
    ensures
        positions(r) == exponent_end(input@, i as int),
        r matches Ok(end) ==> i <= end <= input@.len(),
        r matches Err(at) ==> i <= at <= input@.len(),
{
    if i < input.len() && (input[i] == LOWER_E || input[i] == UPPER_E) {
        let signed: bool = i + 1 < input.len() && (input[i + 1] == PLUS || input[i + 1] == MINUS);
        let digits: usize = if signed {
            i + 2
        } else {
            i + 1
        };
        if digits < input.len() && is_decimal_digit(input[digits]) {
            Ok(scan_digits(input, digits + 1))
        } else {
            Err(digits)
        }
    } else {
        Ok(i)
    }
}

/// Reads a number literal at `start` and returns the position behind it, or
/// the position at which it breaks the grammar.
fn scan_number(input: &[u8], start: usize) -> (r: Result<usize, usize>)
    requires
        start <= input@.len(),
    ensures
        positions(r) == number_end(input@, start as int),
        r matches Ok(end) ==> start < end <= input@.len(),
        r matches Err(at) ==> start <= at <= input@.len(),
{
    let digits: usize = if start < input.len() && input[start] == MINUS {
        start + 1
    } else {
        start
    };
    match scan_integer(input, digits) {
        Err(at) => Err(at),
        Ok(i) => match scan_fraction(input, i) {
            Err(at) => Err(at),
            Ok(j) => scan_exponent(input, j),
        },
    }
}

/// The value of the hexadecimal digit at position `i`, if one stands there.
fn hex_digit(input: &[u8], i: usize) -> (r: Option<u32>)
    ensures
        r is Some <==> hex_at(input@, i as int),
        r matches Some(d) ==> d == hex_digit_value(input@[i as int]) && d <= 15,
{
    if i >= input.len() {
        return None;
    }
    let b: u8 = input[i];
    if 0x30 <= b && b <= 0x39 {
        Some((b - 0x30) as u32)
    } else if 0x41 <= b && b <= 0x46 {
        Some((b - 0x41 + 10) as u32)
    } else if 0x61 <= b && b <= 0x66 {
        Some((b - 0x61 + 10) as u32)
    } else {
        None
    }
}

/// Reads four hexadecimal digits from `from` on. Returns their value, or how
/// many digits stand there if they are fewer than four.
fn read_hex_quad(input: &[u8], from: usize) -> (r: Result<u32, usize>)
    requires
        from <= input@.len(),
    ensures
        match r {
            Ok(unit) => hex_run(input@, from as int) == 4 && unit == hex_quad(input@, from as int)
                && unit <= 0xFFFF && from + 4 <= input@.len(),
            Err(digits) => digits == hex_run(input@, from as int) && digits < 4 && from + digits
                <= input@.len(),
        },
{
    let len: usize = input.len();
    let d0: u32 = match hex_digit(input, from) {
        Some(d) => d,
        None => {
            return Err(0);
        },
    };
    let d1: u32 = match hex_digit(input, from + 1) {
        Some(d) => d,
        None => {
            return Err(1);
        },
    };
    let d2: u32 = match hex_digit(input, from + 2) {
        Some(d) => d,
        None => {
            return Err(2);
        },
    };
    let d3: u32 = match hex_digit(input, from + 3) {
        Some(d) => d,
        None => {
            return Err(3);
        },
    };
    Ok(d0 * 0x1000 + d1 * 0x100 + d2 * 0x10 + d3)
}

/// The byte that the one-character escape `c` stands for, if it is one.
fn simple_escape_byte(c: u8) -> (r: Option<u8>)
    ensures
        r == simple_escape(c),
{
    if c == QUOTE || c == BACKSLASH || c == SLASH {
        Some(c)
    } else if c == LOWER_B {
        Some(0x08)
    } else if c == LOWER_F {
        Some(0x0C)
    } else if c == LOWER_N {
        Some(0x0A)
    } else if c == LOWER_R {
        Some(0x0D)
    } else if c == LOWER_T {
        Some(0x09)
    } else {
        None
    }
}

/// The error for a surrogate escape at `i` that lacks its partner.
fn unpaired_surrogate(i: usize) -> (error: JSONError)
    ensures
        error@ == grammar::unpaired_surrogate(i as int),
{
    JSONError::InvalidUnicodeEscape(ErrorInfo { offset: i, found: Found::Byte(BACKSLASH) })
}

/// Reads the `\u` escape whose backslash stands at `i`, appends the UTF-8
/// bytes of its code point to `out`, and returns the position behind it. A
/// rejected escape leaves `out` as it was.
fn read_unicode_escape(input: &[u8], i: usize, out: &mut Vec<u8>) -> (r: Result<usize, JSONError>)
    requires
        i + 1 < input@.len(),
    ensures
        match unicode_escape_at(input@, i as int) {
            Ok((bytes, next)) => {
                &&& r matches Ok(n)
                &&& n == next
                &&& i < n <= input@.len()
                &&& final(out)@ == old(out)@ + bytes
            },
            Err(failure) => {
                &&& r matches Err(error)
                &&& error@ == failure
                &&& i <= error@.offset <= i + 1
                &&& final(out)@ == old(out)@
            },
        },
{
    let len: usize = input.len();
    match read_hex_quad(input, i + 2) {
        Err(digits) => Err(
            JSONError::InvalidUnicodeEscape(
                ErrorInfo { offset: i + 1, found: found_at(input, i + 2 + digits) },
            ),
        ),
        Ok(unit) => {
            if 0xD800 <= unit && unit <= 0xDBFF {
                if len - i > 7 && input[i + 6] == BACKSLASH && input[i + 7] == LOWER_U {
                    match read_hex_quad(input, i + 8) {
                        Ok(low) => {
                            if 0xDC00 <= low && low <= 0xDFFF {
                                let scalar: u32 = 0x10000 + (unit - 0xD800) * 0x400 + (low
                                    - 0xDC00);
                                push_scalar(out, scalar);
                                Ok(i + 12)
                            } else {
                                Err(unpaired_surrogate(i))
                            }
                        },
                        Err(_) => Err(unpaired_surrogate(i)),
                    }
                } else {
                    Err(unpaired_surrogate(i))
                }
            } else if 0xDC00 <= unit && unit <= 0xDFFF {
                Err(unpaired_surrogate(i))
            } else {
                push_scalar(out, unit);
                Ok(i + 6)
            }
        },
    }
}

/// Reads the escape sequence whose backslash stands at `i`, appends the bytes
/// it stands for to `out`, and returns the position behind it. A rejected
/// escape leaves `out` as it was.
fn read_escape(input: &[u8], i: usize, out: &mut Vec<u8>) -> (r: Result<usize, JSONError>)
    requires
        i + 1 < input@.len(),
    ensures
        match escape_at(input@, i as int) {
            Ok((bytes, next)) => {
                &&& r matches Ok(n)
                &&& n == next
                &&& i < n <= input@.len()
                &&& final(out)@ == old(out)@ + bytes
            },
            Err(failure) => {
                &&& r matches Err(error)
                &&& error@ == failure
                &&& i <= error@.offset <= i + 1
                &&& final(out)@ == old(out)@
            },
        },
{
    let len: usize = input.len();
    let c: u8 = input[i + 1];
    if c == LOWER_U {
        read_unicode_escape(input, i, out)
    } else {
        match simple_escape_byte(c) {
            Some(b) => {
                out.push(b);
                Ok(i + 2)
            },
            None => Err(JSONError::InvalidEscape(ErrorInfo { offset: i, found: Found::Byte(c) })),
        }
    }
}

/// A lexer over one input buffer. It holds the buffer and a cursor, and
/// nothing else; the cursor never leaves the buffer and never moves back.
pub struct Lexer<'a> {
    input: &'a [u8],
    pos: usize,
}

impl<'a> Lexer<'a> {
    #[verifier::type_invariant]
    spec fn cursor_in_bounds(self) -> bool {
        self.pos <= self.input@.len()
    }

    /// The bytes that the lexer reads.
    pub closed spec fn source(&self) -> Seq<u8> {
        self.input@
    }

    /// The position of the next byte to read.
    pub closed spec fn cursor(&self) -> int {
        self.pos as int
    }

    /// A lexer at the start of `input`. Any input is accepted, the empty one
    /// too.
    pub fn new(input: &'a [u8]) -> (lexer: Self)
        ensures
            lexer.source() == input@,
            lexer.cursor() == 0,
    {
        Self { input, pos: 0 }
    }

    /// Reads the next token and moves the cursor behind it.
    ///
    /// Whitespace before the token is passed over. At the end of the input
    /// the token is `Eof` with an empty span at the end, on this call and on
    /// every later one. Malformed input gives the error of the first offence;
    /// the cursor is left at the position that the error reports, and the run
    /// is over.
    pub fn next_token(&mut self) -> (r: Result<Token, JSONError>)
        ensures
            final(self).source() == old(self).source(),
            lexed(r) == lex(old(self).source(), old(self).cursor()),
            final(self).cursor() == cursor_after(lexed(r)),
            old(self).cursor() <= final(self).cursor() <= final(self).source().len(),
            r matches Ok(token) ==> {
                &&& old(self).cursor() <= token.span.start <= token.span.end
                &&& token.span.end <= old(self).source().len()
                &&& token.kind is Eof <==> token.span.start == old(self).source().len()
                &&& token.kind@.is_structural() ==> token.span.end - token.span.start == 1
            },
    {
        proof {
            use_type_invariant(&*self);
            lemma_lex(self.input@, self.pos as int);
        }
        self.skip_ws();
        proof {
            use_type_invariant(&*self);
        }
        if self.pos >= self.input.len() {
            return Ok(
                Token { kind: JSONToken::Eof, span: Span { start: self.pos, end: self.pos } },
            );
        }
        let b: u8 = self.input[self.pos];
        match b {
            LBRACE => Ok(self.punctuation(JSONToken::LBrace)),
            RBRACE => Ok(self.punctuation(JSONToken::RBrace)),
            LBRACKET => Ok(self.punctuation(JSONToken::LBracket)),
            RBRACKET => Ok(self.punctuation(JSONToken::RBracket)),
            COLON => Ok(self.punctuation(JSONToken::Colon)),
            COMMA => Ok(self.punctuation(JSONToken::Comma)),
            LOWER_T => {
                let word: [u8; 4] = [LOWER_T, LOWER_R, LOWER_U, LOWER_E];
                self.lex_exact(&word, JSONToken::True)
            },
            LOWER_F => {
                let word: [u8; 5] = [LOWER_F, LOWER_A, LOWER_L, LOWER_S, LOWER_E];
                self.lex_exact(&word, JSONToken::False)
            },
            LOWER_N => {
                let word: [u8; 4] = [LOWER_N, LOWER_U, LOWER_L, LOWER_L];
                self.lex_exact(&word, JSONToken::Null)
            },
            QUOTE => self.lex_string(),
            MINUS | ZERO..=NINE => self.lex_number(),
            _ => Err(
                JSONError::UnexpectedByte(ErrorInfo { offset: self.pos, found: Found::Byte(b) }),
            ),
        }
    }

    /// The one-byte token `kind` at the cursor; the cursor moves behind it.
    fn punctuation(&mut self, kind: JSONToken) -> (token: Token)
        requires
            old(self).cursor() < old(self).source().len(),
        ensures
            final(self).source() == old(self).source(),
            final(self).cursor() == old(self).cursor() + 1,
            token@ == (Lexeme {
                kind: kind@,
                start: old(self).cursor(),
                end: old(self).cursor() + 1,
            }),
    {
        let start: usize = self.pos;
        let len: usize = self.input.len();
        self.pos = start + 1;
        Token { kind, span: Span { start, end: start + 1 } }
    }

    /// Moves the cursor past whitespace.
    fn skip_ws(&mut self)
        ensures
            final(self).source() == old(self).source(),
            final(self).cursor() == grammar::skip_ws(old(self).source(), old(self).cursor()),
            old(self).cursor() <= final(self).cursor() <= final(self).source().len(),
    {
        proof {
            use_type_invariant(&*self);
        }
        while self.pos < self.input.len() && is_whitespace(self.input[self.pos])
            invariant
                self.input@ == old(self).input@,
                old(self).pos <= self.pos <= self.input@.len(),
                grammar::skip_ws(self.input@, old(self).pos as int) == grammar::skip_ws(
                    self.input@,
                    self.pos as int,
                ),
            decreases self.input@.len() - self.pos,
        {
            self.pos += 1;
        }
    }

    /// Matches `byte_seq` against the input at the cursor, byte for byte. A
    /// full match gives the token `expected` over the matched bytes and moves
    /// the cursor behind them. Otherwise the cursor stops at the first byte
    /// that differs, or at the end of the input, and that position is
    /// reported.
    fn lex_exact(&mut self, byte_seq: &[u8], expected: JSONToken) -> (r: Result<Token, JSONError>)
        ensures
            final(self).source() == old(self).source(),
            lexed(r) == keyword(old(self).source(), old(self).cursor(), byte_seq@, expected@),
            final(self).cursor() == cursor_after(lexed(r)),
            old(self).cursor() <= final(self).cursor() <= final(self).source().len(),
    {
        proof {
            use_type_invariant(&*self);
        }
        let start: usize = self.pos;
        let mut k: usize = 0;
        while k < byte_seq.len() && self.pos < self.input.len() && self.input[self.pos]
            == byte_seq[k]
            invariant
                self.input@ == old(self).input@,
                start == old(self).pos,
                self.pos == start + k,
                k <= byte_seq@.len(),
                self.pos <= self.input@.len(),
                agreement(self.input@, start as int, byte_seq@, 0) == agreement(
                    self.input@,
                    start as int,
                    byte_seq@,
                    k as int,
                ),
            decreases byte_seq@.len() - k,
        {
            self.pos += 1;
            k += 1;
        }
        if k == byte_seq.len() {
            Ok(Token { kind: expected, span: Span { start, end: self.pos } })
        } else {
            Err(
                JSONError::UnexpectedByte(
                    ErrorInfo { offset: self.pos, found: found_at(self.input, self.pos) },
                ),
            )
        }
    }

    /// Reads the number literal that starts at the cursor. Its text is the
    /// literal as written. A malformed literal leaves the cursor where it is.
    fn lex_number(&mut self) -> (r: Result<Token, JSONError>)
        ensures
            final(self).source() == old(self).source(),
            lexed(r) == grammar::lex_number(old(self).source(), old(self).cursor()),
            final(self).cursor() == cursor_after(lexed(r)),
            old(self).cursor() <= final(self).cursor() <= final(self).source().len(),
    {
        proof {
            use_type_invariant(&*self);
        }
        let start: usize = self.pos;
        match scan_number(self.input, start) {
            Ok(end) => {
                let literal: &[u8] = slice_subrange(self.input, start, end);
                proof {
                    lemma_number_end(self.input@, start as int);
                    lemma_ascii_text(literal@);
                }
                let text: String = text_from_bytes(literal);
                self.pos = end;
                Ok(Token { kind: JSONToken::Number(text), span: Span { start, end } })
            },
            Err(at) => Err(
                JSONError::InvalidNumber(
                    ErrorInfo { offset: start, found: found_at(self.input, at) },
                ),
            ),
        }
    }

    /// Reads the string literal whose opening quote stands at the cursor. Its
    /// text is the contents with every escape resolved. An error leaves the
    /// cursor at the position that it reports.
    fn lex_string(&mut self) -> (r: Result<Token, JSONError>)
        requires
            old(self).cursor() < old(self).source().len(),
        ensures
            final(self).source() == old(self).source(),
            lexed(r) == grammar::lex_string(old(self).source(), old(self).cursor()),
            final(self).cursor() == cursor_after(lexed(r)),
            old(self).cursor() <= final(self).cursor() <= final(self).source().len(),
    {
        let input: &[u8] = self.input;
        let len: usize = input.len();
        let start: usize = self.pos;
        let mut i: usize = start + 1;
        let mut out: Vec<u8> = Vec::new();
        loop
            invariant
                input@ == self.input@,
                self.input@ == old(self).input@,
                self.pos == start,
                start == old(self).pos,
                len == input@.len(),
                start < i <= len,
                scan_string(input@, start as int, start + 1) == prepend(
                    out@,
                    scan_string(input@, start as int, i as int),
                ),
            decreases input@.len() - i,
        {
            if i >= len {
                return Err(
                    JSONError::UnterminatedString(ErrorInfo { offset: start, found: Found::Eof }),
                );
            }
            let b: u8 = input[i];
            if b == QUOTE {
                let text: String = text_from_bytes(out.as_slice());
                let end: usize = i + 1;
                self.pos = end;
                return Ok(Token { kind: JSONToken::String(text), span: Span { start, end } });
            } else if b == BACKSLASH {
                if i + 1 >= len {
                    return Err(
                        JSONError::UnterminatedString(
                            ErrorInfo { offset: start, found: Found::Eof },
                        ),
                    );
                }
                let ghost before = out@;
                match read_escape(input, i, &mut out) {
                    Ok(next) => {
                        proof {
                            let rest = scan_string(input@, start as int, next as int);
                            if let Ok((bytes, _)) = escape_at(input@, i as int) {
                                if let Ok((tail, _)) = rest {
                                    assert(out@ + tail =~= before + (bytes + tail));
                                }
                            }
                        }
                        i = next;
                    },
                    Err(error) => {
                        self.pos = error.offset();
                        return Err(error);
                    },
                }
            } else {
                let ghost before = out@;
                out.push(b);
                proof {
                    let rest = scan_string(input@, start as int, i + 1);
                    if let Ok((tail, _)) = rest {
                        assert(out@ + tail =~= before + (seq![b] + tail));
                    }
                }
                i += 1;
            }
        }
    }
}

} // verus!
