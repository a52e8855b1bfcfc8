use jq::{run, ErrorInfo, Found, JSONError, JSONToken, Lexer, Span, Token};

fn number(text: &str, start: usize, end: usize) -> Token {
    Token { kind: JSONToken::Number(text.to_string()), span: Span { start, end } }
}

fn eof(at: usize) -> Token {
    Token { kind: JSONToken::Eof, span: Span { start: at, end: at } }
}

fn invalid_number(offset: usize, found: Found) -> JSONError {
    JSONError::InvalidNumber(ErrorInfo { offset, found })
}

#[test]
fn plain_integers() {
    assert_eq!(run("0"), Ok(vec![number("0", 0, 1), eof(1)]));
    assert_eq!(run("7"), Ok(vec![number("7", 0, 1), eof(1)]));
    assert_eq!(run("1234567890"), Ok(vec![number("1234567890", 0, 10), eof(10)]));
    assert_eq!(run(" 42 "), Ok(vec![number("42", 1, 3), eof(4)]));
}

#[test]
fn negative_numbers() {
    assert_eq!(run("-0"), Ok(vec![number("-0", 0, 2), eof(2)]));
    assert_eq!(run("-15"), Ok(vec![number("-15", 0, 3), eof(3)]));
    assert_eq!(run("-0.25"), Ok(vec![number("-0.25", 0, 5), eof(5)]));
}

#[test]
fn fractions() {
    assert_eq!(run("0.5"), Ok(vec![number("0.5", 0, 3), eof(3)]));
    assert_eq!(run("3.14159"), Ok(vec![number("3.14159", 0, 7), eof(7)]));
    assert_eq!(run("10.0"), Ok(vec![number("10.0", 0, 4), eof(4)]));
}

#[test]
fn exponents() {
    assert_eq!(run("1e5"), Ok(vec![number("1e5", 0, 3), eof(3)]));
    assert_eq!(run("1E5"), Ok(vec![number("1E5", 0, 3), eof(3)]));
    assert_eq!(run("1e+5"), Ok(vec![number("1e+5", 0, 4), eof(4)]));
    assert_eq!(run("1e-5"), Ok(vec![number("1e-5", 0, 4), eof(4)]));
    assert_eq!(run("0e0"), Ok(vec![number("0e0", 0, 3), eof(3)]));
    assert_eq!(run("-12.5e+10"), Ok(vec![number("-12.5e+10", 0, 9), eof(9)]));
    assert_eq!(run("6.02E23"), Ok(vec![number("6.02E23", 0, 7), eof(7)]));
}

#[test]
fn numbers_beyond_native_range_keep_their_text() {
    let big = "123456789012345678901234567890123456789012345678901234567890";
    assert_eq!(run(big), Ok(vec![number(big, 0, 60), eof(60)]));
    let precise = "0.1000000000000000055511151231257827021181583404541015625";
    assert_eq!(run(precise), Ok(vec![number(precise, 0, precise.len()), eof(precise.len())]));
    assert_eq!(run("1e400"), Ok(vec![number("1e400", 0, 5), eof(5)]));
}

#[test]
fn number_text_is_the_source_at_its_span() {
    let input = "[ -1.5e3 , 20,0.125 ]";
    let tokens = run(input).unwrap();
    let mut seen = 0;
    for t in &tokens {
        if let JSONToken::Number(text) = &t.kind {
            assert_eq!(text.as_str(), &input[t.span.start..t.span.end]);
            seen += 1;
        }
    }
    assert_eq!(seen, 3);
    assert_eq!(tokens[1], number("-1.5e3", 2, 8));
    assert_eq!(tokens[3], number("20", 11, 13));
    assert_eq!(tokens[5], number("0.125", 14, 19));
}

#[test]
fn a_number_read_alone_from_its_span_is_the_same_number() {
    let input = "  -12.5e+10,";
    let tokens = run(input).unwrap();
    let span = tokens[0].span;
    let alone = run(&input[span.start..span.end]).unwrap();
    assert_eq!(alone, vec![number("-12.5e+10", 0, 9), eof(9)]);
    assert_eq!(alone[0].kind, tokens[0].kind);
}

#[test]
fn a_number_ends_where_the_grammar_ends() {
    // What follows a complete number is the next token's business.
    let tokens = run("12]").unwrap();
    assert_eq!(tokens[0], number("12", 0, 2));
    assert_eq!(tokens[1].kind, JSONToken::RBracket);
    assert_eq!(
        run("1.5.2"),
        Err(JSONError::UnexpectedByte(ErrorInfo { offset: 3, found: Found::Byte(b'.') }))
    );
    assert_eq!(
        run("0x10"),
        Err(JSONError::UnexpectedByte(ErrorInfo { offset: 1, found: Found::Byte(b'x') }))
    );
    assert_eq!(run("1-2"), Ok(vec![number("1", 0, 1), number("-2", 1, 3), eof(3)]));
    assert_eq!(
        run("1e5e5"),
        Err(JSONError::UnexpectedByte(ErrorInfo { offset: 3, found: Found::Byte(b'e') }))
    );
}

#[test]
fn leading_zero_is_malformed() {
    assert_eq!(run("01"), Err(invalid_number(0, Found::Byte(b'1'))));
    assert_eq!(run("-00"), Err(invalid_number(0, Found::Byte(b'0'))));
    assert_eq!(run(" 007"), Err(invalid_number(1, Found::Byte(b'0'))));
}

#[test]
fn lone_minus_is_malformed() {
    assert_eq!(run("-"), Err(invalid_number(0, Found::Eof)));
    assert_eq!(run("-x"), Err(invalid_number(0, Found::Byte(b'x'))));
    assert_eq!(run("[-]"), Err(invalid_number(1, Found::Byte(b']'))));
    assert_eq!(run("--1"), Err(invalid_number(0, Found::Byte(b'-'))));
    assert_eq!(run("-.5"), Err(invalid_number(0, Found::Byte(b'.'))));
}

#[test]
fn fraction_without_digits_is_malformed() {
    assert_eq!(run("1."), Err(invalid_number(0, Found::Eof)));
    assert_eq!(run("1.e5"), Err(invalid_number(0, Found::Byte(b'e'))));
    assert_eq!(run("  0.,"), Err(invalid_number(2, Found::Byte(b','))));
}

#[test]
fn exponent_without_digits_is_malformed() {
    assert_eq!(run("1e"), Err(invalid_number(0, Found::Eof)));
    assert_eq!(run("1E+"), Err(invalid_number(0, Found::Eof)));
    assert_eq!(run("1e-]"), Err(invalid_number(0, Found::Byte(b']'))));
    assert_eq!(run("2.5ex"), Err(invalid_number(0, Found::Byte(b'x'))));
    assert_eq!(run("[1, 2e+-3]"), Err(invalid_number(4, Found::Byte(b'-'))));
}

#[test]
fn plus_sign_starts_no_number() {
    assert_eq!(
        run("+1"),
        Err(JSONError::UnexpectedByte(ErrorInfo { offset: 0, found: Found::Byte(b'+') }))
    );
    assert_eq!(
        run(".5"),
        Err(JSONError::UnexpectedByte(ErrorInfo { offset: 0, found: Found::Byte(b'.') }))
    );
}

#[test]
fn cursor_stays_at_a_malformed_number() {
    let mut lexer = Lexer::new(b" 1.x");
    assert_eq!(lexer.next_token(), Err(invalid_number(1, Found::Byte(b'x'))));
    assert_eq!(lexer.next_token(), Err(invalid_number(1, Found::Byte(b'x'))));
}
