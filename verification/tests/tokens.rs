use jq::{run, ErrorInfo, Found, JSONError, JSONToken, Lexer, Span, Token};

fn token(kind: JSONToken, start: usize, end: usize) -> Token {
    Token { kind, span: Span { start, end } }
}

fn drain(input: &[u8]) -> Result<Vec<Token>, JSONError> {
    let mut lexer = Lexer::new(input);
    let mut tokens = Vec::new();
    loop {
        let next = lexer.next_token()?;
        let last = next.kind == JSONToken::Eof;
        tokens.push(next);
        if last {
            return Ok(tokens);
        }
    }
}

#[test]
fn empty_input_is_one_eof() {
    assert_eq!(run(""), Ok(vec![token(JSONToken::Eof, 0, 0)]));
}

#[test]
fn every_kind_of_whitespace_is_skipped() {
    assert_eq!(run(" \t\r\n "), Ok(vec![token(JSONToken::Eof, 5, 5)]));
    assert_eq!(
        run("\t{\n}\r"),
        Ok(vec![
            token(JSONToken::LBrace, 1, 2),
            token(JSONToken::RBrace, 3, 4),
            token(JSONToken::Eof, 5, 5),
        ])
    );
}

#[test]
fn whitespace_of_any_length_is_one_eof_at_its_end() {
    let kinds = [' ', '\t', '\r', '\n'];
    for n in 0..40 {
        let input: String = (0..n).map(|i| kinds[(i * 7 + n) % 4]).collect();
        assert_eq!(run(&input), Ok(vec![token(JSONToken::Eof, n, n)]));
    }
}

#[test]
fn other_blank_characters_are_no_whitespace() {
    // Form feed and vertical tab are not part of the whitespace set.
    assert_eq!(
        run("\u{0c}"),
        Err(JSONError::UnexpectedByte(ErrorInfo { offset: 0, found: Found::Byte(0x0c) }))
    );
    assert_eq!(
        run(" \u{0b}"),
        Err(JSONError::UnexpectedByte(ErrorInfo { offset: 1, found: Found::Byte(0x0b) }))
    );
}

#[test]
fn braces_are_two_tokens_and_eof() {
    assert_eq!(
        run("{}"),
        Ok(vec![
            token(JSONToken::LBrace, 0, 1),
            token(JSONToken::RBrace, 1, 2),
            token(JSONToken::Eof, 2, 2),
        ])
    );
}

#[test]
fn brackets_between_spaces() {
    assert_eq!(
        run(" [ ] "),
        Ok(vec![
            token(JSONToken::LBracket, 1, 2),
            token(JSONToken::RBracket, 3, 4),
            token(JSONToken::Eof, 5, 5),
        ])
    );
}

#[test]
fn all_structural_tokens_are_one_byte_long() {
    let tokens = run("{}[]:,").unwrap();
    let kinds = [
        JSONToken::LBrace,
        JSONToken::RBrace,
        JSONToken::LBracket,
        JSONToken::RBracket,
        JSONToken::Colon,
        JSONToken::Comma,
    ];
    assert_eq!(tokens.len(), 7);
    for (i, kind) in kinds.into_iter().enumerate() {
        assert_eq!(tokens[i], token(kind, i, i + 1));
        assert_eq!(tokens[i].span.end - tokens[i].span.start, 1);
    }
    assert_eq!(tokens[6], token(JSONToken::Eof, 6, 6));
}

#[test]
fn keywords_cover_the_whole_word() {
    assert_eq!(run("true"), Ok(vec![token(JSONToken::True, 0, 4), token(JSONToken::Eof, 4, 4)]));
    assert_eq!(run("false"), Ok(vec![token(JSONToken::False, 0, 5), token(JSONToken::Eof, 5, 5)]));
    assert_eq!(run("null"), Ok(vec![token(JSONToken::Null, 0, 4), token(JSONToken::Eof, 4, 4)]));
}

#[test]
fn keywords_in_a_row() {
    assert_eq!(
        run(" true,false ,null"),
        Ok(vec![
            token(JSONToken::True, 1, 5),
            token(JSONToken::Comma, 5, 6),
            token(JSONToken::False, 6, 11),
            token(JSONToken::Comma, 12, 13),
            token(JSONToken::Null, 13, 17),
            token(JSONToken::Eof, 17, 17),
        ])
    );
}

#[test]
fn keyword_directly_followed_by_more_letters() {
    // The keyword is one token; what follows is judged on its own.
    assert_eq!(
        run("truex"),
        Err(JSONError::UnexpectedByte(ErrorInfo { offset: 4, found: Found::Byte(b'x') }))
    );
    assert_eq!(
        run("nullnull"),
        Ok(vec![
            token(JSONToken::Null, 0, 4),
            token(JSONToken::Null, 4, 8),
            token(JSONToken::Eof, 8, 8),
        ])
    );
}

#[test]
fn unexpected_byte_is_reported_where_it_stands() {
    assert_eq!(
        run("@"),
        Err(JSONError::UnexpectedByte(ErrorInfo { offset: 0, found: Found::Byte(b'@') }))
    );
    assert_eq!(
        run("[ @"),
        Err(JSONError::UnexpectedByte(ErrorInfo { offset: 2, found: Found::Byte(b'@') }))
    );
}

#[test]
fn keyword_mismatch_is_reported_at_the_first_wrong_byte() {
    assert_eq!(
        run("tRue"),
        Err(JSONError::UnexpectedByte(ErrorInfo { offset: 1, found: Found::Byte(b'R') }))
    );
    assert_eq!(
        run("  falsy"),
        Err(JSONError::UnexpectedByte(ErrorInfo { offset: 6, found: Found::Byte(b'y') }))
    );
    assert_eq!(
        run("nil"),
        Err(JSONError::UnexpectedByte(ErrorInfo { offset: 1, found: Found::Byte(b'i') }))
    );
}

#[test]
fn keyword_cut_short_by_the_end_of_input() {
    assert_eq!(
        run("tr"),
        Err(JSONError::UnexpectedByte(ErrorInfo { offset: 2, found: Found::Eof }))
    );
    assert_eq!(
        run("[nul"),
        Err(JSONError::UnexpectedByte(ErrorInfo { offset: 4, found: Found::Eof }))
    );
    assert_eq!(
        run("f"),
        Err(JSONError::UnexpectedByte(ErrorInfo { offset: 1, found: Found::Eof }))
    );
}

#[test]
fn cursor_stays_at_the_mismatch() {
    let mut lexer = Lexer::new(b"tRue");
    let first = lexer.next_token();
    assert_eq!(
        first,
        Err(JSONError::UnexpectedByte(ErrorInfo { offset: 1, found: Found::Byte(b'R') }))
    );
    // The cursor now stands on the `R`, so that is what the next call meets.
    let second = lexer.next_token();
    assert_eq!(
        second,
        Err(JSONError::UnexpectedByte(ErrorInfo { offset: 1, found: Found::Byte(b'R') }))
    );
}

#[test]
fn eof_is_returned_again_and_again() {
    let mut lexer = Lexer::new(b"[] \n");
    assert_eq!(lexer.next_token(), Ok(token(JSONToken::LBracket, 0, 1)));
    assert_eq!(lexer.next_token(), Ok(token(JSONToken::RBracket, 1, 2)));
    for _ in 0..5 {
        assert_eq!(lexer.next_token(), Ok(token(JSONToken::Eof, 4, 4)));
    }
}

#[test]
fn eof_is_last_and_occurs_once() {
    let tokens = run("{\"a\": [1, true, null], \"b\": -2.5e3}").unwrap();
    assert_eq!(tokens.last().unwrap().kind, JSONToken::Eof);
    let eofs = tokens.iter().filter(|t| t.kind == JSONToken::Eof).count();
    assert_eq!(eofs, 1);
    assert_eq!(tokens.len(), 16);
}

#[test]
fn spans_are_in_source_order_and_inside_the_input() {
    let input = " { \"key\" : [ 10 , false , \"\\u0041\" ] } ";
    let tokens = run(input).unwrap();
    let mut previous_end = 0;
    for t in &tokens {
        assert!(previous_end <= t.span.start);
        assert!(t.span.start <= t.span.end);
        assert!(t.span.end <= input.len());
        previous_end = t.span.end;
    }
    assert_eq!(tokens.last().unwrap().span, Span { start: input.len(), end: input.len() });
}

#[test]
fn every_byte_is_whitespace_or_part_of_a_token() {
    let input = "\t{ \"a\\n\" :[ -1.5e3,true ,null]\r\n}  ";
    let tokens = run(input).unwrap();
    for (p, byte) in input.bytes().enumerate() {
        let blank = matches!(byte, b' ' | b'\t' | b'\r' | b'\n');
        let inside = tokens.iter().any(|t| t.span.start <= p && p < t.span.end);
        assert!(blank != inside);
    }
}

#[test]
fn a_whole_document() {
    assert_eq!(
        run("{\"n\":[1,2.5],\"t\":true}"),
        Ok(vec![
            token(JSONToken::LBrace, 0, 1),
            token(JSONToken::String("n".to_string()), 1, 4),
            token(JSONToken::Colon, 4, 5),
            token(JSONToken::LBracket, 5, 6),
            token(JSONToken::Number("1".to_string()), 6, 7),
            token(JSONToken::Comma, 7, 8),
            token(JSONToken::Number("2.5".to_string()), 8, 11),
            token(JSONToken::RBracket, 11, 12),
            token(JSONToken::Comma, 12, 13),
            token(JSONToken::String("t".to_string()), 13, 16),
            token(JSONToken::Colon, 16, 17),
            token(JSONToken::True, 17, 21),
            token(JSONToken::RBrace, 21, 22),
            token(JSONToken::Eof, 22, 22),
        ])
    );
}

#[test]
fn the_driver_and_the_lexer_agree() {
    let input = "[null, \"x\\ty\", -0.5E-7, {}]";
    assert_eq!(run(input), drain(input.as_bytes()));
    let broken = "[1, 2, tru]";
    assert_eq!(run(broken), drain(broken.as_bytes()));
    assert_eq!(
        run(broken),
        Err(JSONError::UnexpectedByte(ErrorInfo { offset: 10, found: Found::Byte(b']') }))
    );
}

#[test]
fn an_error_yields_no_tokens() {
    // The first error ends the run, whatever was read before it.
    assert_eq!(
        run("{ } @ [ ]"),
        Err(JSONError::UnexpectedByte(ErrorInfo { offset: 4, found: Found::Byte(b'@') }))
    );
}

#[test]
fn error_offset_is_read_back() {
    let error = run("  ?").unwrap_err();
    assert_eq!(error.offset(), 2);
    let error = run("\"abc").unwrap_err();
    assert_eq!(error.offset(), 0);
}
