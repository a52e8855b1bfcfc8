use jq::{run, JSONToken, Span};

/// Empty input: one `Eof` token with the empty span at 0.
#[test]
fn no_input() {
    let input = "";
    let result = run(input).unwrap();
    assert_eq!(result.len(), 1);
    assert_eq!(result.first().unwrap().kind, JSONToken::Eof);
    assert_eq!(result.first().unwrap().span, Span { start: 0, end: 0 });
}

/// Whitespace only: `Eof` with the empty span at the end of the input.
#[test]
fn only_ws() {
    let input = "     ";
    let result = run(input).unwrap();
    assert_eq!(result.len(), 1);
    assert_eq!(result.first().unwrap().kind, JSONToken::Eof);
    assert_eq!(result.first().unwrap().span, Span { start: 5, end: 5 });
}

/// `{}`
#[test]
fn only_braces() {
    let input = "{}";
    let result = run(input).unwrap();
    assert_eq!(result.len(), 3);
    assert_eq!(result.first().unwrap().kind, JSONToken::LBrace);
    assert_eq!(result.first().unwrap().span, Span { start: 0, end: 1 });
    assert_eq!(result[1].kind, JSONToken::RBrace);
    assert_eq!(result[1].span, Span { start: 1, end: 2 });
    assert_eq!(result.last().unwrap().kind, JSONToken::Eof);
    assert_eq!(result.last().unwrap().span, Span { start: 2, end: 2 });
}

/// ` [ ] `
#[test]
fn brackets_with_ws() {
    let input = " [ ] ";
    let result = run(input).unwrap();
    assert_eq!(result.len(), 3);
    assert_eq!(result.first().unwrap().kind, JSONToken::LBracket);
    assert_eq!(result.first().unwrap().span, Span { start: 1, end: 2 });
    assert_eq!(result[1].kind, JSONToken::RBracket);
    assert_eq!(result[1].span, Span { start: 3, end: 4 });
    assert_eq!(result.last().unwrap().kind, JSONToken::Eof);
    assert_eq!(result.last().unwrap().span, Span { start: 5, end: 5 });
}

/// `@`
#[test]
#[should_panic]
fn unexpected_byte() {
    let input = "@";
    let _ = run(input).unwrap();
}
