use lang::event::ParseError;
use lang::lexer::TextRange;
use lang::syntax::SyntaxKind;

#[test]
fn error_message_lists_the_expected_kinds() {
    let e = ParseError {
        expected: vec![SyntaxKind::Number, SyntaxKind::Ident, SyntaxKind::LParen],
        found: Some(SyntaxKind::Equals),
        range: TextRange { start: 12, end: 13 },
    };
    assert_eq!(
        e.message(),
        "error at 12..13: expected number, identifier or ‘(’, but found ‘=’"
    );
}

#[test]
fn error_message_at_the_end_of_the_input() {
    let e = ParseError {
        expected: vec![SyntaxKind::Equals],
        found: None,
        range: TextRange { start: 0, end: 3 },
    };
    assert_eq!(e.message(), "error at 0..3: expected ‘=’");
}

#[test]
fn error_message_with_two_kinds() {
    let e = ParseError {
        expected: vec![SyntaxKind::Ident, SyntaxKind::LetKw],
        found: Some(SyntaxKind::Number),
        range: TextRange { start: 105, end: 1000 },
    };
    assert_eq!(
        e.message(),
        "error at 105..1000: expected identifier or ‘let’, but found number"
    );
}
