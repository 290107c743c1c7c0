use lang::lexer::{lex, Lexeme};
use lang::syntax::SyntaxKind;

fn summary(lexemes: &[Lexeme]) -> Vec<(SyntaxKind, String, usize, usize)> {
    lexemes
        .iter()
        .map(|l| (l.kind, l.text.iter().collect::<String>(), l.range.start, l.range.end))
        .collect()
}

#[test]
fn lex_nothing() {
    assert!(lex("").is_empty());
}

#[test]
fn lex_variable_definition() {
    let lexemes = lex("let x = 12");
    assert_eq!(
        summary(&lexemes),
        vec![
            (SyntaxKind::LetKw, "let".to_string(), 0, 3),
            (SyntaxKind::Whitespace, " ".to_string(), 3, 4),
            (SyntaxKind::Ident, "x".to_string(), 4, 5),
            (SyntaxKind::Whitespace, " ".to_string(), 5, 6),
            (SyntaxKind::Equals, "=".to_string(), 6, 7),
            (SyntaxKind::Whitespace, " ".to_string(), 7, 8),
            (SyntaxKind::Number, "12".to_string(), 8, 10),
        ]
    );
}

#[test]
fn lex_keywords_need_the_whole_word() {
    let lexemes = lex("fn fnx let1");
    assert_eq!(
        summary(&lexemes),
        vec![
            (SyntaxKind::FnKw, "fn".to_string(), 0, 2),
            (SyntaxKind::Whitespace, " ".to_string(), 2, 3),
            (SyntaxKind::Ident, "fnx".to_string(), 3, 6),
            (SyntaxKind::Whitespace, " ".to_string(), 6, 7),
            (SyntaxKind::Ident, "let1".to_string(), 7, 11),
        ]
    );
}

#[test]
fn lex_punctuation() {
    let kinds: Vec<SyntaxKind> = lex("+-*/=(){}").iter().map(|l| l.kind).collect();
    assert_eq!(
        kinds,
        vec![
            SyntaxKind::Plus,
            SyntaxKind::Minus,
            SyntaxKind::Star,
            SyntaxKind::Slash,
            SyntaxKind::Equals,
            SyntaxKind::LParen,
            SyntaxKind::RParen,
            SyntaxKind::LBrace,
            SyntaxKind::RBrace,
        ]
    );
}

#[test]
fn lex_whitespace_run_with_newlines() {
    let lexemes = lex(" \n \n1");
    assert_eq!(
        summary(&lexemes),
        vec![
            (SyntaxKind::Whitespace, " \n \n".to_string(), 0, 4),
            (SyntaxKind::Number, "1".to_string(), 4, 5),
        ]
    );
}

#[test]
fn lex_unknown_chars_are_error_tokens() {
    let lexemes = lex("a?\tb");
    assert_eq!(
        summary(&lexemes),
        vec![
            (SyntaxKind::Ident, "a".to_string(), 0, 1),
            (SyntaxKind::Error, "?".to_string(), 1, 2),
            (SyntaxKind::Error, "\t".to_string(), 2, 3),
            (SyntaxKind::Ident, "b".to_string(), 3, 4),
        ]
    );
}

#[test]
fn lex_ranges_count_bytes() {
    let lexemes = lex("é1€");
    assert_eq!(
        summary(&lexemes),
        vec![
            (SyntaxKind::Error, "é".to_string(), 0, 2),
            (SyntaxKind::Number, "1".to_string(), 2, 3),
            (SyntaxKind::Error, "€".to_string(), 3, 6),
        ]
    );
}

#[test]
fn lex_loses_nothing() {
    let input = "let  total= (a1+ 22)*-x\n";
    let text: String = lex(input).iter().flat_map(|l| l.text.iter()).collect();
    assert_eq!(text, input);
}

#[test]
fn lex_makes_no_empty_token() {
    for input in ["", "a", "  12ab+-é\n\n(x)", "let fn = {}"] {
        assert!(lex(input).iter().all(|l| !l.text.is_empty()));
    }
}
