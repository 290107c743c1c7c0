use lang::ast::{Expr, SyntaxElement, SyntaxNode, SyntaxToken, VariableDef};
use lang::syntax::SyntaxKind;

fn token(kind: SyntaxKind, text: &str) -> SyntaxElement {
    SyntaxElement::Token(SyntaxToken { kind, text: text.chars().collect() })
}

fn node(kind: SyntaxKind, children: Vec<SyntaxElement>) -> SyntaxElement {
    SyntaxElement::Node(SyntaxNode { kind, children })
}

fn definition(children: Vec<SyntaxElement>) -> VariableDef {
    VariableDef::new(SyntaxNode { kind: SyntaxKind::VariableRef, children })
}

#[test]
fn variable_def_name_and_value() {
    let def = definition(vec![
        token(SyntaxKind::LetKw, "let"),
        token(SyntaxKind::Whitespace, " "),
        token(SyntaxKind::Ident, "a"),
        token(SyntaxKind::Whitespace, " "),
        token(SyntaxKind::Equals, "="),
        token(SyntaxKind::Whitespace, " "),
        node(SyntaxKind::Literal, vec![token(SyntaxKind::Number, "10")]),
    ]);
    let name = def.name().unwrap();
    assert_eq!(name.kind, SyntaxKind::Ident);
    assert_eq!(name.text.iter().collect::<String>(), "a");
    let value = def.value().unwrap();
    assert_eq!(value.kind, SyntaxKind::Literal);
    assert_eq!(value.children.len(), 1);
}

#[test]
fn variable_def_takes_the_first_name() {
    let def = definition(vec![
        token(SyntaxKind::LetKw, "let"),
        token(SyntaxKind::Ident, "first"),
        token(SyntaxKind::Ident, "second"),
    ]);
    assert_eq!(def.name().unwrap().text.iter().collect::<String>(), "first");
}

#[test]
fn variable_def_value_skips_nodes_that_are_no_expression() {
    let def = definition(vec![
        token(SyntaxKind::LetKw, "let"),
        node(SyntaxKind::Error, vec![token(SyntaxKind::Ident, "x")]),
        node(SyntaxKind::Error, vec![token(SyntaxKind::Equals, "=")]),
        node(
            SyntaxKind::BinaryExpr,
            vec![
                token(SyntaxKind::Number, "1"),
                token(SyntaxKind::Plus, "+"),
                token(SyntaxKind::Number, "2"),
            ],
        ),
    ]);
    assert!(def.name().is_none());
    assert_eq!(def.value().unwrap().kind, SyntaxKind::BinaryExpr);
}

#[test]
fn variable_def_without_value() {
    let def = definition(vec![token(SyntaxKind::LetKw, "let"), token(SyntaxKind::Ident, "y")]);
    assert!(def.value().is_none());
}

#[test]
fn expr_cast_takes_expression_kinds_only() {
    for kind in [
        SyntaxKind::BinaryExpr,
        SyntaxKind::Literal,
        SyntaxKind::ParenExpr,
        SyntaxKind::PrefixExpr,
        SyntaxKind::VariableRef,
    ] {
        let e = Expr::cast(SyntaxNode { kind, children: Vec::new() }).unwrap();
        assert_eq!(e.syntax().kind, kind);
    }
    for kind in [SyntaxKind::Root, SyntaxKind::Error, SyntaxKind::Number] {
        assert!(Expr::cast(SyntaxNode { kind, children: Vec::new() }).is_none());
    }
}
