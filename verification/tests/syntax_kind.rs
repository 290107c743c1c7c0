use lang::grammar::{Infix, PrefixOp};
use lang::syntax::SyntaxKind;

const ALL: [SyntaxKind; 21] = [
    SyntaxKind::Whitespace,
    SyntaxKind::FnKw,
    SyntaxKind::LetKw,
    SyntaxKind::Ident,
    SyntaxKind::Number,
    SyntaxKind::Plus,
    SyntaxKind::Minus,
    SyntaxKind::Star,
    SyntaxKind::Slash,
    SyntaxKind::Equals,
    SyntaxKind::LParen,
    SyntaxKind::RParen,
    SyntaxKind::LBrace,
    SyntaxKind::RBrace,
    SyntaxKind::Error,
    SyntaxKind::Root,
    SyntaxKind::BinaryExpr,
    SyntaxKind::Literal,
    SyntaxKind::ParenExpr,
    SyntaxKind::PrefixExpr,
    SyntaxKind::VariableRef,
];

#[test]
fn kinds_round_trip_through_their_numbers() {
    for (i, kind) in ALL.iter().enumerate() {
        assert_eq!(kind.to_raw(), i as u16);
        assert_eq!(SyntaxKind::from_raw(kind.to_raw()), *kind);
    }
}

#[test]
fn unknown_number_reads_as_error() {
    assert_eq!(SyntaxKind::from_raw(21), SyntaxKind::Error);
    assert_eq!(SyntaxKind::from_raw(u16::MAX), SyntaxKind::Error);
}

#[test]
fn only_whitespace_is_trivia() {
    for kind in ALL.iter() {
        assert_eq!(kind.is_trivia(), *kind == SyntaxKind::Whitespace);
    }
}

#[test]
fn infix_binding_powers() {
    assert_eq!(Infix::Add.binding_power(), (1, 2));
    assert_eq!(Infix::Sub.binding_power(), (1, 2));
    assert_eq!(Infix::Mul.binding_power(), (3, 4));
    assert_eq!(Infix::Div.binding_power(), (3, 4));
}

#[test]
fn prefix_binding_power() {
    assert_eq!(PrefixOp::Neg.binding_power(), ((), 5));
}
