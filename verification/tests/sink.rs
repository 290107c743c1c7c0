use lang::event::Event;
use lang::green::LangLanguage;
use lang::lexer::lex;
use lang::sink::Sink;
use lang::syntax::SyntaxKind;

fn token(kind: SyntaxKind, text: &str) -> Event {
    Event::AddToken { kind, text: text.chars().collect() }
}

#[test]
fn sink_opens_a_node_at_its_checkpoint() {
    let lexemes = lex("1+2");
    let events = vec![
        Event::StartNode { kind: SyntaxKind::Root },
        token(SyntaxKind::Number, "1"),
        Event::StartNodeAt { kind: SyntaxKind::BinaryExpr, checkpoint: 1 },
        token(SyntaxKind::Plus, "+"),
        token(SyntaxKind::Number, "2"),
        Event::FinishNode,
        Event::FinishNode,
    ];
    let (green, errors) = Sink::new(&lexemes, events).finish().unwrap();
    assert!(errors.is_empty());
    let tree = format!("{:#?}", rowan::SyntaxNode::<LangLanguage>::new_root(green));
    let expected = "Root@0..3
  BinaryExpr@0..3
    Number@0..1 \"1\"
    Plus@1..2 \"+\"
    Number@2..3 \"2\"
";
    assert_eq!(tree, expected);
}

#[test]
fn sink_keeps_whitespace_between_tokens() {
    let lexemes = lex(" a -  b");
    let events = vec![
        Event::StartNode { kind: SyntaxKind::Root },
        token(SyntaxKind::Ident, "a"),
        Event::StartNodeAt { kind: SyntaxKind::BinaryExpr, checkpoint: 1 },
        token(SyntaxKind::Minus, "-"),
        token(SyntaxKind::Ident, "b"),
        Event::FinishNode,
        Event::FinishNode,
    ];
    let (green, _) = Sink::new(&lexemes, events).finish().unwrap();
    let root = rowan::SyntaxNode::<LangLanguage>::new_root(green);
    assert_eq!(root.text().to_string(), " a -  b");
}

#[test]
fn sink_refuses_a_second_root() {
    let lexemes = lex("1");
    let events = vec![
        Event::StartNode { kind: SyntaxKind::Root },
        Event::FinishNode,
        Event::StartNode { kind: SyntaxKind::Root },
        token(SyntaxKind::Number, "1"),
        Event::FinishNode,
    ];
    assert!(Sink::new(&lexemes, events).finish().is_none());
}
