use lang::event::Event;
use lang::grammar::stmt;
use lang::lexer::lex;
use lang::parser::Parser;
use lang::syntax::SyntaxKind;

fn describe(e: &Event) -> String {
    match e {
        Event::StartNode { kind } => format!("start {:?}", kind),
        Event::StartNodeAt { kind, checkpoint } => format!("start {:?} at {}", kind, checkpoint),
        Event::AddToken { kind, text } => {
            format!("token {:?} {:?}", kind, text.iter().collect::<String>())
        }
        Event::FinishNode => "finish".to_string(),
        Event::Placeholder => "placeholder".to_string(),
        Event::Error(err) => format!(
            "error expected {:?} found {:?} at {}..{}",
            err.expected, err.found, err.range.start, err.range.end
        ),
    }
}

fn stmt_events(input: &str) -> (bool, Vec<String>) {
    let lexemes = lex(input);
    let mut p = Parser::new(&lexemes);
    let done = stmt(&mut p).is_some();
    let events = p.into_events().iter().map(describe).collect();
    (done, events)
}

#[test]
fn stmt_variable_definition() {
    let (done, events) = stmt_events("let x = 1");
    assert!(done);
    assert_eq!(
        events,
        vec![
            "start VariableRef",
            "token LetKw \"let\"",
            "start Error",
            "token Ident \"x\"",
            "finish",
            "start Error",
            "token Equals \"=\"",
            "finish",
            "token Number \"1\"",
            "finish",
        ]
    );
}

#[test]
fn stmt_expression() {
    let (done, events) = stmt_events("1 + 2");
    assert!(done);
    assert_eq!(
        events,
        vec![
            "token Number \"1\"",
            "token Plus \"+\"",
            "token Number \"2\"",
            "start BinaryExpr at 0",
            "finish",
        ]
    );
}

#[test]
fn stmt_missing_name_is_an_error() {
    let (done, events) = stmt_events("let = 1");
    assert!(!done);
    assert_eq!(
        events,
        vec![
            "placeholder",
            "token LetKw \"let\"",
            "error expected [Ident] found Some(Equals) at 4..5",
            "start Error",
            "token Equals \"=\"",
            "finish",
            "error expected [Equals] found Some(Number) at 6..7",
            "start Error",
            "token Number \"1\"",
            "finish",
        ]
    );
}

#[test]
fn stmt_error_at_the_end_points_at_the_last_token() {
    let (done, events) = stmt_events("let");
    assert!(!done);
    assert_eq!(
        events,
        vec![
            "placeholder",
            "token LetKw \"let\"",
            "error expected [Ident] found None at 0..3",
            "error expected [Equals] found None at 0..3",
        ]
    );
}

#[test]
fn stmt_error_does_not_take_let() {
    let (done, events) = stmt_events("let let");
    assert!(!done);
    assert_eq!(
        events,
        vec![
            "placeholder",
            "token LetKw \"let\"",
            "error expected [Ident] found Some(LetKw) at 4..7",
            "error expected [Equals] found Some(LetKw) at 4..7",
        ]
    );
}

#[test]
fn stmt_without_value_has_no_definition_node() {
    let (done, events) = stmt_events("let x =");
    assert!(!done);
    assert_eq!(
        events,
        vec![
            "placeholder",
            "token LetKw \"let\"",
            "start Error",
            "token Ident \"x\"",
            "finish",
            "start Error",
            "token Equals \"=\"",
            "finish",
        ]
    );
}

#[test]
fn expect_records_every_kind_asked_for() {
    let lexemes = lex("1");
    let mut p = Parser::new(&lexemes);
    assert!(!p.at(SyntaxKind::Ident));
    p.expect(SyntaxKind::Equals);
    let events: Vec<String> = p.into_events().iter().map(describe).collect();
    assert_eq!(
        events,
        vec![
            "error expected [Ident, Equals] found Some(Number) at 0..1",
            "start Error",
            "token Number \"1\"",
            "finish",
        ]
    );
}

#[test]
fn parser_wraps_one_expression_in_a_root() {
    let lexemes = lex("7");
    let events: Vec<String> = Parser::new(&lexemes).parse().iter().map(describe).collect();
    assert_eq!(events, vec!["start Root", "token Number \"7\"", "finish"]);
}

#[test]
fn start_holds_a_place_that_complete_fills() {
    let lexemes = lex("-1");
    let mut p = Parser::new(&lexemes);
    let m = p.start();
    assert!(p.at(SyntaxKind::Minus));
    p.bump();
    let before: Vec<String> = p.into_events().iter().map(describe).collect();
    assert_eq!(before, vec!["placeholder", "token Minus \"-\""]);
    let mut p = Parser::new(&lexemes);
    let m2 = p.start();
    p.bump();
    m2.complete(&mut p, SyntaxKind::PrefixExpr);
    let after: Vec<String> = p.into_events().iter().map(describe).collect();
    assert_eq!(after, vec!["start PrefixExpr", "token Minus \"-\"", "finish"]);
    let _ = m;
}
