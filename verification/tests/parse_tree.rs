use lang::parse::{parse, try_parse};

#[test]
fn parse_nothing() {
    assert_eq!(parse("").debug_tree(), "Root@0..0");
}

#[test]
fn parser_parse_nothing() {
    assert_eq!(parse("").debug_tree(), "Root@0..0");
}

#[test]
fn parse_number() {
    assert_eq!(parse("123").debug_tree(), "Root@0..3\n  Number@0..3 \"123\"");
}

#[test]
fn parse_binding_usage() {
    assert_eq!(parse("counter").debug_tree(), "Root@0..7\n  Ident@0..7 \"counter\"");
}

#[test]
fn unclosed_paren_does_not_parse() {
    assert!(try_parse("(1").is_none());
    assert!(try_parse("(1 + 2").is_none());
}

#[test]
fn trailing_whitespace_stays_in_the_root() {
    let expected = "Root@0..2
  Number@0..1 \"1\"
  Whitespace@1..2 \" \"";
    assert_eq!(try_parse("1 ").unwrap().debug_tree(), expected);
    assert_eq!(parse(" ").debug_tree(), "Root@0..1\n  Whitespace@0..1 \" \"");
}

#[test]
fn star_binds_more_tightly_than_plus() {
    let expected = "Root@0..5
  BinaryExpr@0..5
    Number@0..1 \"1\"
    Plus@1..2 \"+\"
    BinaryExpr@2..5
      Number@2..3 \"2\"
      Star@3..4 \"*\"
      Number@4..5 \"3\"";
    assert_eq!(parse("1+2*3").debug_tree(), expected);
}

#[test]
fn minus_groups_to_the_left() {
    let expected = "Root@0..9
  BinaryExpr@0..9
    BinaryExpr@0..6
      Number@0..1 \"1\"
      Whitespace@1..2 \" \"
      Minus@2..3 \"-\"
      Whitespace@3..4 \" \"
      Number@4..5 \"2\"
      Whitespace@5..6 \" \"
    Minus@6..7 \"-\"
    Whitespace@7..8 \" \"
    Number@8..9 \"3\"";
    assert_eq!(parse("1 - 2 - 3").debug_tree(), expected);
}

#[test]
fn slash_after_star_groups_to_the_left() {
    let expected = "Root@0..5
  BinaryExpr@0..5
    BinaryExpr@0..3
      Ident@0..1 \"a\"
      Star@1..2 \"*\"
      Ident@2..3 \"b\"
    Slash@3..4 \"/\"
    Ident@4..5 \"c\"";
    assert_eq!(parse("a*b/c").debug_tree(), expected);
}

#[test]
fn negation_binds_most_tightly() {
    let expected = "Root@0..6
  BinaryExpr@0..6
    PrefixExpr@0..3
      Minus@0..1 \"-\"
      Number@1..2 \"1\"
      Whitespace@2..3 \" \"
    Plus@3..4 \"+\"
    Whitespace@4..5 \" \"
    Number@5..6 \"2\"";
    assert_eq!(parse("-1 + 2").debug_tree(), expected);
}

#[test]
fn parentheses_hold_an_expression() {
    let expected = "Root@0..7
  BinaryExpr@0..7
    ParenExpr@0..5
      LParen@0..1 \"(\"
      BinaryExpr@1..4
        Number@1..2 \"1\"
        Plus@2..3 \"+\"
        Number@3..4 \"2\"
      RParen@4..5 \")\"
    Star@5..6 \"*\"
    Number@6..7 \"3\"";
    assert_eq!(parse("(1+2)*3").debug_tree(), expected);
}

#[test]
fn leading_whitespace_stays_in_the_root() {
    let expected = "Root@0..3
  Whitespace@0..2 \"  \"
  Number@2..3 \"7\"";
    assert_eq!(parse("  7").debug_tree(), expected);
}

#[test]
fn parsing_stops_after_one_expression() {
    let expected = "Root@0..2
  Number@0..1 \"1\"
  Whitespace@1..2 \" \"";
    assert_eq!(parse("1 2").debug_tree(), expected);
}

#[test]
fn missing_operand_leaves_the_operator_alone() {
    let expected = "Root@0..2
  BinaryExpr@0..2
    Number@0..1 \"1\"
    Plus@1..2 \"+\"";
    assert_eq!(parse("1+").debug_tree(), expected);
}

#[test]
fn expression_parses_without_errors() {
    let p = parse("x * (y - 2)");
    assert!(p.errors().is_empty());
}

fn tree_text(input: &str) -> String {
    let p = parse(input);
    let root = rowan::SyntaxNode::<lang::green::LangLanguage>::new_root(p.green_node().clone());
    root.text().to_string()
}

#[test]
fn tree_keeps_the_whole_input() {
    for input in ["", " ", "1", " 1 ", "-(a +b)*  3", "1 +", "x/ y\n"] {
        assert_eq!(tree_text(input), input);
    }
}

#[test]
fn tree_keeps_the_input_up_to_where_parsing_stopped() {
    assert_eq!(tree_text("1 2"), "1 ");
    assert_eq!(tree_text("a b c"), "a ");
    assert_eq!(tree_text("let x"), "");
}
