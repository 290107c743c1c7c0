use crate::event::{Event, EventV, ParseErrorV, events_view};
use crate::lexer::{Lexeme, LexV, lexemes_v};
use crate::parser::{CompletedMarker, Parser, lemma_skip_trivia, skip_trivia, sig_toks, lemma_sig_split, lemma_sig_next};
use crate::syntax::SyntaxKind;
use crate::tree::{Tree, root_events, raw, raw_seq, size, size_seq, lemma_sizes, lemma_sizes_seq, lemma_raw_seq_append, lemma_raw_seq_single, tree_toks, forest_toks, lemma_forest_toks_append, lemma_forest_toks_single};
use vstd::prelude::*;

verus! {

/// What a grammar rule does from a position: it cannot go on (a `(` without its
/// `)`), or it emits the trees `forest`, returns a marker of the last of them if
/// `marked`, and leaves the parser at `cursor` with the kinds asked for `expected`.
pub enum Parsed {
    Stuck,
    Done { forest: Seq<Tree>, marked: bool, cursor: int, expected: Seq<SyntaxKind> },
}

/// The token at position `i`, as a leaf.
pub open spec fn leaf(lx: Seq<LexV>, i: int) -> Tree {
    Tree::Leaf(lx[i].kind, lx[i].text)
}

/// The tokens that stand for arithmetic: `+`, `-`, `*` and `/`.
pub open spec fn is_arith_op(k: SyntaxKind) -> bool {
    k == SyntaxKind::Plus || k == SyntaxKind::Minus || k == SyntaxKind::Star || k == SyntaxKind::Slash
}

/// The binding powers of the infix operator of kind `k`: how tightly it holds the
/// operand on its left and the one on its right.
pub open spec fn infix_power(k: SyntaxKind) -> Option<(int, int)> {
    if k == SyntaxKind::Plus || k == SyntaxKind::Minus {
        Some((1, 2))
    } else if k == SyntaxKind::Star || k == SyntaxKind::Slash {
        Some((3, 4))
    } else {
        None
    }
}

/// How tightly a prefix `-` holds its operand.
pub open spec fn prefix_power() -> int {
    5
}

/// An operand: a number or a variable (a token of its own), a `-` with the operand of binding power 5 that
/// follows, or an expression in parentheses; nothing if none of these comes next.
pub open spec fn lhs_spec(lx: Seq<LexV>, c: int, ex: Seq<SyntaxKind>) -> Parsed
    decreases lx.len() - c, 1int,
{
    if !(0 <= c <= lx.len()) {
        Parsed::Stuck
    } else {
        let s = skip_trivia(lx, c);
        proof {
            lemma_skip_trivia(lx, c);
        }
        if s >= lx.len() {
            Parsed::Done { forest: seq![], marked: false, cursor: s, expected: ex }
        } else {
            let k = lx[s].kind;
            if k == SyntaxKind::Number || k == SyntaxKind::Ident {
                Parsed::Done { forest: seq![leaf(lx, s)], marked: true, cursor: s + 1, expected: seq![] }
            } else if k == SyntaxKind::Minus {
                match expr_bp_spec(lx, s + 1, seq![], prefix_power()) {
                    Parsed::Stuck => Parsed::Stuck,
                    Parsed::Done { forest, cursor, expected, .. } => Parsed::Done {
                        forest: seq![Tree::Node(SyntaxKind::PrefixExpr, seq![leaf(lx, s)] + forest)],
                        marked: true,
                        cursor,
                        expected,
                    },
                }
            } else if k == SyntaxKind::LParen {
                match expr_bp_spec(lx, s + 1, seq![], 0) {
                    Parsed::Stuck => Parsed::Stuck,
                    Parsed::Done { forest, cursor, .. } => {
                        let s2 = skip_trivia(lx, cursor);
                        if 0 <= s2 < lx.len() && lx[s2].kind == SyntaxKind::RParen {
                            Parsed::Done {
                                forest: seq![
                                    Tree::Node(
                                        SyntaxKind::ParenExpr,
                                        seq![leaf(lx, s)] + forest + seq![leaf(lx, s2)],
                                    ),
                                ],
                                marked: true,
                                cursor: s2 + 1,
                                expected: seq![],
                            }
                        } else {
                            Parsed::Stuck
                        }
                    },
                }
            } else {
                Parsed::Done { forest: seq![], marked: false, cursor: s, expected: ex }
            }
        }
    }
}

/// An expression whose operators all bind at least `min` tightly on the left
/// (precedence climbing): an operand, then as long as an infix operator comes
/// whose left binding power is at least `min`, that operator and the expression of
/// its right binding power, the two sides becoming one binary expression.
pub open spec fn expr_bp_spec(lx: Seq<LexV>, c: int, ex: Seq<SyntaxKind>, min: int) -> Parsed
    decreases lx.len() - c, 2int,
{
    if !(0 <= c <= lx.len()) {
        Parsed::Stuck
    } else {
        match lhs_spec(lx, c, ex) {
            Parsed::Stuck => Parsed::Stuck,
            Parsed::Done { forest, marked, cursor, expected } => {
                if !marked {
                    Parsed::Done { forest, marked, cursor, expected }
                } else if forest.len() == 1 && c <= cursor <= lx.len() {
                    infix_loop_spec(lx, cursor, expected, min, forest[0])
                } else {
                    Parsed::Stuck
                }
            },
        }
    }
}

/// The infix operators that follow the expression `lhs` at position `c`.
pub open spec fn infix_loop_spec(
    lx: Seq<LexV>,
    c: int,
    ex: Seq<SyntaxKind>,
    min: int,
    lhs: Tree,
) -> Parsed
    decreases lx.len() - c, 0int,
{
    if !(0 <= c <= lx.len()) {
        Parsed::Stuck
    } else {
        let s = skip_trivia(lx, c);
        proof {
            lemma_skip_trivia(lx, c);
        }
        let op = if s < lx.len() {
            infix_power(lx[s].kind)
        } else {
            None
        };
        match op {
            None => Parsed::Done { forest: seq![lhs], marked: true, cursor: s, expected: ex },
            Some((l, r)) => {
                if l < min {
                    Parsed::Done { forest: seq![lhs], marked: true, cursor: s, expected: ex }
                } else {
                    match expr_bp_spec(lx, s + 1, seq![], r) {
                        Parsed::Stuck => Parsed::Stuck,
                        Parsed::Done { forest, cursor, expected, .. } => {
                            let t = Tree::Wrap(
                                SyntaxKind::BinaryExpr,
                                seq![lhs, leaf(lx, s)] + forest,
                            );
                            if c < cursor <= lx.len() {
                                infix_loop_spec(lx, cursor, expected, min, t)
                            } else {
                                Parsed::Stuck
                            }
                        },
                    }
                }
            },
        }
    }
}

/// What `error` does at position `c`: it records a parse error with the kinds
/// asked for, the token found (its kind and range, or at the end the range of the
/// last token), and, unless that token is `let` or there is none, takes it inside
/// an error node.
pub open spec fn error_spec(lx: Seq<LexV>, c: int, ex: Seq<SyntaxKind>) -> Parsed {
    let s = skip_trivia(lx, c);
    if !(0 <= c <= lx.len()) || (s >= lx.len() && lx.len() == 0) {
        Parsed::Stuck
    } else {
        let found = if s < lx.len() {
            Some(lx[s].kind)
        } else {
            None
        };
        let range = if s < lx.len() {
            lx[s].range
        } else {
            lx.last().range
        };
        let diag = Tree::Diag(ParseErrorV { expected: ex, found, range });
        if s < lx.len() && lx[s].kind != SyntaxKind::LetKw {
            Parsed::Done {
                forest: seq![diag, Tree::Node(SyntaxKind::Error, seq![leaf(lx, s)])],
                marked: false,
                cursor: s + 1,
                expected: seq![],
            }
        } else {
            Parsed::Done { forest: seq![diag], marked: false, cursor: s, expected: seq![] }
        }
    }
}

/// What `expect(kind)` does at position `c`: a token of kind `kind` is taken inside
/// an error node; anything else is a parse error (see [`error_spec`]).
pub open spec fn expect_spec(lx: Seq<LexV>, c: int, ex: Seq<SyntaxKind>, kind: SyntaxKind) -> Parsed {
    let s = skip_trivia(lx, c);
    if !(0 <= c <= lx.len()) {
        Parsed::Stuck
    } else if s < lx.len() && lx[s].kind == kind {
        Parsed::Done {
            forest: seq![Tree::Node(SyntaxKind::Error, seq![leaf(lx, s)])],
            marked: false,
            cursor: s + 1,
            expected: seq![],
        }
    } else {
        error_spec(lx, s, ex.push(kind))
    }
}

/// What `variable_def` does at position `c`, where the next token is `let`: it
/// takes `let`, expects a name and `=`, then parses an expression; where one came,
/// a node of kind `VariableRef` holds all of it, else what was taken stands alone,
/// after the place held for the node that was not made.
pub open spec fn variable_def_spec(lx: Seq<LexV>, c: int) -> Parsed {
    let s = skip_trivia(lx, c);
    if !(0 <= c <= lx.len()) || s >= lx.len() {
        Parsed::Stuck
    } else {
        match expect_spec(lx, s + 1, seq![], SyntaxKind::Ident) {
            Parsed::Stuck => Parsed::Stuck,
            Parsed::Done { forest: f1, cursor: c1, expected: e1, .. } => match expect_spec(
                lx,
                c1,
                e1,
                SyntaxKind::Equals,
            ) {
                Parsed::Stuck => Parsed::Stuck,
                Parsed::Done { forest: f2, cursor: c2, expected: e2, .. } => match expr_bp_spec(
                    lx,
                    c2,
                    e2,
                    0,
                ) {
                    Parsed::Stuck => Parsed::Stuck,
                    Parsed::Done { forest: f3, marked, cursor: c3, expected: e3 } => {
                        let kids = seq![leaf(lx, s)] + f1 + f2 + f3;
                        if marked {
                            Parsed::Done {
                                forest: seq![Tree::Node(SyntaxKind::VariableRef, kids)],
                                marked: true,
                                cursor: c3,
                                expected: e3,
                            }
                        } else {
                            Parsed::Done {
                                forest: seq![Tree::Hole] + kids,
                                marked: false,
                                cursor: c3,
                                expected: e3,
                            }
                        }
                    },
                },
            },
        }
    }
}

/// What `stmt` does at position `c`: a variable definition where `let` comes next,
/// else an expression; either way `let` is among the kinds asked for.
pub open spec fn stmt_spec(lx: Seq<LexV>, c: int, ex: Seq<SyntaxKind>) -> Parsed {
    let s = skip_trivia(lx, c);
    if !(0 <= c <= lx.len()) {
        Parsed::Stuck
    } else if s < lx.len() && lx[s].kind == SyntaxKind::LetKw {
        variable_def_spec(lx, s)
    } else {
        expr_bp_spec(lx, s, ex.push(SyntaxKind::LetKw), 0)
    }
}

/// What the parser does from `old` to `new`, returning `res`, is what `r` says.
pub open spec fn follows(old: Parser, new: Parser, res: Option<CompletedMarker>, r: Parsed) -> bool {
    match r {
        Parsed::Stuck => new.failed(),
        Parsed::Done { forest, marked, cursor, expected } => {
            &&& !new.failed()
            &&& new.wf()
            &&& new.lexemes() == old.lexemes()
            &&& new.cursor() == cursor
            &&& old.cursor() <= cursor
            &&& new.expected() == expected
            &&& new.events() == old.events() + raw_seq(forest, old.events().len() as int)
            &&& forest_toks(forest) == sig_toks(old.lexemes(), old.cursor(), cursor)
            &&& (res is Some <==> marked)
            &&& marked ==> forest.len() > 0 && res->0.pos() == old.events().len() + size_seq(
                forest.drop_last(),
            )
        },
    }
}

/// The parser can go on: its position is within the tokens and it has not failed.
pub open spec fn ready(p: Parser) -> bool {
    p.wf() && !p.failed()
}

/// The binding powers of an infix operator.
pub enum Infix {
    Add,
    Sub,
    Mul,
    Div,
}

/// The binding power of a prefix operator.
pub enum PrefixOp {
    Neg,
}

impl PrefixOp {
    /// The binding power of the operand: 5, above every infix operator.
    pub fn binding_power(&self) -> (bp: ((), u8))
        ensures
            bp.1 == prefix_power(),
    {
        match self {
            PrefixOp::Neg => ((), 5),
        }
    }
}

impl Infix {
    /// The kind of the operator's token.
    pub open spec fn kind(&self) -> SyntaxKind {
        match self {
            Infix::Add => SyntaxKind::Plus,
            Infix::Sub => SyntaxKind::Minus,
            Infix::Mul => SyntaxKind::Star,
            Infix::Div => SyntaxKind::Slash,
        }
    }

    /// The left and right binding powers: `+` and `-` bind (1, 2), `*` and `/` bind
    /// (3, 4), so the latter go first and each operator groups to the left.
    pub fn binding_power(&self) -> (bp: (u8, u8))
        ensures
            infix_power(self.kind()) == Some((bp.0 as int, bp.1 as int)),
    {
        match self {
            Infix::Add | Infix::Sub => (1, 2),
            Infix::Mul | Infix::Div => (3, 4),
        }
    }
}

pub(crate) proof fn lemma_skip_idem(lx: Seq<LexV>, c: int)
    requires
        0 <= c <= lx.len(),
    ensures
        skip_trivia(lx, skip_trivia(lx, c)) == skip_trivia(lx, c),
{
    lemma_skip_trivia(lx, c);
}

/// The token taken after stepping over trivia is all that the step takes.
pub(crate) proof fn lemma_leaf_toks(lx: Seq<LexV>, c: int)
    requires
        0 <= c <= lx.len(),
        skip_trivia(lx, c) < lx.len(),
    ensures
        sig_toks(lx, c, skip_trivia(lx, c) + 1) == tree_toks(leaf(lx, skip_trivia(lx, c))),
        forest_toks(seq![leaf(lx, skip_trivia(lx, c))]) == tree_toks(leaf(lx, skip_trivia(lx, c))),
{
    lemma_sig_next(lx, c);
    lemma_forest_toks_single(leaf(lx, skip_trivia(lx, c)));
}

/// The tokens of a one-node forest are those of the node's children.
pub(crate) proof fn lemma_node_toks(k: SyntaxKind, kids: Seq<Tree>)
    ensures
        forest_toks(seq![Tree::Node(k, kids)]) == forest_toks(kids),
{
    lemma_forest_toks_single(Tree::Node(k, kids));
}

/// The events of a node whose children are `kids`, whose place was held at `base`.
pub(crate) proof fn lemma_node_events(k: SyntaxKind, kids: Seq<Tree>, base: int)
    ensures
        raw_seq(seq![Tree::Node(k, kids)], base) == seq![EventV::Start(k)] + raw_seq(kids, base + 1)
            + seq![EventV::Finish],
        size_seq(seq![Tree::Node(k, kids)].drop_last()) == 0,
{
    lemma_raw_seq_single(Tree::Node(k, kids), base);
    assert(seq![Tree::Node(k, kids)].drop_last() =~= Seq::<Tree>::empty());
}

/// The events of a node around `kids`, opened at the checkpoint `base`.
pub(crate) proof fn lemma_wrap_events(k: SyntaxKind, kids: Seq<Tree>, base: int)
    ensures
        raw_seq(seq![Tree::Wrap(k, kids)], base) == raw_seq(kids, base) + seq![
            EventV::StartAt(k, base),
            EventV::Finish,
        ],
        size_seq(seq![Tree::Wrap(k, kids)].drop_last()) == 0,
{
    lemma_raw_seq_single(Tree::Wrap(k, kids), base);
    assert(seq![Tree::Wrap(k, kids)].drop_last() =~= Seq::<Tree>::empty());
}

/// The events of trees after the place held for them: the placeholder, then
/// their own events, one position on.
pub(crate) proof fn lemma_hole_events(kids: Seq<Tree>, base: int)
    ensures
        raw_seq(seq![Tree::Hole] + kids, base) == seq![EventV::Placeholder] + raw_seq(kids, base + 1),
        size_seq(seq![Tree::Hole] + kids) == 1 + size_seq(kids),
{
    lemma_raw_seq_append(seq![Tree::Hole], kids, base);
    lemma_raw_seq_single(Tree::Hole, base);
}

/// Filling the place held at `base` with an opening and closing the node makes
/// the events of the node.
pub(crate) proof fn lemma_fill(before: Seq<EventV>, k: SyntaxKind, kids: Seq<Tree>)
    ensures
        (before + seq![EventV::Placeholder] + raw_seq(kids, before.len() + 1int)).update(
            before.len() as int,
            EventV::Start(k),
        ).push(EventV::Finish) == before + raw_seq(seq![Tree::Node(k, kids)], before.len() as int),
{
    let b = before.len() as int;
    lemma_node_events(k, kids, b);
    assert((before + seq![EventV::Placeholder] + raw_seq(kids, b + 1)).update(b, EventV::Start(k)).push(
        EventV::Finish,
    ) =~= before + (seq![EventV::Start(k)] + raw_seq(kids, b + 1) + seq![EventV::Finish]));
}

/// Two steps, one after the other, leave the trees of the first, then those of the
/// second.
pub(crate) proof fn lemma_then(p0: Parser, p1: Parser, p2: Parser, f1: Seq<Tree>, f2: Seq<Tree>)
    requires
        p1.lexemes() == p0.lexemes(),
        p2.lexemes() == p0.lexemes(),
        p0.cursor() <= p1.cursor() <= p2.cursor(),
        p1.events() == p0.events() + raw_seq(f1, p0.events().len() as int),
        p2.events() == p1.events() + raw_seq(f2, p1.events().len() as int),
        forest_toks(f1) == sig_toks(p0.lexemes(), p0.cursor(), p1.cursor()),
        forest_toks(f2) == sig_toks(p0.lexemes(), p1.cursor(), p2.cursor()),
    ensures
        p2.events() == p0.events() + raw_seq(f1 + f2, p0.events().len() as int),
        forest_toks(f1 + f2) == sig_toks(p0.lexemes(), p0.cursor(), p2.cursor()),
        size_seq(f1 + f2) == size_seq(f1) + size_seq(f2),
{
    let b0 = p0.events().len() as int;
    lemma_raw_seq_append(f1, f2, b0);
    lemma_sizes_seq(f1, b0);
    lemma_forest_toks_append(f1, f2);
    lemma_sig_split(p0.lexemes(), p0.cursor(), p1.cursor(), p2.cursor());
    assert(p2.events() =~= p0.events() + raw_seq(f1 + f2, b0));
}

/// The trees an operand is parsed into hold the tokens read for it, in order.
pub proof fn lemma_lhs_toks(lx: Seq<LexV>, c: int, ex: Seq<SyntaxKind>)
    ensures
        lhs_spec(lx, c, ex) matches Parsed::Done { forest, cursor, .. } ==> c <= cursor <= lx.len()
            && forest_toks(forest) == sig_toks(lx, c, cursor),
    decreases lx.len() - c, 1int,
{
    if 0 <= c <= lx.len() {
        let s = skip_trivia(lx, c);
        lemma_skip_trivia(lx, c);
        lemma_sig_next(lx, c);
        if s < lx.len() {
            let k = lx[s].kind;
            if k == SyntaxKind::Number || k == SyntaxKind::Ident {
                lemma_leaf_toks(lx, c);
            } else if k == SyntaxKind::Minus {
                lemma_expr_toks(lx, s + 1, seq![], prefix_power());
                if let Parsed::Done { forest, cursor, .. } = expr_bp_spec(lx, s + 1, seq![], prefix_power()) {
                    let kids = seq![leaf(lx, s)] + forest;
                    lemma_node_toks(SyntaxKind::PrefixExpr, kids);
                    lemma_forest_toks_append(seq![leaf(lx, s)], forest);
                    lemma_leaf_toks(lx, c);
                    lemma_sig_split(lx, c, s + 1, cursor);
                }
            } else if k == SyntaxKind::LParen {
                lemma_expr_toks(lx, s + 1, seq![], 0);
                if let Parsed::Done { forest, cursor, .. } = expr_bp_spec(lx, s + 1, seq![], 0) {
                    let s2 = skip_trivia(lx, cursor);
                    lemma_skip_trivia(lx, cursor);
                    if 0 <= s2 < lx.len() && lx[s2].kind == SyntaxKind::RParen {
                        let kids = seq![leaf(lx, s)] + forest + seq![leaf(lx, s2)];
                        lemma_node_toks(SyntaxKind::ParenExpr, kids);
                        lemma_forest_toks_append(seq![leaf(lx, s)], forest);
                        lemma_forest_toks_append(seq![leaf(lx, s)] + forest, seq![leaf(lx, s2)]);
                        lemma_leaf_toks(lx, c);
                        lemma_leaf_toks(lx, cursor);
                        lemma_sig_split(lx, c, s + 1, cursor);
                        lemma_sig_split(lx, c, cursor, s2 + 1);
                    }
                }
            }
        }
    }
}

/// The trees an expression is parsed into hold the tokens read for it, in order.
pub proof fn lemma_expr_toks(lx: Seq<LexV>, c: int, ex: Seq<SyntaxKind>, min: int)
    ensures
        expr_bp_spec(lx, c, ex, min) matches Parsed::Done { forest, cursor, .. } ==> c <= cursor
            <= lx.len() && forest_toks(forest) == sig_toks(lx, c, cursor),
    decreases lx.len() - c, 2int,
{
    if 0 <= c <= lx.len() {
        lemma_lhs_toks(lx, c, ex);
        if let Parsed::Done { forest, marked, cursor, expected } = lhs_spec(lx, c, ex) {
            if marked && forest.len() == 1 && c <= cursor <= lx.len() {
                lemma_infix_toks(lx, cursor, expected, min, forest[0]);
                lemma_forest_toks_single(forest[0]);
                assert(forest =~= seq![forest[0]]);
                if let Parsed::Done { cursor: c2, .. } = infix_loop_spec(lx, cursor, expected, min, forest[0]) {
                    lemma_sig_split(lx, c, cursor, c2);
                }
            }
        }
    }
}

/// The trees the operators after `lhs` are parsed into hold `lhs`'s tokens, then
/// those read for the operators and their operands.
pub proof fn lemma_infix_toks(lx: Seq<LexV>, c: int, ex: Seq<SyntaxKind>, min: int, lhs: Tree)
    ensures
        infix_loop_spec(lx, c, ex, min, lhs) matches Parsed::Done { forest, cursor, .. } ==> c
            <= cursor <= lx.len() && forest_toks(forest) == tree_toks(lhs) + sig_toks(lx, c, cursor),
    decreases lx.len() - c, 0int,
{
    if 0 <= c <= lx.len() {
        let s = skip_trivia(lx, c);
        lemma_skip_trivia(lx, c);
        lemma_sig_next(lx, c);
        lemma_forest_toks_single(lhs);
        let op = if s < lx.len() {
            infix_power(lx[s].kind)
        } else {
            None
        };
        if let Some((l, r)) = op {
            if l >= min {
                lemma_expr_toks(lx, s + 1, seq![], r);
                if let Parsed::Done { forest, cursor, expected, .. } = expr_bp_spec(lx, s + 1, seq![], r) {
                    let t = Tree::Wrap(SyntaxKind::BinaryExpr, seq![lhs, leaf(lx, s)] + forest);
                    if c < cursor <= lx.len() {
                        lemma_infix_toks(lx, cursor, expected, min, t);
                        assert(seq![lhs, leaf(lx, s)] =~= seq![lhs] + seq![leaf(lx, s)]);
                        lemma_forest_toks_append(seq![lhs], seq![leaf(lx, s)]);
                        lemma_forest_toks_append(seq![lhs, leaf(lx, s)], forest);
                        lemma_leaf_toks(lx, c);
                        lemma_forest_toks_single(t);
                        if let Parsed::Done { cursor: c3, .. } = infix_loop_spec(lx, cursor, expected, min, t) {
                            lemma_sig_split(lx, c, s + 1, cursor);
                            lemma_sig_split(lx, c, cursor, c3);
                            assert(tree_toks(lhs) + sig_toks(lx, c, c3) =~= tree_toks(t) + sig_toks(lx, cursor, c3));
                        }
                    }
                }
            }
        }
    }
}

/// An expression: one whose operators bind at least as tightly as 0.
pub fn expr(p: &mut Parser) -> (res: Option<CompletedMarker>)
    requires
        ready(*old(p)),
    ensures
        follows(*old(p), *final(p), res, expr_bp_spec(old(p).lexemes(), old(p).cursor(), old(p).expected(), 0)),
    decreases old(p).lexemes().len() - old(p).cursor(), 4int,
{
    expr_binding_power(p, 0)
}

fn literal(p: &mut Parser) -> (cm: CompletedMarker)
    requires
        ready(*old(p)),
        crate::parser::next_kind(old(p).lexemes(), old(p).cursor()) == Some(SyntaxKind::Number),
    ensures
        follows(*old(p), *final(p), Some(cm), lhs_spec(old(p).lexemes(), old(p).cursor(), old(p).expected())),
{
    let ghost p0 = *p;
    let ghost lx = p0.lexemes();
    let ghost s = skip_trivia(lx, p0.cursor());
    proof {
        lemma_skip_trivia(lx, p0.cursor());
    }
    let at_number = p.at(SyntaxKind::Number);
    assert(at_number);
    // A number stands in the tree as a token of its own.
    let pos = p.checkpoint();
    p.bump();
    let cm = CompletedMarker::new(pos);
    proof {
        lemma_skip_idem(lx, p0.cursor());
        let base = p0.events().len() as int;
        lemma_leaf_toks(lx, p0.cursor());
        lemma_raw_seq_single(leaf(lx, s), base);
        assert(seq![leaf(lx, s)].drop_last() =~= Seq::<Tree>::empty());
        assert(p.events() =~= p0.events() + raw_seq(seq![leaf(lx, s)], base));
    }
    cm
}

fn variable_ref(p: &mut Parser) -> (cm: CompletedMarker)
    requires
        ready(*old(p)),
        crate::parser::next_kind(old(p).lexemes(), old(p).cursor()) == Some(SyntaxKind::Ident),
    ensures
        follows(*old(p), *final(p), Some(cm), lhs_spec(old(p).lexemes(), old(p).cursor(), old(p).expected())),
{
    let ghost p0 = *p;
    let ghost lx = p0.lexemes();
    let ghost s = skip_trivia(lx, p0.cursor());
    proof {
        lemma_skip_trivia(lx, p0.cursor());
    }
    let at_ident = p.at(SyntaxKind::Ident);
    assert(at_ident);
    // A variable stands in the tree as a token of its own.
    let pos = p.checkpoint();
    p.bump();
    let cm = CompletedMarker::new(pos);
    proof {
        lemma_skip_idem(lx, p0.cursor());
        let base = p0.events().len() as int;
        lemma_leaf_toks(lx, p0.cursor());
        lemma_raw_seq_single(leaf(lx, s), base);
        assert(seq![leaf(lx, s)].drop_last() =~= Seq::<Tree>::empty());
        assert(p.events() =~= p0.events() + raw_seq(seq![leaf(lx, s)], base));
    }
    cm
}

fn prefix_expr(p: &mut Parser) -> (cm: CompletedMarker)
    requires
        ready(*old(p)),
        crate::parser::next_kind(old(p).lexemes(), old(p).cursor()) == Some(SyntaxKind::Minus),
    ensures
        follows(*old(p), *final(p), Some(cm), lhs_spec(old(p).lexemes(), old(p).cursor(), old(p).expected())),
    decreases old(p).lexemes().len() - old(p).cursor(), 1int,
{
    let ghost p0 = *p;
    let ghost lx = p0.lexemes();
    let ghost s = skip_trivia(lx, p0.cursor());
    proof {
        lemma_skip_trivia(lx, p0.cursor());
    }
    let at_minus = p.at(SyntaxKind::Minus);
    assert(at_minus);
    let pos = p.checkpoint();
    let m = p.start();
    let op = PrefixOp::Neg;
    let ((), right_binding_power) = op.binding_power();
    // Eat the operator's token.
    p.bump();
    let ghost p1 = *p;
    let _ = expr_binding_power(p, right_binding_power);
    if p.has_failed() {
        return CompletedMarker::new(pos);
    }
    let ghost p2 = *p;
    let ghost base = p0.events().len() as int;
    proof {
        lemma_skip_idem(lx, p0.cursor());
        if let Parsed::Done { forest, .. } = expr_bp_spec(lx, s + 1, seq![], prefix_power()) {
            let kids = seq![leaf(lx, s)] + forest;
            lemma_raw_seq_append(seq![leaf(lx, s)], forest, base + 1);
            lemma_raw_seq_single(leaf(lx, s), base + 1);
            lemma_sizes(leaf(lx, s), base + 1);
            assert(p2.events() =~= p0.events() + seq![EventV::Placeholder] + raw_seq(kids, base + 1));
        }
    }
    let cm = m.complete(p, SyntaxKind::PrefixExpr);
    proof {
        match expr_bp_spec(lx, s + 1, seq![], prefix_power()) {
            Parsed::Stuck => {},
            Parsed::Done { forest, cursor, expected, .. } => {
                let kids = seq![leaf(lx, s)] + forest;
                lemma_fill(p0.events(), SyntaxKind::PrefixExpr, kids);
                lemma_node_events(SyntaxKind::PrefixExpr, kids, base);
                lemma_leaf_toks(lx, p0.cursor());
                lemma_node_toks(SyntaxKind::PrefixExpr, kids);
                lemma_forest_toks_append(seq![leaf(lx, s)], forest);
                lemma_sig_split(lx, p0.cursor(), s + 1, cursor);
            },
        }
    }
    cm
}

fn paren_expr(p: &mut Parser) -> (cm: CompletedMarker)
    requires
        ready(*old(p)),
        crate::parser::next_kind(old(p).lexemes(), old(p).cursor()) == Some(SyntaxKind::LParen),
    ensures
        follows(*old(p), *final(p), Some(cm), lhs_spec(old(p).lexemes(), old(p).cursor(), old(p).expected())),
    decreases old(p).lexemes().len() - old(p).cursor(), 1int,
{
    let ghost p0 = *p;
    let ghost lx = p0.lexemes();
    let ghost s = skip_trivia(lx, p0.cursor());
    proof {
        lemma_skip_trivia(lx, p0.cursor());
        lemma_skip_idem(lx, p0.cursor());
    }
    let at_lparen = p.at(SyntaxKind::LParen);
    assert(at_lparen);
    let pos = p.checkpoint();
    let m = p.start();
    p.bump();
    let _ = expr_binding_power(p, 0);
    if p.has_failed() {
        return CompletedMarker::new(pos);
    }
    // Without the `)`, parsing cannot go on.
    let at_rparen = p.at(SyntaxKind::RParen);
    if !at_rparen {
        p.fail();
        return CompletedMarker::new(pos);
    }
    p.bump();
    let ghost p3 = *p;
    let ghost base = p0.events().len() as int;
    proof {
        if let Parsed::Done { forest, cursor, .. } = expr_bp_spec(lx, s + 1, seq![], 0) {
            let s2 = skip_trivia(lx, cursor);
            lemma_skip_trivia(lx, cursor);
            let kids = seq![leaf(lx, s)] + forest + seq![leaf(lx, s2)];
            lemma_raw_seq_append(seq![leaf(lx, s)], forest, base + 1);
            lemma_raw_seq_append(seq![leaf(lx, s)] + forest, seq![leaf(lx, s2)], base + 1);
            lemma_raw_seq_single(leaf(lx, s), base + 1);
            lemma_raw_seq_single(leaf(lx, s2), base + 2 + size_seq(forest));
            lemma_sizes(leaf(lx, s), base + 1);
            lemma_sizes_seq(forest, base + 2);
            assert(p3.events() =~= p0.events() + seq![EventV::Placeholder] + raw_seq(kids, base + 1));
        }
    }
    let cm = m.complete(p, SyntaxKind::ParenExpr);
    proof {
        match expr_bp_spec(lx, s + 1, seq![], 0) {
            Parsed::Stuck => {},
            Parsed::Done { forest, cursor, expected, .. } => {
                let s2 = skip_trivia(lx, cursor);
                lemma_skip_trivia(lx, cursor);
                let kids = seq![leaf(lx, s)] + forest + seq![leaf(lx, s2)];
                lemma_fill(p0.events(), SyntaxKind::ParenExpr, kids);
                lemma_node_events(SyntaxKind::ParenExpr, kids, base);
                lemma_leaf_toks(lx, p0.cursor());
                lemma_leaf_toks(lx, cursor);
                lemma_node_toks(SyntaxKind::ParenExpr, kids);
                lemma_forest_toks_append(seq![leaf(lx, s)], forest);
                lemma_forest_toks_append(seq![leaf(lx, s)] + forest, seq![leaf(lx, s2)]);
                lemma_forest_toks_single(leaf(lx, s2));
                lemma_sig_split(lx, p0.cursor(), s + 1, cursor);
                lemma_sig_split(lx, p0.cursor(), cursor, s2 + 1);
            },
        }
    }
    cm
}

fn lhs(p: &mut Parser) -> (res: Option<CompletedMarker>)
    requires
        ready(*old(p)),
    ensures
        follows(*old(p), *final(p), res, lhs_spec(old(p).lexemes(), old(p).cursor(), old(p).expected())),
    decreases old(p).lexemes().len() - old(p).cursor(), 2int,
{
    let ghost p0 = *p;
    proof {
        lemma_skip_trivia(p0.lexemes(), p0.cursor());
        lemma_skip_idem(p0.lexemes(), p0.cursor());
    }
    let cm = match p.peek() {
        Some(SyntaxKind::Number) => literal(p),
        Some(SyntaxKind::Ident) => variable_ref(p),
        Some(SyntaxKind::Minus) => prefix_expr(p),
        Some(SyntaxKind::LParen) => paren_expr(p),
        _ => {
            proof {
                assert(p.events() =~= p0.events() + raw_seq(Seq::<Tree>::empty(), p0.events().len() as int));
                lemma_sig_next(p0.lexemes(), p0.cursor());
            }
            return None;
        },
    };
    proof {
        let lx = p0.lexemes();
        let s = skip_trivia(lx, p0.cursor());
        assert(lhs_spec(lx, s, p0.expected()) == lhs_spec(lx, p0.cursor(), p0.expected()));
        match lhs_spec(lx, p0.cursor(), p0.expected()) {
            Parsed::Done { cursor, .. } => {
                lemma_sig_next(lx, p0.cursor());
                lemma_sig_split(lx, p0.cursor(), s, cursor);
            },
            Parsed::Stuck => {},
        }
    }
    Some(cm)
}

/// Parses an expression whose operators bind at least `minimum_binding_power`
/// tightly on the left (see [`expr_bp_spec`]).
pub fn expr_binding_power(p: &mut Parser, minimum_binding_power: u8) -> (res: Option<CompletedMarker>)
    requires
        ready(*old(p)),
    ensures
        follows(
            *old(p),
            *final(p),
            res,
            expr_bp_spec(old(p).lexemes(), old(p).cursor(), old(p).expected(), minimum_binding_power as int),
        ),
    decreases old(p).lexemes().len() - old(p).cursor(), 3int,
{
    let ghost p0 = *p;
    let ghost lx = p0.lexemes();
    let ghost min = minimum_binding_power as int;
    let ghost base = p0.events().len() as int;
    let mut lhs = if let Some(lhs) = lhs(p) {
        lhs
    } else {
        return None;
    };
    if p.has_failed() {
        return None;
    }
    let ghost mut lt: Tree = match lhs_spec(lx, p0.cursor(), p0.expected()) {
        Parsed::Done { forest, .. } => forest[0],
        Parsed::Stuck => arbitrary(),
    };
    proof {
        match lhs_spec(lx, p0.cursor(), p0.expected()) {
            Parsed::Done { forest, .. } => {
                assert(forest.len() == 1) by {
                    reveal_with_fuel(lhs_spec, 1);
                }
                assert(forest =~= seq![lt]);
                lemma_raw_seq_single(lt, base);
                lemma_forest_toks_single(lt);
            },
            Parsed::Stuck => {},
        }
    }
    loop
        invariant
            ready(*p),
            p0 == *old(p),
            lx == p0.lexemes(),
            p.lexemes() == lx,
            p0.cursor() <= p.cursor() <= lx.len(),
            p.events() == p0.events() + raw(lt, base),
            lhs.pos() == base,
            base == p0.events().len(),
            tree_toks(lt) == sig_toks(lx, p0.cursor(), p.cursor()),
            min == minimum_binding_power as int,
            infix_loop_spec(lx, p.cursor(), p.expected(), min, lt) == expr_bp_spec(lx, p0.cursor(), p0.expected(), min),
        decreases lx.len() - p.cursor(),
    {
        let ghost pc = *p;
        let ghost s = skip_trivia(lx, pc.cursor());
        proof {
            lemma_skip_trivia(lx, pc.cursor());
            lemma_raw_seq_single(lt, base);
            lemma_forest_toks_single(lt);
            lemma_sig_next(lx, pc.cursor());
            lemma_sig_split(lx, p0.cursor(), pc.cursor(), s);
            assert(size_seq(seq![lt].drop_last()) == 0) by {
                assert(seq![lt].drop_last() =~= Seq::<Tree>::empty());
            }
        }
        let op = match p.peek() {
            Some(SyntaxKind::Plus) => Infix::Add,
            Some(SyntaxKind::Minus) => Infix::Sub,
            Some(SyntaxKind::Star) => Infix::Mul,
            Some(SyntaxKind::Slash) => Infix::Div,
            _ => {
                proof {
                    assert(infix_loop_spec(lx, pc.cursor(), pc.expected(), min, lt) == Parsed::Done {
                        forest: seq![lt],
                        marked: true,
                        cursor: s,
                        expected: pc.expected(),
                    });
                }
                return Some(lhs);
            },
        };
        let (left_binding_power, right_binding_power) = op.binding_power();
        if left_binding_power < minimum_binding_power {
            proof {
                assert(infix_loop_spec(lx, pc.cursor(), pc.expected(), min, lt) == Parsed::Done {
                    forest: seq![lt],
                    marked: true,
                    cursor: s,
                    expected: pc.expected(),
                });
            }
            return Some(lhs);
        }
        p.bump();
        let m = lhs.precede(p);
        let _ = expr_binding_power(p, right_binding_power);
        if p.has_failed() {
            return None;
        }
        lhs = m.complete(p, SyntaxKind::BinaryExpr);
        proof {
            match expr_bp_spec(lx, s + 1, seq![], right_binding_power as int) {
                Parsed::Stuck => {},
                Parsed::Done { forest, cursor, expected, .. } => {
                    let kids = seq![lt, leaf(lx, s)] + forest;
                    let t = Tree::Wrap(SyntaxKind::BinaryExpr, kids);
                    lemma_wrap_events(SyntaxKind::BinaryExpr, kids, base);
                    lemma_raw_seq_single(t, base);
                    assert(seq![lt, leaf(lx, s)] =~= seq![lt] + seq![leaf(lx, s)]);
                    lemma_raw_seq_append(seq![lt], seq![leaf(lx, s)], base);
                    lemma_raw_seq_append(seq![lt, leaf(lx, s)], forest, base);
                    lemma_raw_seq_single(leaf(lx, s), base + size(lt));
                    lemma_sizes(lt, base);
                    lemma_sizes(leaf(lx, s), base);
                    assert(p.events() =~= p0.events() + raw(t, base));
                    lemma_forest_toks_single(t);
                    lemma_forest_toks_single(lt);
                    lemma_forest_toks_append(seq![lt], seq![leaf(lx, s)]);
                    lemma_forest_toks_append(seq![lt, leaf(lx, s)], forest);
                    lemma_leaf_toks(lx, pc.cursor());
                    lemma_sig_split(lx, p0.cursor(), pc.cursor(), s + 1);
                    lemma_sig_split(lx, p0.cursor(), s + 1, cursor);
                    lt = t;
                },
            }
        }
    }
}

/// A statement: a variable definition where `let` comes next, else an expression.
pub fn stmt(p: &mut Parser) -> (res: Option<CompletedMarker>)
    requires
        ready(*old(p)),
    ensures
        follows(*old(p), *final(p), res, stmt_spec(old(p).lexemes(), old(p).cursor(), old(p).expected())),
{
    let ghost p0 = *p;
    let ghost lx = p0.lexemes();
    let ghost s = skip_trivia(lx, p0.cursor());
    proof {
        lemma_skip_trivia(lx, p0.cursor());
        lemma_skip_idem(lx, p0.cursor());
        lemma_sig_next(lx, p0.cursor());
    }
    if p.at(SyntaxKind::LetKw) {
        let res = variable_def(p);
        proof {
            match variable_def_spec(lx, s) {
                Parsed::Done { cursor, .. } => {
                    lemma_sig_split(lx, p0.cursor(), s, cursor);
                },
                Parsed::Stuck => {},
            }
        }
        res
    } else {
        let res = expr(p);
        proof {
            match expr_bp_spec(lx, s, p0.expected().push(SyntaxKind::LetKw), 0) {
                Parsed::Done { cursor, .. } => {
                    lemma_sig_split(lx, p0.cursor(), s, cursor);
                },
                Parsed::Stuck => {},
            }
        }
        res
    }
}

/// `let`, a name, `=` and an expression, in a node of kind `VariableRef`.
#[verifier::spinoff_prover]
#[verifier::rlimit(50)]
fn variable_def(p: &mut Parser) -> (res: Option<CompletedMarker>)
    requires
        ready(*old(p)),
        crate::parser::next_kind(old(p).lexemes(), old(p).cursor()) == Some(SyntaxKind::LetKw),
    ensures
        follows(*old(p), *final(p), res, variable_def_spec(old(p).lexemes(), old(p).cursor())),
{
    let ghost p0 = *p;
    let ghost lx = p0.lexemes();
    let ghost s = skip_trivia(lx, p0.cursor());
    let ghost b0 = p0.events().len() as int;
    proof {
        lemma_skip_trivia(lx, p0.cursor());
        lemma_skip_idem(lx, p0.cursor());
    }
    let at_let = p.at(SyntaxKind::LetKw);
    assert(at_let);
    let m = p.start();
    p.bump();
    let ghost p1 = *p;
    let ghost l = seq![Tree::Hole, leaf(lx, s)];
    proof {
        lemma_leaf_toks(lx, p0.cursor());
        assert(l =~= seq![Tree::Hole] + seq![leaf(lx, s)]);
        lemma_hole_events(seq![leaf(lx, s)], b0);
        lemma_raw_seq_single(leaf(lx, s), b0 + 1);
        assert(p1.events() =~= p0.events() + raw_seq(l, b0));
        lemma_forest_toks_append(seq![Tree::Hole], seq![leaf(lx, s)]);
        lemma_forest_toks_single(Tree::Hole);
        assert(forest_toks(l) =~= forest_toks(seq![leaf(lx, s)]));
    }
    assert(expect_spec(lx, s + 1, seq![], SyntaxKind::Ident) is Done) by {
        lemma_skip_trivia(lx, s + 1);
        lemma_skip_trivia(lx, skip_trivia(lx, s + 1));
    }
    p.expect(SyntaxKind::Ident);
    let ghost p2 = *p;
    assert(expect_spec(lx, p2.cursor(), p2.expected(), SyntaxKind::Equals) is Done) by {
        lemma_skip_trivia(lx, p2.cursor());
        lemma_skip_trivia(lx, skip_trivia(lx, p2.cursor()));
    }
    p.expect(SyntaxKind::Equals);
    let ghost p3 = *p;
    let e = expr(p);
    let ghost p4 = *p;
    proof {
        if let Parsed::Done { forest: f1, cursor: c1, expected: e1, .. } = expect_spec(lx, s + 1, seq![], SyntaxKind::Ident) {
            if let Parsed::Done { forest: f2, cursor: c2, expected: e2, .. } = expect_spec(lx, c1, e1, SyntaxKind::Equals) {
                if let Parsed::Done { forest: f3, .. } = expr_bp_spec(lx, c2, e2, 0) {
                    let kids = seq![leaf(lx, s)] + f1 + f2 + f3;
                    lemma_then(p0, p1, p2, l, f1);
                    lemma_then(p0, p2, p3, l + f1, f2);
                    lemma_then(p0, p3, p4, l + f1 + f2, f3);
                    assert(l + f1 + f2 + f3 =~= seq![Tree::Hole] + kids);
                    lemma_hole_events(kids, b0);
                    lemma_forest_toks_append(seq![Tree::Hole], kids);
                    lemma_forest_toks_single(Tree::Hole);
                    assert(forest_toks(seq![Tree::Hole] + kids) =~= forest_toks(kids));
                    assert(p4.events() =~= p0.events() + seq![EventV::Placeholder] + raw_seq(kids, b0 + 1));
                }
            }
        }
    }
    if e.is_none() || p.has_failed() {
        return None;
    }
    let cm = m.complete(p, SyntaxKind::VariableRef);
    proof {
        if let Parsed::Done { forest: f1, cursor: c1, expected: e1, .. } = expect_spec(lx, s + 1, seq![], SyntaxKind::Ident) {
            if let Parsed::Done { forest: f2, cursor: c2, expected: e2, .. } = expect_spec(lx, c1, e1, SyntaxKind::Equals) {
                if let Parsed::Done { forest: f3, .. } = expr_bp_spec(lx, c2, e2, 0) {
                    let kids = seq![leaf(lx, s)] + f1 + f2 + f3;
                    lemma_fill(p0.events(), SyntaxKind::VariableRef, kids);
                    lemma_node_events(SyntaxKind::VariableRef, kids, b0);
                    lemma_node_toks(SyntaxKind::VariableRef, kids);
                }
            }
        }
    }
    Some(cm)
}

/// The operator of a binary expression `t`.
pub open spec fn binary_op(t: Tree) -> Option<SyntaxKind> {
    match t {
        Tree::Wrap(k, cs) => if k == SyntaxKind::BinaryExpr && cs.len() >= 2 {
            match cs[1] {
                Tree::Leaf(op, _) => Some(op),
                _ => None,
            }
        } else {
            None
        },
        _ => None,
    }
}

/// How tightly the top of `t` holds on its left: the left binding power of a
/// binary expression's operator, 10 (above every operator) for anything else.
pub open spec fn op_power(t: Tree) -> int {
    match binary_op(t) {
        Some(op) => match infix_power(op) {
            Some((l, _)) => l,
            None => 10,
        },
        None => 10,
    }
}

/// `t` is a binary expression with both its operands.
pub open spec fn complete_binary(t: Tree) -> bool {
    match t {
        Tree::Wrap(k, cs) => k == SyntaxKind::BinaryExpr && cs.len() == 3,
        _ => false,
    }
}

/// The operands of the node `t` are grouped by binding power: a node opened at a
/// checkpoint is a binary expression whose operator, its second child, is one of
/// `+ - * /`; a binary operator's right operand binds more tightly than it, its left operand, where
/// that is a whole binary expression, at least as tightly, and the operand of a
/// prefix `-` holds no binary operator at its top.
pub open spec fn node_grouped(t: Tree) -> bool {
    match t {
        Tree::Wrap(k, cs) => {
            &&& k == SyntaxKind::BinaryExpr
            &&& cs.len() >= 2
            &&& (cs[1] matches Tree::Leaf(op, _) && is_arith_op(op))
            &&& (k == SyntaxKind::BinaryExpr && cs.len() == 3 ==> op_power(cs[2]) > op_power(t))
            &&& (k == SyntaxKind::BinaryExpr && cs.len() >= 2 && complete_binary(cs[0]) ==> op_power(
                cs[0],
            ) >= op_power(t))
        },
        Tree::Node(k, cs) => k == SyntaxKind::PrefixExpr && cs.len() == 2 ==> op_power(cs[1])
            >= prefix_power(),
        _ => true,
    }
}

/// Every node of `t` is grouped by binding power (see [`node_grouped`]).
pub open spec fn grouped(t: Tree) -> bool
    decreases t,
{
    node_grouped(t) && match t {
        Tree::Node(_, cs) => grouped_seq(cs),
        Tree::Wrap(_, cs) => grouped_seq(cs),
        _ => true,
    }
}

/// Every tree of `cs` is grouped (see [`grouped`]).
pub open spec fn grouped_seq(cs: Seq<Tree>) -> bool
    decreases cs,
{
    if cs.len() == 0 {
        true
    } else {
        grouped(cs[0]) && grouped_seq(cs.drop_first())
    }
}

/// Parsing stops at `c` for binding power `min`: no infix operator that binds at
/// least `min` tightly comes next.
pub open spec fn stops_at(lx: Seq<LexV>, c: int, min: int) -> bool {
    let s = skip_trivia(lx, c);
    !(s < lx.len() && (infix_power(lx[s].kind) matches Some((l, _)) && l >= min))
}

/// The operator after `lhs`, at `c`, binds no more tightly than `lhs`'s, where
/// `lhs` is a whole binary expression.
pub open spec fn next_fits(lx: Seq<LexV>, c: int, lhs: Tree) -> bool {
    let s = skip_trivia(lx, c);
    complete_binary(lhs) && s < lx.len() ==> (infix_power(lx[s].kind) matches Some((l, _)) ==> l
        <= op_power(lhs))
}

proof fn lemma_grouped_seq_append(a: Seq<Tree>, b: Seq<Tree>)
    ensures
        grouped_seq(a + b) == (grouped_seq(a) && grouped_seq(b)),
    decreases a.len(),
{
    if a.len() == 0 {
        assert(a + b =~= b);
    } else {
        assert((a + b)[0] == a[0]);
        assert((a + b).drop_first() =~= a.drop_first() + b);
        lemma_grouped_seq_append(a.drop_first(), b);
    }
}

proof fn lemma_grouped_single(t: Tree)
    ensures
        grouped_seq(seq![t]) == grouped(t),
{
    assert(seq![t].drop_first() =~= Seq::<Tree>::empty());
    assert(seq![t][0] == t);
    assert(grouped_seq(Seq::<Tree>::empty()));
}

/// An operand is grouped, and is no binary expression.
proof fn lemma_lhs_grouped(lx: Seq<LexV>, c: int, ex: Seq<SyntaxKind>)
    ensures
        lhs_spec(lx, c, ex) matches Parsed::Done { forest, marked, .. } ==> {
            &&& grouped_seq(forest)
            &&& marked ==> forest.len() == 1 && binary_op(forest[0]) is None
            &&& !marked ==> forest.len() == 0
        },
    decreases lx.len() - c, 1int,
{
    if 0 <= c <= lx.len() {
        let s = skip_trivia(lx, c);
        lemma_skip_trivia(lx, c);
        if s < lx.len() {
            let k = lx[s].kind;
            let l = seq![leaf(lx, s)];
            lemma_grouped_single(leaf(lx, s));
            if k == SyntaxKind::Minus {
                lemma_expr_grouped(lx, s + 1, seq![], prefix_power());
                if let Parsed::Done { forest, .. } = expr_bp_spec(lx, s + 1, seq![], prefix_power()) {
                    let t = Tree::Node(SyntaxKind::PrefixExpr, l + forest);
                    lemma_grouped_seq_append(l, forest);
                    if forest.len() == 1 {
                        assert((l + forest)[1] == forest[0]);
                    }
                    lemma_grouped_single(t);
                }
            } else if k == SyntaxKind::LParen {
                lemma_expr_grouped(lx, s + 1, seq![], 0);
                if let Parsed::Done { forest, cursor, .. } = expr_bp_spec(lx, s + 1, seq![], 0) {
                    let s2 = skip_trivia(lx, cursor);
                    let kids = l + forest + seq![leaf(lx, s2)];
                    lemma_grouped_seq_append(l, forest);
                    lemma_grouped_seq_append(l + forest, seq![leaf(lx, s2)]);
                    lemma_grouped_single(leaf(lx, s2));
                    lemma_grouped_single(Tree::Node(SyntaxKind::ParenExpr, kids));
                }
            }
        }
    }
}

/// An expression is grouped, its top binds at least `min` tightly, and parsing
/// stops where no operator that binds so tightly follows.
proof fn lemma_expr_grouped(lx: Seq<LexV>, c: int, ex: Seq<SyntaxKind>, min: int)
    requires
        min <= 10,
    ensures
        expr_bp_spec(lx, c, ex, min) matches Parsed::Done { forest, marked, cursor, .. } ==> {
            &&& grouped_seq(forest)
            &&& marked ==> forest.len() == 1 && op_power(forest[0]) >= min && stops_at(lx, cursor, min)
            &&& !marked ==> forest.len() == 0
        },
    decreases lx.len() - c, 2int,
{
    if 0 <= c <= lx.len() {
        lemma_lhs_grouped(lx, c, ex);
        if let Parsed::Done { forest, marked, cursor, expected } = lhs_spec(lx, c, ex) {
            if marked && forest.len() == 1 && c <= cursor <= lx.len() {
                lemma_grouped_single(forest[0]);
                lemma_infix_grouped(lx, cursor, expected, min, forest[0]);
                if let Parsed::Done { forest: f2, .. } = infix_loop_spec(lx, cursor, expected, min, forest[0]) {
                    lemma_grouped_single(f2[0]);
                    assert(f2 =~= seq![f2[0]]);
                }
            }
        }
    }
}

/// The operators after a grouped `lhs` keep the whole grouped.
proof fn lemma_infix_grouped(lx: Seq<LexV>, c: int, ex: Seq<SyntaxKind>, min: int, lhs: Tree)
    requires
        min <= 10,
        grouped(lhs),
        op_power(lhs) >= min,
        next_fits(lx, c, lhs),
    ensures
        infix_loop_spec(lx, c, ex, min, lhs) matches Parsed::Done { forest, marked, cursor, .. } ==> {
            &&& marked && forest.len() == 1
            &&& grouped(forest[0])
            &&& op_power(forest[0]) >= min
            &&& stops_at(lx, cursor, min)
        },
    decreases lx.len() - c, 0int,
{
    if 0 <= c <= lx.len() {
        let s = skip_trivia(lx, c);
        lemma_skip_trivia(lx, c);
        lemma_skip_idem(lx, c);
        let op = if s < lx.len() {
            infix_power(lx[s].kind)
        } else {
            None
        };
        if let Some((l, r)) = op {
            if l >= min {
                lemma_expr_grouped(lx, s + 1, seq![], r);
                if let Parsed::Done { forest, marked, cursor, expected } = expr_bp_spec(lx, s + 1, seq![], r) {
                    let kids = seq![lhs, leaf(lx, s)] + forest;
                    let t = Tree::Wrap(SyntaxKind::BinaryExpr, kids);
                    if c < cursor <= lx.len() {
                        assert(kids[1] == leaf(lx, s));
                        assert(kids[0] == lhs);
                        assert(binary_op(t) == Some(lx[s].kind));
                        assert(op_power(t) == l);
                        if kids.len() == 3 {
                            assert(kids[2] == forest[0]);
                        }
                        assert(seq![lhs, leaf(lx, s)] =~= seq![lhs] + seq![leaf(lx, s)]);
                        lemma_grouped_seq_append(seq![lhs], seq![leaf(lx, s)]);
                        lemma_grouped_seq_append(seq![lhs, leaf(lx, s)], forest);
                        lemma_grouped_single(lhs);
                        lemma_grouped_single(leaf(lx, s));
                        assert(grouped(t));
                        lemma_skip_trivia(lx, cursor);
                        lemma_skip_idem(lx, cursor);
                        assert(next_fits(lx, cursor, t));
                        lemma_infix_grouped(lx, cursor, expected, min, t);
                    }
                }
            }
        }
    }
}

/// Operators group by how tightly they bind, and to the left: in the trees parsed
/// for a token list, the right operand of every binary operator binds more
/// tightly than it, a left operand that is a whole binary expression binds at
/// least as tightly (so `-` and `+` group to the left of each other, and `*` and
/// `/` too), and the operand of a prefix `-` holds no binary operator at its top.
pub proof fn lemma_operators_group(lx: Seq<LexV>)
    ensures
        parse_spec(lx) matches Parsed::Done { forest, .. } ==> grouped_seq(forest),
{
    lemma_expr_grouped(lx, 0, seq![], 0);
}

/// Where `r` built something, no `+ - * /` follows the place where it ends.
pub open spec fn ends_whole(lx: Seq<LexV>, r: Parsed) -> bool {
    match r {
        Parsed::Done { marked: true, cursor, .. } => {
            let s = skip_trivia(lx, cursor);
            !(s < lx.len() && is_arith_op(lx[s].kind))
        },
        _ => true,
    }
}

/// The only infix operators are `+ - * /`: a token binds two operands exactly when
/// it is one of them, and each holds its right operand more tightly than its left.
pub proof fn lemma_infix_operators(k: SyntaxKind)
    ensures
        infix_power(k) is Some <==> is_arith_op(k),
        infix_power(k) matches Some((l, r)) ==> 0 < l < r,
{
}

/// An expression, once built, is whole: no `+ - * /` follows where it ends, for
/// one that follows would have been taken into it.
pub proof fn lemma_expression_is_whole(lx: Seq<LexV>, c: int, ex: Seq<SyntaxKind>)
    ensures
        ends_whole(lx, expr_bp_spec(lx, c, ex, 0)),
{
    lemma_expr_grouped(lx, c, ex, 0);
}

/// A statement, once built, is whole: where a variable definition or an
/// expression ends, no `+ - * /` follows; the value of a definition takes in the
/// whole expression after `let name =`.
pub proof fn lemma_statement_is_whole(lx: Seq<LexV>, c: int, ex: Seq<SyntaxKind>)
    ensures
        ends_whole(lx, stmt_spec(lx, c, ex)),
        ends_whole(lx, variable_def_spec(lx, c)),
{
    lemma_definition_is_whole(lx, c);
    let s = skip_trivia(lx, c);
    if 0 <= c <= lx.len() {
        if s < lx.len() && lx[s].kind == SyntaxKind::LetKw {
            lemma_definition_is_whole(lx, s);
        } else {
            lemma_expression_is_whole(lx, s, ex.push(SyntaxKind::LetKw));
        }
    }
}

proof fn lemma_definition_is_whole(lx: Seq<LexV>, c: int)
    ensures
        ends_whole(lx, variable_def_spec(lx, c)),
{
    let s = skip_trivia(lx, c);
    if 0 <= c <= lx.len() && s < lx.len() {
        if let Parsed::Done { cursor: c1, expected: e1, .. } = expect_spec(lx, s + 1, seq![], SyntaxKind::Ident) {
            if let Parsed::Done { cursor: c2, expected: e2, .. } = expect_spec(lx, c1, e1, SyntaxKind::Equals) {
                lemma_expression_is_whole(lx, c2, e2);
            }
        }
    }
}

/// What `error` records and takes, stated over the tokens: the error names the
/// kinds asked for, and the token found after trivia with its range or, at the
/// end of the input, no token and the range of the input's last token; a token
/// found is taken inside an error node and passed, unless it is `let`, which is
/// left for the statement it starts.
pub proof fn lemma_error_recovery(lx: Seq<LexV>, c: int, ex: Seq<SyntaxKind>)
    requires
        0 <= c <= lx.len(),
        lx.len() > 0,
    ensures
        ({
            let s = skip_trivia(lx, c);
            let r = error_spec(lx, c, ex);
            &&& r is Done
            &&& s >= lx.len() ==> r->forest == seq![
                Tree::Diag((ParseErrorV { expected: ex, found: None, range: lx[lx.len() - 1].range })),
            ] && r->cursor == lx.len()
            &&& s < lx.len() ==> r->forest[0] == Tree::Diag(
                (ParseErrorV { expected: ex, found: Some(lx[s].kind), range: lx[s].range }),
            )
            &&& s < lx.len() && lx[s].kind != SyntaxKind::LetKw ==> r->forest.len() == 2
                && r->forest[1] == Tree::Node(
                SyntaxKind::Error,
                seq![Tree::Leaf(lx[s].kind, lx[s].text)],
            ) && r->cursor == s + 1
            &&& s < lx.len() && lx[s].kind == SyntaxKind::LetKw ==> r->forest.len() == 1 && r->cursor
                == s
            &&& r->expected == Seq::<SyntaxKind>::empty()
        }),
{
    lemma_skip_trivia(lx, c);
}

/// What parsing a whole token list does: one expression from the first token.
pub open spec fn parse_spec(lx: Seq<LexV>) -> Parsed {
    expr_bp_spec(lx, 0, seq![], 0)
}

impl<'l> Parser<'l> {
    /// The events of a root node around one expression, or `None` where a `(` has
    /// no `)` and the parser cannot go on.
    pub fn parse_checked(self) -> (res: Option<Vec<Event>>)
        requires
            self.wf(),
            !self.failed(),
            self.cursor() == 0,
            self.events() == Seq::<EventV>::empty(),
            self.expected() == Seq::<SyntaxKind>::empty(),
        ensures
            res is Some <==> !(parse_spec(self.lexemes()) is Stuck),
            res matches Some(evs) ==> (parse_spec(self.lexemes()) matches Parsed::Done { forest, cursor, .. }
                && events_view(evs@) == root_events(forest) && 0 <= cursor <= self.lexemes().len()
                && forest_toks(forest) == sig_toks(self.lexemes(), 0, cursor)),
    {
        let ghost lx = self.lexemes();
        let mut p = self;
        p.start_node(SyntaxKind::Root);
        let _ = expr(&mut p);
        if p.has_failed() {
            return None;
        }
        p.finish_node();
        let evs = p.into_events();
        proof {
            match parse_spec(lx) {
                Parsed::Done { forest, .. } => {
                    assert(events_view(evs@) =~= root_events(forest));
                },
                Parsed::Stuck => {},
            }
        }
        Some(evs)
    }

    /// The events of a root node around one expression.
    pub fn parse(self) -> (evs: Vec<Event>)
        requires
            self.wf(),
            !self.failed(),
            self.cursor() == 0,
            self.events() == Seq::<EventV>::empty(),
            self.expected() == Seq::<SyntaxKind>::empty(),
            !(parse_spec(self.lexemes()) is Stuck),
        ensures
            parse_spec(self.lexemes()) matches Parsed::Done { forest, cursor, .. } && events_view(evs@)
                == root_events(forest) && 0 <= cursor <= self.lexemes().len()
                && forest_toks(forest) == sig_toks(self.lexemes(), 0, cursor),
    {
        self.parse_checked().unwrap()
    }
}

} // verus!
