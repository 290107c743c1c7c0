use crate::syntax::SyntaxKind;
use vstd::prelude::*;

verus! {

/// A token of a syntax tree: its kind and its text.
pub struct SyntaxToken {
    pub kind: SyntaxKind,
    pub text: Vec<char>,
}

/// A node of a syntax tree: its kind and its children, in order.
pub struct SyntaxNode {
    pub kind: SyntaxKind,
    pub children: Vec<SyntaxElement>,
}

/// A child of a node: a node or a token.
pub enum SyntaxElement {
    Node(SyntaxNode),
    Token(SyntaxToken),
}

impl SyntaxToken {
    /// The token's kind and text.
    pub open spec fn view_token(&self) -> (SyntaxKind, Seq<char>) {
        (self.kind, self.text@)
    }

    /// A token of the same kind and text.
    pub fn copy(&self) -> (t: SyntaxToken)
        ensures
            t.view_token() == self.view_token(),
    {
        SyntaxToken { kind: self.kind, text: crate::event::copy_chars_of(&self.text) }
    }
}

/// The kind and text of `e`, if it is a token.
pub open spec fn element_token(e: SyntaxElement) -> Option<(SyntaxKind, Seq<char>)> {
    match e {
        SyntaxElement::Token(t) => Some(t.view_token()),
        SyntaxElement::Node(_) => None,
    }
}

/// `e` is a token of kind `Ident`.
pub open spec fn is_ident_token(e: SyntaxElement) -> bool {
    e matches SyntaxElement::Token(t) && t.kind == SyntaxKind::Ident
}

/// The kinds of the nodes that hold an expression.
pub open spec fn is_expr_kind(k: SyntaxKind) -> bool {
    ||| k == SyntaxKind::BinaryExpr
    ||| k == SyntaxKind::Literal
    ||| k == SyntaxKind::ParenExpr
    ||| k == SyntaxKind::PrefixExpr
    ||| k == SyntaxKind::VariableRef
}

/// `e` is a node that holds an expression.
pub open spec fn is_expr_node(e: SyntaxElement) -> bool {
    e matches SyntaxElement::Node(n) && is_expr_kind(n.kind)
}

/// An expression: a node of one of the expression kinds.
pub struct Expr {
    node: SyntaxNode,
}

impl Expr {
    /// The kind of the node the expression stands in.
    pub closed spec fn node_kind(&self) -> SyntaxKind {
        self.node.kind
    }

    /// The children of that node.
    pub closed spec fn node_children(&self) -> Seq<SyntaxElement> {
        self.node.children@
    }

    /// `node` as an expression, if it is of an expression kind.
    pub fn cast(node: SyntaxNode) -> (e: Option<Expr>)
        ensures
            e is Some <==> is_expr_kind(node.kind),
            e matches Some(x) ==> x.node_kind() == node.kind && x.node_children() == node.children@,
    {
        match node.kind {
            SyntaxKind::BinaryExpr
            | SyntaxKind::Literal
            | SyntaxKind::ParenExpr
            | SyntaxKind::PrefixExpr
            | SyntaxKind::VariableRef => Some(Expr { node }),
            _ => None,
        }
    }

    /// The node the expression stands in.
    pub fn syntax(&self) -> (n: &SyntaxNode)
        ensures
            n.kind == self.node_kind(),
            n.children@ == self.node_children(),
    {
        &self.node
    }
}

/// A variable definition: `let`, a name, `=` and a value, in one node.
pub struct VariableDef {
    node: SyntaxNode,
}

impl VariableDef {
    /// The children of the definition's node.
    pub closed spec fn children(&self) -> Seq<SyntaxElement> {
        self.node.children@
    }

    /// The definition held by `node`.
    pub fn new(node: SyntaxNode) -> (d: VariableDef)
        ensures
            d.children() == node.children@,
    {
        VariableDef { node }
    }

    /// The name: the first child of the node that is a token of kind `Ident`.
    pub fn name(&self) -> (t: Option<SyntaxToken>)
        ensures
            t is None <==> forall|j: int|
                0 <= j < self.children().len() ==> !is_ident_token(#[trigger] self.children()[j]),
            t matches Some(tok) ==> exists|i: int|
                0 <= i < self.children().len() && is_ident_token(#[trigger] self.children()[i])
                    && (forall|j: int| 0 <= j < i ==> !is_ident_token(#[trigger] self.children()[j]))
                    && element_token(self.children()[i]) == Some(tok.view_token()),
    {
        let cs = &self.node.children;
        let mut i: usize = 0;
        while i < cs.len()
            invariant
                i <= cs@.len(),
                cs@ == self.children(),
                forall|j: int| 0 <= j < i ==> !is_ident_token(#[trigger] cs@[j]),
            decreases cs@.len() - i,
        {
            match &cs[i] {
                SyntaxElement::Token(t) => {
                    if t.kind == SyntaxKind::Ident {
                        let found = t.copy();
                        assert(is_ident_token(cs@[i as int]));
                        return Some(found);
                    }
                },
                SyntaxElement::Node(_) => {},
            }
            i += 1;
        }
        None
    }

    /// The value: the first child of the node that is a node holding an expression.
    pub fn value(&self) -> (e: Option<&SyntaxNode>)
        ensures
            e is None <==> forall|j: int|
                0 <= j < self.children().len() ==> !is_expr_node(#[trigger] self.children()[j]),
            e matches Some(n) ==> exists|i: int|
                0 <= i < self.children().len() && is_expr_node(#[trigger] self.children()[i])
                    && (forall|j: int| 0 <= j < i ==> !is_expr_node(#[trigger] self.children()[j]))
                    && self.children()[i] == SyntaxElement::Node(*n),
    {
        let cs = &self.node.children;
        let mut i: usize = 0;
        while i < cs.len()
            invariant
                i <= cs@.len(),
                cs@ == self.children(),
                forall|j: int| 0 <= j < i ==> !is_expr_node(#[trigger] cs@[j]),
            decreases cs@.len() - i,
        {
            match &cs[i] {
                SyntaxElement::Node(n) => {
                    if is_expr_kind_exec(n.kind) {
                        assert(is_expr_node(cs@[i as int]));
                        return Some(n);
                    }
                },
                SyntaxElement::Token(_) => {},
            }
            i += 1;
        }
        None
    }
}

fn is_expr_kind_exec(k: SyntaxKind) -> (b: bool)
    ensures
        b == is_expr_kind(k),
{
    match k {
        SyntaxKind::BinaryExpr
        | SyntaxKind::Literal
        | SyntaxKind::ParenExpr
        | SyntaxKind::PrefixExpr
        | SyntaxKind::VariableRef => true,
        _ => false,
    }
}

} // verus!
