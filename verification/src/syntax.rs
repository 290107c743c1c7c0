use vstd::prelude::*;

verus! {

/// The kinds of tokens the lexer produces and of nodes the parser builds.
#[derive(Debug, Clone, Copy, PartialEq, Eq, PartialOrd, Ord, Hash, Structural)]
pub enum SyntaxKind {
    Whitespace,
    FnKw,
    LetKw,
    Ident,
    Number,
    Plus,
    Minus,
    Star,
    Slash,
    Equals,
    LParen,
    RParen,
    LBrace,
    RBrace,
    Error,
    Root,
    BinaryExpr,
    Literal,
    ParenExpr,
    PrefixExpr,
    VariableRef,
}

/// The number under which a kind is stored in a green tree.
pub open spec fn kind_code(kind: SyntaxKind) -> u16 {
    match kind {
        SyntaxKind::Whitespace => 0,
        SyntaxKind::FnKw => 1,
        SyntaxKind::LetKw => 2,
        SyntaxKind::Ident => 3,
        SyntaxKind::Number => 4,
        SyntaxKind::Plus => 5,
        SyntaxKind::Minus => 6,
        SyntaxKind::Star => 7,
        SyntaxKind::Slash => 8,
        SyntaxKind::Equals => 9,
        SyntaxKind::LParen => 10,
        SyntaxKind::RParen => 11,
        SyntaxKind::LBrace => 12,
        SyntaxKind::RBrace => 13,
        SyntaxKind::Error => 14,
        SyntaxKind::Root => 15,
        SyntaxKind::BinaryExpr => 16,
        SyntaxKind::Literal => 17,
        SyntaxKind::ParenExpr => 18,
        SyntaxKind::PrefixExpr => 19,
        SyntaxKind::VariableRef => 20,
    }
}

/// The kind stored under `code`; a number that no kind is stored under reads as `Error`.
pub open spec fn kind_of_code(code: u16) -> SyntaxKind {
    if code == 0 {
        SyntaxKind::Whitespace
    } else if code == 1 {
        SyntaxKind::FnKw
    } else if code == 2 {
        SyntaxKind::LetKw
    } else if code == 3 {
        SyntaxKind::Ident
    } else if code == 4 {
        SyntaxKind::Number
    } else if code == 5 {
        SyntaxKind::Plus
    } else if code == 6 {
        SyntaxKind::Minus
    } else if code == 7 {
        SyntaxKind::Star
    } else if code == 8 {
        SyntaxKind::Slash
    } else if code == 9 {
        SyntaxKind::Equals
    } else if code == 10 {
        SyntaxKind::LParen
    } else if code == 11 {
        SyntaxKind::RParen
    } else if code == 12 {
        SyntaxKind::LBrace
    } else if code == 13 {
        SyntaxKind::RBrace
    } else if code == 15 {
        SyntaxKind::Root
    } else if code == 16 {
        SyntaxKind::BinaryExpr
    } else if code == 17 {
        SyntaxKind::Literal
    } else if code == 18 {
        SyntaxKind::ParenExpr
    } else if code == 19 {
        SyntaxKind::PrefixExpr
    } else if code == 20 {
        SyntaxKind::VariableRef
    } else {
        SyntaxKind::Error
    }
}

/// Trivia is what the parser steps over: whitespace.
pub open spec fn is_trivia_kind(kind: SyntaxKind) -> bool {
    kind == SyntaxKind::Whitespace
}

impl SyntaxKind {
    /// Whether tokens of this kind are trivia, which the parser skips.
    pub fn is_trivia(self) -> (b: bool)
        ensures
            b == is_trivia_kind(self),
    {
        match self {
            SyntaxKind::Whitespace => true,
            _ => false,
        }
    }

    /// The number under which this kind is stored in a green tree.
    pub fn to_raw(self) -> (code: u16)
        ensures
            code == kind_code(self),
    {
        match self {
            SyntaxKind::Whitespace => 0,
            SyntaxKind::FnKw => 1,
            SyntaxKind::LetKw => 2,
            SyntaxKind::Ident => 3,
            SyntaxKind::Number => 4,
            SyntaxKind::Plus => 5,
            SyntaxKind::Minus => 6,
            SyntaxKind::Star => 7,
            SyntaxKind::Slash => 8,
            SyntaxKind::Equals => 9,
            SyntaxKind::LParen => 10,
            SyntaxKind::RParen => 11,
            SyntaxKind::LBrace => 12,
            SyntaxKind::RBrace => 13,
            SyntaxKind::Error => 14,
            SyntaxKind::Root => 15,
            SyntaxKind::BinaryExpr => 16,
            SyntaxKind::Literal => 17,
            SyntaxKind::ParenExpr => 18,
            SyntaxKind::PrefixExpr => 19,
            SyntaxKind::VariableRef => 20,
        }
    }

    /// The kind stored under `code`.
    pub fn from_raw(code: u16) -> (kind: SyntaxKind)
        ensures
            kind == kind_of_code(code),
    {
        if code == 0 {
            SyntaxKind::Whitespace
        } else if code == 1 {
            SyntaxKind::FnKw
        } else if code == 2 {
            SyntaxKind::LetKw
        } else if code == 3 {
            SyntaxKind::Ident
        } else if code == 4 {
            SyntaxKind::Number
        } else if code == 5 {
            SyntaxKind::Plus
        } else if code == 6 {
            SyntaxKind::Minus
        } else if code == 7 {
            SyntaxKind::Star
        } else if code == 8 {
            SyntaxKind::Slash
        } else if code == 9 {
            SyntaxKind::Equals
        } else if code == 10 {
            SyntaxKind::LParen
        } else if code == 11 {
            SyntaxKind::RParen
        } else if code == 12 {
            SyntaxKind::LBrace
        } else if code == 13 {
            SyntaxKind::RBrace
        } else if code == 15 {
            SyntaxKind::Root
        } else if code == 16 {
            SyntaxKind::BinaryExpr
        } else if code == 17 {
            SyntaxKind::Literal
        } else if code == 18 {
            SyntaxKind::ParenExpr
        } else if code == 19 {
            SyntaxKind::PrefixExpr
        } else if code == 20 {
            SyntaxKind::VariableRef
        } else {
            SyntaxKind::Error
        }
    }
}

/// Storing a kind in a green tree and reading it back gives the same kind.
pub proof fn lemma_kind_code_roundtrip(kind: SyntaxKind)
    ensures
        kind_of_code(kind_code(kind)) == kind,
{
}

/// No two kinds are stored under the same number.
pub proof fn lemma_kind_code_injective(a: SyntaxKind, b: SyntaxKind)
    ensures
        kind_code(a) == kind_code(b) ==> a == b,
{
    lemma_kind_code_roundtrip(a);
    lemma_kind_code_roundtrip(b);
}

} // verus!
