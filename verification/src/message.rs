use crate::event::{ParseError, ParseErrorV};
use crate::syntax::SyntaxKind;
use vstd::prelude::*;
use vstd::string::StringExecFns;

verus! {

/// How a kind is named in an error message.
pub open spec fn kind_name(k: SyntaxKind) -> Seq<char> {
    match k {
        SyntaxKind::Whitespace => "whitespace"@,
        SyntaxKind::FnKw => "‘fn’"@,
        SyntaxKind::LetKw => "‘let’"@,
        SyntaxKind::Ident => "identifier"@,
        SyntaxKind::Number => "number"@,
        SyntaxKind::Plus => "‘+’"@,
        SyntaxKind::Minus => "‘-’"@,
        SyntaxKind::Star => "‘*’"@,
        SyntaxKind::Slash => "‘/’"@,
        SyntaxKind::Equals => "‘=’"@,
        SyntaxKind::LParen => "‘(’"@,
        SyntaxKind::RParen => "‘)’"@,
        SyntaxKind::LBrace => "‘{’"@,
        SyntaxKind::RBrace => "‘}’"@,
        SyntaxKind::Error => "an unrecognized token"@,
        SyntaxKind::Root => "root"@,
        SyntaxKind::BinaryExpr => "binary expression"@,
        SyntaxKind::Literal => "literal"@,
        SyntaxKind::ParenExpr => "parenthesized expression"@,
        SyntaxKind::PrefixExpr => "prefix expression"@,
        SyntaxKind::VariableRef => "variable reference"@,
    }
}

/// The decimal digits of `n`.
pub open spec fn decimal(n: nat) -> Seq<char>
    decreases n,
{
    if n < 10 {
        seq![(48 + n) as char]
    } else {
        decimal(n / 10) + seq![(48 + n % 10) as char]
    }
}

/// What stands before the `i`th of the kinds `ks` in a list of them: nothing
/// before the first, `" or "` before the last, `", "` before the others.
pub open spec fn list_separator(ks: Seq<SyntaxKind>, i: int) -> Seq<char> {
    if i == 0 {
        Seq::empty()
    } else if i == ks.len() - 1 {
        " or "@
    } else {
        ", "@
    }
}

/// The kinds `ks` from the `i`th on, named and separated as in a list.
pub open spec fn kind_list(ks: Seq<SyntaxKind>, i: int) -> Seq<char>
    decreases ks.len() - i,
{
    if 0 <= i < ks.len() {
        list_separator(ks, i) + kind_name(ks[i]) + kind_list(ks, i + 1)
    } else {
        Seq::empty()
    }
}

/// The message of a parse error: where, what was expected, and what was found.
pub open spec fn error_text(e: ParseErrorV) -> Seq<char> {
    "error at "@ + decimal(e.range.start as nat) + ".."@ + decimal(e.range.end as nat)
        + ": expected "@ + kind_list(e.expected, 0) + match e.found {
        Some(k) => ", but found "@ + kind_name(k),
        None => Seq::empty(),
    }
}

/// The parse errors from the `i`th on, each on a line of its own.
pub open spec fn error_lines(es: Seq<ParseErrorV>, i: int) -> Seq<char>
    decreases es.len() - i,
{
    if 0 <= i < es.len() {
        "\n"@ + error_text(es[i]) + error_lines(es, i + 1)
    } else {
        Seq::empty()
    }
}

fn kind_name_str(k: SyntaxKind) -> (s: &'static str)
    ensures
        s@ == kind_name(k),
{
    match k {
        SyntaxKind::Whitespace => "whitespace",
        SyntaxKind::FnKw => "‘fn’",
        SyntaxKind::LetKw => "‘let’",
        SyntaxKind::Ident => "identifier",
        SyntaxKind::Number => "number",
        SyntaxKind::Plus => "‘+’",
        SyntaxKind::Minus => "‘-’",
        SyntaxKind::Star => "‘*’",
        SyntaxKind::Slash => "‘/’",
        SyntaxKind::Equals => "‘=’",
        SyntaxKind::LParen => "‘(’",
        SyntaxKind::RParen => "‘)’",
        SyntaxKind::LBrace => "‘{’",
        SyntaxKind::RBrace => "‘}’",
        SyntaxKind::Error => "an unrecognized token",
        SyntaxKind::Root => "root",
        SyntaxKind::BinaryExpr => "binary expression",
        SyntaxKind::Literal => "literal",
        SyntaxKind::ParenExpr => "parenthesized expression",
        SyntaxKind::PrefixExpr => "prefix expression",
        SyntaxKind::VariableRef => "variable reference",
    }
}

fn digit_str(d: usize) -> (s: &'static str)
    requires
        d < 10,
    ensures
        s@ == seq![(48 + d) as char],
{
    proof {
        reveal_strlit("0");
        reveal_strlit("1");
        reveal_strlit("2");
        reveal_strlit("3");
        reveal_strlit("4");
        reveal_strlit("5");
        reveal_strlit("6");
        reveal_strlit("7");
        reveal_strlit("8");
        reveal_strlit("9");
    }
    if d == 0 {
        "0"
    } else if d == 1 {
        "1"
    } else if d == 2 {
        "2"
    } else if d == 3 {
        "3"
    } else if d == 4 {
        "4"
    } else if d == 5 {
        "5"
    } else if d == 6 {
        "6"
    } else if d == 7 {
        "7"
    } else if d == 8 {
        "8"
    } else {
        "9"
    }
}

fn push_decimal(s: &mut String, n: usize)
    ensures
        final(s)@ == old(s)@ + decimal(n as nat),
    decreases n,
{
    if n >= 10 {
        push_decimal(s, n / 10);
    }
    s.append(digit_str(n % 10));
    proof {
        if n >= 10 {
            assert(old(s)@ + decimal(n as nat) =~= old(s)@ + decimal((n / 10) as nat) + seq![(48 + n % 10) as char]);
        }
    }
}

impl ParseError {
    /// The error's message: `error at S..E: expected K1, K2 or K3`, then
    /// `, but found K` where a token was found.
    pub fn message(&self) -> (s: String)
        ensures
            s@ == error_text(self.view_error()),
    {
        let mut s = String::new();
        s.append("error at ");
        push_decimal(&mut s, self.range.start);
        s.append("..");
        push_decimal(&mut s, self.range.end);
        s.append(": expected ");
        let ghost head = s@;
        let ks = &self.expected;
        let n = ks.len();
        let mut i: usize = 0;
        assert(head + kind_list(ks@, 0) =~= s@ + kind_list(ks@, 0));
        while i < n
            invariant
                n == ks@.len(),
                i <= n,
                s@ + kind_list(ks@, i as int) == head + kind_list(ks@, 0),
            decreases n - i,
        {
            if i == 0 {
            } else if i == n - 1 {
                s.append(" or ");
            } else {
                s.append(", ");
            }
            s.append(kind_name_str(ks[i]));
            proof {
                assert(kind_list(ks@, i as int) == list_separator(ks@, i as int) + kind_name(ks@[i as int])
                    + kind_list(ks@, i + 1));
                if i == 0 {
                    assert(list_separator(ks@, 0) =~= Seq::<char>::empty());
                }
            }
            i += 1;
        }
        assert(kind_list(ks@, n as int) =~= Seq::<char>::empty());
        match self.found {
            Some(k) => {
                s.append(", but found ");
                s.append(kind_name_str(k));
            },
            None => {},
        }
        s
    }
}

} // verus!
