use crate::event::EventV;
use crate::green::TreeStep;
use crate::lexer::{LexV, Tok, concat_texts, lemma_concat_texts_push, lex_spec, lex_v};
use crate::parser::sig_toks;
use crate::sink::{
    event_advance, event_steps, lemma_sig_head, lemma_sig_over_trivia, lemma_trivia_len,
    lexeme_step, sink_steps, token_steps, trivia_len,
};
use crate::syntax::is_trivia_kind;
use crate::tree::event_toks;
use vstd::prelude::*;

verus! {

/// The texts of the tokens among `steps`, one after the other.
pub open spec fn steps_text(steps: Seq<TreeStep>) -> Seq<char>
    decreases steps.len(),
{
    if steps.len() == 0 {
        seq![]
    } else {
        (match steps[0] {
            TreeStep::Token(_, t) => t,
            _ => Seq::<char>::empty(),
        }) + steps_text(steps.drop_first())
    }
}

/// The texts of the tokens at positions `a..b`, one after the other.
pub open spec fn lex_text(lx: Seq<LexV>, a: int, b: int) -> Seq<char>
    decreases b - a,
{
    if b <= a {
        seq![]
    } else {
        lex_text(lx, a, b - 1) + lx[b - 1].text
    }
}

/// The token position at which the sink stands once it has given the builder the
/// events `evs`, from position `c`.
pub open spec fn sink_end(lx: Seq<LexV>, evs: Seq<EventV>, c: int) -> int
    decreases evs.len(),
{
    if evs.len() == 0 {
        c
    } else {
        let c1 = c + event_advance(evs[0]);
        sink_end(lx, evs.drop_first(), c1 + trivia_len(lx, c1))
    }
}

/// The texts of steps one after the other.
pub(crate) proof fn lemma_steps_text_append(a: Seq<TreeStep>, b: Seq<TreeStep>)
    ensures
        steps_text(a + b) == steps_text(a) + steps_text(b),
    decreases a.len(),
{
    if a.len() == 0 {
        assert(a + b =~= b);
        assert(steps_text(a) + steps_text(b) =~= steps_text(b));
    } else {
        assert((a + b)[0] == a[0]);
        assert((a + b).drop_first() =~= a.drop_first() + b);
        lemma_steps_text_append(a.drop_first(), b);
        assert(steps_text(a + b) =~= steps_text(a) + steps_text(b));
    }
}

proof fn lemma_steps_text_single(st: TreeStep)
    ensures
        steps_text(seq![st]) == (match st {
            TreeStep::Token(_, t) => t,
            _ => Seq::<char>::empty(),
        }),
{
    assert(seq![st].drop_first() =~= Seq::<TreeStep>::empty());
    assert(seq![st][0] == st);
    assert(steps_text(Seq::<TreeStep>::empty()) == Seq::<char>::empty());
    assert(steps_text(seq![st]) =~= (match st {
        TreeStep::Token(_, t) => t,
        _ => Seq::<char>::empty(),
    }));
}

/// The texts of `a..c` are those of `a..b`, then those of `b..c`.
pub(crate) proof fn lemma_lex_text_split(lx: Seq<LexV>, a: int, b: int, c: int)
    requires
        a <= b <= c,
    ensures
        lex_text(lx, a, c) == lex_text(lx, a, b) + lex_text(lx, b, c),
    decreases c - b,
{
    if c == b {
        assert(lex_text(lx, a, b) + lex_text(lx, b, c) =~= lex_text(lx, a, b));
    } else {
        lemma_lex_text_split(lx, a, b, c - 1);
        assert(lex_text(lx, a, c) =~= lex_text(lx, a, b) + lex_text(lx, b, c));
    }
}

proof fn lemma_token_steps_text(lx: Seq<LexV>, c: int, n: nat)
    ensures
        steps_text(token_steps(lx, c, n)) == lex_text(lx, c, c + n),
    decreases n,
{
    if n == 0 {
        assert(token_steps(lx, c, n) =~= Seq::<TreeStep>::empty());
    } else {
        let m = (n - 1) as nat;
        lemma_token_steps_text(lx, c, m);
        let last = lexeme_step(lx, c + m);
        assert(token_steps(lx, c, n) =~= token_steps(lx, c, m) + seq![last]);
        lemma_steps_text_append(token_steps(lx, c, m), seq![last]);
        lemma_steps_text_single(last);
    }
}

proof fn lemma_event_steps_text(e: EventV)
    ensures
        steps_text(event_steps(e)) == (match e {
            EventV::Token(_, t) => t,
            _ => Seq::<char>::empty(),
        }),
{
    match e {
        EventV::Start(k) => {
            lemma_steps_text_single(TreeStep::Start(crate::syntax::kind_code(k)));
        },
        EventV::Token(k, t) => {
            lemma_steps_text_single(TreeStep::Token(crate::syntax::kind_code(k), t));
        },
        EventV::Finish => {
            lemma_steps_text_single(TreeStep::Finish);
        },
        _ => {
            assert(event_steps(e) =~= Seq::<TreeStep>::empty());
        },
    }
}

/// What the sink gives the builder for events whose tokens are those of `lx` from
/// `c` to `e` holds the texts of the tokens from `c` on, trivia included, up to
/// where it stops, which is past `e`.
pub(crate) proof fn lemma_sink_text(lx: Seq<LexV>, evs: Seq<EventV>, c: int, e: int)
    requires
        0 <= c <= lx.len(),
        e <= lx.len(),
        event_toks(evs) == sig_toks(lx, c, e),
        c < lx.len() && is_trivia_kind(lx[c].kind) ==> evs.len() > 0 && !(evs[0] is Token),
    ensures
        c <= sink_end(lx, evs, c) <= lx.len(),
        e <= sink_end(lx, evs, c),
        steps_text(sink_steps(lx, evs, c)) == lex_text(lx, c, sink_end(lx, evs, c)),
    decreases evs.len(),
{
    if evs.len() == 0 {
        if c < e {
            lemma_sig_head(lx, c, e);
        }
    } else {
        let e0 = evs[0];
        let rest = evs.drop_first();
        let c1 = c + event_advance(e0);
        let n = trivia_len(lx, c1);
        let c2 = c1 + n;
        assert(event_toks(evs) == (match e0 {
            EventV::Token(k, text) => seq![(k, text)],
            _ => Seq::<(crate::syntax::SyntaxKind, Seq<char>)>::empty(),
        }) + event_toks(rest));
        if e0 is Token {
            assert(sig_toks(lx, c, e).len() > 0);
            if e <= c {
                assert(sig_toks(lx, c, e) =~= Seq::<(crate::syntax::SyntaxKind, Seq<char>)>::empty());
            }
            lemma_sig_head(lx, c, e);
            assert(event_toks(rest) =~= event_toks(evs).drop_first());
            assert(sig_toks(lx, c + 1, e) =~= sig_toks(lx, c, e).drop_first());
        } else {
            assert(event_toks(rest) =~= sig_toks(lx, c, e));
        }
        lemma_trivia_len(lx, c1);
        lemma_sig_over_trivia(lx, c1, c2, e);
        lemma_sink_text(lx, rest, c2, e);
        let end = sink_end(lx, rest, c2);
        lemma_event_steps_text(e0);
        lemma_token_steps_text(lx, c1, n);
        lemma_steps_text_append(event_steps(e0), token_steps(lx, c1, n));
        lemma_steps_text_append(event_steps(e0) + token_steps(lx, c1, n), sink_steps(lx, rest, c2));
        lemma_lex_text_split(lx, c1, c2, end);
        lemma_lex_text_split(lx, c, c1, end);
        let x = match e0 {
            EventV::Token(_, t) => t,
            _ => Seq::<char>::empty(),
        };
        if let EventV::Token(k, t) = e0 {
            assert(event_toks(evs)[0] == (k, t));
            assert(sig_toks(lx, c, e)[0] == (lx[c].kind, lx[c].text));
            assert(lex_text(lx, c, c1) =~= lx[c].text) by {
                assert(lex_text(lx, c, c) =~= Seq::<char>::empty());
            }
        } else {
            assert(lex_text(lx, c, c1) =~= Seq::<char>::empty());
        }
        assert(x == lex_text(lx, c, c1));
        assert(sink_steps(lx, evs, c) == event_steps(e0) + token_steps(lx, c1, n) + sink_steps(lx, rest, c2));
        assert(sink_end(lx, evs, c) == end);
        assert(steps_text(sink_steps(lx, evs, c)) =~= lex_text(lx, c, end));
    }
}

/// The texts of the first `k` tokens of `s` are the texts of its first `k`
/// tokens as the lexer gives them.
pub(crate) proof fn lemma_lex_text_prefix(s: Seq<char>, k: int)
    requires
        0 <= k <= lex_spec(s).len(),
    ensures
        lex_text(lex_v(s), 0, k) == concat_texts(lex_spec(s).take(k)),
    decreases k,
{
    let ts = lex_spec(s);
    if k == 0 {
        assert(ts.take(0) =~= Seq::<Tok>::empty());
    } else {
        lemma_lex_text_prefix(s, k - 1);
        assert(ts.take(k) =~= ts.take(k - 1).push(ts[k - 1]));
        lemma_concat_texts_push(ts.take(k - 1), ts[k - 1]);
    }
}

} // verus!
