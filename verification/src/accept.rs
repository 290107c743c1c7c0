use crate::event::EventV;
use crate::green::{BuildState, TreeStep, build_state, forms_one_node, next_state, text_bytes};
use crate::lexer::{LexV, byte_len, lemma_byte_len_append};
use crate::sink::{
    event_advance, event_steps, lemma_trivia_len, sink_ok, sink_steps, token_steps, trivia_len,
};
use crate::syntax::SyntaxKind;
use crate::text::{lemma_steps_text_append, sink_end, steps_text};
use crate::tree::{Tree, pre, pre_seq, root_tree};
use vstd::prelude::*;

verus! {

/// Where building stands after `steps`, from `s`.
pub open spec fn run_from(s: BuildState, steps: Seq<TreeStep>) -> BuildState
    decreases steps.len(),
{
    if steps.len() == 0 {
        s
    } else {
        run_from(next_state(s, steps[0]), steps.drop_first())
    }
}

proof fn lemma_run_single(s: BuildState, st: TreeStep)
    ensures
        run_from(s, seq![st]) == next_state(s, st),
{
    assert(seq![st].drop_first() =~= Seq::<TreeStep>::empty());
    assert(seq![st][0] == st);
    assert(run_from(next_state(s, st), Seq::<TreeStep>::empty()) == next_state(s, st));
}

proof fn lemma_sink_steps_single(lx: Seq<LexV>, e: EventV, c: int)
    ensures
        sink_steps(lx, seq![e], c) == event_steps(e) + token_steps(
            lx,
            c + event_advance(e),
            trivia_len(lx, c + event_advance(e)),
        ),
        sink_end(lx, seq![e], c) == c + event_advance(e) + trivia_len(lx, c + event_advance(e)),
{
    let c1 = c + event_advance(e);
    let n = trivia_len(lx, c1);
    assert(seq![e][0] == e);
    assert(seq![e].drop_first() =~= Seq::<EventV>::empty());
    assert(sink_steps(lx, Seq::<EventV>::empty(), c1 + n) == Seq::<TreeStep>::empty());
    assert(sink_end(lx, Seq::<EventV>::empty(), c1 + n) == c1 + n);
    assert(sink_steps(lx, seq![e], c) =~= event_steps(e) + token_steps(lx, c1, n));
}

proof fn lemma_run_append(s: BuildState, a: Seq<TreeStep>, b: Seq<TreeStep>)
    ensures
        run_from(s, a + b) == run_from(run_from(s, a), b),
    decreases a.len(),
{
    if a.len() == 0 {
        assert(a + b =~= b);
    } else {
        assert((a + b)[0] == a[0]);
        assert((a + b).drop_first() =~= a.drop_first() + b);
        lemma_run_append(next_state(s, a[0]), a.drop_first(), b);
    }
}

/// Building with `a` then `b` is going on from where `a` left off.
proof fn lemma_build_then(a: Seq<TreeStep>, b: Seq<TreeStep>)
    ensures
        build_state(a + b) == run_from(build_state(a), b),
    decreases b.len(),
{
    if b.len() == 0 {
        assert(a + b =~= a);
    } else {
        let a2 = a.push(b[0]);
        assert(a + b =~= a2 + b.drop_first());
        assert(a2.drop_last() =~= a);
        lemma_build_then(a2, b.drop_first());
    }
}

/// The sink's steps for events one after the other.
proof fn lemma_sink_steps_append(lx: Seq<LexV>, a: Seq<EventV>, b: Seq<EventV>, c: int)
    ensures
        sink_steps(lx, a + b, c) == sink_steps(lx, a, c) + sink_steps(lx, b, sink_end(lx, a, c)),
        sink_end(lx, a + b, c) == sink_end(lx, b, sink_end(lx, a, c)),
    decreases a.len(),
{
    if a.len() == 0 {
        assert(a + b =~= b);
        assert(sink_steps(lx, a, c) + sink_steps(lx, b, c) =~= sink_steps(lx, b, c));
    } else {
        let c1 = c + event_advance(a[0]);
        let c2 = c1 + trivia_len(lx, c1);
        assert((a + b)[0] == a[0]);
        assert((a + b).drop_first() =~= a.drop_first() + b);
        lemma_sink_steps_append(lx, a.drop_first(), b, c2);
        assert(sink_steps(lx, a + b, c) =~= sink_steps(lx, a, c) + sink_steps(lx, b, sink_end(lx, a, c)));
    }
}

/// Tokens added inside an open node leave the building where it was.
proof fn lemma_run_tokens(s: BuildState, lx: Seq<LexV>, c: int, n: nat)
    requires
        s.depth > 0 || n == 0,
    ensures
        run_from(s, token_steps(lx, c, n)) == s,
    decreases n,
{
    if n > 0 {
        let ts = token_steps(lx, c, n);
        assert(ts.drop_first() =~= token_steps(lx, c + 1, (n - 1) as nat));
        assert(next_state(s, ts[0]) == s);
        lemma_run_tokens(s, lx, c + 1, (n - 1) as nat);
    } else {
        assert(token_steps(lx, c, n) =~= Seq::<TreeStep>::empty());
    }
}

/// The steps for one event, from inside an open node.
proof fn lemma_run_one(s: BuildState, lx: Seq<LexV>, e: EventV, c: int)
    requires
        s.depth > 0,
        s.started,
    ensures
        sink_steps(lx, seq![e], c) == event_steps(e) + token_steps(
            lx,
            c + event_advance(e),
            trivia_len(lx, c + event_advance(e)),
        ),
        sink_end(lx, seq![e], c) == c + event_advance(e) + trivia_len(lx, c + event_advance(e)),
        !(e is Start) && !(e is Finish) ==> run_from(s, sink_steps(lx, seq![e], c)) == s,
        (e is Start) ==> run_from(s, sink_steps(lx, seq![e], c)) == (BuildState {
            depth: s.depth + 1,
            ..s
        }),
        (e is Finish) && s.depth > 1 ==> run_from(s, sink_steps(lx, seq![e], c)) == (BuildState {
            depth: s.depth - 1,
            ..s
        }),
{
    let c1 = c + event_advance(e);
    let n = trivia_len(lx, c1);
    lemma_sink_steps_single(lx, e, c);
    let es = event_steps(e);
    lemma_run_append(s, es, token_steps(lx, c1, n));
    let s1 = run_from(s, es);
    match e {
        EventV::Start(k) => {
            lemma_run_single(s, TreeStep::Start(crate::syntax::kind_code(k)));
            lemma_run_tokens(s1, lx, c1, n);
        },
        EventV::Token(k, t) => {
            lemma_run_single(s, TreeStep::Token(crate::syntax::kind_code(k), t));
            lemma_run_tokens(s1, lx, c1, n);
        },
        EventV::Finish => {
            lemma_run_single(s, TreeStep::Finish);
            if s.depth > 1 {
                lemma_run_tokens(s1, lx, c1, n);
            }
        },
        _ => {
            assert(es =~= Seq::<TreeStep>::empty());
            lemma_run_tokens(s1, lx, c1, n);
        },
    }
}

/// The steps of a whole tree, from inside an open node, leave building where it was.
proof fn lemma_run_tree(s: BuildState, lx: Seq<LexV>, t: Tree, c: int)
    requires
        s.depth > 0,
        s.started,
        s.ok,
    ensures
        run_from(s, sink_steps(lx, pre(t), c)) == s,
    decreases t,
{
    match t {
        Tree::Node(k, cs) => {
            let open = seq![EventV::Start(k)];
            let close = seq![EventV::Finish];
            lemma_sink_steps_append(lx, open + pre_seq(cs), close, c);
            lemma_sink_steps_append(lx, open, pre_seq(cs), c);
            let c1 = sink_end(lx, open, c);
            let c2 = sink_end(lx, pre_seq(cs), c1);
            lemma_run_one(s, lx, EventV::Start(k), c);
            let s1 = BuildState { depth: s.depth + 1, ..s };
            lemma_run_seq(s1, lx, cs, c1);
            lemma_run_one(s1, lx, EventV::Finish, c2);
            lemma_run_append(s, sink_steps(lx, open, c), sink_steps(lx, pre_seq(cs), c1));
            lemma_run_append(
                s,
                sink_steps(lx, open, c) + sink_steps(lx, pre_seq(cs), c1),
                sink_steps(lx, close, c2),
            );
            assert(pre(t) == open + pre_seq(cs) + close);
        },
        Tree::Wrap(k, cs) => {
            let open = seq![EventV::Start(k)];
            let close = seq![EventV::Finish];
            lemma_sink_steps_append(lx, open + pre_seq(cs), close, c);
            lemma_sink_steps_append(lx, open, pre_seq(cs), c);
            let c1 = sink_end(lx, open, c);
            let c2 = sink_end(lx, pre_seq(cs), c1);
            lemma_run_one(s, lx, EventV::Start(k), c);
            let s1 = BuildState { depth: s.depth + 1, ..s };
            lemma_run_seq(s1, lx, cs, c1);
            lemma_run_one(s1, lx, EventV::Finish, c2);
            lemma_run_append(s, sink_steps(lx, open, c), sink_steps(lx, pre_seq(cs), c1));
            lemma_run_append(
                s,
                sink_steps(lx, open, c) + sink_steps(lx, pre_seq(cs), c1),
                sink_steps(lx, close, c2),
            );
            assert(pre(t) == open + pre_seq(cs) + close);
        },
        Tree::Leaf(k, text) => {
            lemma_run_one(s, lx, EventV::Token(k, text), c);
        },
        Tree::Diag(e) => {
            lemma_run_one(s, lx, EventV::Error(e), c);
        },
        Tree::Hole => {
            lemma_run_one(s, lx, EventV::Placeholder, c);
        },
    }
}

proof fn lemma_run_seq(s: BuildState, lx: Seq<LexV>, cs: Seq<Tree>, c: int)
    requires
        s.depth > 0,
        s.started,
        s.ok,
    ensures
        run_from(s, sink_steps(lx, pre_seq(cs), c)) == s,
    decreases cs,
{
    if cs.len() == 0 {
        assert(pre_seq(cs) =~= Seq::<EventV>::empty());
    } else {
        lemma_sink_steps_append(lx, pre(cs[0]), pre_seq(cs.drop_first()), c);
        lemma_run_tree(s, lx, cs[0], c);
        lemma_run_seq(s, lx, cs.drop_first(), sink_end(lx, pre(cs[0]), c));
        lemma_run_append(
            s,
            sink_steps(lx, pre(cs[0]), c),
            sink_steps(lx, pre_seq(cs.drop_first()), sink_end(lx, pre(cs[0]), c)),
        );
    }
}

/// After the sink has stepped over the trivia that follows an event, no trivia is
/// left to step over.
proof fn lemma_end_after_trivia(lx: Seq<LexV>, evs: Seq<EventV>, c: int)
    requires
        evs.len() > 0,
        0 <= c,
        forall|i: int| 0 <= i < evs.len() ==> event_advance(#[trigger] evs[i]) >= 0,
    ensures
        trivia_len(lx, sink_end(lx, evs, c)) == 0,
        0 <= sink_end(lx, evs, c),
    decreases evs.len(),
{
    let c1 = c + event_advance(evs[0]);
    let c2 = c1 + trivia_len(lx, c1);
    assert(event_advance(evs[0]) >= 0);
    if c1 <= lx.len() {
        lemma_trivia_len(lx, c1);
    }
    if evs.len() > 1 {
        assert forall|i: int| 0 <= i < evs.drop_first().len() implies event_advance(
            #[trigger] evs.drop_first()[i],
        ) >= 0 by {
            assert(evs.drop_first()[i] == evs[i + 1]);
        }
        lemma_end_after_trivia(lx, evs.drop_first(), c2);
    } else {
        assert(evs.drop_first() =~= Seq::<EventV>::empty());
    }
}

/// The number of bytes of the tokens among some steps is that of their texts.
proof fn lemma_text_bytes(steps: Seq<TreeStep>)
    ensures
        text_bytes(steps) == byte_len(steps_text(steps)),
    decreases steps.len(),
{
    if steps.len() > 0 {
        let init = steps.drop_last();
        let last = steps.last();
        lemma_text_bytes(init);
        assert(init + seq![last] =~= steps);
        lemma_steps_text_append(init, seq![last]);
        assert(seq![last].drop_first() =~= Seq::<TreeStep>::empty());
        assert(seq![last][0] == last);
        assert(steps_text(Seq::<TreeStep>::empty()) == Seq::<char>::empty());
        let lt = match last {
            TreeStep::Token(_, t) => t,
            _ => Seq::<char>::empty(),
        };
        assert(steps_text(seq![last]) =~= lt);
        lemma_byte_len_append(steps_text(init), lt);
        if !(last is Token) {
            assert(byte_len(Seq::<char>::empty()) == 0);
        }
    }
}

/// The tree builder accepts what the sink gives it for the events of a root node
/// around any trees, as long as their text fits in rowan's `u32` sizes.
pub proof fn lemma_root_accepted(lx: Seq<LexV>, f: Seq<Tree>)
    ensures
        sink_ok(lx, pre(root_tree(f))) <==> byte_len(steps_text(sink_steps(lx, pre(root_tree(f)), 0)))
            <= u32::MAX,
{
    let open = seq![EventV::Start(SyntaxKind::Root)];
    let close = seq![EventV::Finish];
    let evs = pre(root_tree(f));
    assert(evs == open + pre_seq(f) + close);
    lemma_sink_steps_append(lx, open + pre_seq(f), close, 0);
    lemma_sink_steps_append(lx, open, pre_seq(f), 0);
    let c1 = sink_end(lx, open, 0);
    let c2 = sink_end(lx, pre_seq(f), c1);
    let s0 = BuildState { depth: 0, started: false, ok: true };
    let a = sink_steps(lx, open, 0);
    let b = sink_steps(lx, pre_seq(f), c1);
    let d = sink_steps(lx, close, c2);
    // Opening the root.
    let root_start = TreeStep::Start(crate::syntax::kind_code(SyntaxKind::Root));
    lemma_sink_steps_single(lx, EventV::Start(SyntaxKind::Root), 0);
    let n0 = trivia_len(lx, 0);
    assert(event_steps(EventV::Start(SyntaxKind::Root)) == seq![root_start]);
    let s1 = BuildState { depth: 1, started: true, ok: true };
    lemma_run_append(s0, seq![root_start], token_steps(lx, 0, n0));
    lemma_run_single(s0, root_start);
    lemma_run_tokens(s1, lx, 0, n0);
    assert(run_from(s0, a) == s1);
    // The trees inside it.
    lemma_run_seq(s1, lx, f, c1);
    // Closing it, with no trivia left after it.
    assert forall|i: int| 0 <= i < (open + pre_seq(f)).len() implies event_advance(
        #[trigger] (open + pre_seq(f))[i],
    ) >= 0 by {}
    lemma_end_after_trivia(lx, open + pre_seq(f), 0);
    assert(c2 == sink_end(lx, open + pre_seq(f), 0));
    lemma_sink_steps_single(lx, EventV::Finish, c2);
    assert(token_steps(lx, c2, 0) =~= Seq::<TreeStep>::empty());
    assert(d =~= seq![TreeStep::Finish]);
    lemma_run_single(s1, TreeStep::Finish);
    let s3 = BuildState { depth: 0, started: true, ok: true };
    assert(run_from(s1, d) == s3);
    // All of it.
    lemma_run_append(s0, a, b);
    lemma_run_append(s0, a + b, d);
    lemma_build_then(Seq::<TreeStep>::empty(), a + b + d);
    assert(Seq::<TreeStep>::empty() + (a + b + d) =~= a + b + d);
    assert(sink_steps(lx, evs, 0) == a + b + d);
    assert(build_state(sink_steps(lx, evs, 0)) == s3);
    assert(forms_one_node(sink_steps(lx, evs, 0)));
    lemma_text_bytes(sink_steps(lx, evs, 0));
}

} // verus!
