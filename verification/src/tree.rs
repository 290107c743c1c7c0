use crate::event::{EventV, ParseErrorV};
use crate::syntax::SyntaxKind;
use vstd::prelude::*;

verus! {

/// A syntax tree as the contracts see it: nodes, tokens and the parse errors
/// found among them, in input order.
pub enum Tree {
    /// A node opened where it starts: a marker held its place until its kind was known.
    Node(SyntaxKind, Seq<Tree>),
    /// A node opened at a checkpoint once its children were parsed.
    Wrap(SyntaxKind, Seq<Tree>),
    Leaf(SyntaxKind, Seq<char>),
    Diag(ParseErrorV),
    /// The place a marker held for a node that was never made.
    Hole,
}

/// The number of events that a tree takes.
pub open spec fn size(t: Tree) -> nat
    decreases t,
{
    match t {
        Tree::Node(_, cs) => size_seq(cs) + 2,
        Tree::Wrap(_, cs) => size_seq(cs) + 2,
        _ => 1,
    }
}

/// The number of events that trees take.
pub open spec fn size_seq(cs: Seq<Tree>) -> nat
    decreases cs,
{
    if cs.len() == 0 {
        0
    } else {
        size(cs[0]) + size_seq(cs.drop_first())
    }
}

/// The events the parser emits for `t` when the first of them lands at position
/// `base`: a node opened where it starts comes as its opening, its children and
/// its closing; a node opened at a checkpoint comes as its children, then the
/// event that opens it back at `base`, then the one that closes it.
pub open spec fn raw(t: Tree, base: int) -> Seq<EventV>
    decreases t,
{
    match t {
        Tree::Node(k, cs) => seq![EventV::Start(k)] + raw_seq(cs, base + 1) + seq![EventV::Finish],
        Tree::Wrap(k, cs) => raw_seq(cs, base) + seq![EventV::StartAt(k, base), EventV::Finish],
        Tree::Leaf(k, text) => seq![EventV::Token(k, text)],
        Tree::Diag(e) => seq![EventV::Error(e)],
        Tree::Hole => seq![EventV::Placeholder],
    }
}

/// The events the parser emits for trees one after the other, from `base`.
pub open spec fn raw_seq(cs: Seq<Tree>, base: int) -> Seq<EventV>
    decreases cs,
{
    if cs.len() == 0 {
        seq![]
    } else {
        raw(cs[0], base) + raw_seq(cs.drop_first(), base + size(cs[0]))
    }
}

/// The events of `t` in tree order: a node opens, its children follow, it closes.
pub open spec fn pre(t: Tree) -> Seq<EventV>
    decreases t,
{
    match t {
        Tree::Node(k, cs) => seq![EventV::Start(k)] + pre_seq(cs) + seq![EventV::Finish],
        Tree::Wrap(k, cs) => seq![EventV::Start(k)] + pre_seq(cs) + seq![EventV::Finish],
        Tree::Leaf(k, text) => seq![EventV::Token(k, text)],
        Tree::Diag(e) => seq![EventV::Error(e)],
        Tree::Hole => seq![EventV::Placeholder],
    }
}

/// The events of trees one after the other, in tree order.
pub open spec fn pre_seq(cs: Seq<Tree>) -> Seq<EventV>
    decreases cs,
{
    if cs.len() == 0 {
        seq![]
    } else {
        pre(cs[0]) + pre_seq(cs.drop_first())
    }
}

/// The sink's reordering, one event: an event that opens a node at a checkpoint is
/// taken out of its place and put, as an ordinary opening, at the checkpoint.
pub open spec fn reorder_step(r: Seq<EventV>, e: EventV, idx: int) -> Seq<EventV> {
    match e {
        EventV::StartAt(k, cp) => r.remove(idx).insert(cp, EventV::Start(k)),
        _ => r,
    }
}

/// The reordering of the events `orig[from..to]`, applied to `r`.
pub open spec fn reorder_run(orig: Seq<EventV>, r: Seq<EventV>, from: int, to: int) -> Seq<EventV>
    decreases to - from,
{
    if from < to {
        reorder_run(orig, reorder_step(r, orig[from], from), from + 1, to)
    } else {
        r
    }
}

/// What the sink makes of the parser's events before it builds the tree.
pub open spec fn reorder(orig: Seq<EventV>) -> Seq<EventV> {
    reorder_run(orig, orig, 0, orig.len() as int)
}

/// No event of `evs` opens a node at a checkpoint.
pub open spec fn no_start_at(evs: Seq<EventV>) -> bool {
    forall|i: int| #![trigger evs[i]] 0 <= i < evs.len() ==> !(evs[i] is StartAt)
}

// ---------------------------------------------------------------- lemmas

/// A tree takes as many events in either order, and at least one.
pub(crate) proof fn lemma_sizes(t: Tree, base: int)
    ensures
        raw(t, base).len() == size(t),
        pre(t).len() == size(t),
        size(t) >= 1,
    decreases t,
{
    match t {
        Tree::Node(_, cs) => {
            lemma_sizes_seq(cs, base + 1);
        },
        Tree::Wrap(_, cs) => {
            lemma_sizes_seq(cs, base);
        },
        _ => {},
    }
}

/// Trees take as many events in either order.
pub(crate) proof fn lemma_sizes_seq(cs: Seq<Tree>, base: int)
    ensures
        raw_seq(cs, base).len() == size_seq(cs),
        pre_seq(cs).len() == size_seq(cs),
    decreases cs,
{
    if cs.len() > 0 {
        lemma_sizes(cs[0], base);
        lemma_sizes_seq(cs.drop_first(), base + size(cs[0]));
    }
}

/// Reordering a stretch of events is reordering its two halves in turn.
pub(crate) proof fn lemma_run_split(orig: Seq<EventV>, r: Seq<EventV>, from: int, mid: int, to: int)
    requires
        from <= mid <= to,
    ensures
        reorder_run(orig, r, from, to) == reorder_run(orig, reorder_run(orig, r, from, mid), mid, to),
    decreases mid - from,
{
    if from < mid {
        lemma_run_split(orig, reorder_step(r, orig[from], from), from + 1, mid, to);
    }
}

#[verifier::spinoff_prover]
/// Reordering the events of one tree, wherever they stand, puts them in tree order
/// and leaves everything around them as it was.
pub(crate) proof fn lemma_reorder_tree(t: Tree, base: int, orig: Seq<EventV>, r: Seq<EventV>)
    requires
        0 <= base,
        base + size(t) <= orig.len(),
        r.len() == orig.len(),
        orig.subrange(base, base + size(t)) == raw(t, base),
        r.subrange(base, base + size(t)) == raw(t, base),
    ensures
        reorder_run(orig, r, base, base + size(t)) == r.take(base) + pre(t) + r.skip(
            base + size(t),
        ),
    decreases t, 1int,
{
    lemma_sizes(t, base);
    let n = size(t) as int;
    if t is Node {
        lemma_reorder_node(t, base, orig, r);
    } else if t is Wrap {
        lemma_reorder_wrap(t, base, orig, r);
    } else {
        assert(orig[base] == raw(t, base)[0]);
        assert(r[base] == raw(t, base)[0]);
        assert(raw(t, base) == pre(t));
        assert(r.take(base) + pre(t) + r.skip(base + 1) =~= r);
        let r1 = reorder_step(r, orig[base], base);
        assert(r1 == r);
        assert(reorder_run(orig, r, base, base + 1) == reorder_run(orig, r1, base + 1, base + 1));
    }
}

#[verifier::spinoff_prover]
#[verifier::rlimit(40)]
/// The same for a node opened where it starts.
proof fn lemma_reorder_node(t: Tree, base: int, orig: Seq<EventV>, r: Seq<EventV>)
    requires
        t is Node,
        0 <= base,
        base + size(t) <= orig.len(),
        r.len() == orig.len(),
        orig.subrange(base, base + size(t)) == raw(t, base),
        r.subrange(base, base + size(t)) == raw(t, base),
    ensures
        reorder_run(orig, r, base, base + size(t)) == r.take(base) + pre(t) + r.skip(
            base + size(t),
        ),
    decreases t, 0int,
{
    lemma_sizes(t, base);
    let n = size(t) as int;
    let (k, cs) = (t->Node_0, t->Node_1);
        let m = size_seq(cs) as int;
        lemma_sizes_seq(cs, base + 1);
        let rw = raw(t, base);
        assert(rw == seq![EventV::Start(k)] + raw_seq(cs, base + 1) + seq![EventV::Finish]);
        assert(orig[base] == rw[0]);
        assert(r[base] == rw[0]);
        let r0 = reorder_step(r, orig[base], base);
        assert(r0 == r);
        assert(orig.subrange(base + 1, base + 1 + m) =~= raw_seq(cs, base + 1)) by {
            assert(orig.subrange(base + 1, base + 1 + m) =~= rw.subrange(1, 1 + m));
        }
        assert(r.subrange(base + 1, base + 1 + m) =~= raw_seq(cs, base + 1)) by {
            assert(r.subrange(base + 1, base + 1 + m) =~= rw.subrange(1, 1 + m));
        }
        lemma_reorder_forest(cs, base + 1, orig, r);
        let r1 = reorder_run(orig, r, base + 1, base + 1 + m);
        assert(orig[base + 1 + m] == rw[1 + m]);
        let r2 = reorder_step(r1, orig[base + 1 + m], base + 1 + m);
        assert(r2 == r1);
        lemma_run_split(orig, r, base, base + 1, base + n);
        assert(reorder_run(orig, r, base, base + 1) == reorder_run(orig, r0, base + 1, base + 1));
        lemma_run_split(orig, r, base + 1, base + 1 + m, base + n);
        assert(reorder_run(orig, r1, base + 1 + m, base + n) == reorder_run(orig, r2, base + n, base + n));
        assert(r.take(base + 1) =~= r.take(base) + seq![EventV::Start(k)]);
        assert(r.skip(base + 1 + m) =~= seq![EventV::Finish] + r.skip(base + n));
        assert(r1 =~= r.take(base) + pre(t) + r.skip(base + n));
}

#[verifier::spinoff_prover]
#[verifier::rlimit(40)]
/// The same for a node opened at a checkpoint.
proof fn lemma_reorder_wrap(t: Tree, base: int, orig: Seq<EventV>, r: Seq<EventV>)
    requires
        t is Wrap,
        0 <= base,
        base + size(t) <= orig.len(),
        r.len() == orig.len(),
        orig.subrange(base, base + size(t)) == raw(t, base),
        r.subrange(base, base + size(t)) == raw(t, base),
    ensures
        reorder_run(orig, r, base, base + size(t)) == r.take(base) + pre(t) + r.skip(
            base + size(t),
        ),
    decreases t, 0int,
{
    lemma_sizes(t, base);
    let n = size(t) as int;
    let (k, cs) = (t->Wrap_0, t->Wrap_1);
        let m = size_seq(cs) as int;
        lemma_sizes_seq(cs, base);
        let rw = raw(t, base);
        assert(rw == raw_seq(cs, base) + seq![EventV::StartAt(k, base), EventV::Finish]);
        assert(orig.subrange(base, base + m) =~= raw_seq(cs, base)) by {
            assert(orig.subrange(base, base + m) =~= rw.subrange(0, m));
        }
        assert(r.subrange(base, base + m) =~= raw_seq(cs, base)) by {
            assert(r.subrange(base, base + m) =~= rw.subrange(0, m));
        }
        lemma_reorder_forest(cs, base, orig, r);
        let r1 = reorder_run(orig, r, base, base + m);
        assert(orig[base + m] == rw[m]);
        assert(orig[base + m + 1] == rw[m + 1]);
        assert(r[base + m] == rw[m]);
        assert(r[base + m + 1] == rw[m + 1]);
        let r2 = reorder_step(r1, orig[base + m], base + m);
        assert(r1[base + m] == r[base + m]);
        assert(r2 =~= r.take(base) + seq![EventV::Start(k)] + pre_seq(cs) + r.skip(base + m + 1));
        let r3 = reorder_step(r2, orig[base + m + 1], base + m + 1);
        assert(r3 == r2);
        lemma_run_split(orig, r, base, base + m, base + n);
        assert(reorder_run(orig, r1, base + m, base + n) == reorder_run(
            orig,
            r2,
            base + m + 1,
            base + n,
        ));
        assert(reorder_run(orig, r2, base + m + 1, base + n) == reorder_run(
            orig,
            r3,
            base + n,
            base + n,
        ));
        assert(r.skip(base + m + 1) =~= seq![EventV::Finish] + r.skip(base + n));
        assert(pre(t) == seq![EventV::Start(k)] + pre_seq(cs) + seq![EventV::Finish]);
        assert(r3 =~= r.take(base) + pre(t) + r.skip(base + n));
}

/// The same for the events of trees laid one after the other.
pub(crate) proof fn lemma_reorder_forest(cs: Seq<Tree>, base: int, orig: Seq<EventV>, r: Seq<EventV>)
    requires
        0 <= base,
        base + size_seq(cs) <= orig.len(),
        r.len() == orig.len(),
        orig.subrange(base, base + size_seq(cs)) == raw_seq(cs, base),
        r.subrange(base, base + size_seq(cs)) == raw_seq(cs, base),
    ensures
        reorder_run(orig, r, base, base + size_seq(cs)) == r.take(base) + pre_seq(cs) + r.skip(
            base + size_seq(cs),
        ),
    decreases cs, 0int,
{
    lemma_sizes_seq(cs, base);
    if cs.len() == 0 {
        assert(r.take(base) + pre_seq(cs) + r.skip(base) =~= r);
    } else {
        let c0 = cs[0];
        let rest = cs.drop_first();
        let n0 = size(c0) as int;
        let m = size_seq(cs) as int;
        lemma_sizes(c0, base);
        lemma_sizes_seq(rest, base + n0);
        let rw = raw_seq(cs, base);
        assert(orig.subrange(base, base + n0) =~= raw(c0, base)) by {
            assert(orig.subrange(base, base + n0) =~= rw.subrange(0, n0));
        }
        assert(r.subrange(base, base + n0) =~= raw(c0, base)) by {
            assert(r.subrange(base, base + n0) =~= rw.subrange(0, n0));
        }
        lemma_reorder_tree(c0, base, orig, r);
        let r1 = reorder_run(orig, r, base, base + n0);
        assert(r1.len() == r.len());
        assert(orig.subrange(base + n0, base + m) =~= raw_seq(rest, base + n0)) by {
            assert(orig.subrange(base + n0, base + m) =~= rw.subrange(n0, m));
        }
        assert(r1.subrange(base + n0, base + m) =~= raw_seq(rest, base + n0)) by {
            assert(r1.subrange(base + n0, base + m) =~= r.subrange(base + n0, base + m));
            assert(r.subrange(base + n0, base + m) =~= rw.subrange(n0, m));
        }
        lemma_reorder_forest(rest, base + n0, orig, r1);
        lemma_run_split(orig, r, base, base + n0, base + m);
        assert(r1.take(base + n0) =~= r.take(base) + pre(c0));
        assert(r1.skip(base + m) =~= r.skip(base + m));
        assert(pre_seq(cs) == pre(c0) + pre_seq(rest));
        assert(r.take(base) + pre(c0) + pre_seq(rest) + r.skip(base + m) =~= r.take(base)
            + pre_seq(cs) + r.skip(base + m));
    }
}

/// The events of trees laid one after the other are those of the first, then
/// those of the rest, placed after them.
pub(crate) proof fn lemma_raw_seq_append(f1: Seq<Tree>, f2: Seq<Tree>, base: int)
    ensures
        raw_seq(f1 + f2, base) == raw_seq(f1, base) + raw_seq(f2, base + size_seq(f1)),
        size_seq(f1 + f2) == size_seq(f1) + size_seq(f2),
        pre_seq(f1 + f2) == pre_seq(f1) + pre_seq(f2),
    decreases f1.len(),
{
    if f1.len() == 0 {
        assert(f1 + f2 =~= f2);
        assert(raw_seq(f1, base) + raw_seq(f2, base) =~= raw_seq(f2, base));
        assert(pre_seq(f1) + pre_seq(f2) =~= pre_seq(f2));
    } else {
        let t = f1[0];
        assert((f1 + f2)[0] == t);
        assert((f1 + f2).drop_first() =~= f1.drop_first() + f2);
        lemma_raw_seq_append(f1.drop_first(), f2, base + size(t));
        assert(raw_seq(f1 + f2, base) =~= raw(t, base) + raw_seq(f1.drop_first() + f2, base + size(t)));
        assert(raw_seq(f1 + f2, base) =~= raw_seq(f1, base) + raw_seq(f2, base + size_seq(f1)));
        assert(pre_seq(f1 + f2) =~= pre_seq(f1) + pre_seq(f2));
    }
}

/// The events of a single tree.
pub(crate) proof fn lemma_raw_seq_single(t: Tree, base: int)
    ensures
        raw_seq(seq![t], base) == raw(t, base),
        size_seq(seq![t]) == size(t),
        pre_seq(seq![t]) == pre(t),
{
    let e = Seq::<Tree>::empty();
    assert(seq![t].drop_first() =~= e);
    assert(seq![t][0] == t);
    assert(raw_seq(e, base + size(t)) == Seq::<EventV>::empty());
    assert(pre_seq(e) == Seq::<EventV>::empty());
    assert(size_seq(e) == 0);
    assert(raw_seq(seq![t], base) =~= raw(t, base));
    assert(pre_seq(seq![t]) =~= pre(t));
}

/// The tokens of a tree, in order.
pub open spec fn tree_toks(t: Tree) -> Seq<(SyntaxKind, Seq<char>)>
    decreases t,
{
    match t {
        Tree::Node(_, cs) => forest_toks(cs),
        Tree::Wrap(_, cs) => forest_toks(cs),
        Tree::Leaf(k, text) => seq![(k, text)],
        Tree::Diag(_) => seq![],
        Tree::Hole => seq![],
    }
}

/// The tokens of trees, in order.
pub open spec fn forest_toks(cs: Seq<Tree>) -> Seq<(SyntaxKind, Seq<char>)>
    decreases cs,
{
    if cs.len() == 0 {
        seq![]
    } else {
        tree_toks(cs[0]) + forest_toks(cs.drop_first())
    }
}

/// The tokens among some events, in order.
pub open spec fn event_toks(evs: Seq<EventV>) -> Seq<(SyntaxKind, Seq<char>)>
    decreases evs.len(),
{
    if evs.len() == 0 {
        seq![]
    } else {
        (match evs[0] {
            EventV::Token(k, text) => seq![(k, text)],
            _ => seq![],
        }) + event_toks(evs.drop_first())
    }
}

/// The tokens of events one after the other.
pub(crate) proof fn lemma_event_toks_append(a: Seq<EventV>, b: Seq<EventV>)
    ensures
        event_toks(a + b) == event_toks(a) + event_toks(b),
    decreases a.len(),
{
    if a.len() == 0 {
        assert(a + b =~= b);
        assert(event_toks(a) + event_toks(b) =~= event_toks(b));
    } else {
        assert((a + b)[0] == a[0]);
        assert((a + b).drop_first() =~= a.drop_first() + b);
        lemma_event_toks_append(a.drop_first(), b);
        assert(event_toks(a + b) =~= event_toks(a) + event_toks(b));
    }
}

/// The tokens of a single event.
pub(crate) proof fn lemma_event_toks_single(e: EventV)
    ensures
        event_toks(seq![e]) == (match e {
            EventV::Token(k, text) => seq![(k, text)],
            _ => Seq::<(SyntaxKind, Seq<char>)>::empty(),
        }),
{
    assert(seq![e].drop_first() =~= Seq::<EventV>::empty());
    assert(event_toks(Seq::<EventV>::empty()) == Seq::<(SyntaxKind, Seq<char>)>::empty());
    assert(seq![e][0] == e);
    assert(event_toks(seq![e]) =~= (match e {
        EventV::Token(k, text) => seq![(k, text)],
        _ => Seq::<(SyntaxKind, Seq<char>)>::empty(),
    }));
}

/// A tree's events, in either order, hold its tokens in order.
pub(crate) proof fn lemma_tree_toks(t: Tree, base: int)
    ensures
        event_toks(raw(t, base)) == tree_toks(t),
        event_toks(pre(t)) == tree_toks(t),
    decreases t,
{
    match t {
        Tree::Node(k, cs) => {
            lemma_forest_toks(cs, base + 1);
            let head = seq![EventV::Start(k)];
            let fin = seq![EventV::Finish];
            lemma_event_toks_single(EventV::Finish);
            lemma_event_toks_single(EventV::Start(k));
            lemma_event_toks_append(head + raw_seq(cs, base + 1), fin);
            lemma_event_toks_append(head, raw_seq(cs, base + 1));
            lemma_event_toks_append(head + pre_seq(cs), fin);
            lemma_event_toks_append(head, pre_seq(cs));
            assert(event_toks(raw(t, base)) =~= tree_toks(t));
            assert(event_toks(pre(t)) =~= tree_toks(t));
        },
        Tree::Wrap(k, cs) => {
            lemma_forest_toks(cs, base);
            lemma_event_toks_append(raw_seq(cs, base), seq![EventV::StartAt(k, base), EventV::Finish]);
            assert(seq![EventV::StartAt(k, base), EventV::Finish] =~= seq![EventV::StartAt(k, base)] + seq![EventV::Finish]);
            lemma_event_toks_append(seq![EventV::StartAt(k, base)], seq![EventV::Finish]);
            lemma_event_toks_single(EventV::StartAt(k, base));
            lemma_event_toks_single(EventV::Finish);
            lemma_event_toks_single(EventV::Start(k));
            lemma_event_toks_append(seq![EventV::Start(k)] + pre_seq(cs), seq![EventV::Finish]);
            lemma_event_toks_append(seq![EventV::Start(k)], pre_seq(cs));
            assert(event_toks(raw(t, base)) =~= tree_toks(t));
            assert(event_toks(pre(t)) =~= tree_toks(t));
        },
        Tree::Leaf(k, text) => {
            lemma_event_toks_single(EventV::Token(k, text));
        },
        Tree::Diag(e) => {
            lemma_event_toks_single(EventV::Error(e));
        },
        Tree::Hole => {
            lemma_event_toks_single(EventV::Placeholder);
        },
    }
}

/// Trees' events, in either order, hold their tokens in order.
pub(crate) proof fn lemma_forest_toks(cs: Seq<Tree>, base: int)
    ensures
        event_toks(raw_seq(cs, base)) == forest_toks(cs),
        event_toks(pre_seq(cs)) == forest_toks(cs),
    decreases cs,
{
    if cs.len() == 0 {
    } else {
        lemma_tree_toks(cs[0], base);
        lemma_forest_toks(cs.drop_first(), base + size(cs[0]));
        lemma_event_toks_append(raw(cs[0], base), raw_seq(cs.drop_first(), base + size(cs[0])));
        lemma_event_toks_append(pre(cs[0]), pre_seq(cs.drop_first()));
    }
}

/// The tokens of trees one after the other.
pub(crate) proof fn lemma_forest_toks_append(f1: Seq<Tree>, f2: Seq<Tree>)
    ensures
        forest_toks(f1 + f2) == forest_toks(f1) + forest_toks(f2),
    decreases f1.len(),
{
    if f1.len() == 0 {
        assert(f1 + f2 =~= f2);
        assert(forest_toks(f1) + forest_toks(f2) =~= forest_toks(f2));
    } else {
        assert((f1 + f2)[0] == f1[0]);
        assert((f1 + f2).drop_first() =~= f1.drop_first() + f2);
        lemma_forest_toks_append(f1.drop_first(), f2);
        assert(forest_toks(f1 + f2) =~= forest_toks(f1) + forest_toks(f2));
    }
}

/// The tokens of a single tree.
pub(crate) proof fn lemma_forest_toks_single(t: Tree)
    ensures
        forest_toks(seq![t]) == tree_toks(t),
{
    assert(seq![t].drop_first() =~= Seq::<Tree>::empty());
    assert(seq![t][0] == t);
    assert(forest_toks(Seq::<Tree>::empty()) == Seq::<(SyntaxKind, Seq<char>)>::empty());
    assert(forest_toks(seq![t]) =~= tree_toks(t));
}

/// Every event that opens a node at a checkpoint, at position `i` of `evs` which
/// stands at position `b` of a larger list, points into `b..=b + i`.
pub open spec fn checkpoints_within(evs: Seq<EventV>, b: int) -> bool {
    forall|i: int|
        #![trigger evs[i]]
        0 <= i < evs.len() ==> (evs[i] matches EventV::StartAt(_, cp) ==> b <= cp <= b + i)
}

proof fn lemma_checkpoints_append(x: Seq<EventV>, y: Seq<EventV>, b: int)
    requires
        checkpoints_within(x, b),
        checkpoints_within(y, b + x.len()),
    ensures
        checkpoints_within(x + y, b),
{
    assert forall|i: int| #![trigger (x + y)[i]] 0 <= i < (x + y).len() implies ((x + y)[i] matches EventV::StartAt(
        _,
        cp,
    ) ==> b <= cp <= b + i) by {
        if i < x.len() {
            assert((x + y)[i] == x[i]);
        } else {
            assert((x + y)[i] == y[i - x.len()]);
        }
    }
}

proof fn lemma_no_start_at_append(x: Seq<EventV>, y: Seq<EventV>)
    requires
        no_start_at(x),
        no_start_at(y),
    ensures
        no_start_at(x + y),
{
    assert forall|i: int| #![trigger (x + y)[i]] 0 <= i < (x + y).len() implies !((x + y)[i] is StartAt) by {
        if i < x.len() {
            assert((x + y)[i] == x[i]);
        } else {
            assert((x + y)[i] == y[i - x.len()]);
        }
    }
}

/// The parser's events for a tree point only into themselves.
pub(crate) proof fn lemma_raw_checkpoints(t: Tree, b: int)
    ensures
        checkpoints_within(raw(t, b), b),
        no_start_at(pre(t)),
    decreases t,
{
    lemma_sizes(t, b);
    let fin = seq![EventV::Finish];
    assert(no_start_at(fin)) by {
        assert forall|i: int| #![trigger fin[i]] 0 <= i < fin.len() implies !(fin[i] is StartAt) by {
            assert(fin[0] == EventV::Finish);
        }
    }
    assert(checkpoints_within(fin, b + size(t) - 1)) by {
        assert forall|i: int| #![trigger fin[i]] 0 <= i < fin.len() implies (fin[i] matches EventV::StartAt(
            _,
            cp,
        ) ==> b + size(t) - 1 <= cp <= b + size(t) - 1 + i) by {
            assert(fin[0] == EventV::Finish);
        }
    }
    match t {
        Tree::Node(k, cs) => {
            lemma_raw_seq_checkpoints(cs, b + 1);
            lemma_sizes_seq(cs, b + 1);
            let head = seq![EventV::Start(k)];
            assert(no_start_at(head)) by {
                assert forall|i: int| #![trigger head[i]] 0 <= i < head.len() implies !(head[i] is StartAt) by {
                    assert(head[0] == EventV::Start(k));
                }
            }
            assert(checkpoints_within(head, b)) by {
                assert forall|i: int| #![trigger head[i]] 0 <= i < head.len() implies (head[i] matches EventV::StartAt(
                    _,
                    cp,
                ) ==> b <= cp <= b + i) by {
                    assert(head[0] == EventV::Start(k));
                }
            }
            lemma_checkpoints_append(head, raw_seq(cs, b + 1), b);
            lemma_checkpoints_append(head + raw_seq(cs, b + 1), fin, b);
            lemma_no_start_at_append(head, pre_seq(cs));
            lemma_no_start_at_append(head + pre_seq(cs), fin);
        },
        Tree::Wrap(k, cs) => {
            lemma_raw_seq_checkpoints(cs, b);
            lemma_sizes_seq(cs, b);
            let tail = seq![EventV::StartAt(k, b), EventV::Finish];
            assert(checkpoints_within(raw_seq(cs, b) + tail, b)) by {
                assert forall|i: int|
                    #![trigger (raw_seq(cs, b) + tail)[i]]
                    0 <= i < (raw_seq(cs, b) + tail).len() implies ((raw_seq(cs, b) + tail)[i] matches EventV::StartAt(
                        _,
                        cp,
                    ) ==> b <= cp <= b + i) by {
                    if i < raw_seq(cs, b).len() {
                        assert((raw_seq(cs, b) + tail)[i] == raw_seq(cs, b)[i]);
                    } else {
                        assert((raw_seq(cs, b) + tail)[i] == tail[i - raw_seq(cs, b).len()]);
                    }
                }
            }
            let head = seq![EventV::Start(k)];
            assert(no_start_at(head)) by {
                assert forall|i: int| #![trigger head[i]] 0 <= i < head.len() implies !(head[i] is StartAt) by {
                    assert(head[0] == EventV::Start(k));
                }
            }
            lemma_no_start_at_append(head, pre_seq(cs));
            lemma_no_start_at_append(head + pre_seq(cs), fin);
        },
        Tree::Leaf(k, text) => {
            assert(raw(t, b)[0] == EventV::Token(k, text));
        },
        Tree::Diag(e) => {
            assert(raw(t, b)[0] == EventV::Error(e));
        },
        Tree::Hole => {
            assert(raw(t, b)[0] == EventV::Placeholder);
        },
    }
}

/// The parser's events for trees point only into themselves.
pub(crate) proof fn lemma_raw_seq_checkpoints(cs: Seq<Tree>, b: int)
    ensures
        checkpoints_within(raw_seq(cs, b), b),
        no_start_at(pre_seq(cs)),
    decreases cs,
{
    if cs.len() > 0 {
        lemma_raw_checkpoints(cs[0], b);
        lemma_sizes(cs[0], b);
        lemma_raw_seq_checkpoints(cs.drop_first(), b + size(cs[0]));
        lemma_checkpoints_append(raw(cs[0], b), raw_seq(cs.drop_first(), b + size(cs[0])), b);
        lemma_no_start_at_append(pre(cs[0]), pre_seq(cs.drop_first()));
    }
}

/// The parser's events: a root node opened first, the events of `f` from position
/// 1, and the root closed.
pub open spec fn root_events(f: Seq<Tree>) -> Seq<EventV> {
    seq![EventV::Start(SyntaxKind::Root)] + raw_seq(f, 1) + seq![EventV::Finish]
}

/// The root node around the trees `f`.
pub open spec fn root_tree(f: Seq<Tree>) -> Tree {
    Tree::Node(SyntaxKind::Root, f)
}

/// The sink turns the parser's events into the tree order of the root node, and
/// every checkpoint on the way points at or before the event that names it.
pub proof fn lemma_reorder_root(f: Seq<Tree>)
    ensures
        reorder(root_events(f)) == pre(root_tree(f)),
        no_start_at(pre(root_tree(f))),
        checkpoints_within(root_events(f), 0),
{
    let orig = root_events(f);
    let m = size_seq(f) as int;
    lemma_sizes_seq(f, 1);
    assert(orig.len() == m + 2);
    assert(orig.subrange(1, 1 + m) =~= raw_seq(f, 1));
    lemma_reorder_forest(f, 1, orig, orig);
    let r0 = reorder_step(orig, orig[0], 0);
    assert(orig[0] == EventV::Start(SyntaxKind::Root));
    assert(r0 == orig);
    assert(reorder_run(orig, orig, 0, m + 2) == reorder_run(orig, orig, 1, m + 2));
    lemma_run_split(orig, orig, 1, 1 + m, m + 2);
    let r1 = reorder_run(orig, orig, 1, 1 + m);
    assert(r1 == orig.take(1) + pre_seq(f) + orig.skip(1 + m));
    assert(orig[1 + m] == EventV::Finish);
    assert(r1.len() == orig.len());
    assert(reorder_run(orig, r1, 1 + m, m + 2) == reorder_run(orig, reorder_step(r1, orig[1 + m], 1 + m), m + 2, m + 2));
    assert(r1 =~= pre(root_tree(f)));
    lemma_raw_checkpoints(root_tree(f), 0);
    lemma_raw_seq_checkpoints(f, 1);
    let head = seq![EventV::Start(SyntaxKind::Root)];
    assert(checkpoints_within(head, 0)) by {
        assert forall|i: int| #![trigger head[i]] 0 <= i < head.len() implies (head[i] matches EventV::StartAt(_, cp) ==> 0 <= cp <= i) by {
            assert(head[0] == EventV::Start(SyntaxKind::Root));
        }
    }
    let fin = seq![EventV::Finish];
    assert(checkpoints_within(fin, 1 + m)) by {
        assert forall|i: int| #![trigger fin[i]] 0 <= i < fin.len() implies (fin[i] matches EventV::StartAt(_, cp) ==> 1 + m <= cp <= 1 + m + i) by {
            assert(fin[0] == EventV::Finish);
        }
    }
    lemma_checkpoints_append(head, raw_seq(f, 1), 0);
    lemma_checkpoints_append(head + raw_seq(f, 1), fin, 0);
}


/// The event `e` carries no token.
pub open spec fn no_token(e: EventV) -> bool {
    !(e is Token)
}

proof fn lemma_event_toks_remove(s: Seq<EventV>, i: int)
    requires
        0 <= i < s.len(),
        no_token(s[i]),
    ensures
        event_toks(s.remove(i)) == event_toks(s),
{
    let a = s.take(i);
    let b = s.skip(i + 1);
    assert(s =~= a + seq![s[i]] + b);
    assert(s.remove(i) =~= a + b);
    lemma_event_toks_append(a + seq![s[i]], b);
    lemma_event_toks_append(a, seq![s[i]]);
    lemma_event_toks_append(a, b);
    lemma_event_toks_single(s[i]);
    assert(event_toks(a) + Seq::<(SyntaxKind, Seq<char>)>::empty() =~= event_toks(a));
}

proof fn lemma_event_toks_insert(s: Seq<EventV>, i: int, e: EventV)
    requires
        0 <= i <= s.len(),
        no_token(e),
    ensures
        event_toks(s.insert(i, e)) == event_toks(s),
{
    let a = s.take(i);
    let b = s.skip(i);
    assert(s =~= a + b);
    assert(s.insert(i, e) =~= a + seq![e] + b);
    lemma_event_toks_append(a + seq![e], b);
    lemma_event_toks_append(a, seq![e]);
    lemma_event_toks_append(a, b);
    lemma_event_toks_single(e);
    assert(event_toks(a) + Seq::<(SyntaxKind, Seq<char>)>::empty() =~= event_toks(a));
}

/// Reordering from `idx` on events that are, from `idx` on, as they were, and
/// before `idx` hold no opening at a checkpoint.
proof fn lemma_reorder_run_general(orig: Seq<EventV>, r: Seq<EventV>, idx: int)
    requires
        checkpoints_within(orig, 0),
        0 <= idx <= orig.len(),
        r.len() == orig.len(),
        forall|j: int| idx <= j < r.len() ==> #[trigger] r[j] == orig[j],
        forall|j: int| 0 <= j < idx ==> !(#[trigger] r[j] is StartAt),
        r.len() > 0 && no_token(orig[0]) ==> no_token(r[0]),
    ensures
        ({
            let out = reorder_run(orig, r, idx, orig.len() as int);
            &&& out.len() == orig.len()
            &&& no_start_at(out)
            &&& event_toks(out) == event_toks(r)
            &&& out.len() > 0 && no_token(orig[0]) ==> no_token(out[0])
        }),
    decreases orig.len() - idx,
{
    if idx < orig.len() {
        let e = orig[idx];
        let r2 = reorder_step(r, e, idx);
        assert(r[idx] == e);
        if let EventV::StartAt(k, cp) = e {
            assert(0 <= cp <= idx);
            let rm = r.remove(idx);
            lemma_event_toks_remove(r, idx);
            lemma_event_toks_insert(rm, cp, EventV::Start(k));
            assert(r2 == rm.insert(cp, EventV::Start(k)));
            assert forall|j: int| idx + 1 <= j < r2.len() implies #[trigger] r2[j] == orig[j] by {
                assert(r2[j] == rm[j - 1]);
                assert(rm[j - 1] == r[j]);
            }
            assert forall|j: int| 0 <= j < idx + 1 implies !(#[trigger] r2[j] is StartAt) by {
                if j < cp {
                    assert(r2[j] == rm[j]);
                    assert(rm[j] == r[j]);
                } else if j > cp {
                    assert(r2[j] == rm[j - 1]);
                    assert(rm[j - 1] == r[j - 1]);
                }
            }
            if r2.len() > 0 && no_token(orig[0]) {
                if cp > 0 {
                    assert(r2[0] == rm[0]);
                    assert(idx > 0);
                    assert(rm[0] == r[0]);
                }
            }
            lemma_reorder_run_general(orig, r2, idx + 1);
        } else {
            assert(r2 == r);
            lemma_reorder_run_general(orig, r2, idx + 1);
        }
    } else {
        assert forall|j: int| 0 <= j < r.len() implies !(#[trigger] r[j] is StartAt) by {}
    }
}

/// The sink's reordering of events whose checkpoints each point at or before
/// their own place leaves no opening at a checkpoint, keeps every event's
/// tokens in order, and keeps a first event that carries no token in front.
pub proof fn lemma_reorder_events(orig: Seq<EventV>)
    requires
        checkpoints_within(orig, 0),
    ensures
        reorder(orig).len() == orig.len(),
        no_start_at(reorder(orig)),
        event_toks(reorder(orig)) == event_toks(orig),
        orig.len() > 0 && no_token(orig[0]) ==> no_token(reorder(orig)[0]),
{
    lemma_reorder_run_general(orig, orig, 0);
}

} // verus!
