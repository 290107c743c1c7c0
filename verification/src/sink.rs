use crate::event::{Event, EventV, ParseError, ParseErrorV, events_view};
use crate::green::{
    TreeStep, build_state, builder_finish, builder_finish_node, builder_new, builder_start_node,
    builder_steps, builder_token, forms_one_node, green_steps, open_count, text_bytes,
};
use crate::lexer::{Lexeme, LexV, byte_len, lexemes_v};
use crate::parser::{sig_toks, lemma_sig_split, lemma_sig_trivia};
use crate::syntax::{SyntaxKind, is_trivia_kind, kind_code};
use crate::tree::{
    Tree, event_toks, forest_toks, lemma_forest_toks, lemma_reorder_root, no_start_at, pre,
    reorder, reorder_run, reorder_step, root_events, root_tree, checkpoints_within, pre_seq,
    lemma_reorder_events, no_token,
    lemma_event_toks_append,
};
use crate::text::{lex_text, sink_end, steps_text};
use vstd::prelude::*;

verus! {

/// The number of trivia tokens from position `c` on.
pub open spec fn trivia_len(lx: Seq<LexV>, c: int) -> nat
    decreases lx.len() - c,
{
    if 0 <= c < lx.len() && is_trivia_kind(lx[c].kind) {
        1 + trivia_len(lx, c + 1)
    } else {
        0
    }
}

/// The step that adds the token at position `i` as it is.
pub open spec fn lexeme_step(lx: Seq<LexV>, i: int) -> TreeStep {
    TreeStep::Token(kind_code(lx[i].kind), lx[i].text)
}

/// The steps that add the `n` tokens from position `c` as they are.
pub open spec fn token_steps(lx: Seq<LexV>, c: int, n: nat) -> Seq<TreeStep> {
    Seq::new(n, |j: int| lexeme_step(lx, c + j))
}

/// The step an event turns into; parse errors and unplaced openings turn into none.
pub open spec fn event_steps(e: EventV) -> Seq<TreeStep> {
    match e {
        EventV::Start(k) => seq![TreeStep::Start(kind_code(k))],
        EventV::Token(k, text) => seq![TreeStep::Token(kind_code(k), text)],
        EventV::Finish => seq![TreeStep::Finish],
        _ => seq![],
    }
}

/// How far past the input's tokens an event moves: a token moves one.
pub open spec fn event_advance(e: EventV) -> int {
    match e {
        EventV::Token(_, _) => 1,
        _ => 0,
    }
}

/// The steps the sink gives the tree builder for the events `evs` (in tree order),
/// from token position `c`: each event's step, then the trivia tokens that follow
/// the position it leaves, as they are.
pub open spec fn sink_steps(lx: Seq<LexV>, evs: Seq<EventV>, c: int) -> Seq<TreeStep>
    decreases evs.len(),
{
    if evs.len() == 0 {
        seq![]
    } else {
        let c1 = c + event_advance(evs[0]);
        let n = trivia_len(lx, c1);
        event_steps(evs[0]) + token_steps(lx, c1, n) + sink_steps(lx, evs.drop_first(), c1 + n)
    }
}

/// The parse errors among `evs`, in order.
pub open spec fn sink_errors(evs: Seq<EventV>) -> Seq<ParseErrorV>
    decreases evs.len(),
{
    if evs.len() == 0 {
        seq![]
    } else {
        (match evs[0] {
            EventV::Error(e) => seq![e],
            _ => seq![],
        }) + sink_errors(evs.drop_first())
    }
}

/// The tree builder accepts the steps the sink gives it: they build one node and
/// their text fits in rowan's `u32` sizes.
pub open spec fn sink_ok(lx: Seq<LexV>, evs: Seq<EventV>) -> bool {
    let st = sink_steps(lx, evs, 0);
    forms_one_node(st) && text_bytes(st) <= u32::MAX
}

/// The sink can take `evs`: there is at least one, the first carries no token
/// (it opens the outermost node), every opening at a checkpoint points at or
/// before its own place, and the tokens the events carry are those of `lx` that
/// are not trivia, in order, up to some position.
pub open spec fn sink_input(lx: Seq<LexV>, evs: Seq<EventV>) -> bool {
    &&& evs.len() > 0
    &&& no_token(evs[0])
    &&& checkpoints_within(evs, 0)
    &&& exists|e: int|
        #![trigger sig_toks(lx, 0, e)]
        0 <= e <= lx.len() && event_toks(evs) == sig_toks(lx, 0, e)
}

// ---------------------------------------------------------------- lemmas

proof fn lemma_build_prefix(a: Seq<TreeStep>, b: Seq<TreeStep>)
    ensures
        build_state(a + b).ok ==> build_state(a).ok,
        text_bytes(a + b) >= text_bytes(a),
    decreases b.len(),
{
    if b.len() == 0 {
        assert(a + b =~= a);
    } else {
        assert((a + b).drop_last() =~= a + b.drop_last());
        lemma_build_prefix(a, b.drop_last());
    }
}

pub(crate) proof fn lemma_trivia_len(lx: Seq<LexV>, c: int)
    requires
        0 <= c <= lx.len(),
    ensures
        c + trivia_len(lx, c) <= lx.len(),
        forall|i: int| c <= i < c + trivia_len(lx, c) ==> is_trivia_kind(#[trigger] lx[i].kind),
        c + trivia_len(lx, c) < lx.len() ==> !is_trivia_kind(lx[c + trivia_len(lx, c)].kind),
    decreases lx.len() - c,
{
    if c < lx.len() && is_trivia_kind(lx[c].kind) {
        lemma_trivia_len(lx, c + 1);
    }
}

/// Stepping over trivia changes nothing of the tokens up to any position.
pub(crate) proof fn lemma_sig_over_trivia(lx: Seq<LexV>, c: int, c2: int, e: int)
    requires
        c <= c2,
        forall|i: int| c <= i < c2 ==> is_trivia_kind(#[trigger] lx[i].kind),
    ensures
        sig_toks(lx, c, e) == sig_toks(lx, c2, e),
{
    if c2 <= e {
        lemma_sig_trivia(lx, c, c2);
        lemma_sig_split(lx, c, c2, e);
        assert(sig_toks(lx, c, e) =~= sig_toks(lx, c2, e));
    } else if c <= e {
        lemma_sig_trivia(lx, c, e);
    }
}

/// A token that is not trivia, at the head of the tokens from `c` to `e`.
pub(crate) proof fn lemma_sig_head(lx: Seq<LexV>, c: int, e: int)
    requires
        0 <= c < e <= lx.len(),
        !is_trivia_kind(lx[c].kind),
    ensures
        sig_toks(lx, c, e) == seq![(lx[c].kind, lx[c].text)] + sig_toks(lx, c + 1, e),
{
    lemma_sig_split(lx, c, c + 1, e);
    assert(sig_toks(lx, c, c) == Seq::<(SyntaxKind, Seq<char>)>::empty());
    assert(sig_toks(lx, c, c + 1) =~= seq![(lx[c].kind, lx[c].text)]);
}

proof fn lemma_sink_steps_unfold(lx: Seq<LexV>, evs: Seq<EventV>, i: int, c: int)
    requires
        0 <= i < evs.len(),
    ensures
        sink_steps(lx, evs.skip(i), c) == event_steps(evs[i]) + token_steps(
            lx,
            c + event_advance(evs[i]),
            trivia_len(lx, c + event_advance(evs[i])),
        ) + sink_steps(
            lx,
            evs.skip(i + 1),
            c + event_advance(evs[i]) + trivia_len(lx, c + event_advance(evs[i])),
        ),
        sink_errors(evs.skip(i)) == (match evs[i] {
            EventV::Error(e) => seq![e],
            _ => seq![],
        }) + sink_errors(evs.skip(i + 1)),
{
    assert(evs.skip(i)[0] == evs[i]);
    assert(evs.skip(i).drop_first() =~= evs.skip(i + 1));
}

proof fn lemma_event_toks_skip(evs: Seq<EventV>, i: int)
    requires
        0 <= i < evs.len(),
    ensures
        event_toks(evs.skip(i)) == (match evs[i] {
            EventV::Token(k, text) => seq![(k, text)],
            _ => Seq::<(SyntaxKind, Seq<char>)>::empty(),
        }) + event_toks(evs.skip(i + 1)),
{
    assert(evs.skip(i)[0] == evs[i]);
    assert(evs.skip(i).drop_first() =~= evs.skip(i + 1));
}

// ---------------------------------------------------------------- exec

/// The number of bytes of `text`, if it is at most `room`.
fn bytes_within(text: &Vec<char>, room: u64) -> (r: Option<u64>)
    ensures
        r == (if byte_len(text@) <= room {
            Some(byte_len(text@) as u64)
        } else {
            None::<u64>
        }),
{
    let mut total: u64 = 0;
    let mut i: usize = 0;
    while i < text.len()
        invariant
            i <= text.len(),
            total == byte_len(text@.take(i as int)),
            total <= room,
        decreases text.len() - i,
    {
        let c = text[i];
        let u = c as u32;
        let w: u64 = if u < 0x80 {
            1
        } else if u < 0x800 {
            2
        } else if u < 0x10000 {
            3
        } else {
            4
        };
        proof {
            assert(text@.take(i + 1).drop_last() =~= text@.take(i as int));
            assert(text@.take(i + 1).last() == c);
        }
        if w > room - total {
            proof {
                lemma_byte_len_prefix(text@, i + 1);
            }
            return None;
        }
        total = total + w;
        i += 1;
    }
    assert(text@.take(i as int) =~= text@);
    Some(total)
}

proof fn lemma_byte_len_prefix(s: Seq<char>, i: int)
    requires
        0 <= i <= s.len(),
    ensures
        byte_len(s.take(i)) <= byte_len(s),
    decreases s.len() - i,
{
    if i < s.len() {
        lemma_byte_len_prefix(s, i + 1);
        assert(s.take(i + 1).drop_last() =~= s.take(i));
    } else {
        assert(s.take(i) =~= s);
    }
}

/// Steps that the builder would refuse, whatever follows them.
pub open spec fn refused(steps: Seq<TreeStep>) -> bool {
    !(build_state(steps).ok && text_bytes(steps) <= u32::MAX)
}

proof fn lemma_refused_extends(bad: Seq<TreeStep>, rest: Seq<TreeStep>)
    requires
        refused(bad),
    ensures
        !(forms_one_node(bad + rest) && text_bytes(bad + rest) <= u32::MAX),
{
    lemma_build_prefix(bad, rest);
}

proof fn lemma_events_view_push(v: Seq<Event>, e: Event)
    ensures
        events_view(v.push(e)) == events_view(v).push(e.view_event()),
{
    assert(events_view(v.push(e)) =~= events_view(v).push(e.view_event()));
}

/// The parser's events with each node opened at a checkpoint moved to its place.
fn reorder_events(events: &Vec<Event>) -> (reordered: Vec<Event>)
    requires
        checkpoints_within(events_view(events@), 0),
    ensures
        events_view(reordered@) == reorder(events_view(events@)),
{
    let ghost orig = events_view(events@);
    let mut reordered: Vec<Event> = Vec::new();
    let mut k: usize = 0;
    while k < events.len()
        invariant
            k <= events.len(),
            events_view(events@) == orig,
            events_view(reordered@) == orig.take(k as int),
        decreases events.len() - k,
    {
        let ghost before = reordered@;
        let c = events[k].copy();
        assert(orig[k as int] == events@[k as int].view_event());
        reordered.push(c);
        proof {
            lemma_events_view_push(before, c);
            assert(orig.take(k + 1) =~= orig.take(k as int).push(orig[k as int]));
        }
        k += 1;
    }
    assert(orig.take(events.len() as int) =~= orig);
    let mut idx: usize = 0;
    while idx < events.len()
        invariant
            idx <= events.len(),
            events_view(events@) == orig,
            events_view(reordered@) == reorder_run(orig, orig, 0, idx as int),
            reordered@.len() == orig.len(),
            checkpoints_within(orig, 0),
        decreases events.len() - idx,
    {
        let ghost r = events_view(reordered@);
        proof {
            crate::tree::lemma_run_split(orig, orig, 0, idx as int, idx + 1);
            assert(reorder_run(orig, r, idx as int, idx + 1) == reorder_run(
                orig,
                reorder_step(r, orig[idx as int], idx as int),
                idx + 1,
                idx + 1,
            ));
            assert(orig[idx as int] == events@[idx as int].view_event());
        }
        if let Event::StartNodeAt { kind, checkpoint } = &events[idx] {
            let kind = *kind;
            let checkpoint = *checkpoint;
            reordered.remove(idx);
            reordered.insert(checkpoint, Event::StartNode { kind });
            proof {
                assert(events_view(reordered@) =~= r.remove(idx as int).insert(
                    checkpoint as int,
                    EventV::Start(kind),
                ));
            }
        }
        idx += 1;
    }
    reordered
}

/// The tree builder, with what the sink tracks of the steps given to it: how deep
/// the open nodes go, whether a node was opened, how many bytes the tokens hold.
struct Build {
    builder: rowan::GreenNodeBuilder<'static>,
    depth: usize,
    started: bool,
    bytes: u64,
}

impl Build {
    spec fn steps(&self) -> Seq<TreeStep> {
        builder_steps(self.builder)
    }

    spec fn inv(&self) -> bool {
        let st = build_state(self.steps());
        &&& st.ok
        &&& st.depth == self.depth as int
        &&& st.started == self.started
        &&& open_count(self.steps()) == self.depth as int
        &&& text_bytes(self.steps()) == self.bytes as int
        &&& self.bytes <= u32::MAX
    }

    fn new() -> (b: Self)
        ensures
            b.inv(),
            b.steps() == Seq::<TreeStep>::empty(),
    {
        Build { builder: builder_new(), depth: 0, started: false, bytes: 0 }
    }

    /// Opens a node, unless the builder would refuse it.
    fn start(&mut self, kind: SyntaxKind) -> (ok: bool)
        requires
            old(self).inv(),
            old(self).depth < usize::MAX,
        ensures
            ok ==> final(self).inv() && final(self).steps() == old(self).steps().push(
                TreeStep::Start(kind_code(kind)),
            ) && final(self).depth == old(self).depth + 1,
            !ok ==> refused(old(self).steps().push(TreeStep::Start(kind_code(kind)))),
    {
        let ghost s0 = self.steps();
        let ghost bad = s0.push(TreeStep::Start(kind_code(kind)));
        assert(bad.drop_last() =~= s0);
        if self.started && self.depth == 0 {
            return false;
        }
        builder_start_node(&mut self.builder, kind.to_raw());
        self.depth = self.depth + 1;
        self.started = true;
        true
    }

    /// Adds a token to the open node, unless the builder would refuse it.
    fn token(&mut self, kind: SyntaxKind, text: &Vec<char>) -> (ok: bool)
        requires
            old(self).inv(),
        ensures
            ok ==> final(self).inv() && final(self).steps() == old(self).steps().push(
                TreeStep::Token(kind_code(kind), text@),
            ) && final(self).depth == old(self).depth,
            !ok ==> refused(old(self).steps().push(TreeStep::Token(kind_code(kind), text@))),
    {
        let ghost s0 = self.steps();
        let ghost bad = s0.push(TreeStep::Token(kind_code(kind), text@));
        assert(bad.drop_last() =~= s0);
        let room = 0xffff_ffffu64 - self.bytes;
        let w = bytes_within(text, room);
        if self.depth == 0 {
            return false;
        }
        match w {
            None => false,
            Some(w) => {
                builder_token(&mut self.builder, kind.to_raw(), text);
                self.bytes = self.bytes + w;
                true
            },
        }
    }

    /// Closes the node opened last, unless none is open.
    fn finish_node(&mut self) -> (ok: bool)
        requires
            old(self).inv(),
        ensures
            ok ==> final(self).inv() && final(self).steps() == old(self).steps().push(
                TreeStep::Finish,
            ) && final(self).depth == old(self).depth - 1,
            !ok ==> refused(old(self).steps().push(TreeStep::Finish)),
    {
        let ghost s0 = self.steps();
        let ghost bad = s0.push(TreeStep::Finish);
        assert(bad.drop_last() =~= s0);
        if self.depth == 0 {
            return false;
        }
        builder_finish_node(&mut self.builder);
        self.depth = self.depth - 1;
        true
    }

    /// The tree, if the steps build exactly one node.
    fn finish(self) -> (g: Option<rowan::GreenNode>)
        requires
            self.inv(),
        ensures
            g is Some <==> forms_one_node(self.steps()),
            g matches Some(g) ==> green_steps(g) == self.steps(),
    {
        if self.started && self.depth == 0 {
            Some(builder_finish(self.builder))
        } else {
            None
        }
    }

    /// Adds the trivia tokens from `cursor` on, as they are; returns where they end,
    /// or `None` if the builder would refuse one.
    fn eat_trivia(&mut self, lexemes: &[Lexeme], cursor: usize) -> (res: Option<usize>)
        requires
            old(self).inv(),
            cursor <= lexemes_v(lexemes@).len(),
        ensures
            res matches Some(c) ==> {
                &&& final(self).inv()
                &&& c == cursor + trivia_len(lexemes_v(lexemes@), cursor as int)
                &&& final(self).steps() == old(self).steps() + token_steps(
                    lexemes_v(lexemes@),
                    cursor as int,
                    trivia_len(lexemes_v(lexemes@), cursor as int),
                )
                &&& final(self).depth == old(self).depth
            },
            res is None ==> exists|k: int|
                #![trigger token_steps(lexemes_v(lexemes@), cursor as int, k as nat)]
                0 < k <= trivia_len(lexemes_v(lexemes@), cursor as int) && refused(
                    old(self).steps() + token_steps(lexemes_v(lexemes@), cursor as int, k as nat),
                ),
    {
        let ghost lx = lexemes_v(lexemes@);
        let ghost c0 = cursor as int;
        let ghost n = trivia_len(lx, c0);
        let ghost s0 = self.steps();
        proof {
            lemma_trivia_len(lx, c0);
        }
        let mut c = cursor;
        assert(s0 + token_steps(lx, c0, 0) =~= s0);
        while c < lexemes.len() && lexemes[c].kind.is_trivia()
            invariant
                lexemes_v(lexemes@) == lx,
                c0 == cursor as int,
                n == trivia_len(lx, c0),
                c0 <= c <= c0 + n,
                c0 + n <= lx.len(),
                forall|j: int| c0 <= j < c0 + n ==> is_trivia_kind(#[trigger] lx[j].kind),
                c0 + n < lx.len() ==> !is_trivia_kind(lx[c0 + n].kind),
                self.inv(),
                self.depth == old(self).depth,
                self.steps() == s0 + token_steps(lx, c0, (c - c0) as nat),
                s0 == old(self).steps(),
            decreases lx.len() - c,
        {
            let ghost k = c - c0;
            assert(lx[c as int] == lexemes@[c as int].view_lex());
            let ok = self.token(lexemes[c].kind, &lexemes[c].text);
            if !ok {
                proof {
                    assert(lexeme_step(lx, c0 + k) == TreeStep::Token(kind_code(lx[c as int].kind), lx[c as int].text));
                    assert(c < c0 + n);
                    assert(token_steps(lx, c0, (k + 1) as nat) =~= token_steps(lx, c0, k as nat).push(lexeme_step(lx, c0 + k)));
                    assert(refused(s0 + token_steps(lx, c0, (k + 1) as nat)));
                    assert(0 < k + 1 <= trivia_len(lexemes_v(lexemes@), cursor as int) && refused(
                        old(self).steps() + token_steps(lexemes_v(lexemes@), cursor as int, (k + 1) as nat),
                    ));
                }
                return None;
            }
            proof {
                assert(token_steps(lx, c0, (k + 1) as nat) =~= token_steps(lx, c0, k as nat).push(lexeme_step(lx, c0 + k)));
            }
            c = c + 1;
        }
        proof {
            assert(lx.len() == lexemes@.len());
            if c < lx.len() {
                assert(lx[c as int] == lexemes@[c as int].view_lex());
                assert(!is_trivia_kind(lx[c as int].kind));
            }
            assert(c == c0 + n);
        }
        Some(c)
    }
}

/// The parse error that `e` carries, if any.
pub open spec fn error_of(e: EventV) -> Seq<ParseErrorV> {
    match e {
        EventV::Error(err) => seq![err],
        _ => seq![],
    }
}

/// The parse errors as the contracts see them.
pub open spec fn errors_view(errors: Seq<ParseError>) -> Seq<ParseErrorV> {
    errors.map_values(|e: ParseError| e.view_error())
}

/// Gives the builder the step of `ev`, or keeps its parse error; `false` where the
/// builder would refuse the step.
fn apply_event(build: &mut Build, errors: &mut Vec<ParseError>, ev: &Event) -> (ok: bool)
    requires
        old(build).inv(),
        old(build).depth < usize::MAX,
        !(ev.view_event() is StartAt),
    ensures
        ok ==> {
            &&& final(build).inv()
            &&& final(build).steps() == old(build).steps() + event_steps(ev.view_event())
            &&& errors_view(final(errors)@) == errors_view(old(errors)@) + error_of(ev.view_event())
            &&& final(build).depth <= old(build).depth + 1
        },
        !ok ==> refused(old(build).steps() + event_steps(ev.view_event())),
{
    let ghost s0 = build.steps();
    match ev {
        Event::StartNode { kind } => {
            let ok = build.start(*kind);
            assert(s0 + event_steps(ev.view_event()) =~= s0.push(TreeStep::Start(kind_code(*kind))));
            assert(errors_view(errors@) =~= errors_view(errors@) + error_of(ev.view_event()));
            ok
        },
        Event::StartNodeAt { .. } => false,
        Event::AddToken { kind, text } => {
            let ok = build.token(*kind, text);
            assert(s0 + event_steps(ev.view_event()) =~= s0.push(TreeStep::Token(kind_code(*kind), text@)));
            assert(errors_view(errors@) =~= errors_view(errors@) + error_of(ev.view_event()));
            ok
        },
        Event::FinishNode => {
            let ok = build.finish_node();
            assert(s0 + event_steps(ev.view_event()) =~= s0.push(TreeStep::Finish));
            assert(errors_view(errors@) =~= errors_view(errors@) + error_of(ev.view_event()));
            ok
        },
        Event::Error(err) => {
            let ghost e0 = errors@;
            errors.push(err.copy());
            assert(s0 + event_steps(ev.view_event()) =~= s0);
            assert(errors_view(errors@) =~= errors_view(e0) + error_of(ev.view_event()));
            true
        },
        Event::Placeholder => {
            assert(s0 + event_steps(ev.view_event()) =~= s0);
            assert(errors_view(errors@) =~= errors_view(errors@) + error_of(ev.view_event()));
            true
        },
    }
}

/// The steps for one event: its own, then those of the trivia after it.
pub open spec fn one_event_steps(lx: Seq<LexV>, v: EventV, c: int) -> Seq<TreeStep> {
    let c1 = c + event_advance(v);
    event_steps(v) + token_steps(lx, c1, trivia_len(lx, c1))
}

/// Gives the builder the steps for `ev` and the trivia after it; returns the new
/// token position, or `None` where the builder would refuse a step.
fn sink_step(build: &mut Build, errors: &mut Vec<ParseError>, ev: &Event, lexemes: &[Lexeme], cursor: usize) -> (res: Option<usize>)
    requires
        old(build).inv(),
        old(build).depth < usize::MAX,
        !(ev.view_event() is StartAt),
        cursor + event_advance(ev.view_event()) <= lexemes_v(lexemes@).len(),
        lexemes_v(lexemes@).len() <= usize::MAX,
    ensures
        res matches Some(c) ==> {
            let c1 = cursor + event_advance(ev.view_event());
            &&& final(build).inv()
            &&& c == c1 + trivia_len(lexemes_v(lexemes@), c1)
            &&& final(build).steps() == old(build).steps() + one_event_steps(lexemes_v(lexemes@), ev.view_event(), cursor as int)
            &&& errors_view(final(errors)@) == errors_view(old(errors)@) + error_of(ev.view_event())
            &&& final(build).depth <= old(build).depth + 1
        },
        res is None ==> exists|m: int|
            #![trigger one_event_steps(lexemes_v(lexemes@), ev.view_event(), cursor as int).take(m)]
            0 < m <= one_event_steps(lexemes_v(lexemes@), ev.view_event(), cursor as int).len() && refused(
                old(build).steps() + one_event_steps(lexemes_v(lexemes@), ev.view_event(), cursor as int).take(m),
            ),
{
    let ghost lx = lexemes_v(lexemes@);
    let ghost v = ev.view_event();
    let ghost s0 = build.steps();
    let ghost all = one_event_steps(lx, v, cursor as int);
    assert(lx.len() <= usize::MAX);
    let ghost es = event_steps(v);
    let ok = apply_event(build, errors, ev);
    if !ok {
        proof {
            assert(es.len() > 0) by {
                assert(!(es.len() == 0 && refused(s0 + es))) by {
                    if es.len() == 0 {
                        assert(s0 + es =~= s0);
                    }
                }
            }
            assert(all.take(es.len() as int) =~= es);
        }
        return None;
    }
    let c1 = if let Event::AddToken { .. } = ev {
        cursor + 1
    } else {
        cursor
    };
    let ghost s1 = build.steps();
    match build.eat_trivia(lexemes, c1) {
        None => {
            proof {
                let k = choose|k: int|
                    #![trigger token_steps(lx, c1 as int, k as nat)]
                    0 < k <= trivia_len(lx, c1 as int) && refused(s1 + token_steps(lx, c1 as int, k as nat));
                let m = es.len() + k;
                assert(token_steps(lx, c1 as int, trivia_len(lx, c1 as int)).take(k) =~= token_steps(lx, c1 as int, k as nat));
                assert(s0 + all.take(m) =~= s1 + token_steps(lx, c1 as int, k as nat));
            }
            None
        },
        Some(c) => {
            proof {
                assert(build.steps() =~= s0 + all);
            }
            Some(c)
        },
    }
}

proof fn lemma_refused_prefix(total: Seq<TreeStep>, m: int)
    requires
        0 <= m <= total.len(),
        refused(total.take(m)),
    ensures
        !(forms_one_node(total) && text_bytes(total) <= u32::MAX),
{
    let rest = total.skip(m);
    assert(total =~= total.take(m) + rest);
    lemma_refused_extends(total.take(m), rest);
}

/// Turns the parser's events into a green tree.
pub struct Sink<'l> {
    events: Vec<Event>,
    lexemes: &'l [Lexeme],
}

impl<'l> Sink<'l> {
    /// The tokens the events were made from.
    pub closed spec fn lexemes(&self) -> Seq<LexV> {
        lexemes_v(self.lexemes@)
    }

    /// The events to turn into a tree.
    pub closed spec fn events(&self) -> Seq<EventV> {
        events_view(self.events@)
    }

    /// A sink for `events`, read against `lexemes`.
    pub fn new(lexemes: &'l [Lexeme], events: Vec<Event>) -> (s: Self)
        ensures
            s.lexemes() == lexemes_v(lexemes@),
            s.events() == events_view(events@),
    {
        Self { lexemes, events }
    }

    #[verifier::rlimit(60)]
    /// The tree the events build, with the parse errors among them; `None` where the
    /// tree builder would refuse the steps (a token or a second node after the root
    /// is closed, or more text than rowan measures).
    pub fn finish(self) -> (res: Option<(rowan::GreenNode, Vec<ParseError>)>)
        requires
            sink_input(self.lexemes(), self.events()),
        ensures
            res is Some <==> sink_ok(self.lexemes(), reorder(self.events())),
            res matches Some((g, errors)) ==> {
                &&& green_steps(g) == sink_steps(self.lexemes(), reorder(self.events()), 0)
                &&& errors@.map_values(|e: ParseError| e.view_error()) == sink_errors(
                    reorder(self.events()),
                )
                &&& steps_text(green_steps(g)) == lex_text(
                    self.lexemes(),
                    0,
                    sink_end(self.lexemes(), reorder(self.events()), 0),
                )
                &&& event_toks(self.events()) == sig_toks(self.lexemes(), 0, self.lexemes().len() as int)
                    ==> steps_text(green_steps(g)) == lex_text(self.lexemes(), 0, self.lexemes().len() as int)
            },
    {
        let ghost lx = self.lexemes();
        let ghost orig = self.events();
        let ghost e = choose|e: int|
            #![trigger sig_toks(lx, 0, e)]
            0 <= e <= lx.len() && event_toks(orig) == sig_toks(lx, 0, e);
        proof {
            lemma_reorder_events(orig);
        }
        let Sink { events, lexemes } = self;
        let reordered = reorder_events(&events);
        let ghost rr = events_view(reordered@);
        proof {
            assert(rr.skip(0) =~= rr);
        }
        let _n = lexemes.len();
        let mut build = Build::new();
        let mut errors: Vec<ParseError> = Vec::new();
        let mut cursor: usize = 0;
        let mut i: usize = 0;
        let ghost total = sink_steps(lx, rr, 0);
        let ghost all_errors = sink_errors(rr);
        assert(build.steps() + sink_steps(lx, rr.skip(0), 0) =~= total);
        assert(errors_view(errors@) + sink_errors(rr.skip(0)) =~= all_errors);
        while i < reordered.len()
            invariant
                i <= reordered.len(),
                events_view(reordered@) == rr,
                no_start_at(rr),
                rr.len() > 0 && no_token(rr[0]),
                lexemes_v(lexemes@) == lx,
                lx == self.lexemes(),
                orig == self.events(),
                rr == reorder(orig),
                lx.len() <= usize::MAX,
                cursor <= lx.len(),
                0 <= e <= lx.len(),
                event_toks(rr.skip(i as int)) == sig_toks(lx, cursor as int, e),
                i > 0 && cursor < lx.len() ==> !is_trivia_kind(lx[cursor as int].kind),
                build.inv(),
                build.depth <= i,
                build.steps() + sink_steps(lx, rr.skip(i as int), cursor as int) == total,
                errors_view(errors@) + sink_errors(rr.skip(i as int)) == all_errors,
                total == sink_steps(lx, rr, 0),
            decreases reordered.len() - i,
        {
            let ghost s0 = build.steps();
            let ghost ev = rr[i as int];
            let ghost rest_events = rr.skip(i + 1);
            proof {
                lemma_sink_steps_unfold(lx, rr, i as int, cursor as int);
                lemma_event_toks_skip(rr, i as int);
                assert(ev == reordered@[i as int].view_event());
            }
            let ev_ref = &reordered[i];
            proof {
                let et = event_toks(rr.skip(i as int));
                if ev is Token {
                    assert(sig_toks(lx, cursor as int, e).len() > 0);
                    assert(cursor < e);
                    lemma_sig_head(lx, cursor as int, e);
                    assert(event_toks(rr.skip(i + 1)) =~= et.drop_first());
                    assert(sig_toks(lx, cursor + 1, e) =~= sig_toks(lx, cursor as int, e).drop_first());
                } else {
                    assert(event_toks(rr.skip(i + 1)) =~= et);
                }
                assert(event_toks(rr.skip(i + 1)) == sig_toks(lx, cursor + event_advance(ev), e));
                let c1 = cursor + event_advance(ev);
                assert(sink_steps(lx, rr.skip(i as int), cursor as int) =~= one_event_steps(lx, ev, cursor as int) + sink_steps(lx, rest_events, c1 + trivia_len(lx, c1)));
            }
            let stepped = sink_step(&mut build, &mut errors, ev_ref, lexemes, cursor);
            match stepped {
                None => {
                    proof {
                        let all = one_event_steps(lx, ev, cursor as int);
                        assert(ev_ref.view_event() == ev);
                        assert(exists|m: int|
                            #![trigger all.take(m)]
                            0 < m <= all.len() && refused(s0 + all.take(m)));
                        let m = choose|m: int|
                            #![trigger all.take(m)]
                            0 < m <= all.len() && refused(s0 + all.take(m));
                        assert(total.take(s0.len() + m) =~= s0 + all.take(m));
                        lemma_refused_prefix(total, s0.len() + m);
                        assert(!sink_ok(lx, rr));
                    }
                    return None;
                },
                Some(c) => {
                    proof {
                        let c1 = cursor + event_advance(ev);
                        lemma_trivia_len(lx, c1);
                        lemma_sig_over_trivia(lx, c1, c as int, e);
                        assert(errors_view(errors@) + sink_errors(rest_events) =~= all_errors);
                    }
                    cursor = c;
                },
            }
            i += 1;
        }
        proof {
            assert(rr.skip(i as int) =~= Seq::<EventV>::empty());
            assert(build.steps() =~= total);
            assert(errors_view(errors@) =~= all_errors);
        }
        proof {
            crate::text::lemma_sink_text(lx, rr, 0, e);
            if event_toks(orig) == sig_toks(lx, 0, lx.len() as int) {
                crate::text::lemma_sink_text(lx, rr, 0, lx.len() as int);
            }
        }
        match build.finish() {
            Some(g) => Some((g, errors)),
            None => None,
        }
    }
}

} // verus!
