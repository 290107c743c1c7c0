use crate::event::{Event, EventV, ParseError, ParseErrorV, events_view};
use crate::grammar::{Parsed, error_spec, expect_spec, follows, leaf, lemma_skip_idem, lemma_leaf_toks, lemma_node_events, lemma_node_toks, lemma_fill};
use crate::tree::{Tree, raw_seq, forest_toks, lemma_raw_seq_single, lemma_raw_seq_append, lemma_forest_toks_append, lemma_forest_toks_single, lemma_sizes};
use crate::lexer::{Lexeme, LexV, TextRange, lexemes_v};
use crate::syntax::{SyntaxKind, is_trivia_kind};
use vstd::prelude::*;

verus! {

/// The first position at or after `c` whose token is not trivia (or the end).
pub open spec fn skip_trivia(lx: Seq<LexV>, c: int) -> int
    decreases lx.len() - c,
{
    if 0 <= c < lx.len() && is_trivia_kind(lx[c].kind) {
        skip_trivia(lx, c + 1)
    } else {
        c
    }
}

/// Stepping over trivia stops at a token that is not trivia, or at the end.
pub proof fn lemma_skip_trivia(lx: Seq<LexV>, c: int)
    requires
        0 <= c <= lx.len(),
    ensures
        c <= skip_trivia(lx, c) <= lx.len(),
        skip_trivia(lx, c) < lx.len() ==> !is_trivia_kind(lx[skip_trivia(lx, c)].kind),
        forall|i: int| c <= i < skip_trivia(lx, c) ==> is_trivia_kind(#[trigger] lx[i].kind),
    decreases lx.len() - c,
{
    if c < lx.len() && is_trivia_kind(lx[c].kind) {
        lemma_skip_trivia(lx, c + 1);
    }
}

/// The tokens at positions `a..b` that are not trivia, in order.
pub open spec fn sig_toks(lx: Seq<LexV>, a: int, b: int) -> Seq<(SyntaxKind, Seq<char>)>
    decreases b - a,
{
    if b <= a {
        seq![]
    } else {
        sig_toks(lx, a, b - 1) + (if is_trivia_kind(lx[b - 1].kind) {
            Seq::<(SyntaxKind, Seq<char>)>::empty()
        } else {
            seq![(lx[b - 1].kind, lx[b - 1].text)]
        })
    }
}

/// The tokens of `a..c` are those of `a..b`, then those of `b..c`.
pub(crate) proof fn lemma_sig_split(lx: Seq<LexV>, a: int, b: int, c: int)
    requires
        a <= b <= c,
    ensures
        sig_toks(lx, a, c) == sig_toks(lx, a, b) + sig_toks(lx, b, c),
    decreases c - b,
{
    if c == b {
        assert(sig_toks(lx, a, b) + sig_toks(lx, b, c) =~= sig_toks(lx, a, b));
    } else {
        lemma_sig_split(lx, a, b, c - 1);
        assert(sig_toks(lx, a, c) =~= sig_toks(lx, a, b) + sig_toks(lx, b, c));
    }
}

/// A run of trivia holds no token that counts.
pub(crate) proof fn lemma_sig_trivia(lx: Seq<LexV>, a: int, b: int)
    requires
        a <= b,
        forall|i: int| a <= i < b ==> is_trivia_kind(#[trigger] lx[i].kind),
    ensures
        sig_toks(lx, a, b) == Seq::<(SyntaxKind, Seq<char>)>::empty(),
    decreases b - a,
{
    if a < b {
        lemma_sig_trivia(lx, a, b - 1);
        assert(sig_toks(lx, a, b) =~= Seq::<(SyntaxKind, Seq<char>)>::empty());
    }
}

/// Stepping over trivia to the next token and taking it takes exactly that token.
pub(crate) proof fn lemma_sig_next(lx: Seq<LexV>, c: int)
    requires
        0 <= c <= lx.len(),
    ensures
        sig_toks(lx, c, skip_trivia(lx, c)) == Seq::<(SyntaxKind, Seq<char>)>::empty(),
        skip_trivia(lx, c) < lx.len() ==> sig_toks(lx, c, skip_trivia(lx, c) + 1) == seq![
            (lx[skip_trivia(lx, c)].kind, lx[skip_trivia(lx, c)].text),
        ],
{
    lemma_skip_trivia(lx, c);
    let s = skip_trivia(lx, c);
    lemma_sig_trivia(lx, c, s);
    if s < lx.len() {
        assert(sig_toks(lx, c, s + 1) =~= seq![(lx[s].kind, lx[s].text)]);
    }
}

/// The kind of the next token that is not trivia, from position `c`.
pub open spec fn next_kind(lx: Seq<LexV>, c: int) -> Option<SyntaxKind> {
    let s = skip_trivia(lx, c);
    if s < lx.len() {
        Some(lx[s].kind)
    } else {
        None
    }
}

/// The tokens the parser reads, with its position among them.
pub(crate) struct Source<'l> {
    lexemes: &'l [Lexeme],
    cursor: usize,
}

impl<'l> Source<'l> {
    /// The tokens.
    pub closed spec fn lexemes(&self) -> Seq<LexV> {
        lexemes_v(self.lexemes@)
    }

    /// The position among them.
    pub closed spec fn cursor(&self) -> int {
        self.cursor as int
    }

    /// The position is within the tokens.
    pub open spec fn wf(&self) -> bool {
        &&& 0 <= self.cursor() <= self.lexemes().len()
        &&& self.lexemes().len() <= usize::MAX
    }

    /// A source positioned at the first token.
    pub fn new(lexemes: &'l [Lexeme]) -> (s: Self)
        ensures
            s.lexemes() == lexemes_v(lexemes@),
            s.cursor() == 0,
            s.wf(),
    {
        let _n = lexemes.len();
        Source { lexemes, cursor: 0 }
    }

    fn peek_kind_raw(&self) -> (k: Option<SyntaxKind>)
        ensures
            k == (if self.cursor() < self.lexemes().len() {
                Some(self.lexemes()[self.cursor()].kind)
            } else {
                None
            }),
    {
        if self.cursor < self.lexemes.len() {
            Some(self.lexemes[self.cursor].kind)
        } else {
            None
        }
    }

    fn at_trivia(&self) -> (b: bool)
        ensures
            b == (self.cursor() < self.lexemes().len() && is_trivia_kind(
                self.lexemes()[self.cursor()].kind,
            )),
    {
        match self.peek_kind_raw() {
            Some(k) => k.is_trivia(),
            None => false,
        }
    }

    /// Steps over trivia.
    fn eat_trivia(&mut self)
        requires
            old(self).wf(),
        ensures
            final(self).lexemes() == old(self).lexemes(),
            final(self).cursor() == skip_trivia(old(self).lexemes(), old(self).cursor()),
    {
        proof {
            lemma_skip_trivia(self.lexemes(), self.cursor());
        }
        while self.at_trivia()
            invariant
                self.lexemes() == old(self).lexemes(),
                self.wf(),
                skip_trivia(self.lexemes(), self.cursor()) == skip_trivia(
                    old(self).lexemes(),
                    old(self).cursor(),
                ),
            decreases self.lexemes().len() - self.cursor(),
        {
            self.cursor += 1;
        }
    }

    /// The kind of the next token that is not trivia; steps over the trivia before it.
    pub fn peek_kind(&mut self) -> (k: Option<SyntaxKind>)
        requires
            old(self).wf(),
        ensures
            final(self).lexemes() == old(self).lexemes(),
            final(self).cursor() == skip_trivia(old(self).lexemes(), old(self).cursor()),
            k == next_kind(old(self).lexemes(), old(self).cursor()),
    {
        self.eat_trivia();
        self.peek_kind_raw()
    }

    /// The next token that is not trivia; steps over the trivia before it.
    pub fn peek_token(&mut self) -> (t: Option<&'l Lexeme>)
        requires
            old(self).wf(),
        ensures
            final(self).lexemes() == old(self).lexemes(),
            final(self).cursor() == skip_trivia(old(self).lexemes(), old(self).cursor()),
            final(self).cursor() < final(self).lexemes().len() ==> t is Some && t->0.view_lex()
                == final(self).lexemes()[final(self).cursor()],
            final(self).cursor() >= final(self).lexemes().len() ==> t is None,
    {
        self.eat_trivia();
        if self.cursor < self.lexemes.len() {
            Some(&self.lexemes[self.cursor])
        } else {
            None
        }
    }

    /// Takes the next token that is not trivia.
    pub fn next_lexeme(&mut self) -> (t: Option<&'l Lexeme>)
        requires
            old(self).wf(),
        ensures
            final(self).lexemes() == old(self).lexemes(),
            ({
                let s = skip_trivia(old(self).lexemes(), old(self).cursor());
                if s < old(self).lexemes().len() {
                    &&& t is Some
                    &&& t->0.view_lex() == old(self).lexemes()[s]
                    &&& final(self).cursor() == s + 1
                } else {
                    &&& t is None
                    &&& final(self).cursor() == s
                }
            }),
    {
        self.eat_trivia();
        if self.cursor < self.lexemes.len() {
            let l = &self.lexemes[self.cursor];
            self.cursor += 1;
            Some(l)
        } else {
            None
        }
    }

    /// The range of the last token of the input.
    pub fn last_token_range(&self) -> (r: Option<TextRange>)
        ensures
            r == (if self.lexemes().len() > 0 {
                Some(self.lexemes().last().range)
            } else {
                None
            }),
    {
        if self.lexemes.len() > 0 {
            Some(self.lexemes[self.lexemes.len() - 1].range)
        } else {
            None
        }
    }
}

/// Whether `set` holds `k`.
fn contains_kind(set: &[SyntaxKind], k: SyntaxKind) -> (b: bool)
    ensures
        b == set@.contains(k),
{
    let mut i: usize = 0;
    while i < set.len()
        invariant
            i <= set@.len(),
            forall|j: int| 0 <= j < i ==> set@[j] != k,
        decreases set@.len() - i,
    {
        if set[i] == k {
            assert(set@[i as int] == k);
            return true;
        }
        i += 1;
    }
    false
}

/// The kinds at which `error` stops instead of taking the token it found.
pub open spec fn recovery_set() -> Seq<SyntaxKind> {
    seq![SyntaxKind::LetKw]
}

/// Turns tokens into events: opening and closing nodes, taking tokens, reporting
/// errors.
pub struct Parser<'l> {
    source: Source<'l>,
    events: Vec<Event>,
    expected_kinds: Vec<SyntaxKind>,
    failed: bool,
}

impl<'l> Parser<'l> {
    /// The tokens the parser reads.
    pub closed spec fn lexemes(&self) -> Seq<LexV> {
        self.source.lexemes()
    }

    /// The parser's position among them.
    pub closed spec fn cursor(&self) -> int {
        self.source.cursor()
    }

    /// The events so far.
    pub closed spec fn events(&self) -> Seq<EventV> {
        events_view(self.events@)
    }

    /// The kinds asked for since the last token was taken.
    pub closed spec fn expected(&self) -> Seq<SyntaxKind> {
        self.expected_kinds@
    }

    /// Whether parsing met a `(` without its `)`, where it cannot go on.
    pub closed spec fn failed(&self) -> bool {
        self.failed
    }

    /// The position is within the tokens.
    pub open spec fn wf(&self) -> bool {
        &&& 0 <= self.cursor() <= self.lexemes().len()
        &&& self.lexemes().len() <= usize::MAX
    }

    /// A parser at the first of `lexemes`, with no events yet.
    pub fn new(lexemes: &'l [Lexeme]) -> (p: Self)
        ensures
            p.wf(),
            p.lexemes() == lexemes_v(lexemes@),
            p.cursor() == 0,
            p.events() == Seq::<EventV>::empty(),
            p.expected() == Seq::<SyntaxKind>::empty(),
            !p.failed(),
    {
        let p = Self { source: Source::new(lexemes), events: Vec::new(), expected_kinds: Vec::new(), failed: false };
        assert(p.events() =~= Seq::<EventV>::empty());
        p
    }

    /// Whether parsing met a `(` without its `)`.
    pub fn has_failed(&self) -> (b: bool)
        ensures
            b == self.failed(),
    {
        self.failed
    }

    /// Records that parsing cannot go on.
    pub(crate) fn fail(&mut self)
        ensures
            final(self).failed(),
            final(self).wf() == old(self).wf(),
            final(self).lexemes() == old(self).lexemes(),
            final(self).cursor() == old(self).cursor(),
            final(self).events() == old(self).events(),
            final(self).expected() == old(self).expected(),
    {
        self.failed = true;
    }

    /// Gives up the parser for its events.
    pub fn into_events(self) -> (evs: Vec<Event>)
        ensures
            events_view(evs@) == self.events(),
    {
        self.events
    }

    fn push_event(&mut self, e: Event)
        ensures
            final(self).events() == old(self).events().push(e.view_event()),
            final(self).lexemes() == old(self).lexemes(),
            final(self).cursor() == old(self).cursor(),
            final(self).expected() == old(self).expected(),
            final(self).failed() == old(self).failed(),
            final(self).wf() == old(self).wf(),
    {
        self.events.push(e);
        assert(events_view(self.events@) =~= events_view(old(self).events@).push(e.view_event()));
    }

    /// Opens a node of kind `kind` here.
    pub fn start_node(&mut self, kind: SyntaxKind)
        ensures
            final(self).events() == old(self).events().push(EventV::Start(kind)),
            final(self).lexemes() == old(self).lexemes(),
            final(self).cursor() == old(self).cursor(),
            final(self).expected() == old(self).expected(),
            final(self).failed() == old(self).failed(),
            final(self).wf() == old(self).wf(),
    {
        self.push_event(Event::StartNode { kind });
    }

    /// Closes the node opened last.
    pub fn finish_node(&mut self)
        ensures
            final(self).events() == old(self).events().push(EventV::Finish),
            final(self).lexemes() == old(self).lexemes(),
            final(self).cursor() == old(self).cursor(),
            final(self).expected() == old(self).expected(),
            final(self).failed() == old(self).failed(),
            final(self).wf() == old(self).wf(),
    {
        self.push_event(Event::FinishNode);
    }

    /// Opens a node of kind `kind` at the event position `checkpoint`, around
    /// the events from there to here.
    pub fn start_node_at(&mut self, checkpoint: usize, kind: SyntaxKind)
        ensures
            final(self).events() == old(self).events().push(EventV::StartAt(kind, checkpoint as int)),
            final(self).lexemes() == old(self).lexemes(),
            final(self).cursor() == old(self).cursor(),
            final(self).expected() == old(self).expected(),
            final(self).failed() == old(self).failed(),
            final(self).wf() == old(self).wf(),
    {
        self.push_event(Event::StartNodeAt { kind, checkpoint });
    }

    /// The event position here.
    pub fn checkpoint(&self) -> (c: usize)
        ensures
            c == self.events().len(),
    {
        self.events.len()
    }

    /// The kind of the next token that is not trivia; steps over the trivia before it.
    pub fn peek(&mut self) -> (k: Option<SyntaxKind>)
        requires
            old(self).wf(),
        ensures
            k == next_kind(old(self).lexemes(), old(self).cursor()),
            final(self).cursor() == skip_trivia(old(self).lexemes(), old(self).cursor()),
            final(self).events() == old(self).events(),
            final(self).lexemes() == old(self).lexemes(),
            final(self).expected() == old(self).expected(),
            final(self).failed() == old(self).failed(),
            final(self).wf(),
    {
        proof {
            lemma_skip_trivia(self.lexemes(), self.cursor());
        }
        self.source.peek_kind()
    }

    /// Whether the next token that is not trivia is of kind `kind`; records `kind`
    /// among the kinds asked for.
    pub fn at(&mut self, kind: SyntaxKind) -> (b: bool)
        requires
            old(self).wf(),
        ensures
            b == (next_kind(old(self).lexemes(), old(self).cursor()) == Some(kind)),
            final(self).expected() == old(self).expected().push(kind),
            final(self).cursor() == skip_trivia(old(self).lexemes(), old(self).cursor()),
            final(self).events() == old(self).events(),
            final(self).lexemes() == old(self).lexemes(),
            final(self).failed() == old(self).failed(),
            final(self).wf(),
    {
        self.expected_kinds.push(kind);
        self.peek() == Some(kind)
    }

    /// Takes the next token that is not trivia, as an event; forgets the kinds asked for.
    pub fn bump(&mut self)
        requires
            old(self).wf(),
            skip_trivia(old(self).lexemes(), old(self).cursor()) < old(self).lexemes().len(),
        ensures
            ({
                let s = skip_trivia(old(self).lexemes(), old(self).cursor());
                let l = old(self).lexemes()[s];
                &&& final(self).events() == old(self).events().push(EventV::Token(l.kind, l.text))
                &&& final(self).cursor() == s + 1
            }),
            final(self).expected() == Seq::<SyntaxKind>::empty(),
            final(self).lexemes() == old(self).lexemes(),
            final(self).failed() == old(self).failed(),
            final(self).wf(),
    {
        proof {
            lemma_skip_trivia(self.lexemes(), self.cursor());
        }
        self.expected_kinds.clear();
        let l = self.source.next_lexeme().unwrap();
        let text = crate::event::copy_chars_of(&l.text);
        self.push_event(Event::AddToken { kind: l.kind, text });
    }

    /// Whether the next token that is not trivia has one of the kinds in `set`.
    pub fn at_set(&mut self, set: &[SyntaxKind]) -> (b: bool)
        requires
            old(self).wf(),
        ensures
            b == (next_kind(old(self).lexemes(), old(self).cursor()) matches Some(k) && set@.contains(k)),
            final(self).cursor() == skip_trivia(old(self).lexemes(), old(self).cursor()),
            final(self).events() == old(self).events(),
            final(self).lexemes() == old(self).lexemes(),
            final(self).expected() == old(self).expected(),
            final(self).failed() == old(self).failed(),
            final(self).wf(),
    {
        match self.peek() {
            Some(k) => contains_kind(set, k),
            None => false,
        }
    }

    /// Whether no token but trivia is left.
    pub fn at_end(&mut self) -> (b: bool)
        requires
            old(self).wf(),
        ensures
            b == (next_kind(old(self).lexemes(), old(self).cursor()) is None),
            final(self).cursor() == skip_trivia(old(self).lexemes(), old(self).cursor()),
            final(self).events() == old(self).events(),
            final(self).lexemes() == old(self).lexemes(),
            final(self).expected() == old(self).expected(),
            final(self).failed() == old(self).failed(),
            final(self).wf(),
    {
        self.peek().is_none()
    }

    /// Takes a token of kind `kind` inside an error node, or reports a parse error.
    pub fn expect(&mut self, kind: SyntaxKind)
        requires
            old(self).wf(),
            !old(self).failed(),
            old(self).lexemes().len() > 0,
        ensures
            follows(*old(self), *final(self), None, expect_spec(old(self).lexemes(), old(self).cursor(), old(self).expected(), kind)),
    {
        let ghost p0 = *self;
        let ghost lx = p0.lexemes();
        let ghost s = skip_trivia(lx, p0.cursor());
        proof {
            lemma_skip_trivia(lx, p0.cursor());
            lemma_skip_idem(lx, p0.cursor());
        }
        if self.at(kind) {
            let m = self.start();
            self.bump();
            proof {
                let base = p0.events().len() as int;
                lemma_raw_seq_single(leaf(lx, s), base + 1);
                assert(self.events() =~= p0.events() + seq![EventV::Placeholder] + raw_seq(seq![leaf(lx, s)], base + 1));
            }
            m.complete(self, SyntaxKind::Error);
            proof {
                let base = p0.events().len() as int;
                lemma_fill(p0.events(), SyntaxKind::Error, seq![leaf(lx, s)]);
                lemma_node_events(SyntaxKind::Error, seq![leaf(lx, s)], base);
                lemma_leaf_toks(lx, p0.cursor());
                lemma_node_toks(SyntaxKind::Error, seq![leaf(lx, s)]);
                lemma_raw_seq_single(leaf(lx, s), base);
                assert(self.events() =~= p0.events() + raw_seq(seq![Tree::Node(SyntaxKind::Error, seq![leaf(lx, s)])], base));
            }
        } else {
            self.error();
            proof {
                crate::parser::lemma_sig_next(lx, p0.cursor());
                match error_spec(lx, s, p0.expected().push(kind)) {
                    Parsed::Done { cursor, .. } => {
                        lemma_sig_split(lx, p0.cursor(), s, cursor);
                    },
                    Parsed::Stuck => {},
                }
            }
        }
    }

    /// Reports a parse error at the next token, and takes that token inside an
    /// error node unless it is `let` or there is none.
    pub fn error(&mut self)
        requires
            old(self).wf(),
            !old(self).failed(),
            old(self).lexemes().len() > 0,
        ensures
            follows(*old(self), *final(self), None, error_spec(old(self).lexemes(), old(self).cursor(), old(self).expected())),
    {
        let ghost p0 = *self;
        let ghost lx = p0.lexemes();
        let ghost s = skip_trivia(lx, p0.cursor());
        proof {
            lemma_skip_trivia(lx, p0.cursor());
            lemma_skip_idem(lx, p0.cursor());
            crate::parser::lemma_sig_next(lx, p0.cursor());
        }
        let current_token = self.source.peek_token();
        let (found, range) = if let Some(token) = current_token {
            (Some(token.kind), token.range)
        } else {
            // At the end of the input, the range of the very last token.
            (None, self.source.last_token_range().unwrap())
        };
        let mut expected: Vec<SyntaxKind> = Vec::new();
        std::mem::swap(&mut expected, &mut self.expected_kinds);
        let ghost e = ParseErrorV { expected: expected@, found, range };
        self.push_event(Event::Error(ParseError { expected, found, range }));
        proof {
            let diag = Tree::Diag(e);
            assert(raw_seq(seq![diag], p0.events().len() as int) =~= seq![EventV::Error(e)]) by {
                lemma_raw_seq_single(diag, p0.events().len() as int);
            }
            lemma_forest_toks_single(diag);
        }
        let recovery = [SyntaxKind::LetKw];
        proof {
            assert(recovery@ =~= recovery_set());
            assert(recovery@[0] == SyntaxKind::LetKw);
        }
        if !self.at_set(&recovery) && !self.at_end() {
            let ghost p1 = *self;
            let m = self.start();
            self.bump();
            proof {
                let b1 = p1.events().len() as int;
                lemma_raw_seq_single(leaf(lx, s), b1 + 1);
                assert(self.events() =~= p1.events() + seq![EventV::Placeholder] + raw_seq(seq![leaf(lx, s)], b1 + 1));
            }
            m.complete(self, SyntaxKind::Error);
            proof {
                let diag = Tree::Diag(e);
                let node = Tree::Node(SyntaxKind::Error, seq![leaf(lx, s)]);
                let b0 = p0.events().len() as int;
                lemma_fill(p1.events(), SyntaxKind::Error, seq![leaf(lx, s)]);
                lemma_node_events(SyntaxKind::Error, seq![leaf(lx, s)], b0 + 1);
                lemma_raw_seq_single(leaf(lx, s), b0 + 1);
                lemma_raw_seq_single(diag, b0);
                lemma_sizes(diag, b0);
                assert(seq![diag, node] =~= seq![diag] + seq![node]);
                lemma_raw_seq_append(seq![diag], seq![node], b0);
                lemma_forest_toks_append(seq![diag], seq![node]);
                lemma_forest_toks_single(diag);
                lemma_node_toks(SyntaxKind::Error, seq![leaf(lx, s)]);
                lemma_leaf_toks(lx, p0.cursor());
                assert(self.events() =~= p0.events() + raw_seq(seq![diag, node], b0));
            }
        } else {
            proof {
                let diag = Tree::Diag(e);
                let b0 = p0.events().len() as int;
                assert(self.events() =~= p0.events() + raw_seq(seq![diag], b0));
                assert(seq![diag].drop_last() =~= Seq::<Tree>::empty());
            }
        }
    }

    /// A marker for a node that will start here: a placeholder event holds the
    /// node's place until its kind is known.
    pub fn start(&mut self) -> (m: Marker)
        ensures
            m.pos() == old(self).events().len(),
            m.placed(),
            final(self).events() == old(self).events().push(EventV::Placeholder),
            final(self).lexemes() == old(self).lexemes(),
            final(self).cursor() == old(self).cursor(),
            final(self).expected() == old(self).expected(),
            final(self).failed() == old(self).failed(),
            final(self).wf() == old(self).wf(),
    {
        let pos = self.events.len();
        self.push_event(Event::Placeholder);
        Marker::new(pos)
    }

    /// Puts the opening of a node of kind `kind` in the place held at `pos`.
    fn fill_placeholder(&mut self, pos: usize, kind: SyntaxKind)
        requires
            pos < old(self).events().len(),
        ensures
            final(self).events() == old(self).events().update(pos as int, EventV::Start(kind)),
            final(self).lexemes() == old(self).lexemes(),
            final(self).cursor() == old(self).cursor(),
            final(self).expected() == old(self).expected(),
            final(self).failed() == old(self).failed(),
            final(self).wf() == old(self).wf(),
    {
        self.events.set(pos, Event::StartNode { kind });
        assert(events_view(self.events@) =~= events_view(old(self).events@).update(pos as int, EventV::Start(kind)));
    }
}

/// Where a node will start, once its kind is known: at a placeholder event that
/// holds its place, or, for a node around one already made, at that node's start.
pub struct Marker {
    pos: usize,
    placed: bool,
}

impl Marker {
    /// The event position where the node will start.
    pub closed spec fn pos(&self) -> int {
        self.pos as int
    }

    /// Whether a placeholder event holds the node's place.
    pub closed spec fn placed(&self) -> bool {
        self.placed
    }

    /// A marker for the placeholder at the event position `pos`.
    pub fn new(pos: usize) -> (m: Self)
        ensures
            m.pos() == pos,
            m.placed(),
    {
        Marker { pos, placed: true }
    }

    /// Makes a node of kind `kind` around everything from the marker to here: the
    /// placeholder becomes its opening (or, for a node around one already made, an
    /// opening at the marker's position follows), and its closing follows.
    pub fn complete(self, p: &mut Parser, kind: SyntaxKind) -> (cm: CompletedMarker)
        requires
            self.placed() ==> 0 <= self.pos() < old(p).events().len() && old(p).events()[self.pos()]
                == EventV::Placeholder,
        ensures
            self.placed() ==> final(p).events() == old(p).events().update(
                self.pos(),
                EventV::Start(kind),
            ).push(EventV::Finish),
            !self.placed() ==> final(p).events() == old(p).events().push(
                EventV::StartAt(kind, self.pos()),
            ).push(EventV::Finish),
            cm.pos() == self.pos(),
            final(p).lexemes() == old(p).lexemes(),
            final(p).cursor() == old(p).cursor(),
            final(p).expected() == old(p).expected(),
            final(p).failed() == old(p).failed(),
            final(p).wf() == old(p).wf(),
    {
        if self.placed {
            p.fill_placeholder(self.pos, kind);
        } else {
            p.start_node_at(self.pos, kind);
        }
        p.finish_node();
        CompletedMarker { pos: self.pos }
    }
}

/// Where a completed node starts.
pub struct CompletedMarker {
    pos: usize,
}

impl CompletedMarker {
    /// The event position where the node starts.
    pub closed spec fn pos(&self) -> int {
        self.pos as int
    }

    /// A completed marker at the event position `pos`.
    pub fn new(pos: usize) -> (cm: Self)
        ensures
            cm.pos() == pos,
    {
        CompletedMarker { pos }
    }

    /// A marker for a node that will start where this one does, and hold it.
    pub fn precede(self, p: &mut Parser) -> (m: Marker)
        ensures
            m.pos() == self.pos(),
            !m.placed(),
            *final(p) == *old(p),
    {
        Marker { pos: self.pos, placed: false }
    }
}

} // verus!
