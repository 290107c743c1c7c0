use crate::lexer::TextRange;
use crate::syntax::SyntaxKind;
use vstd::prelude::*;

verus! {

/// What the parser found where it expected something else.
#[derive(Debug)]
pub struct ParseError {
    /// The kinds the parser asked for since it last took a token.
    pub expected: Vec<SyntaxKind>,
    /// The kind of the token it found, or `None` at the end of the input.
    pub found: Option<SyntaxKind>,
    /// Where: the range of the token found, or of the last token at the end of the input.
    pub range: TextRange,
}

/// A parse error as the contracts see it.
pub struct ParseErrorV {
    pub expected: Seq<SyntaxKind>,
    pub found: Option<SyntaxKind>,
    pub range: TextRange,
}

impl ParseError {
    /// The error as the contracts see it.
    pub open spec fn view_error(&self) -> ParseErrorV {
        ParseErrorV { expected: self.expected@, found: self.found, range: self.range }
    }
}

/// One step of the parser's output, in the order the parser takes it.
#[derive(Debug)]
pub enum Event {
    /// Opens a node here.
    StartNode { kind: SyntaxKind },
    /// Opens a node at the earlier position `checkpoint` of the event list, around
    /// everything from there to here.
    StartNodeAt { kind: SyntaxKind, checkpoint: usize },
    /// A token taken from the input.
    AddToken { kind: SyntaxKind, text: Vec<char> },
    /// Closes the node most recently opened.
    FinishNode,
    /// A parse error.
    Error(ParseError),
    /// The place a marker holds for a node whose kind is not known yet.
    Placeholder,
}

/// An event as the contracts see it.
pub enum EventV {
    Start(SyntaxKind),
    StartAt(SyntaxKind, int),
    Token(SyntaxKind, Seq<char>),
    Finish,
    Error(ParseErrorV),
    Placeholder,
}

impl Event {
    /// The event as the contracts see it.
    pub open spec fn view_event(&self) -> EventV {
        match self {
            Event::StartNode { kind } => EventV::Start(*kind),
            Event::StartNodeAt { kind, checkpoint } => EventV::StartAt(*kind, *checkpoint as int),
            Event::AddToken { kind, text } => EventV::Token(*kind, text@),
            Event::FinishNode => EventV::Finish,
            Event::Error(e) => EventV::Error(e.view_error()),
            Event::Placeholder => EventV::Placeholder,
        }
    }
}

/// Events as the contracts see them.
pub open spec fn events_view(evs: Seq<Event>) -> Seq<EventV> {
    evs.map_values(|e: Event| e.view_event())
}

/// A copy of `v`.
pub fn copy_chars_of(v: &Vec<char>) -> (out: Vec<char>)
    ensures
        out@ == v@,
{
    let mut out: Vec<char> = Vec::new();
    let mut i: usize = 0;
    while i < v.len()
        invariant
            i <= v.len(),
            out@ == v@.take(i as int),
        decreases v.len() - i,
    {
        out.push(v[i]);
        i += 1;
        assert(out@ =~= v@.take(i as int));
    }
    assert(v@.take(v.len() as int) =~= v@);
    out
}

fn copy_kinds(v: &Vec<SyntaxKind>) -> (out: Vec<SyntaxKind>)
    ensures
        out@ == v@,
{
    let mut out: Vec<SyntaxKind> = Vec::new();
    let mut i: usize = 0;
    while i < v.len()
        invariant
            i <= v.len(),
            out@ == v@.take(i as int),
        decreases v.len() - i,
    {
        out.push(v[i]);
        i += 1;
        assert(out@ =~= v@.take(i as int));
    }
    assert(v@.take(v.len() as int) =~= v@);
    out
}

impl ParseError {
    /// A copy of this error.
    pub fn copy(&self) -> (e: ParseError)
        ensures
            e.view_error() == self.view_error(),
    {
        ParseError { expected: copy_kinds(&self.expected), found: self.found, range: self.range }
    }
}

impl Event {
    /// A copy of this event.
    pub fn copy(&self) -> (e: Event)
        ensures
            e.view_event() == self.view_event(),
    {
        match self {
            Event::StartNode { kind } => Event::StartNode { kind: *kind },
            Event::StartNodeAt { kind, checkpoint } => Event::StartNodeAt {
                kind: *kind,
                checkpoint: *checkpoint,
            },
            Event::AddToken { kind, text } => Event::AddToken {
                kind: *kind,
                text: copy_chars_of(text),
            },
            Event::FinishNode => Event::FinishNode,
            Event::Error(e) => Event::Error(e.copy()),
            Event::Placeholder => Event::Placeholder,
        }
    }
}

} // verus!
