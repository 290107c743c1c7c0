use crate::lexer::byte_len;
use crate::syntax::{SyntaxKind, kind_code, kind_of_code};
use rowan::SyntaxKind as RawKind;
use vstd::prelude::*;

verus! {

/// A step in building a green tree: open a node, add a token, close the node.
/// Kinds are the numbers the tree stores.
pub enum TreeStep {
    Start(u16),
    Token(u16, Seq<char>),
    Finish,
}

/// The number of nodes that `steps` leaves open.
pub open spec fn open_count(steps: Seq<TreeStep>) -> int
    decreases steps.len(),
{
    if steps.len() == 0 {
        0
    } else {
        open_count(steps.drop_last()) + match steps.last() {
            TreeStep::Start(_) => 1int,
            TreeStep::Finish => -1int,
            TreeStep::Token(_, _) => 0int,
        }
    }
}

/// The number of bytes of all the tokens in `steps`.
pub open spec fn text_bytes(steps: Seq<TreeStep>) -> nat
    decreases steps.len(),
{
    if steps.len() == 0 {
        0
    } else {
        text_bytes(steps.drop_last()) + match steps.last() {
            TreeStep::Token(_, t) => byte_len(t),
            _ => 0,
        }
    }
}

/// Where building with `steps` stands: how many nodes are open, whether a node
/// was opened at all, and whether nothing so far stood outside the first node.
pub struct BuildState {
    pub depth: int,
    pub started: bool,
    pub ok: bool,
}

/// Where building stands after one more step `st` from `s`.
pub open spec fn next_state(s: BuildState, st: TreeStep) -> BuildState {
    match st {
        TreeStep::Start(_) => BuildState {
            depth: s.depth + 1,
            started: true,
            ok: s.ok && !(s.started && s.depth == 0),
        },
        TreeStep::Token(_, _) => BuildState { ok: s.ok && s.depth > 0, ..s },
        TreeStep::Finish => BuildState { depth: s.depth - 1, ok: s.ok && s.depth > 0, ..s },
    }
}

/// Where building with `steps` stands, from nothing (see [`next_state`]).
pub open spec fn build_state(steps: Seq<TreeStep>) -> BuildState
    decreases steps.len(),
{
    if steps.len() == 0 {
        BuildState { depth: 0, started: false, ok: true }
    } else {
        next_state(build_state(steps.drop_last()), steps.last())
    }
}

/// `steps` build exactly one node, holding everything else.
pub open spec fn forms_one_node(steps: Seq<TreeStep>) -> bool {
    let s = build_state(steps);
    s.ok && s.started && s.depth == 0
}

/// rowan's green tree.
#[verifier::external_type_specification]
#[verifier::external_body]
pub struct ExGreenNode(rowan::GreenNode);

/// rowan's green tree builder.
#[verifier::external_type_specification]
#[verifier::external_body]
pub struct ExGreenNodeBuilder<'a>(rowan::GreenNodeBuilder<'a>);

/// The number under which rowan stores a kind.
#[verifier::external_type_specification]
#[verifier::external_body]
pub struct ExRawKind(RawKind);

/// The steps a `rowan::GreenNodeBuilder` has been given since it was made.
pub uninterp spec fn builder_steps(b: rowan::GreenNodeBuilder<'static>) -> Seq<TreeStep>;

/// The steps that build the tree `g`, in tree order.
pub uninterp spec fn green_steps(g: rowan::GreenNode) -> Seq<TreeStep>;

/// What rowan's alternate `Debug` output of a syntax tree built by `steps` reads,
/// kinds named by [`LangLanguage`].
pub uninterp spec fn tree_debug_text(steps: Seq<TreeStep>) -> Seq<char>;

/// `rowan::GreenNodeBuilder::new`: a builder that has been given nothing.
#[verifier::external_body]
pub(crate) fn builder_new() -> (b: rowan::GreenNodeBuilder<'static>)
    ensures
        builder_steps(b) == Seq::<TreeStep>::empty(),
{
    rowan::GreenNodeBuilder::new()
}

/// `rowan::GreenNodeBuilder::start_node`: opens a node of kind `kind`.
#[verifier::external_body]
pub(crate) fn builder_start_node(b: &mut rowan::GreenNodeBuilder<'static>, kind: u16)
    ensures
        builder_steps(*final(b)) == builder_steps(*old(b)).push(TreeStep::Start(kind)),
{
    b.start_node(RawKind(kind))
}

/// `rowan::GreenNodeBuilder::token`: adds a token of kind `kind` and text `text` to
/// the open node. rowan measures a token in a `u32` and unwraps the conversion.
#[verifier::external_body]
pub(crate) fn builder_token(b: &mut rowan::GreenNodeBuilder<'static>, kind: u16, text: &Vec<char>)
    requires
        byte_len(text@) <= u32::MAX,
    ensures
        builder_steps(*final(b)) == builder_steps(*old(b)).push(TreeStep::Token(kind, text@)),
{
    b.token(RawKind(kind), text.iter().copied().collect::<rowan::SmolStr>())
}

/// `rowan::GreenNodeBuilder::finish_node`: closes the node opened last. rowan unwraps
/// the stack of open nodes, and sums the lengths of the children in a `u32`.
#[verifier::external_body]
pub(crate) fn builder_finish_node(b: &mut rowan::GreenNodeBuilder<'static>)
    requires
        open_count(builder_steps(*old(b))) > 0,
        text_bytes(builder_steps(*old(b))) <= u32::MAX,
    ensures
        builder_steps(*final(b)) == builder_steps(*old(b)).push(TreeStep::Finish),
{
    b.finish_node()
}

/// `rowan::GreenNodeBuilder::finish`: the tree built, which rowan asserts to be a
/// single node.
#[verifier::external_body]
pub(crate) fn builder_finish(b: rowan::GreenNodeBuilder<'static>) -> (g: rowan::GreenNode)
    requires
        forms_one_node(builder_steps(b)),
    ensures
        green_steps(g) == builder_steps(b),
{
    b.finish()
}

/// The language whose kinds a green tree's numbers stand for.
#[derive(Debug, Clone, Copy, PartialEq, Eq, PartialOrd, Ord, Hash)]
pub struct LangLanguage;

/// The number that a rowan kind holds.
pub uninterp spec fn raw_number(raw: RawKind) -> u16;

/// Reads the number that `rowan::SyntaxKind` holds (its public field).
#[verifier::external_body]
fn raw_kind_code(raw: RawKind) -> (code: u16)
    ensures
        code == raw_number(raw),
{
    raw.0
}

/// Makes a `rowan::SyntaxKind` holding `code` (its tuple constructor); reading the
/// number back gives `code`.
#[verifier::external_body]
fn raw_kind(code: u16) -> (raw: RawKind)
    ensures
        raw_number(raw) == code,
{
    RawKind(code)
}

impl rowan::Language for LangLanguage {
    type Kind = SyntaxKind;

    fn kind_from_raw(raw: RawKind) -> (kind: SyntaxKind)
        ensures
            kind == kind_of_code(raw_number(raw)),
    {
        SyntaxKind::from_raw(raw_kind_code(raw))
    }

    fn kind_to_raw(kind: SyntaxKind) -> (raw: RawKind)
        ensures
            raw_number(raw) == kind_code(kind),
    {
        raw_kind(kind.to_raw())
    }
}

/// The alternate `Debug` output of `rowan::SyntaxNode::<LangLanguage>::new_root(g)`:
/// one line per node and token, each ended by a newline.
#[verifier::external_body]
pub(crate) fn tree_debug_output(g: &rowan::GreenNode) -> (s: String)
    ensures
        s@ == tree_debug_text(green_steps(*g)),
        s@.len() > 0,
        s@.last() == '\n',
{
    format!("{:#?}", rowan::SyntaxNode::<LangLanguage>::new_root(g.clone()))
}

} // verus!
