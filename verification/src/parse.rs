use crate::event::{ParseError, ParseErrorV};
use crate::grammar::{Parsed, parse_spec};
use crate::green::{TreeStep, green_steps, tree_debug_output, tree_debug_text};
use crate::message::{error_lines, error_text};
use crate::lexer::{LexV, byte_len, lemma_byte_len_utf8, lemma_encode_utf8_append, lex, lex_v, lexemes_v};
use crate::parser::{Parser, sig_toks};
use crate::sink::{Sink, errors_view, sink_errors, sink_input, sink_ok, sink_steps};
use crate::text::{lex_text, lemma_lex_text_prefix, lemma_lex_text_split, lemma_sink_text, sink_end, steps_text};
use crate::tree::{event_toks, forest_toks, pre, pre_seq, root_events, root_tree};
use vstd::prelude::*;
use vstd::string::StringExecFns;

verus! {

/// The tree order of the events the parser emits for `input`: a root node around
/// one expression; `None` where a `(` has no `)` and the parser cannot go on.
pub open spec fn tree_events(input: Seq<char>) -> Option<Seq<crate::event::EventV>> {
    match parse_spec(lex_v(input)) {
        Parsed::Stuck => None,
        Parsed::Done { forest, .. } => Some(pre(root_tree(forest))),
    }
}

/// `input` parses: the parser can go on to the end of its expression, and the
/// tree builder accepts what the sink gives it.
pub open spec fn parses(input: Seq<char>) -> bool {
    match tree_events(input) {
        None => false,
        Some(evs) => sink_ok(lex_v(input), evs),
    }
}

/// The steps that build the syntax tree of `input`.
pub open spec fn syntax_steps(input: Seq<char>) -> Seq<TreeStep> {
    sink_steps(lex_v(input), tree_events(input).unwrap(), 0)
}

/// The parse errors of `input`.
pub open spec fn syntax_errors(input: Seq<char>) -> Seq<ParseErrorV> {
    sink_errors(tree_events(input).unwrap())
}

/// The tree loses nothing of the input: the texts of its tokens, one after the
/// other, are the start of the input; they take in every token the parser read,
/// with the trivia among them; and where the expression reaches the last token of
/// the input, they are the whole input.
pub proof fn lemma_parse_lossless(input: Seq<char>)
    requires
        !(parse_spec(lex_v(input)) is Stuck),
    ensures
        steps_text(syntax_steps(input)).is_prefix_of(input),
        parse_spec(lex_v(input)) matches Parsed::Done { cursor, .. } && lex_text(
            lex_v(input),
            0,
            cursor,
        ).is_prefix_of(steps_text(syntax_steps(input))),
        parse_spec(lex_v(input)) matches Parsed::Done { cursor, .. } && (cursor == lex_v(input).len()
            ==> steps_text(syntax_steps(input)) == input),
{
    let lx = lex_v(input);
    let ts = crate::lexer::lex_spec(input);
    crate::grammar::lemma_expr_toks(lx, 0, seq![], 0);
    if let Parsed::Done { forest, cursor, .. } = parse_spec(lx) {
        let evs = pre(root_tree(forest));
        let head = seq![crate::event::EventV::Start(crate::syntax::SyntaxKind::Root)];
        let fin = seq![crate::event::EventV::Finish];
        crate::tree::lemma_forest_toks(forest, 1);
        crate::tree::lemma_event_toks_append(head, pre_seq(forest));
        crate::tree::lemma_event_toks_append(head + pre_seq(forest), fin);
        crate::tree::lemma_event_toks_single(head[0]);
        crate::tree::lemma_event_toks_single(fin[0]);
        assert(evs =~= head + pre_seq(forest) + fin);
        assert(event_toks(evs) == sig_toks(lx, 0, cursor));
        assert(evs[0] == head[0]);
        lemma_sink_text(lx, evs, 0, cursor);
        let end = sink_end(lx, evs, 0);
        let text = steps_text(syntax_steps(input));
        assert(text == lex_text(lx, 0, end));
        lemma_lex_text_prefix(input, end);
        lemma_lex_text_prefix(input, lx.len() as int);
        crate::lexer::lemma_lex_lossless(input);
        assert(ts.take(lx.len() as int) =~= ts);
        lemma_lex_text_split(lx, 0, end, lx.len() as int);
        assert(text =~= input.subrange(0, text.len() as int));
        lemma_lex_text_split(lx, 0, cursor, end);
        assert(lex_text(lx, 0, cursor) =~= text.subrange(0, lex_text(lx, 0, cursor).len() as int));
    }
}

/// An input parses exactly when the parser can close every `(` it opens in it,
/// as long as the input is short enough for the tree builder to measure
/// (`u32::MAX` bytes): the builder accepts every tree the parser makes of it.
pub proof fn lemma_parses_exactly(input: Seq<char>)
    ensures
        parses(input) ==> !(parse_spec(lex_v(input)) is Stuck),
        byte_len(input) <= u32::MAX ==> (parses(input) <==> !(parse_spec(lex_v(input)) is Stuck)),
{
    let lx = lex_v(input);
    if let Parsed::Done { forest, .. } = parse_spec(lx) {
        crate::accept::lemma_root_accepted(lx, forest);
        lemma_parse_lossless(input);
        let text = steps_text(syntax_steps(input));
        assert(text =~= input.take(text.len() as int));
        crate::lexer::lemma_byte_len_take_mono(input, text.len() as int, input.len() as int);
        assert(input.take(input.len() as int) =~= input);
    }
}

/// A lossless syntax tree, with the parse errors met on the way.
pub struct Parse {
    green_node: rowan::GreenNode,
    errors: Vec<ParseError>,
}

impl Parse {
    /// The steps that build the tree.
    pub closed spec fn steps(&self) -> Seq<TreeStep> {
        green_steps(self.green_node)
    }

    /// The parse errors.
    pub closed spec fn error_views(&self) -> Seq<ParseErrorV> {
        errors_view(self.errors@)
    }

    /// The green tree.
    pub fn green_node(&self) -> (g: &rowan::GreenNode)
        ensures
            green_steps(*g) == self.steps(),
    {
        &self.green_node
    }

    /// The parse errors.
    pub fn errors(&self) -> (e: &Vec<ParseError>)
        ensures
            errors_view(e@) == self.error_views(),
    {
        &self.errors
    }

    /// The tree as rowan's alternate `Debug` output shows it, one line per node and
    /// token, without the newline that ends the last line; then each parse error's
    /// message on a line of its own, in order.
    pub fn debug_tree(&self) -> (s: String)
        ensures
            s@ == tree_debug_text(self.steps()).drop_last() + error_lines(self.error_views(), 0),
    {
        let formatted = tree_debug_output(&self.green_node);
        let ghost text = formatted@;
        let ghost head = text.drop_last();
        let n = formatted.as_str().as_bytes().len();
        proof {
            let bytes = vstd::utf8::encode_utf8(text);
            assert(head + seq!['\n'] =~= text);
            lemma_encode_utf8_append(head, seq!['\n']);
            let nl = vstd::utf8::encode_utf8(seq!['\n']);
            assert(seq!['\n'].drop_first() =~= Seq::<char>::empty());
            assert(nl =~= seq![0x0Au8]) by {
                let u = '\n' as u32;
                assert(u == 10u32);
                assert((10u32 & 0x7F) as u8 == 0x0Au8) by (bit_vector);
                assert(vstd::utf8::encode_utf8(Seq::<char>::empty()) =~= Seq::<u8>::empty());
                assert(seq!['\n'][0] == '\n');
                assert(vstd::utf8::encode_scalar(u) =~= seq![0x0Au8]);
            }
            assert(bytes.len() == n);
            vstd::utf8::encode_utf8_valid_utf8(text);
            assert(bytes[n - 1] == 0x0Au8);
            vstd::utf8::is_char_boundary_iff_is_leading_byte(bytes, n - 1);
            assert(bytes.subrange(0, n - 1) =~= vstd::utf8::encode_utf8(head));
        }
        let (first, _) = formatted.as_str().split_at(n - 1);
        proof {
            vstd::utf8::encode_utf8_decode_utf8(first@);
            vstd::utf8::encode_utf8_decode_utf8(head);
        }
        let mut s = first.to_owned();
        let ghost es = self.error_views();
        let n = self.errors.len();
        let mut i: usize = 0;
        assert(s@ + error_lines(es, 0) == head + error_lines(es, 0));
        while i < n
            invariant
                n == self.errors@.len(),
                es == self.error_views(),
                es == errors_view(self.errors@),
                i <= n,
                s@ + error_lines(es, i as int) == head + error_lines(es, 0),
            decreases n - i,
        {
            let ghost s0 = s@;
            s.append("\n");
            let m = self.errors[i].message();
            s.append(m.as_str());
            proof {
                assert(es[i as int] == self.errors@[i as int].view_error());
                assert(error_lines(es, i as int) == "\n"@ + error_text(es[i as int]) + error_lines(es, i + 1));
                assert(s@ + error_lines(es, i + 1) =~= s0 + error_lines(es, i as int));
            }
            i += 1;
        }
        assert(error_lines(es, n as int) =~= Seq::<char>::empty());
        s
    }
}

/// Parses `input` into a syntax tree: tokens (see [`crate::lexer::lex_spec`]), one
/// expression (see [`crate::grammar::expr_bp_spec`]) in a root node, the nodes
/// opened at checkpoints put in place, the trivia between the tokens kept as it is.
pub fn parse(input: &str) -> (p: Parse)
    requires
        parses(input@),
    ensures
        p.steps() == syntax_steps(input@),
        p.error_views() == syntax_errors(input@),
{
    try_parse(input).unwrap()
}

/// [`parse`], or `None` on the inputs where it cannot go on: a `(` without its `)`,
/// or a text longer than the tree builder can measure (`u32::MAX` bytes).
pub fn try_parse(input: &str) -> (res: Option<Parse>)
    ensures
        res is Some <==> parses(input@),
        byte_len(input@) <= u32::MAX ==> (res is Some <==> !(parse_spec(lex_v(input@)) is Stuck)),
        res matches Some(p) ==> p.steps() == syntax_steps(input@) && p.error_views()
            == syntax_errors(input@),
{
    proof {
        lemma_parses_exactly(input@);
    }
    let nbytes = input.as_bytes().len();
    proof {
        lemma_byte_len_utf8(input@);
    }
    let lexemes = lex(input);
    let ghost lx = lex_v(input@);
    let slice = lexemes.as_slice();
    assert(lexemes_v(slice@) == lx);
    let parser = Parser::new(slice);
    let events = match parser.parse_checked() {
        Some(events) => events,
        None => return None,
    };
    let sink = Sink::new(slice, events);
    proof {
        match parse_spec(lx) {
            Parsed::Done { forest, cursor, .. } => {
                crate::tree::lemma_reorder_root(forest);
                let evs = root_events(forest);
                let head = seq![crate::event::EventV::Start(crate::syntax::SyntaxKind::Root)];
                let fin = seq![crate::event::EventV::Finish];
                crate::tree::lemma_forest_toks(forest, 1);
                crate::tree::lemma_event_toks_append(head, crate::tree::raw_seq(forest, 1));
                crate::tree::lemma_event_toks_append(head + crate::tree::raw_seq(forest, 1), fin);
                crate::tree::lemma_event_toks_single(head[0]);
                crate::tree::lemma_event_toks_single(fin[0]);
                assert(event_toks(evs) == sig_toks(lx, 0, cursor));
                assert(evs[0] == head[0]);
                assert(sink_input(lx, evs));
            },
            Parsed::Stuck => {},
        }
    }
    match sink.finish() {
        Some((green_node, errors)) => Some(Parse { green_node, errors }),
        None => None,
    }
}

} // verus!
