# lang

A lossless parser for a small expression language, verified with Verus.

Input text is split into tokens (`lexer`), a Pratt parser turns the tokens into
events (`parser`, `grammar`), and a sink turns the events into a rowan green tree
(`sink`, `green`), which `parse` wraps together with the parse errors met on the
way. The contracts describe each stage over mathematical models: `lexer::lex_spec`
for the tokens, `grammar::expr_bp_spec` and its neighbours for the trees the
grammar builds (`tree::Tree`), and `sink::sink_steps` for the steps that build the
green tree.

Laws proved about the whole:

- `lexer::lemma_lex_lossless`: the tokens' texts, one after the other, are the input.
- `parse::lemma_parse_lossless`: the tree's text is the start of the input, takes in
  every token the parser read, and is all of it when the expression reaches the end.
- `parse::lemma_parses_exactly`: an input of at most `u32::MAX` bytes parses exactly
  when every `(` the parser opens is closed.
- `grammar::lemma_operators_group`: operators group by binding power, and to the left.
- `grammar::lemma_expr_toks`: the trees of an expression hold the tokens read for it.
- `arena::lemma_alloc_then_index`, `syntax::lemma_kind_code_roundtrip`.

`arena` is a typed arena, `ast` reads a variable definition's name and value out of
a syntax node. `app/` holds a small line-by-line front end that prints the tree.
