use crate::syntax::SyntaxKind;
use vstd::prelude::*;

verus! {

/// A span of the input, in bytes.
#[derive(Debug, Clone, Copy, PartialEq, Eq, Structural)]
pub struct TextRange {
    pub start: usize,
    pub end: usize,
}

/// One token of the input: its kind, its text and where it stands.
#[derive(Debug)]
pub struct Lexeme {
    pub kind: SyntaxKind,
    pub text: Vec<char>,
    pub range: TextRange,
}

/// A token as the contracts see it: its kind and its text.
pub type Tok = (SyntaxKind, Seq<char>);

/// A token with its range, as the contracts see it.
pub struct LexV {
    pub kind: SyntaxKind,
    pub text: Seq<char>,
    pub range: TextRange,
}

impl Lexeme {
    /// The token as the contracts see it.
    pub open spec fn view_lex(&self) -> LexV {
        LexV { kind: self.kind, text: self.text@, range: self.range }
    }
}

/// Tokens as the contracts see them.
pub open spec fn lexemes_v(ls: Seq<Lexeme>) -> Seq<LexV> {
    ls.map_values(|l: Lexeme| l.view_lex())
}

/// The tokens of `s` with their byte ranges (see [`lex_spec`]).
pub open spec fn lex_v(s: Seq<char>) -> Seq<LexV> {
    let ts = lex_spec(s);
    Seq::new(
        ts.len(),
        |i: int|
            LexV {
                kind: ts[i].0,
                text: ts[i].1,
                range: TextRange {
                    start: byte_len(concat_texts(ts.take(i))) as usize,
                    end: (byte_len(concat_texts(ts.take(i))) + byte_len(ts[i].1)) as usize,
                },
            },
    )
}

/// Whitespace: a space or a newline.
pub open spec fn is_space(c: char) -> bool {
    c == ' ' || c == '\n'
}

/// An ASCII digit.
pub open spec fn is_digit(c: char) -> bool {
    '0' <= c && c <= '9'
}

/// An ASCII letter.
pub open spec fn is_alpha(c: char) -> bool {
    ('a' <= c && c <= 'z') || ('A' <= c && c <= 'Z')
}

/// An ASCII letter or digit.
pub open spec fn is_alnum(c: char) -> bool {
    is_alpha(c) || is_digit(c)
}

/// The chars that make up a run of whitespace, of digits, or (after the first) of an identifier.
pub enum Run {
    Space,
    Digit,
    Alnum,
}

/// `c` belongs in a run `r`.
pub open spec fn in_run(r: Run, c: char) -> bool {
    match r {
        Run::Space => is_space(c),
        Run::Digit => is_digit(c),
        Run::Alnum => is_alnum(c),
    }
}

/// The length of the longest prefix of `s` made of chars of run `r`.
pub open spec fn span(s: Seq<char>, r: Run) -> nat
    decreases s.len(),
{
    if s.len() > 0 && in_run(r, s[0]) {
        1 + span(s.drop_first(), r)
    } else {
        0
    }
}

/// The length of the token that `s` starts with (longest match).
pub open spec fn first_len(s: Seq<char>) -> nat {
    let c = s[0];
    if is_space(c) {
        span(s, Run::Space)
    } else if is_digit(c) {
        span(s, Run::Digit)
    } else if is_alpha(c) {
        span(s, Run::Alnum)
    } else {
        1
    }
}

/// The kind of an identifier-shaped word: a keyword or an identifier.
pub open spec fn word_kind(w: Seq<char>) -> SyntaxKind {
    if w == seq!['f', 'n'] {
        SyntaxKind::FnKw
    } else if w == seq!['l', 'e', 't'] {
        SyntaxKind::LetKw
    } else {
        SyntaxKind::Ident
    }
}

/// The kind of a token made of the single char `c` that starts no run.
pub open spec fn punct_kind(c: char) -> SyntaxKind {
    if c == '+' {
        SyntaxKind::Plus
    } else if c == '-' {
        SyntaxKind::Minus
    } else if c == '*' {
        SyntaxKind::Star
    } else if c == '/' {
        SyntaxKind::Slash
    } else if c == '=' {
        SyntaxKind::Equals
    } else if c == '(' {
        SyntaxKind::LParen
    } else if c == ')' {
        SyntaxKind::RParen
    } else if c == '{' {
        SyntaxKind::LBrace
    } else if c == '}' {
        SyntaxKind::RBrace
    } else {
        SyntaxKind::Error
    }
}

/// The kind of the token `w` that a non-empty input starts with.
pub open spec fn token_kind(w: Seq<char>) -> SyntaxKind {
    let c = w[0];
    if is_space(c) {
        SyntaxKind::Whitespace
    } else if is_digit(c) {
        SyntaxKind::Number
    } else if is_alpha(c) {
        word_kind(w)
    } else {
        punct_kind(c)
    }
}

/// The tokens of `s`, longest match first: runs of `' '` and `'\n'` are whitespace,
/// runs of ASCII digits are numbers, an ASCII letter followed by ASCII letters and
/// digits is `fn`, `let` or an identifier, `+ - * / = ( ) { }` stand alone, and any
/// other char is an error token of its own.
pub open spec fn lex_spec(s: Seq<char>) -> Seq<Tok>
    decreases s.len(),
{
    if s.len() == 0 {
        seq![]
    } else {
        let n = first_len(s);
        if 0 < n <= s.len() {
            seq![(token_kind(s.take(n as int)), s.take(n as int))] + lex_spec(s.skip(n as int))
        } else {
            seq![]
        }
    }
}

/// The texts of `ts`, one after the other.
pub open spec fn concat_texts(ts: Seq<Tok>) -> Seq<char>
    decreases ts.len(),
{
    if ts.len() == 0 {
        seq![]
    } else {
        ts[0].1 + concat_texts(ts.drop_first())
    }
}

/// The number of bytes that `c` takes in UTF-8.
pub open spec fn char_width(c: char) -> nat {
    if (c as u32) < 0x80 {
        1
    } else if (c as u32) < 0x800 {
        2
    } else if (c as u32) < 0x10000 {
        3
    } else {
        4
    }
}

/// The number of bytes that `s` takes in UTF-8.
pub open spec fn byte_len(s: Seq<char>) -> nat
    decreases s.len(),
{
    if s.len() == 0 {
        0
    } else {
        byte_len(s.drop_last()) + char_width(s.last())
    }
}

/// A token's kind and text.
pub open spec fn lexeme_view(l: Lexeme) -> Tok {
    (l.kind, l.text@)
}

/// The kinds and texts of tokens.
pub open spec fn lexemes_view(ls: Seq<Lexeme>) -> Seq<Tok> {
    ls.map_values(|l: Lexeme| lexeme_view(l))
}

/// The text of the tokens before the `i`th.
pub open spec fn text_before(ls: Seq<Lexeme>, i: int) -> Seq<char> {
    concat_texts(lexemes_view(ls).take(i))
}

/// Each token's range is where its text stands, in bytes: it starts where the text
/// of the tokens before it ends, and is as long as its own text.
pub open spec fn ranges_follow_texts(ls: Seq<Lexeme>) -> bool {
    forall|i: int|
        0 <= i < ls.len() ==> {
            &&& #[trigger] ls[i].range.start == byte_len(text_before(ls, i))
            &&& ls[i].range.end == ls[i].range.start + byte_len(ls[i].text@)
        }
}

// ---------------------------------------------------------------- lemmas

proof fn lemma_span_bounds(s: Seq<char>, r: Run)
    ensures
        span(s, r) <= s.len(),
        forall|k: int| 0 <= k < span(s, r) ==> in_run(r, #[trigger] s[k]),
        span(s, r) < s.len() ==> !in_run(r, s[span(s, r) as int]),
    decreases s.len(),
{
    if s.len() > 0 && in_run(r, s[0]) {
        lemma_span_bounds(s.drop_first(), r);
        assert forall|k: int| 0 <= k < span(s, r) implies in_run(r, #[trigger] s[k]) by {
            if k > 0 {
                assert(s[k] == s.drop_first()[k - 1]);
            }
        }
    }
}

proof fn lemma_span_is(s: Seq<char>, r: Run, n: int)
    requires
        0 <= n <= s.len(),
        forall|k: int| 0 <= k < n ==> in_run(r, #[trigger] s[k]),
        n == s.len() || !in_run(r, s[n]),
    ensures
        span(s, r) == n,
    decreases n,
{
    if n > 0 {
        let t = s.drop_first();
        assert forall|k: int| 0 <= k < n - 1 implies in_run(r, #[trigger] t[k]) by {
            assert(t[k] == s[k + 1]);
        }
        if n - 1 < t.len() {
            assert(t[n - 1] == s[n]);
        }
        lemma_span_is(t, r, n - 1);
    }
}

/// The token that a non-empty input starts with is not empty.
proof fn lemma_first_len_positive(s: Seq<char>)
    requires
        s.len() > 0,
    ensures
        0 < first_len(s) <= s.len(),
{
    lemma_span_bounds(s, Run::Space);
    lemma_span_bounds(s, Run::Digit);
    lemma_span_bounds(s, Run::Alnum);
}

proof fn lemma_lex_step(s: Seq<char>, i: int, j: int)
    requires
        0 <= i < j <= s.len(),
        first_len(s.skip(i)) == j - i,
    ensures
        lex_spec(s.skip(i)) == seq![(token_kind(s.subrange(i, j)), s.subrange(i, j))] + lex_spec(
            s.skip(j),
        ),
{
    let t = s.skip(i);
    assert(t.take(j - i) =~= s.subrange(i, j));
    assert(t.skip(j - i) =~= s.skip(j));
}

/// Lexing loses nothing: the texts of the tokens, one after the other, are the input.
pub proof fn lemma_lex_lossless(s: Seq<char>)
    ensures
        concat_texts(lex_spec(s)) == s,
    decreases s.len(),
{
    if s.len() > 0 {
        lemma_first_len_positive(s);
        let n = first_len(s) as int;
        lemma_lex_lossless(s.skip(n));
        let ts = lex_spec(s);
        assert(ts.drop_first() =~= lex_spec(s.skip(n)));
        assert(s.take(n) + s.skip(n) =~= s);
    }
}

/// No token is empty.
pub proof fn lemma_lex_nonempty(s: Seq<char>)
    ensures
        forall|i: int| 0 <= i < lex_spec(s).len() ==> (#[trigger] lex_spec(s)[i]).1.len() > 0,
    decreases s.len(),
{
    if s.len() > 0 {
        lemma_first_len_positive(s);
        let n = first_len(s) as int;
        lemma_lex_nonempty(s.skip(n));
        let rest = lex_spec(s.skip(n));
        assert forall|i: int| 0 <= i < lex_spec(s).len() implies (#[trigger] lex_spec(s)[i]).1.len()
            > 0 by {
            if i > 0 {
                assert(lex_spec(s)[i] == rest[i - 1]);
            }
        }
    }
}

pub(crate) proof fn lemma_concat_texts_push(ts: Seq<Tok>, t: Tok)
    ensures
        concat_texts(ts.push(t)) == concat_texts(ts) + t.1,
    decreases ts.len(),
{
    if ts.len() == 0 {
        assert(ts.push(t).drop_first() =~= ts);
        assert(concat_texts(ts.push(t).drop_first()) == Seq::<char>::empty());
        assert(t.1 + Seq::<char>::empty() =~= t.1);
    } else {
        lemma_concat_texts_push(ts.drop_first(), t);
        assert(ts.push(t).drop_first() =~= ts.drop_first().push(t));
        assert(ts[0].1 + (concat_texts(ts.drop_first()) + t.1) =~= (ts[0].1 + concat_texts(
            ts.drop_first(),
        )) + t.1);
    }
}

/// The bytes of two strings, one after the other.
pub(crate) proof fn lemma_byte_len_append(a: Seq<char>, b: Seq<char>)
    ensures
        byte_len(a + b) == byte_len(a) + byte_len(b),
    decreases b.len(),
{
    if b.len() == 0 {
        assert(a + b =~= a);
    } else {
        lemma_byte_len_append(a, b.drop_last());
        assert((a + b).drop_last() =~= a + b.drop_last());
    }
}

/// A longer start of a string takes at least as many bytes.
pub(crate) proof fn lemma_byte_len_take_mono(s: Seq<char>, i: int, j: int)
    requires
        0 <= i <= j <= s.len(),
    ensures
        byte_len(s.take(i)) <= byte_len(s.take(j)),
{
    lemma_byte_len_append(s.take(i), s.subrange(i, j));
    assert(s.take(i) + s.subrange(i, j) =~= s.take(j));
}

// ---------------------------------------------------------------- exec

fn char_width_exec(c: char) -> (w: usize)
    ensures
        w == char_width(c),
{
    let u = c as u32;
    if u < 0x80 {
        1
    } else if u < 0x800 {
        2
    } else if u < 0x10000 {
        3
    } else {
        4
    }
}

fn is_space_exec(c: char) -> (b: bool)
    ensures
        b == is_space(c),
{
    c == ' ' || c == '\n'
}

fn is_digit_exec(c: char) -> (b: bool)
    ensures
        b == is_digit(c),
{
    '0' <= c && c <= '9'
}

fn is_alpha_exec(c: char) -> (b: bool)
    ensures
        b == is_alpha(c),
{
    ('a' <= c && c <= 'z') || ('A' <= c && c <= 'Z')
}

fn in_run_exec(r: &Run, c: char) -> (b: bool)
    ensures
        b == in_run(*r, c),
{
    match r {
        Run::Space => is_space_exec(c),
        Run::Digit => is_digit_exec(c),
        Run::Alnum => is_alpha_exec(c) || is_digit_exec(c),
    }
}

/// The end of the run `r` that starts at `i`.
fn run_end(chars: &Vec<char>, i: usize, r: Run) -> (j: usize)
    requires
        i <= chars.len(),
    ensures
        i <= j <= chars.len(),
        span(chars@.skip(i as int), r) == j - i,
{
    let mut j = i;
    while j < chars.len() && in_run_exec(&r, chars[j])
        invariant
            i <= j <= chars.len(),
            forall|k: int| i <= k < j ==> in_run(r, #[trigger] chars@[k]),
        decreases chars.len() - j,
    {
        j += 1;
    }
    proof {
        let t = chars@.skip(i as int);
        assert forall|k: int| 0 <= k < j - i implies in_run(r, #[trigger] t[k]) by {
            assert(t[k] == chars@[i + k]);
        }
        if j < chars.len() {
            assert(t[j - i] == chars@[j as int]);
        }
        lemma_span_is(t, r, j - i);
    }
    j
}

fn word_kind_exec(chars: &Vec<char>, i: usize, j: usize) -> (k: SyntaxKind)
    requires
        i <= j <= chars.len(),
    ensures
        k == word_kind(chars@.subrange(i as int, j as int)),
{
    let ghost w = chars@.subrange(i as int, j as int);
    let ghost fn_word = seq!['f', 'n'];
    let ghost let_word = seq!['l', 'e', 't'];
    assert(fn_word.len() == 2 && fn_word[0] == 'f' && fn_word[1] == 'n');
    assert(let_word.len() == 3 && let_word[0] == 'l' && let_word[1] == 'e' && let_word[2] == 't');
    if j - i == 2 && chars[i] == 'f' && chars[i + 1] == 'n' {
        assert(w =~= fn_word);
        SyntaxKind::FnKw
    } else if j - i == 3 && chars[i] == 'l' && chars[i + 1] == 'e' && chars[i + 2] == 't' {
        assert(w =~= let_word);
        assert(w != fn_word) by {
            assert(w.len() != fn_word.len());
        }
        SyntaxKind::LetKw
    } else {
        assert(w != fn_word) by {
            if w == fn_word {
                assert(w[0] == chars@[i as int]);
                assert(w[1] == chars@[i + 1]);
            }
        }
        assert(w != let_word) by {
            if w == let_word {
                assert(w[0] == chars@[i as int]);
                assert(w[1] == chars@[i + 1]);
                assert(w[2] == chars@[i + 2]);
            }
        }
        SyntaxKind::Ident
    }
}

fn punct_kind_exec(c: char) -> (k: SyntaxKind)
    ensures
        k == punct_kind(c),
{
    if c == '+' {
        SyntaxKind::Plus
    } else if c == '-' {
        SyntaxKind::Minus
    } else if c == '*' {
        SyntaxKind::Star
    } else if c == '/' {
        SyntaxKind::Slash
    } else if c == '=' {
        SyntaxKind::Equals
    } else if c == '(' {
        SyntaxKind::LParen
    } else if c == ')' {
        SyntaxKind::RParen
    } else if c == '{' {
        SyntaxKind::LBrace
    } else if c == '}' {
        SyntaxKind::RBrace
    } else {
        SyntaxKind::Error
    }
}

fn copy_chars(chars: &Vec<char>, i: usize, j: usize) -> (out: Vec<char>)
    requires
        i <= j <= chars.len(),
    ensures
        out@ == chars@.subrange(i as int, j as int),
{
    let mut out: Vec<char> = Vec::new();
    let mut k = i;
    while k < j
        invariant
            i <= k <= j <= chars.len(),
            out@ == chars@.subrange(i as int, k as int),
        decreases j - k,
    {
        out.push(chars[k]);
        k += 1;
        assert(out@ =~= chars@.subrange(i as int, k as int));
    }
    out
}

/// The chars of `input`, in order.
fn chars_of(input: &str) -> (v: Vec<char>)
    ensures
        v@ == input@,
{
    let mut v: Vec<char> = Vec::new();
    for c in it: input.chars()
        invariant
            v@ == it.seq().take(it.index() as int),
            it.seq() == input@,
    {
        v.push(c);
        assert(v@ =~= it.seq().take(it.index() as int + 1));
    }
    assert(v@ =~= input@);
    v
}

/// The end and the kind of the token that starts at `i`.
fn scan_token(chars: &Vec<char>, i: usize) -> (res: (usize, SyntaxKind))
    requires
        i < chars.len(),
    ensures
        i < res.0 <= chars.len(),
        first_len(chars@.skip(i as int)) == res.0 - i,
        res.1 == token_kind(chars@.subrange(i as int, res.0 as int)),
{
    let c = chars[i];
    let ghost t = chars@.skip(i as int);
    assert(t[0] == c);
    proof {
        lemma_first_len_positive(t);
    }
    let (j, kind) = if is_space_exec(c) {
        let j = run_end(chars, i, Run::Space);
        (j, SyntaxKind::Whitespace)
    } else if is_digit_exec(c) {
        let j = run_end(chars, i, Run::Digit);
        (j, SyntaxKind::Number)
    } else if is_alpha_exec(c) {
        let j = run_end(chars, i, Run::Alnum);
        let k = word_kind_exec(chars, i, j);
        (j, k)
    } else {
        (i + 1, punct_kind_exec(c))
    };
    assert(first_len(t) == j - i);
    assert(chars@.subrange(i as int, j as int)[0] == c);
    (j, kind)
}

/// The number of bytes of the chars in `i..j`.
fn text_width(chars: &Vec<char>, i: usize, j: usize) -> (width: usize)
    requires
        i <= j <= chars.len(),
        byte_len(chars@) <= usize::MAX,
    ensures
        width == byte_len(chars@.subrange(i as int, j as int)),
{
    let ghost s = chars@;
    let mut width: usize = 0;
    let mut k = i;
    proof {
        lemma_byte_len_append(s.take(i as int), s.subrange(i as int, j as int));
        assert(s.take(i as int) + s.subrange(i as int, j as int) =~= s.take(j as int));
        lemma_byte_len_take_mono(s, j as int, s.len() as int);
        assert(s.take(s.len() as int) =~= s);
        assert(s.subrange(i as int, i as int) =~= Seq::<char>::empty());
    }
    while k < j
        invariant
            i <= k <= j <= s.len(),
            s == chars@,
            byte_len(s.subrange(i as int, j as int)) <= usize::MAX,
            width == byte_len(s.subrange(i as int, k as int)),
        decreases j - k,
    {
        let w = char_width_exec(chars[k]);
        proof {
            let a = s.subrange(i as int, k as int);
            let b = s.subrange(i as int, k + 1);
            assert(b.drop_last() =~= a);
            assert(b.last() == chars@[k as int]);
            lemma_byte_len_append(b, s.subrange(k + 1, j as int));
            assert(b + s.subrange(k + 1, j as int) =~= s.subrange(i as int, j as int));
        }
        width = width + w;
        k += 1;
    }
    width
}

/// Splits `input` into tokens, longest match first (see [`lex_spec`]); each token
/// carries its byte range in `input`.
pub fn lex(input: &str) -> (lexemes: Vec<Lexeme>)
    requires
        byte_len(input@) <= usize::MAX,
    ensures
        lexemes_view(lexemes@) == lex_spec(input@),
        ranges_follow_texts(lexemes@),
        lexemes_v(lexemes@) == lex_v(input@),
{
    let chars = chars_of(input);
    let ghost s = chars@;
    let n = chars.len();
    let mut out: Vec<Lexeme> = Vec::new();
    let mut i: usize = 0;
    let mut offset: usize = 0;
    assert(s.skip(0) =~= s);
    assert(lexemes_view(out@) =~= Seq::<Tok>::empty());
    while i < n
        invariant
            n == s.len(),
            s == chars@,
            byte_len(s) <= usize::MAX,
            0 <= i <= n,
            lexemes_view(out@) + lex_spec(s.skip(i as int)) == lex_spec(s),
            concat_texts(lexemes_view(out@)) == s.take(i as int),
            offset == byte_len(s.take(i as int)),
            ranges_follow_texts(out@),
        decreases n - i,
    {
        let (j, kind) = scan_token(&chars, i);
        let text = copy_chars(&chars, i, j);
        let width = text_width(&chars, i, j);
        proof {
            lemma_lex_step(s, i as int, j as int);
            lemma_byte_len_append(s.take(i as int), s.subrange(i as int, j as int));
            assert(s.take(i as int) + s.subrange(i as int, j as int) =~= s.take(j as int));
            lemma_byte_len_take_mono(s, j as int, n as int);
            assert(s.take(n as int) =~= s);
        }
        let ghost old_out = out@;
        let lexeme = Lexeme { kind, text, range: TextRange { start: offset, end: offset + width } };
        out.push(lexeme);
        proof {
            let tok: Tok = (kind, s.subrange(i as int, j as int));
            assert(lexemes_view(out@) =~= lexemes_view(old_out).push(tok));
            lemma_concat_texts_push(lexemes_view(old_out), tok);
            assert(s.take(i as int) + s.subrange(i as int, j as int) =~= s.take(j as int));
            assert(lexemes_view(out@) + lex_spec(s.skip(j as int)) =~= lexemes_view(old_out)
                + lex_spec(s.skip(i as int)));
            assert forall|m: int| 0 <= m < out@.len() implies {
                &&& #[trigger] out@[m].range.start == byte_len(text_before(out@, m))
                &&& out@[m].range.end == out@[m].range.start + byte_len(out@[m].text@)
            } by {
                if m < old_out.len() {
                    assert(lexemes_view(out@).take(m) =~= lexemes_view(old_out).take(m));
                } else {
                    assert(lexemes_view(out@).take(m) =~= lexemes_view(old_out));
                }
            }
        }
        offset = offset + width;
        i = j;
    }
    proof {
        assert(s.skip(n as int) =~= Seq::<char>::empty());
        assert(lexemes_view(out@) + Seq::<Tok>::empty() =~= lexemes_view(out@));
        let ts = lex_spec(s);
        assert forall|i: int| 0 <= i < out@.len() implies #[trigger] lexemes_v(out@)[i] == lex_v(s)[i] by {
            assert(lexemes_view(out@)[i] == ts[i]);
            assert(lexemes_view(out@).take(i) == ts.take(i));
            assert(out@[i].range.start == byte_len(text_before(out@, i)));
            assert(text_before(out@, i) == concat_texts(ts.take(i)));
            assert(out@[i].range.end == out@[i].range.start + byte_len(out@[i].text@));
            assert(out@[i].text@ == ts[i].1);
        }
        assert(lexemes_v(out@) =~= lex_v(s));
    }
    out
}

/// The number of bytes of `s` is the length of its UTF-8 encoding.
pub(crate) proof fn lemma_byte_len_utf8(s: Seq<char>)
    ensures
        byte_len(s) == vstd::utf8::encode_utf8(s).len(),
    decreases s.len(),
{
    if s.len() > 0 {
        let c = s[0];
        lemma_byte_len_utf8(s.drop_first());
        lemma_byte_len_append(seq![c], s.drop_first());
        assert(seq![c] + s.drop_first() =~= s);
        assert(seq![c].drop_last() =~= Seq::<char>::empty());
        assert(seq![c].last() == c);
        assert(byte_len(Seq::<char>::empty()) == 0);
        assert(byte_len(seq![c]) == char_width(c));
        vstd::utf8::char_is_scalar(c);
    }
}

/// The UTF-8 encoding of two strings, one after the other, is their encodings one
/// after the other.
pub(crate) proof fn lemma_encode_utf8_append(a: Seq<char>, b: Seq<char>)
    ensures
        vstd::utf8::encode_utf8(a + b) == vstd::utf8::encode_utf8(a) + vstd::utf8::encode_utf8(b),
    decreases a.len(),
{
    if a.len() == 0 {
        assert(a + b =~= b);
        assert(vstd::utf8::encode_utf8(a) =~= Seq::<u8>::empty());
        assert(Seq::<u8>::empty() + vstd::utf8::encode_utf8(b) =~= vstd::utf8::encode_utf8(b));
    } else {
        lemma_encode_utf8_append(a.drop_first(), b);
        assert((a + b).drop_first() =~= a.drop_first() + b);
        assert((a + b)[0] == a[0]);
        assert(vstd::utf8::encode_utf8(a + b) =~= vstd::utf8::encode_utf8(a) + vstd::utf8::encode_utf8(b));
    }
}

} // verus!
