use vstd::prelude::*;

use crate::context::{bytes_equal, CompilerContext};

verus! {

/// A zero-based byte offset into the source text.
#[derive(Clone, Copy, PartialEq, Eq, Structural, Debug)]
pub struct BytePos(pub usize);

/// A half-open byte range `[start, end)` of the source text.
#[derive(Clone, Copy, PartialEq, Eq, Structural, Debug)]
pub struct Span {
    pub start: BytePos,
    pub end: BytePos,
}

#[derive(Clone, Copy, PartialEq, Eq, Structural, Debug)]
pub enum Keyword {
    I32,
    If,
    Else,
    For,
    Break,
    Continue,
}

#[derive(Clone, Copy, PartialEq, Eq, Structural, Debug)]
pub enum Delim {
    Paren,
    Curly,
}

/// The kinds of token. The operator kinds are reserved: the scanner does not
/// produce them yet. `Eof` marks the end of the token stream.
#[derive(Clone, Copy, PartialEq, Eq, Structural, Debug)]
pub enum TokenKind {
    UnitConstant,
    IntegerConstant,
    Identifier,
    Comma,
    Excla,
    Star,
    Slash,
    Plus,
    Dash,
    Less,
    Greater,
    LessLess,
    GreaterGreater,
    LessEqual,
    GreaterEqual,
    Colon,
    ColonColon,
    ColonEqual,
    Semi,
    DashGreater,
    PeriodPeriod,
    PeriodPeriodEqual,
    Keyword(Keyword),
    Open(Delim),
    Closed(Delim),
    Eof,
}

#[derive(Clone, Copy, PartialEq, Eq, Structural, Debug)]
pub struct Token {
    pub kind: TokenKind,
    pub span: Span,
}

/// The sentinel that the parser sees past the last token.
pub open spec fn eof_token() -> Token {
    Token { kind: TokenKind::Eof, span: Span { start: BytePos(0), end: BytePos(0) } }
}

impl Token {
    /// The sentinel that the parser sees past the last token.
    pub fn eof() -> (r: Token)
        ensures
            r == eof_token(),
    {
        Token { kind: TokenKind::Eof, span: Span { start: BytePos(0), end: BytePos(0) } }
    }
}

// ---------------------------------------------------------------------------
// The lexical grammar, as spec functions on the source bytes.
pub open spec fn is_whitespace(b: u8) -> bool {
    b == 32 || b == 9 || b == 10 || b == 12 || b == 13
}

pub open spec fn is_digit(b: u8) -> bool {
    48 <= b <= 57
}

pub open spec fn is_ident_start(b: u8) -> bool {
    (65 <= b <= 90) || (97 <= b <= 122) || b == 95
}

pub open spec fn is_ident_char(b: u8) -> bool {
    is_ident_start(b) || is_digit(b)
}

/// The first position at or after `p` that does not hold whitespace.
pub open spec fn skip_ws(s: Seq<u8>, p: int) -> int
    decreases s.len() - p,
{
    if 0 <= p < s.len() && is_whitespace(s[p]) {
        skip_ws(s, p + 1)
    } else {
        p
    }
}

/// The end of the run of digits that starts at `p`.
pub open spec fn digits_end(s: Seq<u8>, p: int) -> int
    decreases s.len() - p,
{
    if 0 <= p < s.len() && is_digit(s[p]) {
        digits_end(s, p + 1)
    } else {
        p
    }
}

/// The end of the run of identifier characters that starts at `p`.
pub open spec fn ident_end(s: Seq<u8>, p: int) -> int
    decreases s.len() - p,
{
    if 0 <= p < s.len() && is_ident_char(s[p]) {
        ident_end(s, p + 1)
    } else {
        p
    }
}

/// The kind of a word: one of the six keywords, or an identifier.
pub open spec fn word_kind(w: Seq<u8>) -> TokenKind {
    if w == seq![105u8, 51u8, 50u8] {
        TokenKind::Keyword(Keyword::I32)
    } else if w == seq![105u8, 102u8] {
        TokenKind::Keyword(Keyword::If)
    } else if w == seq![101u8, 108u8, 115u8, 101u8] {
        TokenKind::Keyword(Keyword::Else)
    } else if w == seq![102u8, 111u8, 114u8] {
        TokenKind::Keyword(Keyword::For)
    } else if w == seq![98u8, 114u8, 101u8, 97u8, 107u8] {
        TokenKind::Keyword(Keyword::Break)
    } else if w == seq![99u8, 111u8, 110u8, 116u8, 105u8, 110u8, 117u8, 101u8] {
        TokenKind::Keyword(Keyword::Continue)
    } else {
        TokenKind::Identifier
    }
}

/// The longest token that starts at `p`, as its kind and end, or `None`
/// where no token starts there.
#[verifier::opaque]
pub open spec fn lex_at(s: Seq<u8>, p: int) -> Option<(TokenKind, int)> {
    if !(0 <= p < s.len()) {
        None
    } else {
        let c = s[p];
        let next_is = |b: u8| p + 1 < s.len() && s[p + 1] == b;
        if c == 59 {
            Some((TokenKind::Semi, p + 1))
        } else if c == 58 {
            if next_is(58) {
                Some((TokenKind::ColonColon, p + 2))
            } else if next_is(61) {
                Some((TokenKind::ColonEqual, p + 2))
            } else {
                Some((TokenKind::Colon, p + 1))
            }
        } else if c == 40 {
            Some((TokenKind::Open(Delim::Paren), p + 1))
        } else if c == 41 {
            Some((TokenKind::Closed(Delim::Paren), p + 1))
        } else if c == 123 {
            Some((TokenKind::Open(Delim::Curly), p + 1))
        } else if c == 125 {
            Some((TokenKind::Closed(Delim::Curly), p + 1))
        } else if c == 45 && next_is(62) {
            Some((TokenKind::DashGreater, p + 2))
        } else if c == 46 && next_is(46) {
            if p + 2 < s.len() && s[p + 2] == 61 {
                Some((TokenKind::PeriodPeriodEqual, p + 3))
            } else {
                Some((TokenKind::PeriodPeriod, p + 2))
            }
        } else if is_digit(c) {
            Some((TokenKind::IntegerConstant, digits_end(s, p + 1)))
        } else if is_ident_start(c) {
            let e = ident_end(s, p + 1);
            Some((word_kind(s.subrange(p, e)), e))
        } else {
            None
        }
    }
}

/// The tokens of `s` from position `p` on, or `None` where some character
/// cannot start a token.
pub open spec fn scan_from(s: Seq<u8>, p: int) -> Option<Seq<Token>>
    decreases s.len() - p,
{
    let q = skip_ws(s, p);
    if p < 0 || q >= s.len() || q < p {
        Some(Seq::empty())
    } else {
        match lex_at(s, q) {
            None => None,
            Some((kind, e)) => if q < e <= s.len() {
                match scan_from(s, e) {
                    None => None,
                    Some(rest) => Some(
                        seq![Token { kind, span: Span { start: BytePos(q as usize), end: BytePos(e as usize) } }]
                            + rest,
                    ),
                }
            } else {
                None
            },
        }
    }
}

/// The tokens of a whole source text.
pub open spec fn scan_spec(s: Seq<u8>) -> Option<Seq<Token>> {
    scan_from(s, 0)
}

proof fn lemma_skip_ws_bounds(s: Seq<u8>, p: int)
    requires
        0 <= p <= s.len(),
    ensures
        p <= skip_ws(s, p) <= s.len(),
        forall|i: int| p <= i < skip_ws(s, p) ==> is_whitespace(#[trigger] s[i]),
        skip_ws(s, p) < s.len() ==> !is_whitespace(s[skip_ws(s, p)]),
    decreases s.len() - p,
{
    if p < s.len() && is_whitespace(s[p]) {
        lemma_skip_ws_bounds(s, p + 1);
    }
}

proof fn lemma_digits_end_bounds(s: Seq<u8>, p: int)
    requires
        0 <= p <= s.len(),
    ensures
        p <= digits_end(s, p) <= s.len(),
        forall|i: int| p <= i < digits_end(s, p) ==> is_digit(#[trigger] s[i]),
        digits_end(s, p) < s.len() ==> !is_digit(s[digits_end(s, p)]),
    decreases s.len() - p,
{
    if p < s.len() && is_digit(s[p]) {
        lemma_digits_end_bounds(s, p + 1);
    }
}

proof fn lemma_ident_end_bounds(s: Seq<u8>, p: int)
    requires
        0 <= p <= s.len(),
    ensures
        p <= ident_end(s, p) <= s.len(),
        forall|i: int| p <= i < ident_end(s, p) ==> is_ident_char(#[trigger] s[i]),
        ident_end(s, p) < s.len() ==> !is_ident_char(s[ident_end(s, p)]),
    decreases s.len() - p,
{
    if p < s.len() && is_ident_char(s[p]) {
        lemma_ident_end_bounds(s, p + 1);
    }
}

proof fn lemma_lex_at_bounds(s: Seq<u8>, p: int)
    requires
        0 <= p < s.len(),
    ensures
        lex_at(s, p) matches Some((k, e)) ==> p < e <= s.len(),
{
    reveal(lex_at);
    lemma_digits_end_bounds(s, p + 1);
    lemma_ident_end_bounds(s, p + 1);
}

/// A byte that can never make scanning fail: whitespace, `;`, `:`, a
/// parenthesis, a curly brace, a digit, a letter or `_`.
pub open spec fn is_plain(b: u8) -> bool {
    is_whitespace(b) || b == 59 || b == 58 || b == 40 || b == 41 || b == 123 || b == 125
        || is_ident_char(b)
}

/// Scanning is total on text made only of plain bytes: every suffix of it
/// scans to a token sequence.
pub proof fn lemma_plain_text_scans(s: Seq<u8>, p: int)
    requires
        0 <= p <= s.len(),
        forall|i: int| 0 <= i < s.len() ==> is_plain(#[trigger] s[i]),
    ensures
        scan_from(s, p) is Some,
    decreases s.len() - p,
{
    lemma_skip_ws_bounds(s, p);
    let q = skip_ws(s, p);
    if q < s.len() {
        lemma_lex_at_bounds(s, q);
        assert(is_plain(s[q]));
        reveal(lex_at);
        let (_, e) = lex_at(s, q)->0;
        lemma_plain_text_scans(s, e);
    }
}

/// Every scanned token covers exactly the longest lexeme at its start.
pub proof fn lemma_token_lexemes(s: Seq<u8>, p: int)
    requires
        0 <= p <= s.len() <= usize::MAX,
        scan_from(s, p) is Some,
    ensures
        forall|i: int|
            0 <= i < scan_from(s, p)->0.len() ==> {
                let t = #[trigger] scan_from(s, p)->0[i];
                &&& p <= t.span.start.0 < t.span.end.0 <= s.len()
                &&& lex_at(s, t.span.start.0 as int) == Some((t.kind, t.span.end.0 as int))
            },
    decreases s.len() - p,
{
    lemma_skip_ws_bounds(s, p);
    let q = skip_ws(s, p);
    if q < s.len() {
        lemma_lex_at_bounds(s, q);
        let (_, e) = lex_at(s, q)->0;
        lemma_token_lexemes(s, e);
        let toks = scan_from(s, p)->0;
        let rest = scan_from(s, e)->0;
        assert(toks == seq![toks[0]] + rest);
        assert(toks[0].span.start.0 == q && toks[0].span.end.0 == e);
        assert forall|i: int| 0 < i < toks.len() implies toks[i] == rest[i - 1] by {}
    }
}

/// Only whitespace lies in `[a, b)`.
#[verifier::opaque]
pub open spec fn blank_between(s: Seq<u8>, a: int, b: int) -> bool {
    forall|j: int| a <= j < b ==> is_whitespace(#[trigger] s[j])
}

/// The tokens come in order, and only whitespace lies before and between them.
#[verifier::rlimit(100)]
pub proof fn lemma_token_gaps(s: Seq<u8>, p: int)
    requires
        0 <= p <= s.len() <= usize::MAX,
        scan_from(s, p) is Some,
    ensures
        forall|i: int|
            0 < i < scan_from(s, p)->0.len() ==> {
                let (prev, t) = (scan_from(s, p)->0[i - 1], #[trigger] scan_from(s, p)->0[i]);
                &&& prev.span.end.0 <= t.span.start.0
                &&& blank_between(s, prev.span.end.0 as int, t.span.start.0 as int)
            },
        scan_from(s, p)->0.len() > 0 ==> blank_between(
            s,
            p,
            scan_from(s, p)->0[0].span.start.0 as int,
        ),
    decreases s.len() - p,
{
    lemma_skip_ws_bounds(s, p);
    let q = skip_ws(s, p);
    if q < s.len() {
        lemma_lex_at_bounds(s, q);
        let (_, e) = lex_at(s, q)->0;
        lemma_token_gaps(s, e);
        lemma_skip_ws_bounds(s, e);
        let toks = scan_from(s, p)->0;
        let rest = scan_from(s, e)->0;
        assert(toks == seq![toks[0]] + rest);
        assert(toks[0].span.start.0 == q && toks[0].span.end.0 == e);
        assert(blank_between(s, p, q)) by {
            reveal(blank_between);
        }
        if rest.len() > 0 {
            assert(rest[0].span.start.0 == skip_ws(s, e));
            assert(blank_between(s, e, skip_ws(s, e))) by {
                reveal(blank_between);
            }
        }
        assert forall|i: int| 0 < i < toks.len() implies {
            &&& toks[i - 1].span.end.0 <= (#[trigger] toks[i]).span.start.0
            &&& blank_between(s, toks[i - 1].span.end.0 as int, toks[i].span.start.0 as int)
        } by {
            assert(toks[i] == rest[i - 1]);
            if i > 1 {
                assert(toks[i - 1] == rest[i - 2]);
            }
        }
    }
}

/// The kind of token that the whole of `w` spells, if any.
pub open spec fn lexeme_kind(w: Seq<u8>) -> Option<TokenKind> {
    if (w.len() == 1 && w[0] == 59) {
        Some(TokenKind::Semi)
    } else if (w.len() == 1 && w[0] == 58) {
        Some(TokenKind::Colon)
    } else if (w.len() == 2 && w[0] == 58 && w[1] == 58) {
        Some(TokenKind::ColonColon)
    } else if (w.len() == 2 && w[0] == 58 && w[1] == 61) {
        Some(TokenKind::ColonEqual)
    } else if (w.len() == 1 && w[0] == 40) {
        Some(TokenKind::Open(Delim::Paren))
    } else if (w.len() == 1 && w[0] == 41) {
        Some(TokenKind::Closed(Delim::Paren))
    } else if (w.len() == 1 && w[0] == 123) {
        Some(TokenKind::Open(Delim::Curly))
    } else if (w.len() == 1 && w[0] == 125) {
        Some(TokenKind::Closed(Delim::Curly))
    } else if (w.len() == 2 && w[0] == 45 && w[1] == 62) {
        Some(TokenKind::DashGreater)
    } else if (w.len() == 2 && w[0] == 46 && w[1] == 46) {
        Some(TokenKind::PeriodPeriod)
    } else if (w.len() == 3 && w[0] == 46 && w[1] == 46 && w[2] == 61) {
        Some(TokenKind::PeriodPeriodEqual)
    } else if w.len() > 0 && forall|i: int| 0 <= i < w.len() ==> is_digit(#[trigger] w[i]) {
        Some(TokenKind::IntegerConstant)
    } else if w.len() > 0 && is_ident_start(w[0]) && forall|i: int|
        0 <= i < w.len() ==> is_ident_char(#[trigger] w[i]) {
        Some(word_kind(w))
    } else {
        None
    }
}

proof fn lemma_lex_at_longest(s: Seq<u8>, p: int)
    requires
        0 <= p < s.len(),
        lex_at(s, p) is Some,
    ensures
        ({
            let (k, e) = lex_at(s, p)->0;
            &&& lexeme_kind(s.subrange(p, e)) == Some(k)
            &&& forall|f: int| e < f <= s.len() ==> (#[trigger] lexeme_kind(s.subrange(p, f))) is None
        }),
{
    reveal(lex_at);
    lemma_digits_end_bounds(s, p + 1);
    lemma_ident_end_bounds(s, p + 1);
    let (k, e) = lex_at(s, p)->0;
    let w = s.subrange(p, e);
    let c = s[p];
    assert(w[0] == c);
    if is_digit(c) {
        assert forall|i: int| 0 <= i < w.len() implies is_digit(#[trigger] w[i]) by {
            assert(s[p + i] == w[i]);
        }
        assert(lexeme_kind(w) == Some(k));
    } else if is_ident_start(c) {
        assert forall|i: int| 0 <= i < w.len() implies is_ident_char(#[trigger] w[i]) by {
            assert(s[p + i] == w[i]);
        }
        assert(lexeme_kind(w) == Some(k));
    } else {
        if w.len() >= 2 {
            assert(w[1] == s[p + 1]);
        }
        if w.len() >= 3 {
            assert(w[2] == s[p + 2]);
        }
        assert(lexeme_kind(w) == Some(k));
    }
    assert forall|f: int| e < f <= s.len() implies (#[trigger] lexeme_kind(s.subrange(p, f))) is None by {
        let v = s.subrange(p, f);
        assert(v[0] == c);
        assert(v[e - p] == s[e]);
        assert(v.len() >= 2);
        if v.len() == 2 {
            assert(v[1] == s[p + 1]);
        }
        if v.len() == 3 {
            assert(v[1] == s[p + 1]);
            assert(v[2] == s[p + 2]);
        }
    }
}

/// Maximal munch, and the keyword partition: the text of every scanned token
/// spells its kind, and no longer text from the same start spells any token.
pub proof fn lemma_tokens_are_longest_lexemes(s: Seq<u8>)
    requires
        s.len() <= usize::MAX,
        scan_spec(s) is Some,
    ensures
        forall|i: int|
            0 <= i < scan_spec(s)->0.len() ==> {
                let t = #[trigger] scan_spec(s)->0[i];
                let (a, b) = (t.span.start.0 as int, t.span.end.0 as int);
                &&& lexeme_kind(s.subrange(a, b)) == Some(t.kind)
                &&& forall|f: int| b < f <= s.len() ==> (#[trigger] lexeme_kind(s.subrange(a, f))) is None
            },
{
    lemma_token_lexemes(s, 0);
    assert forall|i: int| 0 <= i < scan_spec(s)->0.len() implies {
        let t = #[trigger] scan_spec(s)->0[i];
        let (a, b) = (t.span.start.0 as int, t.span.end.0 as int);
        &&& lexeme_kind(s.subrange(a, b)) == Some(t.kind)
        &&& forall|f: int| b < f <= s.len() ==> (#[trigger] lexeme_kind(s.subrange(a, f))) is None
    } by {
        let t = scan_spec(s)->0[i];
        lemma_lex_at_longest(s, t.span.start.0 as int);
    }
}

proof fn lemma_digits_run_to_end(w: Seq<u8>, p: int)
    requires
        0 <= p <= w.len(),
        forall|i: int| 0 <= i < w.len() ==> is_digit(#[trigger] w[i]),
    ensures
        digits_end(w, p) == w.len(),
    decreases w.len() - p,
{
    if p < w.len() {
        lemma_digits_run_to_end(w, p + 1);
    }
}

proof fn lemma_ident_run_to_end(w: Seq<u8>, p: int)
    requires
        0 <= p <= w.len(),
        forall|i: int| 0 <= i < w.len() ==> is_ident_char(#[trigger] w[i]),
    ensures
        ident_end(w, p) == w.len(),
    decreases w.len() - p,
{
    if p < w.len() {
        lemma_ident_run_to_end(w, p + 1);
    }
}

/// Text that spells a token scans, on its own, to exactly that one token.
pub proof fn lemma_lexeme_scans_alone(w: Seq<u8>)
    requires
        w.len() <= usize::MAX,
        lexeme_kind(w) is Some,
    ensures
        scan_spec(w) == Some(
            seq![Token { kind: lexeme_kind(w)->0, span: Span { start: BytePos(0), end: BytePos(w.len() as usize) } }],
        ),
{
    reveal(lex_at);
    let k = lexeme_kind(w)->0;
    if w.len() > 0 && forall|i: int| 0 <= i < w.len() ==> is_digit(#[trigger] w[i]) {
        lemma_digits_run_to_end(w, 1);
    }
    if w.len() > 0 && is_ident_start(w[0]) && forall|i: int|
        0 <= i < w.len() ==> is_ident_char(#[trigger] w[i]) {
        lemma_ident_run_to_end(w, 1);
        assert(w.subrange(0, w.len() as int) =~= w);
    }
    assert(!is_whitespace(w[0]));
    assert(skip_ws(w, 0) == 0);
    assert(lex_at(w, 0) == Some((k, w.len() as int)));
    assert(skip_ws(w, w.len() as int) == w.len());
    assert(scan_from(w, w.len() as int) == Some(Seq::<Token>::empty()));
    assert(seq![Token { kind: k, span: Span { start: BytePos(0), end: BytePos(w.len() as usize) } }]
        + Seq::<Token>::empty() =~= seq![Token { kind: k, span: Span { start: BytePos(0), end: BytePos(w.len() as usize) } }]);
}

/// The text of every scanned token, scanned on its own, gives back exactly
/// that token's kind, as one token that covers the whole text.
pub proof fn lemma_token_text_scans_alone(s: Seq<u8>)
    requires
        s.len() <= usize::MAX,
        scan_spec(s) is Some,
    ensures
        forall|i: int|
            0 <= i < scan_spec(s)->0.len() ==> {
                let t = #[trigger] scan_spec(s)->0[i];
                let w = s.subrange(t.span.start.0 as int, t.span.end.0 as int);
                scan_spec(w) == Some(
                    seq![Token { kind: t.kind, span: Span { start: BytePos(0), end: BytePos(w.len() as usize) } }],
                )
            },
{
    lemma_tokens_are_longest_lexemes(s);
    lemma_token_lexemes(s, 0);
    assert forall|i: int| 0 <= i < scan_spec(s)->0.len() implies {
        let t = #[trigger] scan_spec(s)->0[i];
        let w = s.subrange(t.span.start.0 as int, t.span.end.0 as int);
        scan_spec(w) == Some(
            seq![Token { kind: t.kind, span: Span { start: BytePos(0), end: BytePos(w.len() as usize) } }],
        )
    } by {
        let t = scan_spec(s)->0[i];
        let w = s.subrange(t.span.start.0 as int, t.span.end.0 as int);
        lemma_lexeme_scans_alone(w);
    }
}

/// Reads the source of a context from left to right, one token at a time.
pub struct Scanner<'ctx> {
    ctx: &'ctx CompilerContext,
    current_peek_pos: BytePos,
}

impl<'ctx> Scanner<'ctx> {
    /// The byte that `peek` reports at the end of the input.
    pub const EOF_CHAR: u8 = 0;

    pub closed spec fn source(&self) -> Seq<u8> {
        self.ctx.source_view()
    }

    pub closed spec fn position(&self) -> int {
        self.current_peek_pos.0 as int
    }

    /// The cursor is never before the start of the text.
    pub proof fn lemma_position_nonneg(&self)
        ensures
            0 <= self.position(),
    {
    }

    pub closed spec fn context(&self) -> &'ctx CompilerContext {
        self.ctx
    }

    pub fn new(ctx: &'ctx CompilerContext) -> (r: Scanner<'ctx>)
        ensures
            r.context() == ctx,
            r.source() == ctx.source_view(),
            r.position() == 0,
    {
        Scanner { ctx, current_peek_pos: BytePos(0) }
    }

    /// Scans every token from the cursor to the end of the input.
    pub fn scan_all_tokens(&mut self) -> (r: Vec<Token>)
        requires
            old(self).position() <= old(self).source().len(),
            scan_from(old(self).source(), old(self).position()) is Some,
        ensures
            final(self).context() == old(self).context(),
            final(self).position() == final(self).source().len(),
            scan_from(old(self).source(), old(self).position()) == Some(r@),
    {
        let mut tokens: Vec<Token> = Vec::new();
        loop
            invariant_except_break
                old(self).position() <= self.position() <= self.source().len(),
                scan_from(self.source(), self.position()) is Some,
                scan_from(old(self).source(), old(self).position()) == Some(
                    tokens@ + scan_from(self.source(), self.position())->0,
                ),
            invariant
                self.context() == old(self).context(),
            ensures
                self.context() == old(self).context(),
                self.position() == self.source().len(),
                scan_from(old(self).source(), old(self).position()) == Some(tokens@),
            decreases self.source().len() - self.position(),
        {
            let ghost before = tokens@;
            proof {
                lemma_skip_ws_bounds(self.source(), self.position());
            }
            match self.scan_next_token() {
                Some(token) => {
                    tokens.push(token);
                    assert(tokens@ + scan_from(self.source(), self.position())->0 =~= before + (
                    seq![token] + scan_from(self.source(), self.position())->0));
                },
                None => {
                    assert(tokens@ + Seq::<Token>::empty() =~= tokens@);
                    break ;
                },
            }
        }
        tokens
    }

    /// Scans every token from the cursor to the end of the input, or gives
    /// `None` where a character cannot start a token.
    pub fn scan_all_tokens_checked(&mut self) -> (r: Option<Vec<Token>>)
        requires
            old(self).position() <= old(self).source().len(),
        ensures
            final(self).context() == old(self).context(),
            match scan_from(old(self).source(), old(self).position()) {
                Some(toks) => r matches Some(v) && v@ == toks,
                None => r is None,
            },
    {
        let mut tokens: Vec<Token> = Vec::new();
        loop
            invariant
                self.context() == old(self).context(),
                old(self).position() <= self.position() <= self.source().len(),
                scan_from(old(self).source(), old(self).position()) == match scan_from(
                    self.source(),
                    self.position(),
                ) {
                    Some(rest) => Some(tokens@ + rest),
                    None => None,
                },
            decreases self.source().len() - self.position(),
        {
            let ghost s = self.source();
            let ghost p = self.position();
            proof {
                lemma_skip_ws_bounds(s, p);
            }
            self.skip_whitespace();
            let q = self.current_peek_pos.0;
            if q < self.ctx.get_source_code().len() && !self.can_start_token() {
                assert(scan_from(s, p) is None);
                return None;
            }
            let ghost before = tokens@;
            match self.scan_next_token() {
                Some(token) => {
                    tokens.push(token);
                    proof {
                        lemma_lex_at_bounds(s, q as int);
                        if scan_from(s, self.position()) is Some {
                            assert(tokens@ + scan_from(s, self.position())->0 =~= before + (seq![
                                token,
                            ] + scan_from(s, self.position())->0));
                        }
                    }
                },
                None => {
                    assert(tokens@ + Seq::<Token>::empty() =~= tokens@);
                    return Some(tokens);
                },
            }
        }
    }

    /// Whether a token starts at the cursor.
    pub fn can_start_token(&self) -> (r: bool)
        requires
            self.position() < self.source().len(),
        ensures
            r == (lex_at(self.source(), self.position()) is Some),
    {
        proof {
            reveal(lex_at);
        }
        let src = self.ctx.get_source_code();
        let i = self.current_peek_pos.0;
        let c = src[i];
        let next = if i < src.len() - 1 {
            src[i + 1]
        } else {
            0
        };
        c == 59 || c == 58 || c == 40 || c == 41 || c == 123 || c == 125 || (c == 45 && next == 62)
            || (c == 46 && next == 46) || (48 <= c && c <= 57) || (65 <= c && c <= 90) || (97 <= c
            && c <= 122) || c == 95
    }

    /// Skips whitespace and scans the longest token at the cursor; `None` at
    /// the end of the input.
    pub fn scan_next_token(&mut self) -> (r: Option<Token>)
        requires
            old(self).position() <= old(self).source().len(),
            skip_ws(old(self).source(), old(self).position()) >= old(self).source().len()
                || lex_at(
                old(self).source(),
                skip_ws(old(self).source(), old(self).position()),
            ) is Some,
        ensures
            final(self).context() == old(self).context(),
            final(self).position() <= final(self).source().len(),
            r is None <==> skip_ws(old(self).source(), old(self).position()) >= old(
                self,
            ).source().len(),
            r is None ==> final(self).position() == final(self).source().len(),
            r matches Some(t) ==> {
                &&& t.span.start.0 == skip_ws(old(self).source(), old(self).position())
                &&& lex_at(old(self).source(), t.span.start.0 as int) == Some(
                    (t.kind, t.span.end.0 as int),
                )
                &&& final(self).position() == t.span.end.0
            },
            scan_from(old(self).source(), old(self).position()) is Some ==> {
                &&& r is None ==> scan_from(old(self).source(), old(self).position())
                    == Some(Seq::<Token>::empty())
                &&& r matches Some(t) ==> {
                    &&& old(self).position() < final(self).position()
                    &&& scan_from(final(self).source(), final(self).position()) is Some
                    &&& scan_from(old(self).source(), old(self).position()) == Some(
                        seq![t] + scan_from(final(self).source(), final(self).position())->0,
                    )
                }
            },
    {
        let ghost s = self.source();
        proof {
            lemma_skip_ws_bounds(s, self.position());
        }
        self.skip_whitespace();
        let span_start = self.current_peek_pos;
        if span_start.0 >= self.ctx.get_source_code().len() {
            return None;
        }
        let ghost p = span_start.0 as int;
        proof {
            lemma_lex_at_bounds(s, p);
            reveal(lex_at);
        }
        let c = self.bump();
        let token_kind = if c == 59 {
            TokenKind::Semi
        } else if c == 58 {
            if self.peek() == 58 {
                self.bump();
                TokenKind::ColonColon
            } else if self.peek() == 61 {
                self.bump();
                TokenKind::ColonEqual
            } else {
                TokenKind::Colon
            }
        } else if c == 40 {
            TokenKind::Open(Delim::Paren)
        } else if c == 41 {
            TokenKind::Closed(Delim::Paren)
        } else if c == 123 {
            TokenKind::Open(Delim::Curly)
        } else if c == 125 {
            TokenKind::Closed(Delim::Curly)
        } else if c == 45 && self.peek() == 62 {
            self.bump();
            TokenKind::DashGreater
        } else if c == 46 && self.peek() == 46 {
            self.bump();
            if self.peek() == 61 {
                self.bump();
                TokenKind::PeriodPeriodEqual
            } else {
                TokenKind::PeriodPeriod
            }
        } else if 48 <= c && c <= 57 {
            self.scan_integer_constant()
        } else if (65 <= c && c <= 90) || (97 <= c && c <= 122) || c == 95 {
            self.scan_identifier(span_start)
        } else {
            assert(lex_at(s, p) is None);
            return None;
        };
        assert(lex_at(s, p) == Some((token_kind, self.position())));
        Some(Token { kind: token_kind, span: Span { start: span_start, end: self.current_peek_pos } })
    }

    /// The byte at the cursor, or `EOF_CHAR` at the end of the input.
    pub fn peek(&self) -> (r: u8)
        requires
            self.position() <= self.source().len(),
        ensures
            self.position() < self.source().len() ==> r == self.source()[self.position()],
            self.position() >= self.source().len() ==> r == Self::EOF_CHAR,
    {
        let src = self.ctx.get_source_code();
        if self.current_peek_pos.0 < src.len() {
            src[self.current_peek_pos.0]
        } else {
            Self::EOF_CHAR
        }
    }

    /// Returns the byte at the cursor and moves past it, unless at the end.
    pub fn bump(&mut self) -> (r: u8)
        requires
            old(self).position() <= old(self).source().len(),
        ensures
            final(self).context() == old(self).context(),
            old(self).position() < old(self).source().len() ==> r == old(self).source()[old(
                self,
            ).position()] && final(self).position() == old(self).position() + 1,
            old(self).position() >= old(self).source().len() ==> r == Self::EOF_CHAR
                && final(self).position() == old(self).position(),
    {
        let peeked = self.peek();
        if self.current_peek_pos.0 < self.ctx.get_source_code().len() {
            self.current_peek_pos = BytePos(self.current_peek_pos.0 + 1);
        }
        peeked
    }

    pub fn skip_whitespace(&mut self)
        requires
            old(self).position() <= old(self).source().len(),
        ensures
            final(self).context() == old(self).context(),
            final(self).position() == skip_ws(old(self).source(), old(self).position()),
    {
        loop
            invariant
                self.context() == old(self).context(),
                old(self).position() <= self.position() <= self.source().len(),
                skip_ws(self.source(), self.position()) == skip_ws(
                    old(self).source(),
                    old(self).position(),
                ),
            decreases self.source().len() - self.position(),
        {
            let c = self.peek();
            if self.current_peek_pos.0 < self.ctx.get_source_code().len() && (c == 32 || c == 9
                || c == 10 || c == 12 || c == 13) {
                self.bump();
            } else {
                return;
            }
        }
    }

    pub fn scan_integer_constant(&mut self) -> (r: TokenKind)
        requires
            old(self).position() <= old(self).source().len(),
        ensures
            final(self).context() == old(self).context(),
            final(self).position() == digits_end(old(self).source(), old(self).position()),
            r == TokenKind::IntegerConstant,
    {
        loop
            invariant
                self.context() == old(self).context(),
                old(self).position() <= self.position() <= self.source().len(),
                digits_end(self.source(), self.position()) == digits_end(
                    old(self).source(),
                    old(self).position(),
                ),
            decreases self.source().len() - self.position(),
        {
            let c = self.peek();
            if self.current_peek_pos.0 < self.ctx.get_source_code().len() && 48 <= c && c <= 57 {
                self.bump();
            } else {
                return TokenKind::IntegerConstant;
            }
        }
    }

    pub fn scan_identifier(&mut self, ident_span_start: BytePos) -> (r: TokenKind)
        requires
            ident_span_start.0 <= old(self).position() <= old(self).source().len(),
        ensures
            final(self).context() == old(self).context(),
            final(self).position() == ident_end(old(self).source(), old(self).position()),
            r == word_kind(
                old(self).source().subrange(ident_span_start.0 as int, final(self).position()),
            ),
    {
        loop
            invariant
                self.context() == old(self).context(),
                ident_span_start.0 <= old(self).position() <= self.position() <= self.source().len(),
                ident_end(self.source(), self.position()) == ident_end(
                    old(self).source(),
                    old(self).position(),
                ),
            ensures
                self.context() == old(self).context(),
                ident_span_start.0 <= self.position() <= self.source().len(),
                self.position() == ident_end(old(self).source(), old(self).position()),
            decreases self.source().len() - self.position(),
        {
            let c = self.peek();
            if self.current_peek_pos.0 < self.ctx.get_source_code().len() && ((65 <= c && c <= 90)
                || (97 <= c && c <= 122) || c == 95 || (48 <= c && c <= 57)) {
                self.bump();
            } else {
                assert(ident_end(self.source(), self.position()) == self.position());
                break ;
            }
        }
        let text = self.ctx.get_text_snippet(
            Span { start: ident_span_start, end: self.current_peek_pos },
        );
        let ghost w = text@;
        if bytes_equal(text.as_slice(), &[105u8, 51u8, 50u8]) {
            assert(w == seq![105u8, 51u8, 50u8]);
            TokenKind::Keyword(Keyword::I32)
        } else if bytes_equal(text.as_slice(), &[105u8, 102u8]) {
            assert(w == seq![105u8, 102u8]);
            TokenKind::Keyword(Keyword::If)
        } else if bytes_equal(text.as_slice(), &[101u8, 108u8, 115u8, 101u8]) {
            assert(w == seq![101u8, 108u8, 115u8, 101u8]);
            TokenKind::Keyword(Keyword::Else)
        } else if bytes_equal(text.as_slice(), &[102u8, 111u8, 114u8]) {
            assert(w == seq![102u8, 111u8, 114u8]);
            TokenKind::Keyword(Keyword::For)
        } else if bytes_equal(text.as_slice(), &[98u8, 114u8, 101u8, 97u8, 107u8]) {
            assert(w == seq![98u8, 114u8, 101u8, 97u8, 107u8]);
            TokenKind::Keyword(Keyword::Break)
        } else if bytes_equal(
            text.as_slice(),
            &[99u8, 111u8, 110u8, 116u8, 105u8, 110u8, 117u8, 101u8],
        ) {
            assert(w == seq![99u8, 111u8, 110u8, 116u8, 105u8, 110u8, 117u8, 101u8]);
            TokenKind::Keyword(Keyword::Continue)
        } else {
            TokenKind::Identifier
        }
    }
}

} // verus!
