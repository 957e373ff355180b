use vstd::prelude::*;

use crate::ast::{
    BindDef, BindRef, CompoundExpr, Const, Decl, ElseIfBranch, Expr, FnCallExpr, ForExpr, ForIteration,
    Function, IfExpr, Program, RangeKind, Type,
};
use crate::context::CompilerContext;
use crate::error::{CompileError, Diagnostic};
use crate::scanner::{
    eof_token, is_digit, lemma_token_lexemes, scan_spec, Delim, Keyword, Token, TokenKind,
};

verus! {

/// Every token's span lies within a source of `n` bytes.
pub open spec fn spans_within(toks: Seq<Token>, n: int) -> bool {
    forall|i: int|
        0 <= i < toks.len() ==> (#[trigger] toks[i]).span.start.0 <= toks[i].span.end.0 <= n
}

/// What the scanner produces meets what the parser needs: every span of a
/// scanned token lies within the source.
pub proof fn lemma_scanned_spans_within(s: Seq<u8>)
    requires
        s.len() <= usize::MAX,
        scan_spec(s) is Some,
    ensures
        spans_within(scan_spec(s)->0, s.len() as int),
{
    lemma_token_lexemes(s, 0);
    assert forall|i: int| 0 <= i < scan_spec(s)->0.len() implies (#[trigger] scan_spec(
        s,
    )->0[i]).span.start.0 <= scan_spec(s)->0[i].span.end.0 <= s.len() by {}
}

/// The value of a run of decimal digits.
pub open spec fn decimal_value(s: Seq<u8>) -> int
    decreases s.len(),
{
    if s.len() == 0 {
        0
    } else {
        decimal_value(s.drop_last()) * 10 + (s.last() - 48)
    }
}

/// `r` is what the grammar model `m` gives, and the cursor `c` stands where
/// the model says.
pub open spec fn agrees<T>(r: Result<T, CompileError>, m: Result<int, (CompileError, int)>, c: int) -> bool {
    match m {
        Ok(j) => r is Ok && c == j,
        Err((e, j)) => r == Err::<T, CompileError>(e) && c == j,
    }
}

/// The token kinds that can start an expression.
pub open spec fn starts_expression(k: TokenKind) -> bool {
    ||| k == TokenKind::IntegerConstant
    ||| k == TokenKind::Identifier
    ||| k == TokenKind::Keyword(Keyword::If)
    ||| k == TokenKind::Keyword(Keyword::For)
    ||| k == TokenKind::Keyword(Keyword::Break)
    ||| k == TokenKind::Keyword(Keyword::Continue)
    ||| k == TokenKind::Open(Delim::Paren)
    ||| k == TokenKind::Open(Delim::Curly)
}

/// `t` is a non-empty run of digits whose value fits in an `i32`.
pub open spec fn is_i32_literal(t: Seq<u8>) -> bool {
    &&& t.len() > 0
    &&& forall|k: int| 0 <= k < t.len() ==> is_digit(#[trigger] t[k])
    &&& decimal_value(t) <= i32::MAX
}

proof fn lemma_decimal_value_monotone(s: Seq<u8>, i: int, j: int)
    requires
        0 <= i <= j <= s.len(),
        forall|k: int| 0 <= k < s.len() ==> is_digit(#[trigger] s[k]),
    ensures
        0 <= decimal_value(s.subrange(0, i)) <= decimal_value(s.subrange(0, j)),
    decreases j,
{
    if j > 0 {
        assert(s.subrange(0, j).drop_last() =~= s.subrange(0, j - 1));
        if i < j {
            lemma_decimal_value_monotone(s, i, j - 1);
        } else {
            lemma_decimal_value_monotone(s, i - 1, j - 1);
        }
    } else {
        assert(s.subrange(0, i).len() == 0);
    }
}

/// Reads a literal as a signed 32-bit integer; `None` where it is not a
/// run of digits or does not fit.
pub fn parse_integer_literal(text: &[u8]) -> (r: Option<i32>)
    ensures
        is_i32_literal(text@) ==> (r matches Some(v) && v == decimal_value(text@)),
        !is_i32_literal(text@) ==> r is None,
{
    if text.len() == 0 {
        return None;
    }
    let mut value: i32 = 0;
    let mut i: usize = 0;
    while i < text.len()
        invariant
            0 < text@.len(),
            i <= text@.len(),
            forall|k: int| 0 <= k < i ==> is_digit(#[trigger] text@[k]),
            value == decimal_value(text@.subrange(0, i as int)),
            0 <= value,
        decreases text@.len() - i,
    {
        if text[i] < 48 || text[i] > 57 {
            return None;
        }
        let d = (text[i] - 48) as i32;
        assert(text@.subrange(0, i + 1).drop_last() =~= text@.subrange(0, i as int));
        if value > 214748364 || (value == 214748364 && d > 7) {
            proof {
                if forall|k: int| 0 <= k < text@.len() ==> is_digit(#[trigger] text@[k]) {
                    lemma_decimal_value_monotone(text@, i as int + 1, text@.len() as int);
                    assert(text@.subrange(0, text@.len() as int) =~= text@);
                }
            }
            return None;
        }
        value = value * 10 + d;
        i = i + 1;
    }
    assert(text@.subrange(0, i as int) =~= text@);
    Some(value)
}

/// The token at index `i`, or the end-of-stream sentinel past the end.
pub open spec fn token_in(t: Seq<Token>, i: int) -> Token {
    if 0 <= i < t.len() {
        t[i]
    } else {
        eof_token()
    }
}

pub open spec fn kind_in(t: Seq<Token>, i: int) -> TokenKind {
    token_in(t, i).kind
}

/// The source text of the token at index `i`.
pub open spec fn text_in(t: Seq<Token>, s: Seq<u8>, i: int) -> Seq<u8> {
    let tok = token_in(t, i);
    s.subrange(tok.span.start.0 as int, tok.span.end.0 as int)
}

/// The cursor position after consuming one token at `i`.
pub open spec fn step_in(t: Seq<Token>, i: int) -> int {
    if i < t.len() {
        i + 1
    } else {
        i
    }
}

/// A declaration starts at `i`: an identifier followed by `::`.
pub open spec fn decl_start_in(t: Seq<Token>, i: int) -> bool {
    kind_in(t, i) == TokenKind::Identifier && kind_in(t, i + 1) == TokenKind::ColonColon
}

// -----------------------------------------------------------------------
// The grammar, as spec functions on the token sequence. Each gives, for a
// parse that starts at index `i`, either `Ok(j)`: the parse succeeds and
// the cursor ends at `j`; or `Err((e, j))`: it fails with `e`, the cursor
// at `j`.
/// Consumes one token, which must be of kind `k`; then goes on with `then`.
pub open spec fn expect_then(
    t: Seq<Token>,
    s: Seq<u8>,
    i: int,
    k: TokenKind,
    then: Result<int, (CompileError, int)>,
) -> Result<int, (CompileError, int)> {
    if kind_in(t, i) == k {
        then
    } else {
        Err((CompileError::ExpectedButFound { expected: k, found: token_in(t, i) }, step_in(t, i)))
    }
}

/// One expression, chosen by the kind of its first token.
pub open spec fn stmt_model(t: Seq<Token>, s: Seq<u8>, i: int) -> Result<int, (CompileError, int)>
    decreases t.len() - i, 0nat,
{
    let k = kind_in(t, i);
    if !(0 <= i < t.len()) || !starts_expression(k) {
        Err((CompileError::ExpectedDeclaration, step_in(t, i)))
    } else if k == TokenKind::IntegerConstant {
        if is_i32_literal(text_in(t, s, i)) {
            Ok(i + 1)
        } else {
            Err((CompileError::InvalidIntegerConstant { found: token_in(t, i) }, i + 1))
        }
    } else if k == TokenKind::Keyword(Keyword::If) {
        if_model(t, s, i + 1)
    } else if k == TokenKind::Keyword(Keyword::For) {
        for_model(t, s, i + 1)
    } else if k == TokenKind::Open(Delim::Paren) {
        function_model(t, s, i + 1)
    } else if k == TokenKind::Open(Delim::Curly) {
        block_model(t, s, i + 1)
    } else if k == TokenKind::Identifier {
        if kind_in(t, i + 1) == TokenKind::ColonEqual {
            stmt_model(t, s, i + 2)
        } else if kind_in(t, i + 1) == TokenKind::Open(Delim::Paren) {
            expect_then(t, s, i + 2, TokenKind::Closed(Delim::Paren), Ok(i + 3))
        } else {
            Ok(i + 1)
        }
    } else {
        Ok(i + 1)
    }
}

/// An expression and an optional `;` after it.
pub open spec fn expr_model(t: Seq<Token>, s: Seq<u8>, i: int) -> Result<int, (CompileError, int)>
    decreases t.len() - i, 1nat,
{
    match stmt_model(t, s, i) {
        Ok(j) => if kind_in(t, j) == TokenKind::Semi {
            Ok(j + 1)
        } else {
            Ok(j)
        },
        Err(e) => Err(e),
    }
}

/// The rest of a block from index `i` up to and including its `}`.
pub open spec fn block_model(t: Seq<Token>, s: Seq<u8>, i: int) -> Result<int, (CompileError, int)>
    decreases t.len() - i, 2nat,
{
    let k = kind_in(t, i);
    if k == TokenKind::Closed(Delim::Curly) || k == TokenKind::Eof || !(0 <= i
        <= t.len()) {
        expect_then(t, s, i, TokenKind::Closed(Delim::Curly), Ok(i + 1))
    } else {
        match expr_model(t, s, i) {
            Ok(j) => if i < j <= t.len() {
                block_model(t, s, j)
            } else {
                Err((CompileError::ExpectedDeclaration, j))
            },
            Err(e) => Err(e),
        }
    }
}

/// `{`, then the rest of a block.
pub open spec fn braced_model(t: Seq<Token>, s: Seq<u8>, i: int) -> Result<int, (CompileError, int)>
    decreases t.len() - i, 3nat,
{
    if 0 <= i < t.len() {
        expect_then(t, s, i, TokenKind::Open(Delim::Curly), block_model(t, s, i + 1))
    } else {
        expect_then(t, s, i, TokenKind::Open(Delim::Curly), Ok(i))
    }
}

/// After `if`: condition, block, then the `else` chain.
pub open spec fn if_model(t: Seq<Token>, s: Seq<u8>, i: int) -> Result<int, (CompileError, int)>
    decreases t.len() - i, 4nat,
{
    match expr_model(t, s, i) {
        Ok(j) => if i < j <= t.len() {
            match braced_model(t, s, j) {
                Ok(k) => if j < k <= t.len() {
                    else_chain_model(t, s, k)
                } else {
                    Err((CompileError::ExpectedDeclaration, k))
                },
                Err(e) => Err(e),
            }
        } else {
            Err((CompileError::ExpectedDeclaration, j))
        },
        Err(e) => Err(e),
    }
}

/// Any number of `else if` branches, then an optional `else` branch.
pub open spec fn else_chain_model(t: Seq<Token>, s: Seq<u8>, i: int) -> Result<int, (CompileError, int)>
    decreases t.len() - i, 4nat,
{
    if !(0 <= i <= t.len()) || kind_in(t, i) != TokenKind::Keyword(
        Keyword::Else,
    ) {
        Ok(i)
    } else if kind_in(t, i + 1) == TokenKind::Keyword(Keyword::If) {
        match expr_model(t, s, i + 2) {
            Ok(j) => if i < j <= t.len() {
                match braced_model(t, s, j) {
                    Ok(k) => if j < k <= t.len() {
                        else_chain_model(t, s, k)
                    } else {
                        Err((CompileError::ExpectedDeclaration, k))
                    },
                    Err(e) => Err(e),
                }
            } else {
                Err((CompileError::ExpectedDeclaration, j))
            },
            Err(e) => Err(e),
        }
    } else {
        braced_model(t, s, i + 1)
    }
}

/// After `for`: an optional iteration, then the body.
pub open spec fn for_model(t: Seq<Token>, s: Seq<u8>, i: int) -> Result<int, (CompileError, int)>
    decreases t.len() - i, 5nat,
{
    if kind_in(t, i) == TokenKind::Identifier && kind_in(t, i + 1) == TokenKind::Colon {
        match expr_model(t, s, i + 2) {
            Ok(j) => if i < j <= t.len() {
                let rk = kind_in(t, j);
                if rk == TokenKind::PeriodPeriod || rk == TokenKind::PeriodPeriodEqual {
                    match expr_model(t, s, j + 1) {
                        Ok(l) => if j < l <= t.len() {
                            braced_model(t, s, l)
                        } else {
                            Err((CompileError::ExpectedDeclaration, l))
                        },
                        Err(e) => Err(e),
                    }
                } else {
                    Err(
                        (
                            CompileError::ExpectedButFound {
                                expected: TokenKind::PeriodPeriod,
                                found: token_in(t, j),
                            },
                            step_in(t, j),
                        ),
                    )
                }
            } else {
                Err((CompileError::ExpectedDeclaration, j))
            },
            Err(e) => Err(e),
        }
    } else if kind_in(t, i) != TokenKind::Open(Delim::Curly) {
        match expr_model(t, s, i) {
            Ok(j) => if i < j <= t.len() {
                braced_model(t, s, j)
            } else {
                Err((CompileError::ExpectedDeclaration, j))
            },
            Err(e) => Err(e),
        }
    } else {
        braced_model(t, s, i)
    }
}

/// After `(`: `)`, an optional `-> i32`, then the body.
pub open spec fn function_model(t: Seq<Token>, s: Seq<u8>, i: int) -> Result<int, (CompileError, int)>
    decreases t.len() - i, 5nat,
{
    if kind_in(t, i) != TokenKind::Closed(Delim::Paren) {
        expect_then(t, s, i, TokenKind::Closed(Delim::Paren), Ok(i + 1))
    } else if kind_in(t, i + 1) == TokenKind::DashGreater {
        if kind_in(t, i + 2) == TokenKind::Keyword(Keyword::I32) {
            braced_model(t, s, i + 3)
        } else {
            expect_then(t, s, i + 2, TokenKind::Keyword(Keyword::I32), Ok(i + 3))
        }
    } else {
        braced_model(t, s, i + 1)
    }
}

/// How many expressions a block holds, from index `i` up to its `}`.
pub open spec fn block_count(t: Seq<Token>, s: Seq<u8>, i: int) -> nat
    decreases t.len() - i,
{
    let k = kind_in(t, i);
    if k == TokenKind::Closed(Delim::Curly) || k == TokenKind::Eof || !(0 <= i <= t.len()) {
        0
    } else {
        match expr_model(t, s, i) {
            Ok(j) => if i < j <= t.len() {
                1 + block_count(t, s, j)
            } else {
                0
            },
            Err(_) => 0,
        }
    }
}

/// The shape of an `else` chain from index `i`: how many `else if` branches
/// it has, and whether a final `else` branch ends it.
pub open spec fn else_chain_shape(t: Seq<Token>, s: Seq<u8>, i: int) -> (nat, bool)
    decreases t.len() - i,
{
    if !(0 <= i <= t.len()) || kind_in(t, i) != TokenKind::Keyword(Keyword::Else) {
        (0, false)
    } else if kind_in(t, i + 1) == TokenKind::Keyword(Keyword::If) {
        match expr_model(t, s, i + 2) {
            Ok(j) => if i < j <= t.len() {
                match braced_model(t, s, j) {
                    Ok(k) => if j < k <= t.len() {
                        let rest = else_chain_shape(t, s, k);
                        (rest.0 + 1, rest.1)
                    } else {
                        (0, false)
                    },
                    Err(_) => (0, false),
                }
            } else {
                (0, false)
            },
            Err(_) => (0, false),
        }
    } else {
        (0, true)
    }
}

/// `identifier :: expression`
pub open spec fn decl_model(t: Seq<Token>, s: Seq<u8>, i: int) -> Result<int, (CompileError, int)> {
    if kind_in(t, i) != TokenKind::Identifier {
        Err((CompileError::ExpectedDeclaration, step_in(t, i)))
    } else {
        expect_then(t, s, i + 1, TokenKind::ColonColon, stmt_model(t, s, i + 2))
    }
}

/// The first index at or after `i` where a declaration starts, or the end.
pub open spec fn next_decl(t: Seq<Token>, s: Seq<u8>, i: int) -> int
    decreases t.len() - i,
{
    if 0 <= i < t.len() && !decl_start_in(t, i) {
        next_decl(t, s, i + 1)
    } else {
        i
    }
}

/// The errors of the declarations from index `i` on, in order; after each
/// failed one, parsing resumes at the next declaration start.
pub open spec fn program_errors(t: Seq<Token>, s: Seq<u8>, i: int) -> Seq<CompileError>
    decreases t.len() - i,
{
    if !(0 <= i < t.len()) {
        Seq::empty()
    } else {
        match decl_model(t, s, i) {
            Ok(j) => if i < j <= t.len() {
                program_errors(t, s, j)
            } else {
                Seq::empty()
            },
            Err((e, j)) => if i < j <= next_decl(t, s, j) <= t.len() {
                seq![e] + program_errors(t, s, next_decl(t, s, j))
            } else {
                seq![e]
            },
        }
    }
}

/// Where the declarations that parse start, from index `i` on, in order.
pub open spec fn program_decl_starts(t: Seq<Token>, s: Seq<u8>, i: int) -> Seq<int>
    decreases t.len() - i,
{
    if !(0 <= i < t.len()) {
        Seq::empty()
    } else {
        match decl_model(t, s, i) {
            Ok(j) => if i < j <= t.len() {
                seq![i] + program_decl_starts(t, s, j)
            } else {
                Seq::empty()
            },
            Err((e, j)) => if i < j <= next_decl(t, s, j) <= t.len() {
                program_decl_starts(t, s, next_decl(t, s, j))
            } else {
                Seq::empty()
            },
        }
    }
}

/// Names only grow: every name of `a` keeps its handle in `b`.
pub open spec fn names_grow(a: Seq<Seq<u8>>, b: Seq<Seq<u8>>) -> bool {
    &&& a.len() <= b.len()
    &&& forall|k: int| 0 <= k < a.len() ==> #[trigger] b[k] == a[k]
}

proof fn lemma_names_grow_trans(a: Seq<Seq<u8>>, b: Seq<Seq<u8>>, c: Seq<Seq<u8>>)
    requires
        names_grow(a, b),
        names_grow(b, c),
    ensures
        names_grow(a, c),
{
    assert forall|k: int| 0 <= k < a.len() implies #[trigger] c[k] == a[k] by {
        assert(b[k] == a[k]);
    }
}

/// In the name table `n`, the symbol `sym` stands for `text`.
pub open spec fn names_at(n: Seq<Seq<u8>>, sym: crate::context::Symbol, text: Seq<u8>) -> bool {
    &&& sym.0 < n.len()
    &&& n[sym.0 as int] == text
}

// The trees that the grammar builds. Each relation says that a syntax tree
// is the one that a successful parse at index `i` builds, with names looked
// up in the table `n`. Where the parse fails, no tree is asked for.
/// `e` is the expression that a statement parse at `i` builds.
pub open spec fn stmt_tree(t: Seq<Token>, s: Seq<u8>, n: Seq<Seq<u8>>, e: Expr, i: int) -> bool
    decreases t.len() - i, 0nat,
{
    let k = kind_in(t, i);
    if !(0 <= i < t.len()) || !starts_expression(k) {
        true
    } else if k == TokenKind::IntegerConstant {
        e matches Expr::Const(Const::IntegerConstant { value }) && value == decimal_value(
            text_in(t, s, i),
        )
    } else if k == TokenKind::Keyword(Keyword::If) {
        e matches Expr::If(x) && if_tree(t, s, n, x, i + 1)
    } else if k == TokenKind::Keyword(Keyword::For) {
        e matches Expr::For(f) && for_tree(t, s, n, f, i + 1)
    } else if k == TokenKind::Open(Delim::Paren) {
        e matches Expr::Function(f) && (function_body_start(t, i + 1) <= t.len() ==> block_tree(
            t,
            s,
            n,
            f.body.exprs@,
            function_body_start(t, i + 1),
        ))
    } else if k == TokenKind::Open(Delim::Curly) {
        e matches Expr::Compound(c) && block_tree(t, s, n, c.exprs@, i + 1)
    } else if k == TokenKind::Keyword(Keyword::Break) {
        e is Break
    } else if k == TokenKind::Keyword(Keyword::Continue) {
        e is Continue
    } else if kind_in(t, i + 1) == TokenKind::ColonEqual {
        e matches Expr::BindDef(b) && names_at(n, b.identifier, text_in(t, s, i)) && stmt_tree(
            t,
            s,
            n,
            *b.value,
            i + 2,
        )
    } else if kind_in(t, i + 1) == TokenKind::Open(Delim::Paren) {
        e matches Expr::FnCall(f) && names_at(n, f.identifier, text_in(t, s, i))
    } else {
        e matches Expr::BindRef(b) && names_at(n, b.identifier, text_in(t, s, i))
    }
}

/// Where a function literal's block starts, for a literal whose `(` is
/// just before `i`.
pub open spec fn function_body_start(t: Seq<Token>, i: int) -> int {
    if kind_in(t, i + 1) == TokenKind::DashGreater {
        i + 4
    } else {
        i + 2
    }
}

/// `e` is the expression that an expression parse at `i` builds: the
/// statement's tree, wrapped in `Semi` where a `;` follows it.
pub open spec fn expr_tree(t: Seq<Token>, s: Seq<u8>, n: Seq<Seq<u8>>, e: Expr, i: int) -> bool
    decreases t.len() - i, 1nat,
{
    match stmt_model(t, s, i) {
        Ok(j) => if kind_in(t, j) == TokenKind::Semi {
            e matches Expr::Semi(inner) && stmt_tree(t, s, n, *inner, i)
        } else {
            stmt_tree(t, s, n, e, i)
        },
        Err(_) => true,
    }
}

/// `xs` are the expressions of the block whose contents start at `i`, in
/// order, up to its `}`.
pub open spec fn block_tree(t: Seq<Token>, s: Seq<u8>, n: Seq<Seq<u8>>, xs: Seq<Expr>, i: int) -> bool
    decreases t.len() - i, 2nat,
{
    let k = kind_in(t, i);
    if k == TokenKind::Closed(Delim::Curly) || k == TokenKind::Eof || !(0 <= i <= t.len()) {
        xs.len() == 0
    } else {
        match expr_model(t, s, i) {
            Ok(j) => if i < j <= t.len() {
                &&& xs.len() > 0
                &&& expr_tree(t, s, n, xs[0], i)
                &&& block_tree(t, s, n, xs.drop_first(), j)
            } else {
                false
            },
            Err(_) => true,
        }
    }
}

/// `x` is the `if` expression that a parse at `i` (just after `if`) builds.
pub open spec fn if_tree(t: Seq<Token>, s: Seq<u8>, n: Seq<Seq<u8>>, x: IfExpr, i: int) -> bool
    decreases t.len() - i, 4nat,
{
    match expr_model(t, s, i) {
        Ok(j) => if 0 <= i < j < t.len() {
            &&& expr_tree(t, s, n, *x.cond_expr, i)
            &&& block_tree(t, s, n, x.true_branch.exprs@, j + 1)
            &&& match braced_model(t, s, j) {
                Ok(k) => if j < k <= t.len() {
                    else_tree(t, s, n, x.else_if_branches@, x.final_branch, k)
                } else {
                    true
                },
                Err(_) => true,
            }
        } else {
            true
        },
        Err(_) => true,
    }
}

/// `bs` and `fin` are the `else if` branches, in order, and the final `else`
/// branch that the `else` chain from `i` builds.
pub open spec fn else_tree(
    t: Seq<Token>,
    s: Seq<u8>,
    n: Seq<Seq<u8>>,
    bs: Seq<ElseIfBranch>,
    fin: Option<CompoundExpr>,
    i: int,
) -> bool
    decreases t.len() - i, 4nat,
{
    if !(0 <= i < t.len()) || kind_in(t, i) != TokenKind::Keyword(Keyword::Else) {
        bs.len() == 0 && fin is None
    } else if kind_in(t, i + 1) == TokenKind::Keyword(Keyword::If) {
        match expr_model(t, s, i + 2) {
            Ok(j) => if i < j < t.len() {
                match braced_model(t, s, j) {
                    Ok(k) => if j < k <= t.len() {
                        &&& bs.len() > 0
                        &&& expr_tree(t, s, n, *bs[0].cond_expr, i + 2)
                        &&& block_tree(t, s, n, bs[0].true_branch.exprs@, j + 1)
                        &&& else_tree(t, s, n, bs.drop_first(), fin, k)
                    } else {
                        true
                    },
                    Err(_) => true,
                }
            } else {
                true
            },
            Err(_) => true,
        }
    } else {
        &&& bs.len() == 0
        &&& fin matches Some(f)
        &&& (i + 2 <= t.len() ==> block_tree(t, s, n, f.exprs@, i + 2))
    }
}

/// Where the `{` of a `for` loop's body stands, for a loop whose header
/// starts at `i`; `-1` where the header does not parse.
pub open spec fn for_head_end(t: Seq<Token>, s: Seq<u8>, i: int) -> int {
    if kind_in(t, i) == TokenKind::Identifier && kind_in(t, i + 1) == TokenKind::Colon {
        match expr_model(t, s, i + 2) {
            Ok(j) => match expr_model(t, s, j + 1) {
                Ok(l) => l,
                Err(_) => -1,
            },
            Err(_) => -1,
        }
    } else if kind_in(t, i) != TokenKind::Open(Delim::Curly) {
        match expr_model(t, s, i) {
            Ok(j) => j,
            Err(_) => -1,
        }
    } else {
        i
    }
}

/// `it` is the iteration that a `for` header at `i` builds: a range with
/// its name, bounds and kind, a condition, or none.
pub open spec fn iteration_tree(
    t: Seq<Token>,
    s: Seq<u8>,
    n: Seq<Seq<u8>>,
    it: Option<ForIteration>,
    i: int,
) -> bool
    decreases t.len() - i, 3nat,
{
    if !(0 <= i <= t.len()) {
        true
    } else if kind_in(t, i) == TokenKind::Identifier && kind_in(t, i + 1) == TokenKind::Colon {
        &&& it matches Some(ForIteration::Iterative { identifier, start_expr, end_expr, range_kind })
        &&& names_at(n, identifier, text_in(t, s, i))
        &&& expr_tree(t, s, n, *start_expr, i + 2)
        &&& match expr_model(t, s, i + 2) {
            Ok(j) => if i < j < t.len() {
                &&& ((range_kind == RangeKind::Inclusive) <==> kind_in(t, j)
                    == TokenKind::PeriodPeriodEqual)
                &&& expr_tree(t, s, n, *end_expr, j + 1)
            } else {
                true
            },
            Err(_) => true,
        }
    } else if kind_in(t, i) != TokenKind::Open(Delim::Curly) {
        it matches Some(ForIteration::Conditional { cond_expr }) && expr_tree(t, s, n, *cond_expr, i)
    } else {
        it is None
    }
}

/// `f` is the `for` loop that a parse at `i` (just after `for`) builds.
pub open spec fn for_tree(t: Seq<Token>, s: Seq<u8>, n: Seq<Seq<u8>>, f: ForExpr, i: int) -> bool
    decreases t.len() - i, 4nat,
{
    let h = for_head_end(t, s, i);
    &&& iteration_tree(t, s, n, f.iteration, i)
    &&& (0 <= i <= h < t.len() ==> block_tree(t, s, n, f.body.exprs@, h + 1))
}

/// The declaration `d` is the one that a parse at `i` builds: its name is
/// the identifier's text, its value the statement after `::`.
pub open spec fn decl_tree(t: Seq<Token>, s: Seq<u8>, n: Seq<Seq<u8>>, d: Decl, i: int) -> bool {
    &&& names_at(n, d.identifier, text_in(t, s, i))
    &&& stmt_tree(t, s, n, *d.value, i + 2)
}


/// Consumes a pre-scanned token buffer and builds the syntax tree.
pub struct Parser {
    ctx: CompilerContext,
    tokens: Vec<Token>,
    current_token_idx: usize,
}

impl Parser {
    pub closed spec fn context(&self) -> CompilerContext {
        self.ctx
    }

    pub closed spec fn tokens_view(&self) -> Seq<Token> {
        self.tokens@
    }

    /// The index of the next token to consume.
    pub closed spec fn cursor(&self) -> int {
        self.current_token_idx as int
    }

    pub open spec fn wf(&self) -> bool {
        &&& self.context().wf()
        &&& 0 <= self.cursor() <= self.tokens_view().len()
        &&& spans_within(self.tokens_view(), self.context().source_view().len() as int)
    }

    /// The token at index `i`, or the end-of-stream sentinel past the end.
    pub open spec fn token_at(&self, i: int) -> Token {
        token_in(self.tokens_view(), i)
    }

    pub open spec fn kind_at(&self, i: int) -> TokenKind {
        kind_in(self.tokens_view(), i)
    }

    /// The source text of the token at index `i`.
    pub open spec fn token_text(&self, i: int) -> Seq<u8> {
        text_in(self.tokens_view(), self.context().source_view(), i)
    }

    /// The cursor position after consuming one token at `i`.
    pub open spec fn step(&self, i: int) -> int {
        step_in(self.tokens_view(), i)
    }

    /// `self` is a later state of the parse that was in `prev`: same tokens
    /// and source, names only added, cursor not moved back.
    pub open spec fn extends(&self, prev: &Parser) -> bool {
        &&& self.wf()
        &&& self.tokens_view() == prev.tokens_view()
        &&& self.context().source_view() == prev.context().source_view()
        &&& names_grow(prev.context().names_view(), self.context().names_view())
        &&& prev.cursor() <= self.cursor()
    }

    /// The interned text of `sym` is `text`.
    pub open spec fn names(&self, sym: crate::context::Symbol, text: Seq<u8>) -> bool {
        &&& sym.0 < self.context().names_view().len()
        &&& self.context().names_view()[sym.0 as int] == text
    }

    pub fn new(tokens: Vec<Token>, ctx: CompilerContext) -> (r: Parser)
        requires
            ctx.wf(),
            spans_within(tokens@, ctx.source_view().len() as int),
        ensures
            r.wf(),
            r.context() == ctx,
            r.tokens_view() == tokens@,
            r.cursor() == 0,
    {
        Parser { ctx, tokens, current_token_idx: 0 }
    }

    /// Gives back the context, with every name interned during the parse.
    pub fn into_context(self) -> (r: CompilerContext)
        ensures
            r == self.context(),
    {
        self.ctx
    }

    pub fn peek(&self) -> (r: Token)
        requires
            self.wf(),
        ensures
            r == self.token_at(self.cursor()),
    {
        if self.current_token_idx < self.tokens.len() {
            self.tokens[self.current_token_idx]
        } else {
            Token::eof()
        }
    }

    pub fn look_ahead(&self, amount: usize) -> (r: Token)
        requires
            self.wf(),
        ensures
            r == self.token_at(self.cursor() + amount),
    {
        if amount < self.tokens.len() - self.current_token_idx {
            self.tokens[self.current_token_idx + amount]
        } else {
            Token::eof()
        }
    }

    /// Returns the current token and moves past it, unless at the end.
    pub fn consume(&mut self) -> (r: Token)
        requires
            old(self).wf(),
        ensures
            r == old(self).token_at(old(self).cursor()),
            final(self).cursor() == old(self).step(old(self).cursor()),
            final(self).context() == old(self).context(),
            final(self).tokens_view() == old(self).tokens_view(),
            final(self).wf(),
    {
        let peeked_tok = self.peek();
        if self.current_token_idx < self.tokens.len() {
            self.current_token_idx = self.current_token_idx + 1;
        }
        peeked_tok
    }

    /// Consumes a token, which must be of kind `expected_kind`.
    pub fn expect_and_consume(&mut self, expected_kind: TokenKind) -> (r: Result<
        Token,
        CompileError,
    >)
        requires
            old(self).wf(),
        ensures
            final(self).cursor() == old(self).step(old(self).cursor()),
            final(self).context() == old(self).context(),
            final(self).tokens_view() == old(self).tokens_view(),
            final(self).wf(),
            old(self).kind_at(old(self).cursor()) == expected_kind ==> r == Ok::<
                Token,
                CompileError,
            >(old(self).token_at(old(self).cursor())),
            old(self).kind_at(old(self).cursor()) != expected_kind ==> r == Err::<
                Token,
                CompileError,
            >(
                CompileError::ExpectedButFound {
                    expected: expected_kind,
                    found: old(self).token_at(old(self).cursor()),
                },
            ),
    {
        let token = self.consume();
        if token.kind == expected_kind {
            Ok(token)
        } else {
            Err(CompileError::ExpectedButFound { expected: expected_kind, found: token })
        }
    }

    /// Consumes a token, which must be of kind `expected_kind`; otherwise the
    /// error is what `f` makes of the token found.
    pub fn expect_and_consume_or_else<F>(&mut self, expected_kind: TokenKind, f: F) -> (r: Result<
        Token,
        CompileError,
    >) where F: FnOnce(Token) -> CompileError
        requires
            old(self).wf(),
            f.requires((old(self).token_at(old(self).cursor()),)),
        ensures
            final(self).cursor() == old(self).step(old(self).cursor()),
            final(self).context() == old(self).context(),
            final(self).tokens_view() == old(self).tokens_view(),
            final(self).wf(),
            old(self).kind_at(old(self).cursor()) == expected_kind ==> r == Ok::<
                Token,
                CompileError,
            >(old(self).token_at(old(self).cursor())),
            old(self).kind_at(old(self).cursor()) != expected_kind ==> (r matches Err(e)
                && f.ensures((old(self).token_at(old(self).cursor()),), e)),
    {
        let token = self.consume();
        if token.kind == expected_kind {
            Ok(token)
        } else {
            Err(f(token))
        }
    }

    pub fn has_reached_eof(&self) -> (r: bool)
        requires
            self.wf(),
        ensures
            r == (self.cursor() >= self.tokens_view().len()),
    {
        self.current_token_idx >= self.tokens.len()
    }

    /// A declaration starts at `i`: an identifier followed by `::`.
    pub open spec fn decl_starts_at(&self, i: int) -> bool {
        decl_start_in(self.tokens_view(), i)
    }

    /// `n` is this parser's name table or a later, larger one.
    pub open spec fn later_names(&self, n: Seq<Seq<u8>>) -> bool {
        names_grow(self.context().names_view(), n)
    }

    /// The source text that this parser's tokens point into.
    pub open spec fn src(&self) -> Seq<u8> {
        self.context().source_view()
    }

    /// Parses every top-level declaration. After a malformed declaration it
    /// skips to the next `identifier ::` and goes on, so one bad declaration
    /// hides none of those after it.
    pub fn parse_program(&mut self) -> (r: Result<Program, Diagnostic>)
        requires
            old(self).wf(),
        ensures
            r is Ok <==> program_errors(old(self).tokens_view(), old(self).src(), old(self).cursor()).len() == 0,
            r matches Err(d) ==> d.compile_errors@ == program_errors(
                old(self).tokens_view(),
                old(self).src(),
                old(self).cursor(),
            ),
            r matches Ok(p) ==> p.decls@.len() == program_decl_starts(
                old(self).tokens_view(),
                old(self).src(),
                old(self).cursor(),
            ).len() && forall|k: int, n: Seq<Seq<u8>>|
                0 <= k < p.decls@.len() && final(self).later_names(n) ==> #[trigger] decl_tree(
                        old(self).tokens_view(),
                        old(self).src(),
                        n,
                        p.decls@[k],
                        program_decl_starts(old(self).tokens_view(), old(self).src(), old(self).cursor())[k],
                    ),
            final(self).extends(old(self)),
            final(self).cursor() == final(self).tokens_view().len(),
            r matches Err(d) ==> d.compile_errors@.len() > 0,
            r matches Ok(p) ==> forall|i: int|
                0 <= i < p.decls@.len() ==> (#[trigger] p.decls@[i]).identifier.0
                    < final(self).context().names_view().len(),
            old(self).cursor() == old(self).tokens_view().len() ==> (r matches Ok(p)
                && p.decls@.len() == 0),
            old(self).cursor() < old(self).tokens_view().len() && !old(self).decl_starts_at(
                old(self).cursor(),
            ) ==> r is Err,
            old(self).cursor() < old(self).tokens_view().len() ==> (r matches Ok(p)
                ==> p.decls@.len() > 0),
    {
        let mut decls: Vec<Decl> = Vec::new();
        let mut compile_errors: Vec<CompileError> = Vec::new();
        let ghost mut done: Seq<int> = Seq::empty();
        while !self.has_reached_eof()
            invariant
                self.extends(old(self)),
                old(self).cursor() == old(self).tokens_view().len() ==> decls@.len() == 0
                    && compile_errors@.len() == 0,
                old(self).cursor() < self.cursor() ==> decls@.len() + compile_errors@.len() > 0,
                old(self).cursor() < self.cursor() && !old(self).decl_starts_at(old(self).cursor())
                    ==> compile_errors@.len() > 0,
                forall|i: int|
                    0 <= i < decls@.len() ==> (#[trigger] decls@[i]).identifier.0
                        < self.context().names_view().len(),
                compile_errors@ + program_errors(old(self).tokens_view(), old(self).src(), self.cursor())
                    == program_errors(old(self).tokens_view(), old(self).src(), old(self).cursor()),
                done + program_decl_starts(old(self).tokens_view(), old(self).src(), self.cursor())
                    == program_decl_starts(old(self).tokens_view(), old(self).src(), old(self).cursor()),
                done.len() == decls@.len(),
                forall|k: int, n: Seq<Seq<u8>>|
                    0 <= k < decls@.len() && self.later_names(n) ==> #[trigger] decl_tree(
                        old(self).tokens_view(),
                        old(self).src(),
                        n,
                        decls@[k],
                        done[k],
                    ),
            decreases self.tokens_view().len() - self.cursor(),
        {
            let ghost t = old(self).tokens_view();
            let ghost src = old(self).src();
            let ghost c = self.cursor();
            let ghost errs = compile_errors@;
            let ghost errs_starts = program_decl_starts(t, src, c);
            match self.parse_decl() {
                Ok(decl) => {
                    decls.push(decl);
                    proof {
                        let before = done;
                        done = done.push(c);
                        assert(done + program_decl_starts(t, src, self.cursor()) =~= before
                            + errs_starts);
                    }
                },
                Err(error) => {
                    compile_errors.push(error);
                    self.skip_to_next_decl();
                    assert(compile_errors@ + program_errors(t, src, self.cursor()) =~= errs + (seq![
                        error,
                    ] + program_errors(t, src, self.cursor())));
                },
            }
        }
        assert(compile_errors@ + program_errors(old(self).tokens_view(), old(self).src(), self.cursor())
            =~= compile_errors@);
        if compile_errors.len() == 0 {
            Ok(Program { decls })
        } else {
            Err(Diagnostic { compile_errors })
        }
    }

    /// Skips tokens up to the next `identifier ::`, or to the end.
    pub fn skip_to_next_decl(&mut self)
        requires
            old(self).wf(),
        ensures
            final(self).cursor() == next_decl(old(self).tokens_view(), old(self).src(), old(self).cursor()),
            final(self).context() == old(self).context(),
            final(self).tokens_view() == old(self).tokens_view(),
            final(self).wf(),
            old(self).cursor() <= final(self).cursor(),
            final(self).cursor() == final(self).tokens_view().len() || final(self).decl_starts_at(
                final(self).cursor(),
            ),
            forall|i: int|
                old(self).cursor() <= i < final(self).cursor() ==> !old(self).decl_starts_at(i),
    {
        while !self.has_reached_eof()
            invariant
                self.context() == old(self).context(),
                self.tokens_view() == old(self).tokens_view(),
                self.wf(),
                old(self).cursor() <= self.cursor(),
                forall|i: int|
                    old(self).cursor() <= i < self.cursor() ==> !old(self).decl_starts_at(i),
                next_decl(old(self).tokens_view(), old(self).src(), self.cursor()) == next_decl(
                    old(self).tokens_view(),
                    old(self).src(),
                    old(self).cursor(),
                ),
            decreases self.tokens_view().len() - self.cursor(),
        {
            if self.peek().kind == TokenKind::Identifier && self.look_ahead(1).kind
                == TokenKind::ColonColon {
                return ;
            }
            self.consume();
        }
    }

    /// `identifier :: expression`
    pub fn parse_decl(&mut self) -> (r: Result<Decl, CompileError>)
        requires
            old(self).wf(),
        ensures
            r matches Ok(d) ==> forall|n: Seq<Seq<u8>>|
                final(self).later_names(n) ==> #[trigger] decl_tree(old(self).tokens_view(), old(self).src(), n, d, old(self).cursor()),
            agrees(r, decl_model(old(self).tokens_view(), old(self).src(), old(self).cursor()), final(self).cursor()),
            final(self).extends(old(self)),
            old(self).cursor() < old(self).tokens_view().len() ==> old(self).cursor()
                < final(self).cursor(),
            old(self).kind_at(old(self).cursor()) != TokenKind::Identifier ==> r == Err::<
                Decl,
                CompileError,
            >(CompileError::ExpectedDeclaration),
            old(self).kind_at(old(self).cursor()) == TokenKind::Identifier && old(self).kind_at(
                old(self).cursor() + 1,
            ) != TokenKind::ColonColon ==> r == Err::<Decl, CompileError>(
                CompileError::ExpectedButFound {
                    expected: TokenKind::ColonColon,
                    found: old(self).token_at(old(self).cursor() + 1),
                },
            ),
            old(self).decl_starts_at(old(self).cursor()) && !starts_expression(
                old(self).kind_at(old(self).cursor() + 2),
            ) ==> r == Err::<Decl, CompileError>(CompileError::ExpectedDeclaration),
            r matches Ok(d) ==> old(self).decl_starts_at(old(self).cursor()) && final(self).names(
                d.identifier,
                old(self).token_text(old(self).cursor()),
            ),
    {
        let not_a_decl = (|_found: Token| -> (e: CompileError)
            ensures
                e == CompileError::ExpectedDeclaration,
            { CompileError::ExpectedDeclaration });
        let ident_tok = match self.expect_and_consume_or_else(TokenKind::Identifier, not_a_decl) {
            Ok(t) => t,
            Err(e) => return Err(e),
        };
        match self.expect_and_consume(TokenKind::ColonColon) {
            Ok(_) => {},
            Err(e) => return Err(e),
        }
        let expr = match self.parse_statement_expr() {
            Ok(e) => e,
            Err(e) => return Err(e),
        };
        let identifier = self.intern_token(ident_tok);
        Ok(Decl { identifier, value: Box::new(expr) })
    }

    /// One expression, chosen by the kind of its first token.
    pub fn parse_statement_expr(&mut self) -> (r: Result<Expr, CompileError>)
        requires
            old(self).wf(),
        ensures
            r matches Ok(e) ==> forall|n: Seq<Seq<u8>>|
                final(self).later_names(n) ==> #[trigger] stmt_tree(old(self).tokens_view(), old(self).src(), n, e, old(self).cursor()),
            agrees(r, stmt_model(old(self).tokens_view(), old(self).src(), old(self).cursor()), final(self).cursor()),
            final(self).extends(old(self)),
            r is Ok ==> old(self).cursor() < final(self).cursor(),
            r matches Ok(e) ==> !(e is Semi) && old(self).kind_at(final(self).cursor() - 1)
                != TokenKind::Semi,
            ({
                let c = old(self).cursor();
                let k = old(self).kind_at(c);
                !starts_expression(k) ==> r == Err::<Expr, CompileError>(
                CompileError::ExpectedDeclaration,
            ) && final(self).cursor() == old(self).step(c)
            }),
            ({
                let c = old(self).cursor();
                let k = old(self).kind_at(c);
                k == TokenKind::IntegerConstant ==> {
                &&& is_i32_literal(old(self).token_text(c)) ==> (r matches Ok(
                    Expr::Const(Const::IntegerConstant { value }),
                ) && value == decimal_value(old(self).token_text(c)))
                &&& !is_i32_literal(old(self).token_text(c)) ==> r == Err::<
                    Expr,
                    CompileError,
                >(CompileError::InvalidIntegerConstant { found: old(self).token_at(c) })
                &&& final(self).cursor() == c + 1
            }
            }),
            ({
                let c = old(self).cursor();
                let k = old(self).kind_at(c);
                k == TokenKind::Keyword(Keyword::Break) ==> (r matches Ok(Expr::Break)
                && final(self).cursor() == c + 1)
            }),
            ({
                let c = old(self).cursor();
                let k = old(self).kind_at(c);
                k == TokenKind::Keyword(Keyword::Continue) ==> (r matches Ok(Expr::Continue)
                && final(self).cursor() == c + 1)
            }),
            ({
                let c = old(self).cursor();
                let k = old(self).kind_at(c);
                k == TokenKind::Keyword(Keyword::If) ==> (r matches Ok(e) ==> e is If)
            }),
            ({
                let c = old(self).cursor();
                let k = old(self).kind_at(c);
                k == TokenKind::Keyword(Keyword::For) ==> (r matches Ok(e) ==> e is For)
            }),
            ({
                let c = old(self).cursor();
                let k = old(self).kind_at(c);
                k == TokenKind::Open(Delim::Paren) ==> (r matches Ok(e) ==> e is Function)
            }),
            ({
                let c = old(self).cursor();
                let k = old(self).kind_at(c);
                k == TokenKind::Open(Delim::Curly) ==> (r matches Ok(e) ==> e is Compound)
            }),
            ({
                let c = old(self).cursor();
                let k = old(self).kind_at(c);
                k == TokenKind::Identifier ==> {
                let next = old(self).kind_at(c + 1);
                &&& next == TokenKind::ColonEqual ==> (r matches Ok(e) ==> (e matches Expr::BindDef(
                    b,
                ) && final(self).names(b.identifier, old(self).token_text(c))))
                &&& next == TokenKind::Open(Delim::Paren) ==> {
                    &&& old(self).kind_at(c + 2) == TokenKind::Closed(Delim::Paren) ==> (r matches Ok(
                        Expr::FnCall(f),
                    ) && final(self).names(f.identifier, old(self).token_text(c))
                        && final(self).cursor() == c + 3)
                    &&& old(self).kind_at(c + 2) != TokenKind::Closed(Delim::Paren) ==> r
                        == Err::<Expr, CompileError>(
                        CompileError::ExpectedButFound {
                            expected: TokenKind::Closed(Delim::Paren),
                            found: old(self).token_at(c + 2),
                        },
                    )
                }
                &&& next != TokenKind::ColonEqual && next != TokenKind::Open(Delim::Paren) ==> (
                r matches Ok(Expr::BindRef(b)) && final(self).names(
                    b.identifier,
                    old(self).token_text(c),
                ) && final(self).cursor() == c + 1)
            }
            }),
        decreases old(self).tokens_view().len() - old(self).cursor(), 0nat,
    {
        let ghost t = old(self).tokens_view();
        let ghost src = old(self).src();
        let ghost c = old(self).cursor();
        let tok = self.consume();
        match tok.kind {
            TokenKind::IntegerConstant => {
                let text = self.ctx.get_text_snippet(tok.span);
                match parse_integer_literal(text.as_slice()) {
                    Some(value) => {
                        let e = Expr::Const(Const::IntegerConstant { value });
                        assert forall|n: Seq<Seq<u8>>| self.later_names(n) implies #[trigger] stmt_tree(
                            t,
                            src,
                            n,
                            e,
                            c,
                        ) by {}
                        Ok(e)
                    },
                    None => Err(CompileError::InvalidIntegerConstant { found: tok }),
                }
            },
            TokenKind::Keyword(Keyword::If) => {
                let r = self.parse_if_expr();
                if let Ok(e) = &r {
                    assert forall|n: Seq<Seq<u8>>| self.later_names(n) implies #[trigger] stmt_tree(
                        t,
                        src,
                        n,
                        *e,
                        c,
                    ) by {
                        assert(kind_in(t, c) == TokenKind::Keyword(Keyword::If));
                        assert(0 <= c < t.len());
                        if let Expr::If(x) = e {
                            assert(if_tree(t, src, n, *x, c + 1));
                        }
                    }
                }
                r
            },
            TokenKind::Keyword(Keyword::For) => {
                let r = self.parse_for_expr();
                if let Ok(e) = &r {
                    assert forall|n: Seq<Seq<u8>>| self.later_names(n) implies #[trigger] stmt_tree(
                        t,
                        src,
                        n,
                        *e,
                        c,
                    ) by {
                        assert(kind_in(t, c) == TokenKind::Keyword(Keyword::For));
                        assert(0 <= c < t.len());
                        if let Expr::For(f) = e {
                            assert(for_tree(t, src, n, *f, c + 1));
                        }
                    }
                }
                r
            },
            TokenKind::Keyword(Keyword::Break) => self.parse_break_expr(),
            TokenKind::Keyword(Keyword::Continue) => self.parse_continue_expr(),
            TokenKind::Open(Delim::Paren) => {
                let r = self.parse_function();
                if let Ok(e) = &r {
                    assert forall|n: Seq<Seq<u8>>| self.later_names(n) implies #[trigger] stmt_tree(
                        t,
                        src,
                        n,
                        *e,
                        c,
                    ) by {
                        assert(kind_in(t, c) == TokenKind::Open(Delim::Paren));
                        assert(0 <= c < t.len());
                        if let Expr::Function(f) = e {
                            assert(block_tree(t, src, n, f.body.exprs@, function_body_start(t, c + 1)));
                        }
                    }
                }
                r
            },
            TokenKind::Open(Delim::Curly) => match self.parse_compound_expr(tok) {
                Ok(compound) => {
                    let e = Expr::Compound(compound);
                    assert forall|n: Seq<Seq<u8>>| self.later_names(n) implies #[trigger] stmt_tree(
                        t,
                        src,
                        n,
                        e,
                        c,
                    ) by {
                        assert(kind_in(t, c) == TokenKind::Open(Delim::Curly));
                        assert(0 <= c < t.len());
                        assert(block_tree(t, src, n, compound.exprs@, c + 1));
                    }
                    Ok(e)
                },
                Err(e) => Err(e),
            },
            TokenKind::Identifier => {
                if self.peek().kind == TokenKind::ColonEqual {
                    self.consume();
                    let value = match self.parse_statement_expr() {
                        Ok(v) => v,
                        Err(e) => return Err(e),
                    };
                    let ghost mid = self.context().names_view();
                    let identifier = self.intern_token(tok);
                    let e = Expr::BindDef(BindDef { identifier, value: Box::new(value) });
                    assert forall|n: Seq<Seq<u8>>| self.later_names(n) implies #[trigger] stmt_tree(
                        t,
                        src,
                        n,
                        e,
                        c,
                    ) by {
                        assert(names_grow(mid, n));
                        assert(stmt_tree(t, src, n, value, c + 2));
                    }
                    Ok(e)
                } else if self.peek().kind == TokenKind::Open(Delim::Paren) {
                    self.consume();
                    match self.expect_and_consume(TokenKind::Closed(Delim::Paren)) {
                        Ok(_) => {},
                        Err(e) => return Err(e),
                    }
                    let identifier = self.intern_token(tok);
                    let e = Expr::FnCall(FnCallExpr { identifier });
                    assert forall|n: Seq<Seq<u8>>| self.later_names(n) implies #[trigger] stmt_tree(
                        t,
                        src,
                        n,
                        e,
                        c,
                    ) by {}
                    Ok(e)
                } else {
                    let identifier = self.intern_token(tok);
                    let e = Expr::BindRef(BindRef { identifier });
                    assert forall|n: Seq<Seq<u8>>| self.later_names(n) implies #[trigger] stmt_tree(
                        t,
                        src,
                        n,
                        e,
                        c,
                    ) by {}
                    Ok(e)
                }
            },
            _ => Err(CompileError::ExpectedDeclaration),
        }
    }

    /// An expression, wrapped in `Semi` when a `;` follows it.
    pub fn parse_expr(&mut self) -> (r: Result<Expr, CompileError>)
        requires
            old(self).wf(),
        ensures
            r matches Ok(e) ==> forall|n: Seq<Seq<u8>>|
                final(self).later_names(n) ==> #[trigger] expr_tree(old(self).tokens_view(), old(self).src(), n, e, old(self).cursor()),
            agrees(r, expr_model(old(self).tokens_view(), old(self).src(), old(self).cursor()), final(self).cursor()),
            final(self).extends(old(self)),
            r is Ok ==> old(self).cursor() < final(self).cursor(),
            !starts_expression(old(self).kind_at(old(self).cursor())) ==> r == Err::<
                Expr,
                CompileError,
            >(CompileError::ExpectedDeclaration) && final(self).cursor() == old(self).step(
                old(self).cursor(),
            ),
            r matches Ok(e) ==> ((e is Semi) <==> old(self).kind_at(final(self).cursor() - 1)
                == TokenKind::Semi),
        decreases old(self).tokens_view().len() - old(self).cursor(), 1nat,
    {
        let stmt_expr = match self.parse_statement_expr() {
            Ok(e) => e,
            Err(e) => return Err(e),
        };
        let ghost t = old(self).tokens_view();
        let ghost src = old(self).src();
        let ghost c = old(self).cursor();
        if self.peek().kind == TokenKind::Semi {
            self.consume();
            let e = Expr::Semi(Box::new(stmt_expr));
            assert forall|n: Seq<Seq<u8>>| self.later_names(n) implies #[trigger] expr_tree(
                t,
                src,
                n,
                e,
                c,
            ) by {
                assert(stmt_tree(t, src, n, stmt_expr, c));
            }
            Ok(e)
        } else {
            assert forall|n: Seq<Seq<u8>>| self.later_names(n) implies #[trigger] expr_tree(
                t,
                src,
                n,
                stmt_expr,
                c,
            ) by {
                assert(stmt_tree(t, src, n, stmt_expr, c));
            }
            Ok(stmt_expr)
        }
    }

    /// After `if`: condition, block, any `else if` branches, optional `else`.
    pub fn parse_if_expr(&mut self) -> (r: Result<Expr, CompileError>)
        requires
            old(self).wf(),
        ensures
            r matches Ok(Expr::If(x)) ==> forall|n: Seq<Seq<u8>>|
                final(self).later_names(n) ==> #[trigger] if_tree(
                    old(self).tokens_view(),
                    old(self).src(),
                    n,
                    x,
                    old(self).cursor(),
                ),
            r matches Ok(Expr::If(x)) ==> else_chain_shape(
                old(self).tokens_view(),
                old(self).src(),
                braced_model(
                    old(self).tokens_view(),
                    old(self).src(),
                    expr_model(old(self).tokens_view(), old(self).src(), old(self).cursor())->Ok_0,
                )->Ok_0,
            ) == (x.else_if_branches@.len(), x.final_branch is Some),
            agrees(r, if_model(old(self).tokens_view(), old(self).src(), old(self).cursor()), final(self).cursor()),
            final(self).extends(old(self)),
            r is Ok ==> old(self).cursor() < final(self).cursor(),
            r matches Ok(e) ==> e is If,
            r matches Ok(Expr::If(i)) ==> (i.final_branch is None ==> old(self).kind_at(
                final(self).cursor(),
            ) != TokenKind::Keyword(Keyword::Else)),
            r is Ok ==> old(self).kind_at(final(self).cursor() - 1) == TokenKind::Closed(Delim::Curly),
        decreases old(self).tokens_view().len() - old(self).cursor(), 2nat,
    {
        let ghost t = old(self).tokens_view();
        let ghost src = old(self).src();
        let ghost c = old(self).cursor();
        let cond_expr = match self.parse_expr() {
            Ok(e) => e,
            Err(e) => return Err(e),
        };
        let ghost jc = self.cursor();
        let ghost names_cond = self.context().names_view();
        let open_curly_tok = match self.expect_and_consume(TokenKind::Open(Delim::Curly)) {
            Ok(t) => t,
            Err(e) => return Err(e),
        };
        let true_branch = match self.parse_compound_expr(open_curly_tok) {
            Ok(c) => c,
            Err(e) => return Err(e),
        };
        let mut else_if_branches: Vec<ElseIfBranch> = Vec::new();
        let ghost k0 = self.cursor();
        let ghost names_true = self.context().names_view();
        proof {
            assert forall|n: Seq<Seq<u8>>| names_grow(names_true, n) implies expr_tree(
                t,
                src,
                n,
                cond_expr,
                c,
            ) && block_tree(t, src, n, true_branch.exprs@, jc + 1) && braced_model(t, src, jc)
                == Ok::<int, (CompileError, int)>(k0) by {
                lemma_names_grow_trans(names_cond, names_true, n);
            }
        }
        while self.peek().kind == TokenKind::Keyword(Keyword::Else)
            invariant
                else_if_branches@.len() + else_chain_shape(t, src, self.cursor()).0 == else_chain_shape(
                    t,
                    src,
                    k0,
                ).0,
                else_chain_shape(t, src, self.cursor()).1 == else_chain_shape(t, src, k0).1,
                t == old(self).tokens_view(),
                src == old(self).src(),
                names_grow(names_true, self.context().names_view()),
                forall|bs: Seq<ElseIfBranch>, fin: Option<CompoundExpr>, n: Seq<Seq<u8>>|
                    self.later_names(n) && #[trigger] else_tree(t, src, n, bs, fin, self.cursor())
                        ==> else_tree(t, src, n, else_if_branches@ + bs, fin, k0),
                self.extends(old(self)),
                old(self).cursor() < self.cursor(),
                old(self).kind_at(self.cursor() - 1) == TokenKind::Closed(Delim::Curly),
                else_chain_model(old(self).tokens_view(), old(self).src(), self.cursor()) == if_model(
                    old(self).tokens_view(),
                    old(self).src(),
                    old(self).cursor(),
                ),
            ensures
                else_if_branches@.len() + else_chain_shape(t, src, self.cursor()).0 == else_chain_shape(
                    t,
                    src,
                    k0,
                ).0,
                else_chain_shape(t, src, self.cursor()).1 == else_chain_shape(t, src, k0).1,
                names_grow(names_true, self.context().names_view()),
                forall|bs: Seq<ElseIfBranch>, fin: Option<CompoundExpr>, n: Seq<Seq<u8>>|
                    self.later_names(n) && #[trigger] else_tree(t, src, n, bs, fin, self.cursor())
                        ==> else_tree(t, src, n, else_if_branches@ + bs, fin, k0),
                self.extends(old(self)),
                old(self).cursor() < self.cursor(),
                old(self).kind_at(self.cursor() - 1) == TokenKind::Closed(Delim::Curly),
                else_chain_model(old(self).tokens_view(), old(self).src(), self.cursor()) == if_model(
                    old(self).tokens_view(),
                    old(self).src(),
                    old(self).cursor(),
                ),
                old(self).kind_at(self.cursor()) == TokenKind::Keyword(Keyword::Else) ==> old(
                    self,
                ).kind_at(self.cursor() + 1) != TokenKind::Keyword(Keyword::If),
            decreases self.tokens_view().len() - self.cursor(),
        {
            if self.look_ahead(1).kind != TokenKind::Keyword(Keyword::If) {
                break ;
            }
            let ghost c0 = self.cursor();
            self.consume();
            self.consume();
            assert(self.cursor() == c0 + 2);
            let ghost names_loop = self.context().names_view();
            let cond_expr = match self.parse_expr() {
                Ok(e) => e,
                Err(e) => return Err(e),
            };
            let ghost j = self.cursor();
            let ghost names_c = self.context().names_view();
            let open_curly_tok = match self.expect_and_consume(TokenKind::Open(Delim::Curly)) {
                Ok(t) => t,
                Err(e) => return Err(e),
            };
            let true_branch = match self.parse_compound_expr(open_curly_tok) {
                Ok(c) => c,
                Err(e) => return Err(e),
            };
            let ghost before = else_if_branches@;
            let br = ElseIfBranch { cond_expr: Box::new(cond_expr), true_branch };
            else_if_branches.push(br);
            proof {
                lemma_names_grow_trans(names_true, names_loop, self.context().names_view());
                assert forall|bs: Seq<ElseIfBranch>, fin: Option<CompoundExpr>, n: Seq<Seq<u8>>|
                    self.later_names(n) && #[trigger] else_tree(t, src, n, bs, fin, self.cursor())
                        implies else_tree(t, src, n, else_if_branches@ + bs, fin, k0) by {
                    lemma_names_grow_trans(names_c, self.context().names_view(), n);
                    lemma_names_grow_trans(names_loop, self.context().names_view(), n);
                    let zs = seq![br] + bs;
                    assert(zs.drop_first() =~= bs);
                    assert(zs[0] == br);
                    assert(expr_tree(t, src, n, *br.cond_expr, c0 + 2));
                    assert(block_tree(t, src, n, br.true_branch.exprs@, j + 1));
                    assert(braced_model(t, src, j) == Ok::<int, (CompileError, int)>(self.cursor()));
                    assert(else_tree(t, src, n, zs, fin, c0));
                    assert(else_if_branches@ + bs =~= before + zs);
                }
            }
        }
        let ghost k_end = self.cursor();
        let ghost names_end = self.context().names_view();
        let final_branch = if self.peek().kind == TokenKind::Keyword(Keyword::Else) {
            assert(else_chain_model(t, src, self.cursor()) == braced_model(t, src, self.cursor() + 1));
            self.consume();
            let open_curly_tok = match self.expect_and_consume(TokenKind::Open(Delim::Curly)) {
                Ok(t) => t,
                Err(e) => return Err(e),
            };
            match self.parse_compound_expr(open_curly_tok) {
                Ok(fb) => {
                    assert(kind_in(t, k_end) == TokenKind::Keyword(Keyword::Else));
                    assert(kind_in(t, k_end + 1) != TokenKind::Keyword(Keyword::If));
                    assert forall|n: Seq<Seq<u8>>| self.later_names(n) implies #[trigger] else_tree(
                        t,
                        src,
                        n,
                        Seq::<ElseIfBranch>::empty(),
                        Some(fb),
                        k_end,
                    ) by {
                        assert(block_tree(t, src, n, fb.exprs@, k_end + 2));
                    }
                    Some(fb)
                },
                Err(e) => return Err(e),
            }
        } else {
            assert forall|n: Seq<Seq<u8>>| self.later_names(n) implies #[trigger] else_tree(
                t,
                src,
                n,
                Seq::<ElseIfBranch>::empty(),
                None,
                k_end,
            ) by {}
            None
        };
        let x = IfExpr { cond_expr: Box::new(cond_expr), true_branch, else_if_branches, final_branch };
        proof {
            lemma_names_grow_trans(names_true, names_end, self.context().names_view());
            assert forall|n: Seq<Seq<u8>>| self.later_names(n) implies #[trigger] if_tree(
                t,
                src,
                n,
                x,
                c,
            ) by {
                lemma_names_grow_trans(names_true, self.context().names_view(), n);
                lemma_names_grow_trans(names_end, self.context().names_view(), n);
                assert(else_tree(t, src, n, Seq::<ElseIfBranch>::empty(), x.final_branch, k_end));
                assert(x.else_if_branches@ + Seq::<ElseIfBranch>::empty() =~= x.else_if_branches@);
                assert(else_tree(t, src, n, x.else_if_branches@, x.final_branch, k0));
                assert(expr_tree(t, src, n, cond_expr, c));
            }
        }
        Ok(Expr::If(x))
    }

    /// After `for`: an optional iteration (`i: a..b`, `i: a..=b`, or a
    /// condition), then the body.
    pub fn parse_for_expr(&mut self) -> (r: Result<Expr, CompileError>)
        requires
            old(self).wf(),
        ensures
            r matches Ok(Expr::For(f)) ==> forall|n: Seq<Seq<u8>>|
                final(self).later_names(n) ==> #[trigger] for_tree(
                    old(self).tokens_view(),
                    old(self).src(),
                    n,
                    f,
                    old(self).cursor(),
                ),
            agrees(r, for_model(old(self).tokens_view(), old(self).src(), old(self).cursor()), final(self).cursor()),
            final(self).extends(old(self)),
            r is Ok ==> old(self).cursor() < final(self).cursor(),
            r matches Ok(e) ==> e is For,
            r is Ok ==> old(self).kind_at(final(self).cursor() - 1) == TokenKind::Closed(Delim::Curly),
            old(self).kind_at(old(self).cursor()) == TokenKind::Open(Delim::Curly) ==> (r matches Ok(
                Expr::For(f),
            ) ==> f.iteration is None),
            old(self).kind_at(old(self).cursor()) == TokenKind::Identifier && old(self).kind_at(
                old(self).cursor() + 1,
            ) == TokenKind::Colon ==> (r matches Ok(Expr::For(f)) ==> (f.iteration matches Some(
                ForIteration::Iterative { identifier, .. },
            ) && final(self).names(identifier, old(self).token_text(old(self).cursor())))),
            r matches Ok(Expr::For(f)) ==> (f.iteration matches Some(
                ForIteration::Iterative { range_kind, .. },
            ) ==> ((range_kind == RangeKind::Inclusive) <==> kind_in(
                old(self).tokens_view(),
                expr_model(old(self).tokens_view(), old(self).src(), old(self).cursor() + 2)->Ok_0,
            ) == TokenKind::PeriodPeriodEqual)),
            !(old(self).kind_at(old(self).cursor()) == TokenKind::Identifier && old(self).kind_at(
                old(self).cursor() + 1,
            ) == TokenKind::Colon) && old(self).kind_at(old(self).cursor()) != TokenKind::Open(
                Delim::Curly,
            ) ==> (r matches Ok(Expr::For(f)) ==> f.iteration matches Some(
                ForIteration::Conditional { .. },
            )),
        decreases old(self).tokens_view().len() - old(self).cursor(), 2nat,
    {
        let ghost t = old(self).tokens_view();
        let ghost src = old(self).src();
        let ghost c = old(self).cursor();
        let ghost mut range_at: int = 0;
        let iteration = if self.peek().kind == TokenKind::Identifier && self.look_ahead(1).kind
            == TokenKind::Colon {
            let ident_tok = self.consume();
            let identifier = self.intern_token(ident_tok);
            let ghost names_id = self.context().names_view();
            self.consume();
            let start_expr = match self.parse_expr() {
                Ok(e) => e,
                Err(e) => return Err(e),
            };
            let ghost names_start = self.context().names_view();
            proof {
                range_at = self.cursor();
            }
            let range_tok = self.consume();
            let range_kind = if range_tok.kind == TokenKind::PeriodPeriodEqual {
                RangeKind::Inclusive
            } else if range_tok.kind == TokenKind::PeriodPeriod {
                RangeKind::Exclusive
            } else {
                return Err(
                    CompileError::ExpectedButFound {
                        expected: TokenKind::PeriodPeriod,
                        found: range_tok,
                    },
                );
            };
            let end_expr = match self.parse_expr() {
                Ok(e) => e,
                Err(e) => return Err(e),
            };
            let it = Some(
                ForIteration::Iterative {
                    identifier,
                    start_expr: Box::new(start_expr),
                    end_expr: Box::new(end_expr),
                    range_kind,
                },
            );
            assert forall|n: Seq<Seq<u8>>| self.later_names(n) implies #[trigger] iteration_tree(
                t,
                src,
                n,
                it,
                c,
            ) by {
                lemma_names_grow_trans(names_id, self.context().names_view(), n);
                lemma_names_grow_trans(names_start, self.context().names_view(), n);
                assert(expr_tree(t, src, n, start_expr, c + 2));
                assert(expr_tree(t, src, n, end_expr, range_at + 1));
            }
            it
        } else if self.peek().kind != TokenKind::Open(Delim::Curly) {
            let cond_expr = match self.parse_expr() {
                Ok(e) => e,
                Err(e) => return Err(e),
            };
            let it = Some(ForIteration::Conditional { cond_expr: Box::new(cond_expr) });
            assert forall|n: Seq<Seq<u8>>| self.later_names(n) implies #[trigger] iteration_tree(
                t,
                src,
                n,
                it,
                c,
            ) by {
                assert(expr_tree(t, src, n, cond_expr, c));
            }
            it
        } else {
            assert forall|n: Seq<Seq<u8>>| self.later_names(n) implies #[trigger] iteration_tree(
                t,
                src,
                n,
                None,
                c,
            ) by {}
            None
        };
        let ghost h = self.cursor();
        let ghost names_head = self.context().names_view();
        let open_curly_tok = match self.expect_and_consume(TokenKind::Open(Delim::Curly)) {
            Ok(t) => t,
            Err(e) => return Err(e),
        };
        let body = match self.parse_compound_expr(open_curly_tok) {
            Ok(c) => c,
            Err(e) => return Err(e),
        };
        assert(iteration matches Some(ForIteration::Iterative { range_kind, .. }) ==> (
        range_at == expr_model(old(self).tokens_view(), old(self).src(), old(self).cursor() + 2)->Ok_0
            && ((range_kind == RangeKind::Inclusive) <==> old(self).kind_at(range_at)
            == TokenKind::PeriodPeriodEqual)));
        let f = ForExpr { iteration, body };
        proof {
            assert(for_head_end(t, src, c) == h);
            assert forall|n: Seq<Seq<u8>>| self.later_names(n) implies #[trigger] for_tree(
                t,
                src,
                n,
                f,
                c,
            ) by {
                lemma_names_grow_trans(names_head, self.context().names_view(), n);
                assert(iteration_tree(t, src, n, f.iteration, c));
                assert(block_tree(t, src, n, f.body.exprs@, h + 1));
            }
        }
        Ok(Expr::For(f))
    }

    pub fn parse_break_expr(&mut self) -> (r: Result<Expr, CompileError>)
        ensures
            *final(self) == *old(self),
            r matches Ok(Expr::Break),
    {
        Ok(Expr::Break)
    }

    pub fn parse_continue_expr(&mut self) -> (r: Result<Expr, CompileError>)
        ensures
            *final(self) == *old(self),
            r matches Ok(Expr::Continue),
    {
        Ok(Expr::Continue)
    }

    /// After `(`: `)`, an optional `-> i32`, then the body.
    pub fn parse_function(&mut self) -> (r: Result<Expr, CompileError>)
        requires
            old(self).wf(),
        ensures
            r matches Ok(Expr::Function(f)) ==> forall|n: Seq<Seq<u8>>|
                final(self).later_names(n) ==> #[trigger] block_tree(old(self).tokens_view(), old(self).src(), n, f.body.exprs@, function_body_start(old(self).tokens_view(), old(self).cursor())),
            r matches Ok(Expr::Function(f)) ==> f.body.exprs@.len() == block_count(
                old(self).tokens_view(),
                old(self).src(),
                if old(self).kind_at(old(self).cursor() + 1) == TokenKind::DashGreater {
                    old(self).cursor() + 4
                } else {
                    old(self).cursor() + 2
                },
            ),
            agrees(r, function_model(old(self).tokens_view(), old(self).src(), old(self).cursor()), final(self).cursor()),
            final(self).extends(old(self)),
            r is Ok ==> old(self).cursor() < final(self).cursor(),
            r is Ok ==> old(self).kind_at(final(self).cursor() - 1) == TokenKind::Closed(Delim::Curly),
            r matches Ok(e) ==> (e matches Expr::Function(f) && f.parameters@.len() == 0 && (
            f.return_type == Type::I32 <==> old(self).kind_at(old(self).cursor() + 1)
                == TokenKind::DashGreater)),
            old(self).kind_at(old(self).cursor()) != TokenKind::Closed(Delim::Paren) ==> r
                == Err::<Expr, CompileError>(
                CompileError::ExpectedButFound {
                    expected: TokenKind::Closed(Delim::Paren),
                    found: old(self).token_at(old(self).cursor()),
                },
            ),
        decreases old(self).tokens_view().len() - old(self).cursor(), 2nat,
    {
        match self.expect_and_consume(TokenKind::Closed(Delim::Paren)) {
            Ok(_) => {},
            Err(e) => return Err(e),
        }
        let return_type = if self.peek().kind == TokenKind::DashGreater {
            self.consume();
            match self.expect_and_consume(TokenKind::Keyword(Keyword::I32)) {
                Ok(_) => {},
                Err(e) => return Err(e),
            }
            Type::I32
        } else {
            Type::Unit
        };
        let open_curly_tok = match self.expect_and_consume(TokenKind::Open(Delim::Curly)) {
            Ok(t) => t,
            Err(e) => return Err(e),
        };
        let body = match self.parse_compound_expr(open_curly_tok) {
            Ok(c) => c,
            Err(e) => return Err(e),
        };
        Ok(Expr::Function(Function { return_type, parameters: Vec::new(), body }))
    }

    /// The expressions of a block whose `{` has been consumed, up to and
    /// including its `}`.
    pub fn parse_compound_expr(&mut self, open_curly_tok: Token) -> (r: Result<
        CompoundExpr,
        CompileError,
    >)
        requires
            old(self).wf(),
        ensures
            open_curly_tok.kind == TokenKind::Open(Delim::Curly) ==> (r matches Ok(x) ==> forall|n: Seq<Seq<u8>>|
                final(self).later_names(n) ==> #[trigger] block_tree(old(self).tokens_view(), old(self).src(), n, x.exprs@, old(self).cursor())),
            open_curly_tok.kind == TokenKind::Open(Delim::Curly) ==> (r matches Ok(x) ==> x.exprs@.len() == block_count(old(self).tokens_view(), old(self).src(), old(self).cursor())),
            open_curly_tok.kind == TokenKind::Open(Delim::Curly) ==> agrees(r, block_model(old(self).tokens_view(), old(self).src(), old(self).cursor()), final(self).cursor()),
            open_curly_tok.kind != TokenKind::Open(Delim::Curly) ==> final(self).cursor() == old(self).cursor(),
            final(self).extends(old(self)),
            open_curly_tok.kind != TokenKind::Open(Delim::Curly) ==> r == Err::<
                CompoundExpr,
                CompileError,
            >(
                CompileError::ExpectedButFound {
                    expected: TokenKind::Open(Delim::Curly),
                    found: open_curly_tok,
                },
            ),
            r is Ok ==> old(self).cursor() < final(self).cursor() && old(self).kind_at(
                final(self).cursor() - 1,
            ) == TokenKind::Closed(Delim::Curly),
            old(self).kind_at(old(self).cursor()) == TokenKind::Closed(Delim::Curly)
                && open_curly_tok.kind == TokenKind::Open(Delim::Curly) ==> (r matches Ok(c)
                && c.exprs@.len() == 0 && final(self).cursor() == old(self).cursor() + 1),
        decreases old(self).tokens_view().len() - old(self).cursor(), 2nat,
    {
        if open_curly_tok.kind != TokenKind::Open(Delim::Curly) {
            return Err(
                CompileError::ExpectedButFound {
                    expected: TokenKind::Open(Delim::Curly),
                    found: open_curly_tok,
                },
            );
        }
        let mut exprs: Vec<Expr> = Vec::new();
        while self.peek().kind != TokenKind::Closed(Delim::Curly) && self.peek().kind
            != TokenKind::Eof
            invariant
                self.extends(old(self)),
                open_curly_tok.kind == TokenKind::Open(Delim::Curly),
                exprs@.len() > 0 ==> old(self).cursor() < self.cursor(),
                exprs@.len() == 0 ==> old(self).cursor() == self.cursor(),
                old(self).kind_at(old(self).cursor()) == TokenKind::Closed(Delim::Curly)
                    ==> exprs@.len() == 0,
                block_model(old(self).tokens_view(), old(self).src(), self.cursor()) == block_model(
                    old(self).tokens_view(),
                    old(self).src(),
                    old(self).cursor(),
                ),
                exprs@.len() + block_count(old(self).tokens_view(), old(self).src(), self.cursor())
                    == block_count(old(self).tokens_view(), old(self).src(), old(self).cursor()),
                forall|ys: Seq<Expr>, n: Seq<Seq<u8>>|
                    self.later_names(n) && #[trigger] block_tree(
                        old(self).tokens_view(),
                        old(self).src(),
                        n,
                        ys,
                        self.cursor(),
                    ) ==> block_tree(
                        old(self).tokens_view(),
                        old(self).src(),
                        n,
                        exprs@ + ys,
                        old(self).cursor(),
                    ),
            decreases self.tokens_view().len() - self.cursor(),
        {
            let ghost c = self.cursor();
            let ghost before = exprs@;
            assert(kind_in(old(self).tokens_view(), c) != TokenKind::Closed(Delim::Curly));
            assert(kind_in(old(self).tokens_view(), c) != TokenKind::Eof);
            let expr = match self.parse_expr() {
                Ok(e) => e,
                Err(e) => return Err(e),
            };
            exprs.push(expr);
            proof {
                let t = old(self).tokens_view();
                let src = old(self).src();
                assert forall|ys: Seq<Expr>, n: Seq<Seq<u8>>|
                    self.later_names(n) && #[trigger] block_tree(t, src, n, ys, self.cursor())
                        implies block_tree(t, src, n, exprs@ + ys, old(self).cursor()) by {
                    let zs = seq![expr] + ys;
                    assert(zs.drop_first() =~= ys);
                    assert(zs[0] == expr);
                    assert(expr_tree(t, src, n, expr, c));
                    assert(expr_model(t, src, c) == Ok::<int, (CompileError, int)>(self.cursor()));
                    assert(kind_in(t, c) != TokenKind::Closed(Delim::Curly));
                    assert(kind_in(t, c) != TokenKind::Eof);
                    assert(c < self.cursor() <= t.len());
                    assert(block_tree(t, src, n, zs, c));
                    assert(exprs@ + ys =~= before + zs);
                }
            }
        }
        proof {
            let t = old(self).tokens_view();
            let src = old(self).src();
            assert forall|n: Seq<Seq<u8>>| self.later_names(n) implies #[trigger] block_tree(
                t,
                src,
                n,
                exprs@,
                old(self).cursor(),
            ) by {
                assert(block_tree(t, src, n, Seq::<Expr>::empty(), self.cursor()));
                assert(exprs@ + Seq::<Expr>::empty() =~= exprs@);
            }
        }
        match self.expect_and_consume(TokenKind::Closed(Delim::Curly)) {
            Ok(_) => {},
            Err(e) => return Err(e),
        }
        Ok(CompoundExpr { exprs })
    }

    /// Interns the text of a token.
    fn intern_token(&mut self, tok: Token) -> (r: crate::context::Symbol)
        requires
            old(self).wf(),
            tok.span.start.0 <= tok.span.end.0 <= old(self).context().source_view().len(),
        ensures
            final(self).extends(old(self)),
            final(self).cursor() == old(self).cursor(),
            final(self).names(
                r,
                old(self).context().source_view().subrange(
                    tok.span.start.0 as int,
                    tok.span.end.0 as int,
                ),
            ),
    {
        let text = self.ctx.get_text_snippet(tok.span);
        let ghost before = self.ctx.names_view();
        let r = self.ctx.get_or_intern_str(text.as_slice());
        assert(forall|k: int| 0 <= k < before.len() ==> self.ctx.names_view()[k] == before[k]);
        r
    }
}

} // verus!
