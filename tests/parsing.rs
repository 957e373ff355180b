use frontend::ast::{Const, Expr, ForIteration, Program, RangeKind, Type};
use frontend::context::{bytes_equal, CompilerContext, Symbol};
use frontend::error::{CompileError, Diagnostic};
use frontend::parser::{parse_integer_literal, Parser};
use frontend::scanner::{Delim, Scanner, Token, TokenKind};

fn parser_for(source: &str) -> Parser {
    let ctx = CompilerContext::new(source);
    let tokens = {
        let mut scanner = Scanner::new(&ctx);
        scanner.scan_all_tokens()
    };
    Parser::new(tokens, ctx)
}

fn parse(source: &str) -> (Result<Program, Diagnostic>, CompilerContext) {
    let mut parser = parser_for(source);
    let result = parser.parse_program();
    (result, parser.into_context())
}

fn name(ctx: &CompilerContext, sym: Symbol) -> Vec<u8> {
    ctx.symbol_text(sym).unwrap()
}

fn errors(source: &str) -> Vec<CompileError> {
    match parse(source).0 {
        Ok(_) => panic!("expected a diagnostic"),
        Err(d) => d.compile_errors,
    }
}

#[test]
fn declaration_of_an_integer() {
    let (result, ctx) = parse("x :: 42");
    let program = result.unwrap();
    assert_eq!(program.decls.len(), 1);
    assert_eq!(name(&ctx, program.decls[0].identifier), b"x".to_vec());
    match *program.decls[0].value {
        Expr::Const(Const::IntegerConstant { value }) => assert_eq!(value, 42),
        ref other => panic!("unexpected {:?}", other),
    }
}

#[test]
fn bare_literal_is_not_a_declaration() {
    assert_eq!(errors("42"), vec![CompileError::ExpectedDeclaration]);
}

#[test]
fn empty_source_is_an_empty_program() {
    let program = parse("").0.unwrap();
    assert!(program.decls.is_empty());
}

#[test]
fn exclusive_and_inclusive_ranges() {
    for (source, kind) in [
        ("l :: for i: 0..5 {}", RangeKind::Exclusive),
        ("l :: for i: 0..=5 {}", RangeKind::Inclusive),
    ] {
        let (result, ctx) = parse(source);
        let program = result.unwrap();
        match &*program.decls[0].value {
            Expr::For(f) => match &f.iteration {
                Some(ForIteration::Iterative { identifier, start_expr, end_expr, range_kind }) => {
                    assert_eq!(*range_kind, kind);
                    assert_eq!(name(&ctx, *identifier), b"i".to_vec());
                    assert!(matches!(**start_expr, Expr::Const(Const::IntegerConstant { value: 0 })));
                    assert!(matches!(**end_expr, Expr::Const(Const::IntegerConstant { value: 5 })));
                    assert!(f.body.exprs.is_empty());
                }
                other => panic!("unexpected {:?}", other),
            },
            other => panic!("unexpected {:?}", other),
        }
    }
}

#[test]
fn conditional_and_infinite_loops() {
    let program = parse("l :: for x { break; continue }").0.unwrap();
    match &*program.decls[0].value {
        Expr::For(f) => {
            assert!(matches!(f.iteration, Some(ForIteration::Conditional { .. })));
            assert_eq!(f.body.exprs.len(), 2);
            assert!(matches!(&f.body.exprs[0], Expr::Semi(inner) if matches!(**inner, Expr::Break)));
            assert!(matches!(f.body.exprs[1], Expr::Continue));
        }
        other => panic!("unexpected {:?}", other),
    }
    let program = parse("l :: for { }").0.unwrap();
    assert!(matches!(&*program.decls[0].value, Expr::For(f) if f.iteration.is_none()));
}

#[test]
fn else_if_chain() {
    let program = parse("f :: if a {} else if b {} else if c {} else {}").0.unwrap();
    match &*program.decls[0].value {
        Expr::If(i) => {
            assert_eq!(i.else_if_branches.len(), 2);
            assert!(i.final_branch.is_some());
        }
        other => panic!("unexpected {:?}", other),
    }
    let program = parse("f :: if a { 1 }").0.unwrap();
    match &*program.decls[0].value {
        Expr::If(i) => {
            assert!(i.else_if_branches.is_empty());
            assert!(i.final_branch.is_none());
            assert_eq!(i.true_branch.exprs.len(), 1);
        }
        other => panic!("unexpected {:?}", other),
    }
}

#[test]
fn one_bad_declaration_between_two_good_ones() {
    assert_eq!(errors("a :: 1 b :: ) ) ) c :: 3"), vec![CompileError::ExpectedDeclaration]);
    assert_eq!(errors("a :: 1 b :: ; c :: 3"), vec![CompileError::ExpectedDeclaration]);
    assert_eq!(errors("a :: 1 42 b :: 2"), vec![CompileError::ExpectedDeclaration]);
}

#[test]
fn every_bad_declaration_is_reported() {
    assert_eq!(
        errors("1 a :: 1 b :: ; c :: 3 d :: ;"),
        vec![CompileError::ExpectedDeclaration, CompileError::ExpectedDeclaration, CompileError::ExpectedDeclaration]
    );
}

#[test]
fn function_literals() {
    let program = parse("f :: () -> i32 { 1 } g :: () {}").0.unwrap();
    match &*program.decls[0].value {
        Expr::Function(f) => {
            assert_eq!(f.return_type, Type::I32);
            assert!(f.parameters.is_empty());
            assert_eq!(f.body.exprs.len(), 1);
        }
        other => panic!("unexpected {:?}", other),
    }
    match &*program.decls[1].value {
        Expr::Function(f) => {
            assert_eq!(f.return_type, Type::Unit);
            assert!(f.body.exprs.is_empty());
        }
        other => panic!("unexpected {:?}", other),
    }
}

#[test]
fn bindings_references_and_calls() {
    let (result, ctx) = parse("m :: { x := 5; x; f() }");
    let program = result.unwrap();
    match &*program.decls[0].value {
        Expr::Compound(c) => {
            assert_eq!(c.exprs.len(), 3);
            match &c.exprs[0] {
                Expr::Semi(inner) => match &**inner {
                    Expr::BindDef(b) => {
                        assert_eq!(name(&ctx, b.identifier), b"x".to_vec());
                        assert!(matches!(*b.value, Expr::Const(Const::IntegerConstant { value: 5 })));
                    }
                    other => panic!("unexpected {:?}", other),
                },
                other => panic!("unexpected {:?}", other),
            }
            match &c.exprs[1] {
                Expr::Semi(inner) => match &**inner {
                    Expr::BindRef(r) => assert_eq!(name(&ctx, r.identifier), b"x".to_vec()),
                    other => panic!("unexpected {:?}", other),
                },
                other => panic!("unexpected {:?}", other),
            }
            match &c.exprs[2] {
                Expr::FnCall(f) => assert_eq!(name(&ctx, f.identifier), b"f".to_vec()),
                other => panic!("unexpected {:?}", other),
            }
        }
        other => panic!("unexpected {:?}", other),
    }
}

#[test]
fn equal_text_gives_equal_symbols() {
    let program = parse("a :: b b :: a").0.unwrap();
    match (&*program.decls[0].value, &*program.decls[1].value) {
        (Expr::BindRef(r0), Expr::BindRef(r1)) => {
            assert_eq!(r0.identifier, program.decls[1].identifier);
            assert_eq!(r1.identifier, program.decls[0].identifier);
            assert_ne!(r0.identifier, r1.identifier);
        }
        other => panic!("unexpected {:?}", other),
    }
}

#[test]
fn missing_colon_colon_is_reported() {
    let errs = errors("x 42");
    assert_eq!(errs.len(), 1);
    match errs[0] {
        CompileError::ExpectedButFound { expected, found } => {
            assert_eq!(expected, TokenKind::ColonColon);
            assert_eq!(found.kind, TokenKind::IntegerConstant);
            assert_eq!(found.span.start.0, 2);
        }
        other => panic!("unexpected {:?}", other),
    }
}

#[test]
fn unclosed_call_is_reported() {
    match errors("f :: g( 1")[0] {
        CompileError::ExpectedButFound { expected, found } => {
            assert_eq!(expected, TokenKind::Closed(Delim::Paren));
            assert_eq!(found.kind, TokenKind::IntegerConstant);
        }
        other => panic!("unexpected {:?}", other),
    }
}

#[test]
fn unterminated_block_is_reported() {
    assert_eq!(
        errors("x :: { 1"),
        vec![CompileError::ExpectedButFound {
            expected: TokenKind::Closed(Delim::Curly),
            found: Token::eof(),
        }]
    );
}

#[test]
fn missing_range_operator_is_reported() {
    match errors("l :: for i: 0 5 {}")[0] {
        CompileError::ExpectedButFound { expected, found } => {
            assert_eq!(expected, TokenKind::PeriodPeriod);
            assert_eq!(found.kind, TokenKind::IntegerConstant);
        }
        other => panic!("unexpected {:?}", other),
    }
}

#[test]
fn integer_literal_limits() {
    let program = parse("x :: 2147483647").0.unwrap();
    assert!(matches!(*program.decls[0].value, Expr::Const(Const::IntegerConstant { value: 2147483647 })));
    match errors("x :: 2147483648")[0] {
        CompileError::InvalidIntegerConstant { found } => assert_eq!(found.span.start.0, 5),
        other => panic!("unexpected {:?}", other),
    }
}

#[test]
fn literal_values() {
    assert_eq!(parse_integer_literal(b"0"), Some(0));
    assert_eq!(parse_integer_literal(b"007"), Some(7));
    assert_eq!(parse_integer_literal(b"123"), Some(123));
    assert_eq!(parse_integer_literal(b"99999999999"), None);
    assert_eq!(parse_integer_literal(b""), None);
    assert_eq!(parse_integer_literal(b"12a"), None);
}

#[test]
fn cursor_operations() {
    let mut parser = parser_for("a :: b");
    assert_eq!(parser.peek().kind, TokenKind::Identifier);
    assert_eq!(parser.look_ahead(1).kind, TokenKind::ColonColon);
    assert_eq!(parser.look_ahead(3).kind, TokenKind::Eof);
    assert_eq!(parser.consume().kind, TokenKind::Identifier);
    assert!(parser.expect_and_consume(TokenKind::Semi).is_err());
    assert_eq!(parser.expect_and_consume(TokenKind::Identifier).unwrap().kind, TokenKind::Identifier);
    assert!(parser.has_reached_eof());
    assert_eq!(parser.consume().kind, TokenKind::Eof);
    assert!(parser.has_reached_eof());
}

#[test]
fn interning_is_stable() {
    let mut ctx = CompilerContext::new("");
    let a = ctx.get_or_intern_str(b"alpha");
    let b = ctx.get_or_intern_str(b"beta");
    assert_eq!(ctx.get_or_intern_str(b"alpha"), a);
    assert_ne!(a, b);
    assert_eq!(ctx.symbol_text(b), Some(b"beta".to_vec()));
    assert_eq!(ctx.symbol_text(Symbol(7)), None);
    assert!(bytes_equal(b"abc", b"abc"));
    assert!(!bytes_equal(b"abc", b"abd"));
    assert!(!bytes_equal(b"ab", b"abc"));
}

#[test]
fn declarations_keep_source_order() {
    let (result, ctx) = parse("a :: 1 b :: c");
    let program = result.unwrap();
    assert_eq!(program.decls.len(), 2);
    assert_eq!(name(&ctx, program.decls[0].identifier), b"a".to_vec());
    assert!(matches!(*program.decls[0].value, Expr::Const(Const::IntegerConstant { value: 1 })));
    assert_eq!(name(&ctx, program.decls[1].identifier), b"b".to_vec());
    match &*program.decls[1].value {
        Expr::BindRef(r) => assert_eq!(name(&ctx, r.identifier), b"c".to_vec()),
        other => panic!("unexpected {:?}", other),
    }
}

#[test]
fn block_with_discarded_and_trailing_expression() {
    let mut parser = parser_for("{ 1; 2 }");
    let e = parser.parse_statement_expr().unwrap();
    assert!(parser.has_reached_eof());
    match e {
        Expr::Compound(c) => {
            assert_eq!(c.exprs.len(), 2);
            assert!(matches!(&c.exprs[0], Expr::Semi(inner) if matches!(**inner, Expr::Const(Const::IntegerConstant { value: 1 }))));
            assert!(matches!(c.exprs[1], Expr::Const(Const::IntegerConstant { value: 2 })));
        }
        other => panic!("unexpected {:?}", other),
    }
}

#[test]
fn else_if_conditions_in_order() {
    let (result, ctx) = parse("f :: if a {} else if b {} else if c { 3 } else { 4 }");
    let program = result.unwrap();
    match &*program.decls[0].value {
        Expr::If(i) => {
            assert!(matches!(&*i.cond_expr, Expr::BindRef(r) if name(&ctx, r.identifier) == b"a".to_vec()));
            assert!(matches!(&*i.else_if_branches[0].cond_expr, Expr::BindRef(r) if name(&ctx, r.identifier) == b"b".to_vec()));
            assert!(matches!(&*i.else_if_branches[1].cond_expr, Expr::BindRef(r) if name(&ctx, r.identifier) == b"c".to_vec()));
            assert_eq!(i.else_if_branches[1].true_branch.exprs.len(), 1);
            assert_eq!(i.final_branch.as_ref().unwrap().exprs.len(), 1);
        }
        other => panic!("unexpected {:?}", other),
    }
}
