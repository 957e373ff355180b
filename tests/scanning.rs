use frontend::context::CompilerContext;
use frontend::scanner::{Delim, Keyword, Scanner, Token, TokenKind};

fn scan(source: &str) -> Vec<Token> {
    let ctx = CompilerContext::new(source);
    let mut scanner = Scanner::new(&ctx);
    scanner.scan_all_tokens()
}

fn kinds(source: &str) -> Vec<TokenKind> {
    scan(source).iter().map(|t| t.kind).collect()
}

#[test]
fn rescanning_gives_the_same_tokens() {
    let source = "main :: () -> i32 { x := 1; for i: 0..=x { break; } x }";
    let first = scan(source);
    let second = scan(source);
    assert_eq!(first, second);
    assert!(!first.is_empty());
}

#[test]
fn colon_colon_is_one_token() {
    assert_eq!(kinds("::"), vec![TokenKind::ColonColon]);
    assert_eq!(kinds(":="), vec![TokenKind::ColonEqual]);
    assert_eq!(kinds(":"), vec![TokenKind::Colon]);
    assert_eq!(kinds(": :"), vec![TokenKind::Colon, TokenKind::Colon]);
}

#[test]
fn period_period_equal_is_one_token() {
    assert_eq!(kinds("..="), vec![TokenKind::PeriodPeriodEqual]);
    assert_eq!(kinds(".."), vec![TokenKind::PeriodPeriod]);
    assert_eq!(kinds("->"), vec![TokenKind::DashGreater]);
}

#[test]
fn keywords_scan_as_keywords() {
    assert_eq!(kinds("i32"), vec![TokenKind::Keyword(Keyword::I32)]);
    assert_eq!(kinds("if"), vec![TokenKind::Keyword(Keyword::If)]);
    assert_eq!(kinds("else"), vec![TokenKind::Keyword(Keyword::Else)]);
    assert_eq!(kinds("for"), vec![TokenKind::Keyword(Keyword::For)]);
    assert_eq!(kinds("break"), vec![TokenKind::Keyword(Keyword::Break)]);
    assert_eq!(kinds("continue"), vec![TokenKind::Keyword(Keyword::Continue)]);
}

#[test]
fn other_words_scan_as_identifiers() {
    assert_eq!(kinds("if2"), vec![TokenKind::Identifier]);
    assert_eq!(kinds("_x"), vec![TokenKind::Identifier]);
    assert_eq!(kinds("iff"), vec![TokenKind::Identifier]);
    assert_eq!(kinds("I32"), vec![TokenKind::Identifier]);
    assert_eq!(kinds("breaks continue_"), vec![TokenKind::Identifier, TokenKind::Identifier]);
}

#[test]
fn digits_then_letters_are_two_tokens() {
    assert_eq!(kinds("42x"), vec![TokenKind::IntegerConstant, TokenKind::Identifier]);
}

#[test]
fn delimiters_and_semicolon() {
    assert_eq!(
        kinds("( ) { } ;"),
        vec![
            TokenKind::Open(Delim::Paren),
            TokenKind::Closed(Delim::Paren),
            TokenKind::Open(Delim::Curly),
            TokenKind::Closed(Delim::Curly),
            TokenKind::Semi,
        ]
    );
}

#[test]
fn empty_and_blank_input_have_no_tokens() {
    assert!(scan("").is_empty());
    assert!(scan(" \t\r\n ").is_empty());
}

#[test]
fn spans_reproduce_the_source_text() {
    let source = "  x :: { y := 0..=12; }";
    let ctx = CompilerContext::new(source);
    let mut scanner = Scanner::new(&ctx);
    let tokens = scanner.scan_all_tokens();
    let texts: Vec<Vec<u8>> = tokens
        .iter()
        .map(|t| ctx.get_text_snippet(t.span))
        .collect();
    let expected: Vec<&[u8]> = vec![b"x", b"::", b"{", b"y", b":=", b"0", b"..=", b"12", b";", b"}"];
    assert_eq!(texts.len(), expected.len());
    for (got, want) in texts.iter().zip(expected.iter()) {
        assert_eq!(got.as_slice(), *want);
    }
    assert_eq!(tokens[0].span.start.0, 2);
    assert_eq!(tokens[0].span.end.0, 3);
}

#[test]
fn scan_next_token_steps_one_token_at_a_time() {
    let ctx = CompilerContext::new("a ;");
    let mut scanner = Scanner::new(&ctx);
    let first = scanner.scan_next_token().unwrap();
    assert_eq!(first.kind, TokenKind::Identifier);
    let second = scanner.scan_next_token().unwrap();
    assert_eq!(second.kind, TokenKind::Semi);
    assert_eq!(second.span.start.0, 2);
    assert!(scanner.scan_next_token().is_none());
    assert!(scanner.scan_next_token().is_none());
}

#[test]
fn eof_sentinel_kind() {
    assert_eq!(Token::eof().kind, TokenKind::Eof);
}

#[test]
fn checked_scan_reports_unrecognized_characters() {
    let ctx = CompilerContext::new("x :: 1");
    let tokens = Scanner::new(&ctx).scan_all_tokens_checked().unwrap();
    assert_eq!(tokens.len(), 3);
    let ctx = CompilerContext::new("x :: 1 # y");
    assert!(Scanner::new(&ctx).scan_all_tokens_checked().is_none());
    let ctx = CompilerContext::new("a - b");
    assert!(Scanner::new(&ctx).scan_all_tokens_checked().is_none());
    let ctx = CompilerContext::new("");
    assert_eq!(Scanner::new(&ctx).scan_all_tokens_checked().unwrap().len(), 0);
}
