//! Unit tests of the scanner, the parser and the helpers, one stage at a
//! time.

use rs_9cc::lexer::ErrorKind;
use rs_9cc::parse;
use rs_9cc::strtol;
use rs_9cc::tokenize;
use rs_9cc::AstError;
use rs_9cc::Node;
use rs_9cc::NodeKind;
use rs_9cc::TokenIter;
use rs_9cc::TokenKind;

#[test]
fn tokenize_classifies_and_locates() {
    let tokens = tokenize("1 + 23").unwrap();
    let kinds: Vec<TokenKind> = tokens.iter().map(|t| t.kind).collect();
    assert_eq!(
        kinds,
        vec![
            TokenKind::Number(1),
            TokenKind::Plus,
            TokenKind::Number(23),
            TokenKind::Eof
        ]
    );
    assert_eq!(tokens[0].loc().start, 0);
    assert_eq!(tokens[0].loc().end, 1);
    assert_eq!(tokens[1].loc().start, 2);
    assert_eq!(tokens[1].loc().end, 3);
    assert_eq!(tokens[2].loc().start, 4);
    assert_eq!(tokens[2].loc().end, 6);
    assert_eq!(tokens[3].loc().start, 6);
    assert_eq!(tokens[3].loc().end, 6);
}

#[test]
fn tokenize_reads_two_byte_operators_with_maximal_munch() {
    let tokens = tokenize("<= >= < > == !=").unwrap();
    let kinds: Vec<TokenKind> = tokens.iter().map(|t| t.kind).collect();
    assert_eq!(
        kinds,
        vec![
            TokenKind::Leq,
            TokenKind::Geq,
            TokenKind::Lt,
            TokenKind::Gt,
            TokenKind::Eq,
            TokenKind::Neq,
            TokenKind::Eof
        ]
    );
}

#[test]
fn tokenize_of_empty_input_is_just_eof() {
    let tokens = tokenize("").unwrap();
    assert_eq!(tokens.len(), 1);
    assert_eq!(tokens[0].kind, TokenKind::Eof);
    assert_eq!(tokens[0].loc().start, 0);
    assert_eq!(tokens[0].loc().end, 0);
}

#[test]
fn tokenize_rejects_lone_equals_at_end_as_eof() {
    let e = tokenize("1=").unwrap_err();
    assert!(matches!(e.kind, ErrorKind::Eof));
}

#[test]
fn tokenize_rejects_lone_bang_before_other_byte() {
    let e = tokenize("!x").unwrap_err();
    assert!(matches!(e.kind, ErrorKind::InvalidChar('x')));
    assert_eq!(e.loc().start, 1);
    assert_eq!(e.loc().end, 2);
}

#[test]
fn tokenize_rejects_oversized_literal() {
    // One past the largest 64-bit value.
    let e = tokenize("18446744073709551616").unwrap_err();
    assert!(matches!(e.kind, ErrorKind::LiteralOverflow));
    assert_eq!(e.loc().start, 0);
    assert_eq!(e.loc().end, 20);
}

#[test]
fn tokenize_accepts_largest_literal() {
    let tokens = tokenize("18446744073709551615").unwrap();
    assert_eq!(tokens[0].kind, TokenKind::Number(u64::MAX));
}

fn leaf_value(node: &Node) -> u64 {
    match node.kind {
        NodeKind::Num(n) => n,
        _ => panic!("expected a leaf, got {:?}", node.kind),
    }
}

#[test]
fn parse_builds_left_leaning_chain() {
    let ast = parse(tokenize("1-2-3").unwrap()).unwrap();
    assert!(matches!(ast.kind, NodeKind::Sub));
    let outer_lhs = ast.lhs.unwrap();
    let outer_rhs = ast.rhs.unwrap();
    assert_eq!(leaf_value(&outer_rhs), 3);
    assert!(matches!(outer_lhs.kind, NodeKind::Sub));
    assert_eq!(leaf_value(&outer_lhs.lhs.unwrap()), 1);
    assert_eq!(leaf_value(&outer_lhs.rhs.unwrap()), 2);
}

#[test]
fn parse_swaps_operands_of_greater_than() {
    let ast = parse(tokenize("2>1").unwrap()).unwrap();
    assert!(matches!(ast.kind, NodeKind::Lt));
    assert_eq!(leaf_value(&ast.lhs.unwrap()), 1);
    assert_eq!(leaf_value(&ast.rhs.unwrap()), 2);
}

#[test]
fn parse_desugars_unary_minus_to_zero_minus() {
    let ast = parse(tokenize("-7").unwrap()).unwrap();
    assert!(matches!(ast.kind, NodeKind::Sub));
    assert_eq!(leaf_value(&ast.lhs.unwrap()), 0);
    assert_eq!(leaf_value(&ast.rhs.unwrap()), 7);
}

#[test]
fn parse_gives_precedence_to_multiplication() {
    let ast = parse(tokenize("1+2*3").unwrap()).unwrap();
    assert!(matches!(ast.kind, NodeKind::Add));
    assert_eq!(leaf_value(&ast.lhs.unwrap()), 1);
    let product = ast.rhs.unwrap();
    assert!(matches!(product.kind, NodeKind::Mul));
    assert_eq!(leaf_value(&product.lhs.unwrap()), 2);
    assert_eq!(leaf_value(&product.rhs.unwrap()), 3);
}

#[test]
fn parse_reports_missing_operand() {
    let e = parse(tokenize("1*").unwrap()).unwrap_err();
    match e {
        AstError::UnexpectedToken(token) => assert_eq!(token.kind, TokenKind::Eof),
        other => panic!("expected an unexpected-token error, got {:?}", other),
    }
}

#[test]
fn token_iter_hands_out_numbers() {
    let mut iter = TokenIter::new(tokenize("42").unwrap());
    assert_eq!(iter.expect_number().unwrap(), 42);
    match iter.expect_number() {
        Err(AstError::UnexpectedToken(token)) => assert_eq!(token.kind, TokenKind::Eof),
        other => panic!("expected an unexpected-token error, got {:?}", other),
    }
}

#[test]
fn strtol_reads_decimal_prefix() {
    let mut pos: usize = 0;
    let value = strtol("123abc", &mut pos, 10);
    assert_eq!(value, Some(123));
    assert_eq!(pos, 3);
}

#[test]
fn strtol_reads_hexadecimal() {
    let mut pos: usize = 0;
    let value = strtol("ff", &mut pos, 16);
    assert_eq!(value, Some(255));
    assert_eq!(pos, 2);
}

#[test]
fn strtol_returns_none_without_a_digit() {
    let mut pos: usize = 0;
    assert_eq!(strtol("x1", &mut pos, 10), None);
    assert_eq!(pos, 0);
    let mut end: usize = 0;
    assert_eq!(strtol("", &mut end, 10), None);
    assert_eq!(end, 0);
}

#[test]
fn generate_renders_a_leaf_program() {
    let node = Node {
        kind: NodeKind::Num(7),
        lhs: None,
        rhs: None,
    };
    assert_eq!(
        rs_9cc::generate(&node),
        ".intel_syntax noprefix\n.globl main\nmain:\n  push 7\n  pop rax\n  ret\n"
    );
}
