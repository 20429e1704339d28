//! End-to-end tests of the pipeline: each compiles one source string and
//! either checks the produced assembly text or interprets it and checks the
//! value it returns.

use rs_9cc::run;
use rs_9cc::Error;
use rs_9cc::AstError;
use rs_9cc::TokenKind;

/// Interprets the generated stack-machine text and returns the value left
/// in the return register at `ret`.
fn execute(text: &str) -> i64 {
    let mut stack: Vec<i64> = Vec::new();
    let mut rax: i64 = 0;
    let mut rdi: i64 = 0;
    let mut al: i64 = 0;
    let mut cmp_l: i64 = 0;
    let mut cmp_r: i64 = 0;
    for raw in text.lines() {
        let line = raw.trim();
        if line == ".intel_syntax noprefix" || line == ".globl main" || line == "main:" {
            continue;
        }
        if let Some(rest) = line.strip_prefix("push ") {
            if rest == "rax" {
                stack.push(rax);
            } else {
                stack.push(rest.parse::<u64>().unwrap() as i64);
            }
        } else if line == "pop rdi" {
            rdi = stack.pop().unwrap();
        } else if line == "pop rax" {
            rax = stack.pop().unwrap();
        } else if line == "add rax, rdi" {
            rax = rax.wrapping_add(rdi);
        } else if line == "sub rax, rdi" {
            rax = rax.wrapping_sub(rdi);
        } else if line == "imul rax, rdi" {
            rax = rax.wrapping_mul(rdi);
        } else if line == "cqo" {
            // sign extension; the divide below works on the values directly
        } else if line == "idiv rdi" {
            rax = rax / rdi;
        } else if line == "cmp rax, rdi" {
            cmp_l = rax;
            cmp_r = rdi;
        } else if line == "sete al" {
            al = if cmp_l == cmp_r { 1 } else { 0 };
        } else if line == "setne al" {
            al = if cmp_l != cmp_r { 1 } else { 0 };
        } else if line == "setl al" {
            al = if cmp_l < cmp_r { 1 } else { 0 };
        } else if line == "setle al" {
            al = if cmp_l <= cmp_r { 1 } else { 0 };
        } else if line == "movzb rax, al" {
            rax = al;
        } else if line == "ret" {
            return rax;
        } else {
            panic!("unknown instruction: {}", line);
        }
    }
    panic!("no ret instruction reached");
}

fn compile_and_execute(source: &str) -> i64 {
    execute(&run(source).unwrap())
}

#[test]
fn literal_sources_evaluate_to_themselves() {
    assert_eq!(compile_and_execute("0"), 0);
    assert_eq!(compile_and_execute("5"), 5);
    assert_eq!(compile_and_execute("42"), 42);
    assert_eq!(compile_and_execute("123456789"), 123456789);
}

#[test]
fn subtraction_chain_is_left_associative() {
    assert_eq!(compile_and_execute("1-2-3"), -4);
}

#[test]
fn multiplication_binds_tighter_than_addition() {
    assert_eq!(compile_and_execute("1+2*3"), 7);
}

#[test]
fn parentheses_override_precedence() {
    assert_eq!(compile_and_execute("(1+2)*3"), 9);
}

#[test]
fn greater_than_desugars_to_swapped_less_than() {
    assert_eq!(compile_and_execute("2>1"), 1);
    assert_eq!(compile_and_execute("1<2"), 1);
    assert_eq!(compile_and_execute("1>=1"), 1);
    assert_eq!(compile_and_execute("1>2"), 0);
}

#[test]
fn equality_operators_return_zero_or_one() {
    assert_eq!(compile_and_execute("1==1"), 1);
    assert_eq!(compile_and_execute("1!=1"), 0);
}

#[test]
fn unary_minus_and_plus() {
    assert_eq!(compile_and_execute("-5+8"), 3);
    assert_eq!(compile_and_execute("+5"), 5);
}

#[test]
fn division_truncates() {
    assert_eq!(compile_and_execute("7/2"), 3);
}

#[test]
fn whitespace_is_insignificant() {
    assert_eq!(compile_and_execute(" 1 + 2 "), 3);
    assert_eq!(compile_and_execute("1+2"), 3);
}

#[test]
fn compiling_twice_gives_byte_identical_output() {
    let first = run("1+2*3-(4/2)").unwrap();
    let second = run("1+2*3-(4/2)").unwrap();
    assert_eq!(first, second);
}

#[test]
fn literal_program_text_is_exact() {
    let text = run("42").unwrap();
    assert_eq!(
        text,
        ".intel_syntax noprefix\n.globl main\nmain:\n  push 42\n  pop rax\n  ret\n"
    );
}

#[test]
fn addition_program_text_is_exact() {
    let text = run("1+2").unwrap();
    assert_eq!(
        text,
        ".intel_syntax noprefix\n.globl main\nmain:\n  push 1\n  push 2\n  pop rdi\n  pop rax\n  add rax, rdi\n  push rax\n  pop rax\n  ret\n"
    );
}

#[test]
fn comparison_program_uses_set_and_widen() {
    let text = run("1<=2").unwrap();
    assert!(text.contains("  cmp rax, rdi\n"));
    assert!(text.contains("  setle al\n"));
    assert!(text.contains("  movzb rax, al\n"));
}

#[test]
fn pushes_balance_pops_in_generated_programs() {
    for source in ["1", "1+2*3", "(1+2)*(3-4)/5", "1==2", "-(1)+2*3*4"] {
        let text = run(source).unwrap();
        let pushes = text.lines().filter(|l| l.trim_start().starts_with("push")).count();
        let pops = text.lines().filter(|l| l.trim_start().starts_with("pop")).count();
        // The program body leaves one net value; the trailing `pop rax`
        // consumes it, so the text balances exactly.
        assert_eq!(pushes, pops);
    }
}

#[test]
fn trailing_operator_fails_with_eof_class_error() {
    match run("1+") {
        Err(Error::Parser(AstError::UnexpectedToken(token))) => {
            assert_eq!(token.kind, TokenKind::Eof);
        }
        other => panic!("expected an unexpected-token error at end of input, got {:?}", other),
    }
}

#[test]
fn invalid_character_fails_with_its_position() {
    match run("1$2") {
        Err(Error::Lexer(e)) => {
            assert!(matches!(e.kind, rs_9cc::lexer::ErrorKind::InvalidChar('$')));
            assert_eq!(e.loc().start, 1);
            assert_eq!(e.loc().end, 2);
        }
        other => panic!("expected an invalid-character error, got {:?}", other),
    }
}

#[test]
fn unmatched_paren_fails_with_eof_class_error() {
    match run("(1+2") {
        Err(Error::Parser(AstError::UnexpectedToken(token))) => {
            assert_eq!(token.kind, TokenKind::Eof);
        }
        other => panic!("expected an unexpected-token error at end of input, got {:?}", other),
    }
}

#[test]
fn empty_source_fails_to_parse() {
    match run("") {
        Err(Error::Parser(AstError::UnexpectedToken(token))) => {
            assert_eq!(token.kind, TokenKind::Eof);
        }
        other => panic!("expected a parse error on empty input, got {:?}", other),
    }
}

#[test]
fn division_by_larger_value_truncates_to_zero() {
    assert_eq!(compile_and_execute("2/3"), 0);
}

#[test]
fn nested_parentheses_evaluate() {
    assert_eq!(compile_and_execute("((((1))))+((2*3))"), 7);
}
