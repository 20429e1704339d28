//! A small compiler that turns one arithmetic expression into a textual
//! stack-machine assembly program whose execution yields the expression's
//! value.
//!
//! The pipeline is `tokenize` (lexical scanning), `parse` (recursive-descent
//! parsing into an abstract syntax tree) and `generate` (post-order emission
//! of stack instructions), tied together by [`run`].

use vstd::prelude::*;
use vstd::string::StrSliceExecFns;
use vstd::string::StringSliceAdditionalSpecFns;

pub mod error;
pub mod generator;
pub mod lexer;
pub mod parser;

pub use error::Error;
pub use generator::generate;
pub use lexer::Error as LexError;
pub use lexer::Token;
pub use lexer::TokenKind;
pub use lexer::tokenize;
pub use parser::Error as AstError;
pub use parser::Node;
pub use parser::NodeKind;
pub use parser::TokenIter;
pub use parser::parse;

verus! {

/// What [`run`] returns for a source text with the given bytes: the
/// rendered program of the parsed expression, or the first error of the
/// stage that failed.
pub open spec fn compile_spec(bytes: Seq<u8>) -> Result<Seq<char>, Error> {
    match lexer::tokens_from(bytes, 0) {
        Err(e) => Err(Error::Lexer(e)),
        Ok(ts) => match parser::parse_spec(ts) {
            Err(e) => Err(Error::Parser(e)),
            Ok(n) => Ok(generator::program_of(n)),
        },
    }
}

/// One result of [`run`], related to the source bytes it was computed from.
pub open spec fn compiles_to(r: Result<String, Error>, bytes: Seq<u8>) -> bool {
    match r {
        Ok(out) => compile_spec(bytes) == Ok::<Seq<char>, Error>(out@),
        Err(e) => compile_spec(bytes) == Err::<Seq<char>, Error>(e),
    }
}

/// The whole pipeline: scan, parse, generate.  The result is exactly
/// [`compile_spec`] of the source bytes — assembly text on success, the
/// first stage's error otherwise, and never partial output.
pub fn run(s: &str) -> (r: Result<String, Error>)
    ensures
        compiles_to(r, s.spec_bytes()),
{
    let tokens = match lexer::tokenize(s) {
        Ok(t) => t,
        Err(e) => {
            return Err(Error::Lexer(e));
        },
    };
    let ast = match parser::parse(tokens) {
        Ok(n) => n,
        Err(e) => {
            return Err(Error::Parser(e));
        },
    };
    Ok(generator::generate(&ast))
}

/// Law: compilation is deterministic.  Any two results of [`run`] on
/// sources with the same bytes agree exactly: byte-identical assembly text,
/// or the same error.
pub proof fn lemma_run_deterministic(
    bytes: Seq<u8>,
    r1: Result<String, Error>,
    r2: Result<String, Error>,
)
    requires
        compiles_to(r1, bytes),
        compiles_to(r2, bytes),
    ensures
        (match (r1, r2) {
            (Ok(o1), Ok(o2)) => o1@ == o2@,
            (Err(e1), Err(e2)) => e1 == e2,
            _ => false,
        }),
{
}

/// Law: whenever compilation succeeds, its output is the rendering of the
/// well-formed tree that the source parses to; that tree's code pushes
/// exactly one value more than it pops, and running it on the empty stack
/// leaves exactly the tree's value — for sources of any nesting depth.
pub proof fn lemma_compiled_program_is_single_value(bytes: Seq<u8>)
    ensures
        (match lexer::tokens_from(bytes, 0) {
            Ok(ts) => match parser::parse_spec(ts) {
                Ok(tree) => {
                    &&& compile_spec(bytes) == Ok::<Seq<char>, Error>(
                        generator::program_of(tree),
                    )
                    &&& parser::wf_node(tree)
                    &&& generator::push_count(generator::code_of(tree)) == generator::pop_count(
                        generator::code_of(tree),
                    ) + 1
                    &&& generator::run_code(Seq::empty(), generator::code_of(tree)) == Some(
                        seq![generator::eval(tree)],
                    )
                },
                Err(_) => true,
            },
            Err(_) => true,
        }),
{
    match lexer::tokens_from(bytes, 0) {
        Ok(ts) => {
            parser::lemma_parse_spec_wf(ts);
            match parser::parse_spec(ts) {
                Ok(tree) => {
                    generator::lemma_stack_balance(tree);
                    generator::lemma_code_correct(tree, Seq::empty());
                    assert(Seq::empty().push(generator::eval(tree)) =~= seq![
                        generator::eval(tree),
                    ]);
                },
                Err(_) => {},
            }
        },
        Err(_) => {},
    }
}

/// Law: a source that is one decimal literal of value `n` compiles to the
/// program of the leaf `n`, and that program, run on the empty stack,
/// leaves exactly the value `n`.
#[verifier::rlimit(100)]
#[verifier::spinoff_prover]
pub proof fn lemma_literal_source_evaluates_to_itself(bytes: Seq<u8>, n: u64)
    requires
        bytes.len() > 0,
        forall|i: int| 0 <= i < bytes.len() ==> lexer::is_digit_byte(bytes[i]),
        lexer::digits_value(bytes, 0, bytes.len()) == n,
    ensures
        compile_spec(bytes) == Ok::<Seq<char>, Error>(
            generator::program_of(parser::num_node(n)),
        ),
        generator::eval(parser::num_node(n)) == n,
        generator::run_code(Seq::empty(), generator::code_of(parser::num_node(n))) == Some(
            seq![n as int],
        ),
{
    let len = bytes.len();
    lexer::lemma_digit_run_end(bytes, 0);
    assert(lexer::digit_run_end(bytes, 0) == len);
    assert(lexer::skip_ws(bytes, 0) == 0);
    let numtok = lexer::mk_tok(TokenKind::Number(n), 0, len);
    assert(lexer::next_token(bytes, 0) == Ok::<(Token, nat), LexError>((numtok, len)));
    assert(lexer::skip_ws(bytes, len) == len);
    let eoftok = lexer::mk_tok(TokenKind::Eof, len, len);
    assert(lexer::next_token(bytes, len) == Ok::<(Token, nat), LexError>((eoftok, len)));
    assert(lexer::tokens_from(bytes, len) == Ok::<Seq<Token>, LexError>(seq![eoftok]));
    let ts = seq![numtok, eoftok];
    assert(seq![numtok] + seq![eoftok] =~= ts);
    assert(lexer::tokens_from(bytes, 0) == Ok::<Seq<Token>, LexError>(ts));
    let node = parser::num_node(n);
    assert(parser::primary_at(ts, 0) == Ok::<(Node, nat), AstError>((node, 1)));
    assert(parser::unary_at(ts, 0) == Ok::<(Node, nat), AstError>((node, 1)));
    assert(parser::clamp_pos(0, 1, 2) == 1);
    assert(parser::mul_tail(ts, 1, node) == Ok::<(Node, nat), AstError>((node, 1)));
    assert(parser::mul_at(ts, 0) == Ok::<(Node, nat), AstError>((node, 1)));
    assert(parser::add_tail(ts, 1, node) == Ok::<(Node, nat), AstError>((node, 1)));
    assert(parser::add_at(ts, 0) == Ok::<(Node, nat), AstError>((node, 1)));
    assert(parser::relational_tail(ts, 1, node) == Ok::<(Node, nat), AstError>((node, 1)));
    assert(parser::relational_at(ts, 0) == Ok::<(Node, nat), AstError>((node, 1)));
    assert(parser::equality_tail(ts, 1, node) == Ok::<(Node, nat), AstError>((node, 1)));
    assert(parser::equality_at(ts, 0) == Ok::<(Node, nat), AstError>((node, 1)));
    assert(parser::expr_at(ts, 0) == Ok::<(Node, nat), AstError>((node, 1)));
    assert(parser::parse_spec(ts) == Ok::<Node, AstError>(node));
    assert(parser::wf_node(node));
    generator::lemma_code_correct(node, Seq::empty());
    assert(Seq::empty().push(n as int) =~= seq![n as int]);
}

/// Reads an unsigned integer in the given radix from `s`, starting at `*pos`.
///
/// Consumes the longest run of digits of the radix and advances `*pos` past
/// it; digits are folded left to right with wrapping 32-bit arithmetic.
/// Returns `None`, leaving `*pos` unchanged, when no digit starts at `*pos`.
pub fn strtol(s: &str, pos: &mut usize, radix: u32) -> (r: Option<u32>)
    requires
        2 <= radix <= 36,
        *old(pos) <= s@.len(),
    ensures
        *final(pos) <= s@.len(),
        (match r {
            Some(v) => {
                &&& *old(pos) < s@.len()
                &&& char_digit(s@[*old(pos) as int], radix) is Some
                &&& *final(pos) == digit_run_end_chars(s@, *old(pos) as nat, radix)
                &&& v == radix_fold(s@, *old(pos) as nat, *final(pos) as nat, radix)
            },
            None => {
                &&& *final(pos) == *old(pos)
                &&& (*old(pos) == s@.len() || char_digit(s@[*old(pos) as int], radix) is None)
            },
        }),
{
    if *pos >= s.unicode_len() {
        return None;
    }
    let mut val: u32 = match char_to_digit(s.get_char(*pos), radix) {
        Some(d) => d,
        None => { return None; },
    };
    let ghost start: nat = *pos as nat;
    *pos += 1;
    proof {
        assert(radix_fold(s@, start, start, radix) == 0u32);
        assert(val == radix_fold(s@, start, (start + 1) as nat, radix));
    }
    loop
        invariant
            2 <= radix <= 36,
            start < *pos <= s@.len(),
            char_digit(s@[start as int], radix) is Some,
            digit_run_end_chars(s@, start, radix) == digit_run_end_chars(s@, *pos as nat, radix),
            val == radix_fold(s@, start, *pos as nat, radix),
        ensures
            start < *pos <= s@.len(),
            *pos == digit_run_end_chars(s@, start, radix),
            val == radix_fold(s@, start, *pos as nat, radix),
        decreases s@.len() - *pos,
    {
        if *pos >= s.unicode_len() {
            break;
        }
        let d = match char_to_digit(s.get_char(*pos), radix) {
            Some(d) => d,
            None => { break; },
        };
        proof {
            assert(digit_run_end_chars(s@, *pos as nat, radix) == digit_run_end_chars(
                s@,
                (*pos + 1) as nat,
                radix,
            ));
        }
        val = val.wrapping_mul(radix).wrapping_add(d);
        *pos += 1;
    }
    Some(val)
}

/// The digit value of `c` in the given radix: decimal digits, then lower- and
/// upper-case letters from ten upward; `None` when `c` is no digit of the radix.
pub open spec fn char_digit(c: char, radix: u32) -> Option<u32> {
    let v = c as u32;
    if 48 <= v <= 57 && v - 48 < radix {
        Some((v - 48) as u32)
    } else if 97 <= v <= 122 && v - 87 < radix {
        Some((v - 87) as u32)
    } else if 65 <= v <= 90 && v - 55 < radix {
        Some((v - 55) as u32)
    } else {
        None
    }
}

/// The end of the run of radix digits that starts at `pos`.
pub open spec fn digit_run_end_chars(s: Seq<char>, pos: nat, radix: u32) -> nat
    decreases s.len() - pos when pos <= s.len()
{
    if pos < s.len() && char_digit(s[pos as int], radix) is Some {
        digit_run_end_chars(s, pos + 1, radix)
    } else {
        pos
    }
}

/// The digits of `s[start..end]` folded left to right in the radix, each step
/// wrapping to 32 bits.
pub open spec fn radix_fold(s: Seq<char>, start: nat, end: nat, radix: u32) -> u32
    decreases end - start when start <= end
{
    if start < end {
        let prev = radix_fold(s, start, (end - 1) as nat, radix);
        let d = match char_digit(s[end - 1], radix) {
            Some(d) => d,
            None => 0u32,
        };
        vstd::wrapping::u32_specs::wrapping_add(
            vstd::wrapping::u32_specs::wrapping_mul(prev, radix),
            d,
        )
    } else {
        0u32
    }
}

/// The digit value of `c` in the given radix, as `char::to_digit` computes it.
fn char_to_digit(c: char, radix: u32) -> (r: Option<u32>)
    requires
        2 <= radix <= 36,
    ensures
        r == char_digit(c, radix),
{
    let v = c as u32;
    if 48 <= v && v <= 57 && v - 48 < radix {
        Some(v - 48)
    } else if 97 <= v && v <= 122 && v - 87 < radix {
        Some(v - 87)
    } else if 65 <= v && v <= 90 && v - 55 < radix {
        Some(v - 55)
    } else {
        None
    }
}

} // verus!

