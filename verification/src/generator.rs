//! Code generation: walks the AST post-order and emits a textual
//! stack-machine program that computes the expression's value.
//!
//! The emission is modelled in two spec-level stages.  [`code_of`] gives the
//! instruction sequence of a tree: a leaf pushes its literal, an operator
//! node runs its left child, then its right child, then pops both values and
//! pushes the operator's result.  [`code_text`] renders those instructions
//! as the assembly text that [`generate`] returns.  The machine itself is
//! [`run_code`]; [`lemma_code_correct`] proves that the code of any
//! well-formed tree leaves exactly its value on top of any starting stack,
//! and [`lemma_stack_balance`] counts the push and pop effects.

use vstd::prelude::*;
use vstd::string::StringExecFns;

use crate::parser::{wf_node, Node, NodeKind};

verus! {

/// One stack-machine instruction: push a literal, or apply a binary
/// operator to the two topmost values.
#[derive(Debug, Clone, Copy, PartialEq, Eq, Structural)]
pub enum Instr {
    Push(u64),
    Op(NodeKind),
}

pub open spec fn iabs(a: int) -> int {
    if a < 0 {
        -a
    } else {
        a
    }
}

/// Division truncating toward zero, as the machine's divide primitive
/// computes it; division by zero is read as zero.
pub open spec fn tdiv(a: int, b: int) -> int {
    if b == 0 {
        0
    } else if (a < 0) != (b < 0) {
        -(iabs(a) / iabs(b))
    } else {
        iabs(a) / iabs(b)
    }
}

/// What the operator computes from the two popped operands; comparisons
/// yield one when the relation holds, else zero.
pub open spec fn apply_op(k: NodeKind, l: int, r: int) -> int {
    match k {
        NodeKind::Add => l + r,
        NodeKind::Sub => l - r,
        NodeKind::Mul => l * r,
        NodeKind::Div => tdiv(l, r),
        NodeKind::Eq => if l == r {
            1
        } else {
            0
        },
        NodeKind::Neq => if l != r {
            1
        } else {
            0
        },
        NodeKind::Lt => if l < r {
            1
        } else {
            0
        },
        NodeKind::Leq => if l <= r {
            1
        } else {
            0
        },
        NodeKind::Num(_) => 0,
    }
}

/// The value of a well-formed expression tree.
pub open spec fn eval(n: Node) -> int
    decreases n,
{
    match n.kind {
        NodeKind::Num(v) => v as int,
        _ => match (n.lhs, n.rhs) {
            (Some(l), Some(r)) => apply_op(n.kind, eval(*l), eval(*r)),
            _ => 0,
        },
    }
}

/// One machine step: `Push` grows the stack, `Op` replaces the two topmost
/// values by the operator's result and underflows (`None`) on a shorter
/// stack.
pub open spec fn step(stack: Seq<int>, i: Instr) -> Option<Seq<int>> {
    match i {
        Instr::Push(n) => Some(stack.push(n as int)),
        Instr::Op(k) => if stack.len() >= 2 {
            Some(
                stack.subrange(0, stack.len() - 2).push(
                    apply_op(k, stack[stack.len() - 2], stack[stack.len() - 1]),
                ),
            )
        } else {
            None
        },
    }
}

/// Runs a whole instruction sequence; `None` as soon as one step underflows.
pub open spec fn run_code(stack: Seq<int>, code: Seq<Instr>) -> Option<Seq<int>>
    decreases code.len(),
{
    if code.len() == 0 {
        Some(stack)
    } else {
        match step(stack, code[0]) {
            None => None,
            Some(st) => run_code(st, code.subrange(1, code.len() as int)),
        }
    }
}

/// The post-order instruction sequence of a tree.
pub open spec fn code_of(n: Node) -> Seq<Instr>
    decreases n,
{
    match n.kind {
        NodeKind::Num(v) => seq![Instr::Push(v)],
        _ => match (n.lhs, n.rhs) {
            (Some(l), Some(r)) => code_of(*l) + code_of(*r) + seq![Instr::Op(n.kind)],
            _ => Seq::empty(),
        },
    }
}

/// How many values the instructions push: one per instruction, since an
/// operator ends by pushing its result.
pub open spec fn push_count(code: Seq<Instr>) -> nat
    decreases code.len(),
{
    if code.len() == 0 {
        0
    } else {
        push_count(code.drop_last()) + (match code.last() {
            Instr::Push(_) => 1nat,
            Instr::Op(_) => 1nat,
        })
    }
}

/// How many values the instructions pop: two per operator.
pub open spec fn pop_count(code: Seq<Instr>) -> nat
    decreases code.len(),
{
    if code.len() == 0 {
        0
    } else {
        pop_count(code.drop_last()) + (match code.last() {
            Instr::Push(_) => 0nat,
            Instr::Op(_) => 2nat,
        })
    }
}

/// Running concatenated code runs the parts in order.
pub proof fn lemma_run_append(stack: Seq<int>, a: Seq<Instr>, b: Seq<Instr>)
    ensures
        run_code(stack, a + b) == (match run_code(stack, a) {
            None => None::<Seq<int>>,
            Some(st) => run_code(st, b),
        }),
    decreases a.len(),
{
    if a.len() == 0 {
        assert(a + b =~= b);
    } else {
        assert((a + b)[0] == a[0]);
        match step(stack, a[0]) {
            None => {},
            Some(st) => {
                assert((a + b).subrange(1, (a + b).len() as int) =~= a.subrange(
                    1,
                    a.len() as int,
                ) + b);
                lemma_run_append(st, a.subrange(1, a.len() as int), b);
            },
        }
    }
}

/// Law: the code of a well-formed tree, run from any starting stack, leaves
/// that stack with exactly the tree's value pushed on top — one net value,
/// no underflow, at any nesting depth.
pub proof fn lemma_code_correct(n: Node, stack: Seq<int>)
    requires
        wf_node(n),
    ensures
        run_code(stack, code_of(n)) == Some(stack.push(eval(n))),
    decreases n,
{
    reveal_with_fuel(run_code, 3);
    match n.kind {
        NodeKind::Num(v) => {
            let code = code_of(n);
            assert(code =~= seq![Instr::Push(v)]);
            assert(code.subrange(1, code.len() as int) =~= Seq::<Instr>::empty());
            assert(run_code(stack, code) == Some(stack.push(v as int)));
        },
        _ => {
            match (n.lhs, n.rhs) {
                (Some(l), Some(r)) => {
                    let a = code_of(*l);
                    let b = code_of(*r);
                    let op = seq![Instr::Op(n.kind)];
                    assert(code_of(n) == (a + b) + op);
                    lemma_code_correct(*l, stack);
                    lemma_code_correct(*r, stack.push(eval(*l)));
                    lemma_run_append(stack, a, b);
                    lemma_run_append(stack, a + b, op);
                    let st = stack.push(eval(*l)).push(eval(*r));
                    assert(st.len() >= 2);
                    assert(st[st.len() - 2] == eval(*l));
                    assert(st[st.len() - 1] == eval(*r));
                    assert(st.subrange(0, st.len() - 2) =~= stack);
                    let st2 = stack.push(apply_op(n.kind, eval(*l), eval(*r)));
                    assert(step(st, op[0]) == Some(st2));
                    assert(op.subrange(1, op.len() as int) =~= Seq::<Instr>::empty());
                    assert(run_code(st, op) == Some(st2));
                },
                _ => {},
            }
        },
    }
}

proof fn lemma_push_count_append(a: Seq<Instr>, b: Seq<Instr>)
    ensures
        push_count(a + b) == push_count(a) + push_count(b),
    decreases b.len(),
{
    if b.len() == 0 {
        assert(a + b =~= a);
    } else {
        lemma_push_count_append(a, b.drop_last());
        assert((a + b).drop_last() =~= a + b.drop_last());
        assert((a + b).last() == b.last());
    }
}

proof fn lemma_pop_count_append(a: Seq<Instr>, b: Seq<Instr>)
    ensures
        pop_count(a + b) == pop_count(a) + pop_count(b),
    decreases b.len(),
{
    if b.len() == 0 {
        assert(a + b =~= a);
    } else {
        lemma_pop_count_append(a, b.drop_last());
        assert((a + b).drop_last() =~= a + b.drop_last());
        assert((a + b).last() == b.last());
    }
}

/// Law: in the code of any well-formed tree, whatever its nesting depth,
/// the push effects outnumber the pop effects by exactly one — the value
/// that the program finally returns.
pub proof fn lemma_stack_balance(n: Node)
    requires
        wf_node(n),
    ensures
        push_count(code_of(n)) == pop_count(code_of(n)) + 1,
    decreases n,
{
    reveal_with_fuel(push_count, 3);
    reveal_with_fuel(pop_count, 3);
    match n.kind {
        NodeKind::Num(v) => {
            assert(seq![Instr::Push(v)].drop_last() =~= Seq::<Instr>::empty());
        },
        _ => {
            match (n.lhs, n.rhs) {
                (Some(l), Some(r)) => {
                    let a = code_of(*l);
                    let b = code_of(*r);
                    let op = seq![Instr::Op(n.kind)];
                    assert(code_of(n) == (a + b) + op);
                    lemma_stack_balance(*l);
                    lemma_stack_balance(*r);
                    lemma_push_count_append(a, b);
                    lemma_push_count_append(a + b, op);
                    lemma_pop_count_append(a, b);
                    lemma_pop_count_append(a + b, op);
                    assert(op.drop_last() =~= Seq::<Instr>::empty());
                },
                _ => {},
            }
        },
    }
}

// ---------------------------------------------------------------------------
// Rendering the instructions as text.
// ---------------------------------------------------------------------------

/// The character of one decimal digit.
pub open spec fn digit_char_of(d: nat) -> char {
    if d == 0 {
        '0'
    } else if d == 1 {
        '1'
    } else if d == 2 {
        '2'
    } else if d == 3 {
        '3'
    } else if d == 4 {
        '4'
    } else if d == 5 {
        '5'
    } else if d == 6 {
        '6'
    } else if d == 7 {
        '7'
    } else if d == 8 {
        '8'
    } else {
        '9'
    }
}

/// The decimal rendering of `n`, most significant digit first, no sign and
/// no leading zero except for zero itself.
pub open spec fn dec_rep(n: nat) -> Seq<char>
    decreases n,
{
    if n < 10 {
        seq![digit_char_of(n)]
    } else {
        dec_rep(n / 10) + seq![digit_char_of(n % 10)]
    }
}

/// The set-instruction mnemonic of a comparison operator.
pub open spec fn mnemonic(k: NodeKind) -> Seq<char> {
    match k {
        NodeKind::Eq => "sete"@,
        NodeKind::Neq => "setne"@,
        NodeKind::Lt => "setl"@,
        NodeKind::Leq => "setle"@,
        _ => Seq::empty(),
    }
}

/// The text of a comparison: compare, set the low byte from the relation,
/// widen it back into the accumulator.
pub open spec fn cmp_text(k: NodeKind) -> Seq<char> {
    "  cmp rax, rdi\n"@ + "  "@ + mnemonic(k) + " al\n"@ + "  movzb rax, al\n"@
}

/// The text of an operator's primitive effect on the two popped values.
pub open spec fn op_text(k: NodeKind) -> Seq<char> {
    match k {
        NodeKind::Add => "  add rax, rdi\n"@,
        NodeKind::Sub => "  sub rax, rdi\n"@,
        NodeKind::Mul => "  imul rax, rdi\n"@,
        NodeKind::Div => "  cqo\n  idiv rdi\n"@,
        NodeKind::Eq => cmp_text(k),
        NodeKind::Neq => cmp_text(k),
        NodeKind::Lt => cmp_text(k),
        NodeKind::Leq => cmp_text(k),
        NodeKind::Num(_) => Seq::empty(),
    }
}

/// The text of one instruction.
pub open spec fn instr_text(i: Instr) -> Seq<char> {
    match i {
        Instr::Push(n) => "  push "@ + dec_rep(n as nat) + "\n"@,
        Instr::Op(k) => "  pop rdi\n"@ + "  pop rax\n"@ + op_text(k) + "  push rax\n"@,
    }
}

/// The text of an instruction sequence, in order.
pub open spec fn code_text(code: Seq<Instr>) -> Seq<char>
    decreases code.len(),
{
    if code.len() == 0 {
        Seq::empty()
    } else {
        code_text(code.drop_last()) + instr_text(code.last())
    }
}

/// What [`generate`] returns for a tree: entry point, the tree's code, then
/// the final pop into the return register and the return.
pub open spec fn program_of(n: Node) -> Seq<char> {
    ".intel_syntax noprefix\n"@ + ".globl main\n"@ + "main:\n"@ + code_text(code_of(n))
        + "  pop rax\n"@ + "  ret\n"@
}

pub proof fn lemma_code_text_append(a: Seq<Instr>, b: Seq<Instr>)
    ensures
        code_text(a + b) == code_text(a) + code_text(b),
    decreases b.len(),
{
    if b.len() == 0 {
        assert(a + b =~= a);
        assert(code_text(a) + code_text(b) =~= code_text(a));
    } else {
        lemma_code_text_append(a, b.drop_last());
        assert((a + b).drop_last() =~= a + b.drop_last());
        assert((a + b).last() == b.last());
        assert(code_text(a) + (code_text(b.drop_last()) + instr_text(b.last())) =~= (code_text(a)
            + code_text(b.drop_last())) + instr_text(b.last()));
    }
}

/// The character of one decimal digit.
fn digit_str(d: u64) -> (r: &'static str)
    requires
        d < 10,
    ensures
        r@ == seq![digit_char_of(d as nat)],
{
    if d == 0 {
        proof {
            reveal_strlit("0");
            assert("0"@ =~= seq!['0']);
        }
        "0"
    } else if d == 1 {
        proof {
            reveal_strlit("1");
            assert("1"@ =~= seq!['1']);
        }
        "1"
    } else if d == 2 {
        proof {
            reveal_strlit("2");
            assert("2"@ =~= seq!['2']);
        }
        "2"
    } else if d == 3 {
        proof {
            reveal_strlit("3");
            assert("3"@ =~= seq!['3']);
        }
        "3"
    } else if d == 4 {
        proof {
            reveal_strlit("4");
            assert("4"@ =~= seq!['4']);
        }
        "4"
    } else if d == 5 {
        proof {
            reveal_strlit("5");
            assert("5"@ =~= seq!['5']);
        }
        "5"
    } else if d == 6 {
        proof {
            reveal_strlit("6");
            assert("6"@ =~= seq!['6']);
        }
        "6"
    } else if d == 7 {
        proof {
            reveal_strlit("7");
            assert("7"@ =~= seq!['7']);
        }
        "7"
    } else if d == 8 {
        proof {
            reveal_strlit("8");
            assert("8"@ =~= seq!['8']);
        }
        "8"
    } else {
        proof {
            reveal_strlit("9");
            assert("9"@ =~= seq!['9']);
        }
        "9"
    }
}

/// The decimal rendering of `n`, exactly [`dec_rep`].
fn u64_to_dec(n: u64) -> (s: String)
    ensures
        s@ == dec_rep(n as nat),
    decreases n,
{
    if n < 10 {
        digit_str(n).to_owned()
    } else {
        let mut s = u64_to_dec(n / 10);
        s.append(digit_str(n % 10));
        s
    }
}

/// The comparison text of one comparison operator, exactly [`cmp_text`].
fn cmp(node_kind: &NodeKind) -> (r: String)
    requires
        *node_kind is Eq || *node_kind is Neq || *node_kind is Lt || *node_kind is Leq,
    ensures
        r@ == cmp_text(*node_kind),
{
    let mut out = "  cmp rax, rdi\n".to_owned();
    out.append("  ");
    out.append(
        match node_kind {
            NodeKind::Eq => "sete",
            NodeKind::Neq => "setne",
            NodeKind::Lt => "setl",
            _ => "setle",
        },
    );
    out.append(" al\n");
    out.append("  movzb rax, al\n");
    proof {
        assert(out@ =~= cmp_text(*node_kind));
    }
    out
}

/// Emits the post-order code of one subtree onto `out`: exactly the text of
/// [`code_of`] the node.
#[verifier::rlimit(100)]
fn gen(node: &Node, out: &mut String)
    requires
        wf_node(*node),
    ensures
        final(out)@ == old(out)@ + code_text(code_of(*node)),
    decreases *node,
{
    let ghost out0 = out@;
    if let NodeKind::Num(n) = node.kind {
        out.append("  push ");
        let dec = u64_to_dec(n);
        out.append(dec.as_str());
        out.append("\n");
        proof {
            reveal_with_fuel(code_text, 3);
            assert(code_of(*node) =~= seq![Instr::Push(n)]);
            assert(seq![Instr::Push(n)].drop_last() =~= Seq::<Instr>::empty());
            assert(code_text(code_of(*node)) =~= instr_text(Instr::Push(n)));
            assert(out@ =~= out0 + code_text(code_of(*node)));
        }
        return ;
    }
    match (&node.lhs, &node.rhs) {
        (Some(l), Some(r)) => {
            let ghost a = code_text(code_of(*node.lhs->0));
            let ghost b = code_text(code_of(*node.rhs->0));
            gen(&**l, out);
            gen(&**r, out);
            proof {
                assert(out@ == (out0 + a) + b);
            }
            let ghost s2 = out@;
            out.append("  pop rdi\n");
            out.append("  pop rax\n");
            let ghost s4 = out@;
            match node.kind {
                NodeKind::Add => out.append("  add rax, rdi\n"),
                NodeKind::Sub => out.append("  sub rax, rdi\n"),
                NodeKind::Mul => out.append("  imul rax, rdi\n"),
                NodeKind::Div => out.append("  cqo\n  idiv rdi\n"),
                _ => {
                    let c = cmp(&node.kind);
                    out.append(c.as_str());
                },
            }
            proof {
                assert(out@ == s4 + op_text(node.kind));
            }
            out.append("  push rax\n");
            proof {
                reveal_with_fuel(code_text, 3);
                let op = seq![Instr::Op(node.kind)];
                let it = instr_text(Instr::Op(node.kind));
                assert(code_of(*node) == (code_of(*node.lhs->0) + code_of(*node.rhs->0)) + op);
                lemma_code_text_append(code_of(*node.lhs->0), code_of(*node.rhs->0));
                lemma_code_text_append(code_of(*node.lhs->0) + code_of(*node.rhs->0), op);
                assert(op.drop_last() =~= Seq::<Instr>::empty());
                assert(code_text(op) =~= it);
                assert(code_text(code_of(*node)) =~= (a + b) + it);
                assert(out@ == ((s2 + "  pop rdi\n"@) + "  pop rax\n"@) + op_text(node.kind)
                    + "  push rax\n"@);
                assert(it == (("  pop rdi\n"@ + "  pop rax\n"@) + op_text(node.kind))
                    + "  push rax\n"@);
                assert(out@ =~= out0 + code_text(code_of(*node)));
            }
        },
        _ => {
            proof {
                assert(false);
            }
        },
    }
}

/// Renders the whole program for a well-formed tree: the entry point, the
/// tree's post-order code, then the pop of the result and the return.  The
/// output is exactly [`program_of`] the tree — a pure function of it.
pub fn generate(ast: &Node) -> (r: String)
    requires
        wf_node(*ast),
    ensures
        r@ == program_of(*ast),
{
    let mut out = String::new();
    out.append(".intel_syntax noprefix\n");
    out.append(".globl main\n");
    out.append("main:\n");
    gen(ast, &mut out);
    out.append("  pop rax\n");
    out.append("  ret\n");
    proof {
        assert(out@ =~= program_of(*ast));
    }
    out
}

} // verus!
