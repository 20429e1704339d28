//! Recursive-descent parsing: turns the token sequence into an abstract
//! syntax tree with the usual precedence and left-associativity.
//!
//! The grammar, lowest precedence first, every binary level folding to the
//! left:
//!
//! ```text
//! expr       := equality
//! equality   := relational (('==' | '!=') relational)*
//! relational := additive (('<' | '<=' | '>' | '>=') additive)*
//! additive   := term (('+' | '-') term)*
//! term       := unary (('*' | '/') unary)*
//! unary      := ('+' | '-')? primary
//! primary    := NUMBER | '(' expr ')'
//! ```
//!
//! The parser itself desugars: `a > b` becomes `Lt(b, a)`, `a >= b` becomes
//! `Leq(b, a)`, unary minus becomes `Sub(Num(0), x)`, and unary plus is
//! dropped.  The whole behaviour is pinned by the spec functions `expr_at`
//! and friends, one per grammar rule.

use vstd::prelude::*;

use crate::lexer::{Token, TokenKind};

verus! {

/// Why parsing stopped.
#[derive(Debug, Clone, Copy, PartialEq)]
pub enum Error {
    /// The token stream ran out before a required token arrived.
    Eof,
    /// The lookahead token does not fit the grammar rule being applied.
    UnexpectedToken(Token),
}

/// What an AST node is: a binary operator, or a number at a leaf.
#[derive(Debug, Clone, Copy, PartialEq, Eq, Structural)]
pub enum NodeKind {
    Add,
    Sub,
    Mul,
    Div,
    Eq,
    Neq,
    Lt,
    Leq,
    Num(u64),
}

/// An AST node.  A binary node owns exactly two children; a `Num` leaf owns
/// none.
#[derive(Debug, PartialEq)]
pub struct Node {
    pub kind: NodeKind,
    pub lhs: Option<Box<Node>>,
    pub rhs: Option<Box<Node>>,
}

/// The leaf holding `n`.
pub open spec fn num_node(n: u64) -> Node {
    Node { kind: NodeKind::Num(n), lhs: None, rhs: None }
}

/// The binary node with the given operator and children.
pub open spec fn bin_node(kind: NodeKind, l: Node, r: Node) -> Node {
    Node { kind, lhs: Some(Box::new(l)), rhs: Some(Box::new(r)) }
}

/// Well-formedness: every `Num` leaf is childless and every operator node
/// has both children, recursively.
pub open spec fn wf_node(n: Node) -> bool
    decreases n,
{
    match n.kind {
        NodeKind::Num(_) => n.lhs is None && n.rhs is None,
        _ => match (n.lhs, n.rhs) {
            (Some(l), Some(r)) => wf_node(*l) && wf_node(*r),
            _ => false,
        },
    }
}

/// `j` where it lies in `[lo, hi]`, else `lo`.  The parse spec functions
/// pass every continuation position through this; it keeps their recursion
/// visibly bounded and is the identity for every position a parse actually
/// produces.
pub open spec fn clamp_pos(lo: nat, j: nat, hi: nat) -> nat {
    if lo <= j && j <= hi {
        j
    } else {
        lo
    }
}

/// `primary := NUMBER | '(' expr ')'`, at position `i`.
pub open spec fn primary_at(ts: Seq<Token>, i: nat) -> Result<(Node, nat), Error>
    decreases ts.len() - i, 0int
        when i <= ts.len()
{
    if i < ts.len() && ts[i as int].kind is LParen {
        match expr_at(ts, i + 1) {
            Err(e) => Err(e),
            Ok((n, j)) => {
                if j < ts.len() && ts[j as int].kind is RParen {
                    Ok((n, j + 1))
                } else if j < ts.len() {
                    Err(Error::UnexpectedToken(ts[j as int]))
                } else {
                    Err(Error::Eof)
                }
            },
        }
    } else if i < ts.len() {
        match ts[i as int].kind {
            TokenKind::Number(n) => Ok((num_node(n), i + 1)),
            _ => Err(Error::UnexpectedToken(ts[i as int])),
        }
    } else {
        Err(Error::Eof)
    }
}

/// `unary := ('+' | '-')? primary`: a leading `+` is dropped, a leading `-`
/// becomes a subtraction from zero.
pub open spec fn unary_at(ts: Seq<Token>, i: nat) -> Result<(Node, nat), Error>
    decreases ts.len() - i, 1int
        when i <= ts.len()
{
    if i < ts.len() && ts[i as int].kind is Plus {
        primary_at(ts, i + 1)
    } else if i < ts.len() && ts[i as int].kind is Minus {
        match primary_at(ts, i + 1) {
            Err(e) => Err(e),
            Ok((n, j)) => Ok((bin_node(NodeKind::Sub, num_node(0), n), j)),
        }
    } else {
        primary_at(ts, i)
    }
}

/// The left fold of `('*' | '/') unary` onto `acc`.
pub open spec fn mul_tail(ts: Seq<Token>, i: nat, acc: Node) -> Result<(Node, nat), Error>
    decreases ts.len() - i, 2int
        when i <= ts.len()
{
    if i < ts.len() && ts[i as int].kind is Asterisk {
        match unary_at(ts, i + 1) {
            Err(e) => Err(e),
            Ok((n, j)) => mul_tail(
                ts,
                clamp_pos(i + 1, j, ts.len()),
                bin_node(NodeKind::Mul, acc, n),
            ),
        }
    } else if i < ts.len() && ts[i as int].kind is Slash {
        match unary_at(ts, i + 1) {
            Err(e) => Err(e),
            Ok((n, j)) => mul_tail(
                ts,
                clamp_pos(i + 1, j, ts.len()),
                bin_node(NodeKind::Div, acc, n),
            ),
        }
    } else {
        Ok((acc, i))
    }
}

/// `term := unary (('*' | '/') unary)*`.
pub open spec fn mul_at(ts: Seq<Token>, i: nat) -> Result<(Node, nat), Error>
    decreases ts.len() - i, 3int
        when i <= ts.len()
{
    match unary_at(ts, i) {
        Err(e) => Err(e),
        Ok((n, j)) => mul_tail(ts, clamp_pos(i, j, ts.len()), n),
    }
}

/// The left fold of `('+' | '-') term` onto `acc`.
pub open spec fn add_tail(ts: Seq<Token>, i: nat, acc: Node) -> Result<(Node, nat), Error>
    decreases ts.len() - i, 4int
        when i <= ts.len()
{
    if i < ts.len() && ts[i as int].kind is Plus {
        match mul_at(ts, i + 1) {
            Err(e) => Err(e),
            Ok((n, j)) => add_tail(
                ts,
                clamp_pos(i + 1, j, ts.len()),
                bin_node(NodeKind::Add, acc, n),
            ),
        }
    } else if i < ts.len() && ts[i as int].kind is Minus {
        match mul_at(ts, i + 1) {
            Err(e) => Err(e),
            Ok((n, j)) => add_tail(
                ts,
                clamp_pos(i + 1, j, ts.len()),
                bin_node(NodeKind::Sub, acc, n),
            ),
        }
    } else {
        Ok((acc, i))
    }
}

/// `additive := term (('+' | '-') term)*`.
pub open spec fn add_at(ts: Seq<Token>, i: nat) -> Result<(Node, nat), Error>
    decreases ts.len() - i, 5int
        when i <= ts.len()
{
    match mul_at(ts, i) {
        Err(e) => Err(e),
        Ok((n, j)) => add_tail(ts, clamp_pos(i, j, ts.len()), n),
    }
}

/// The left fold of `('<' | '<=' | '>' | '>=') additive` onto `acc`.  The
/// greater-than forms swap their operands, so the tree knows only `Lt` and
/// `Leq`.
pub open spec fn relational_tail(ts: Seq<Token>, i: nat, acc: Node) -> Result<(Node, nat), Error>
    decreases ts.len() - i, 6int
        when i <= ts.len()
{
    if i < ts.len() && ts[i as int].kind is Lt {
        match add_at(ts, i + 1) {
            Err(e) => Err(e),
            Ok((n, j)) => relational_tail(
                ts,
                clamp_pos(i + 1, j, ts.len()),
                bin_node(NodeKind::Lt, acc, n),
            ),
        }
    } else if i < ts.len() && ts[i as int].kind is Leq {
        match add_at(ts, i + 1) {
            Err(e) => Err(e),
            Ok((n, j)) => relational_tail(
                ts,
                clamp_pos(i + 1, j, ts.len()),
                bin_node(NodeKind::Leq, acc, n),
            ),
        }
    } else if i < ts.len() && ts[i as int].kind is Gt {
        match add_at(ts, i + 1) {
            Err(e) => Err(e),
            Ok((n, j)) => relational_tail(
                ts,
                clamp_pos(i + 1, j, ts.len()),
                bin_node(NodeKind::Lt, n, acc),
            ),
        }
    } else if i < ts.len() && ts[i as int].kind is Geq {
        match add_at(ts, i + 1) {
            Err(e) => Err(e),
            Ok((n, j)) => relational_tail(
                ts,
                clamp_pos(i + 1, j, ts.len()),
                bin_node(NodeKind::Leq, n, acc),
            ),
        }
    } else {
        Ok((acc, i))
    }
}

/// `relational := additive (('<' | '<=' | '>' | '>=') additive)*`.
pub open spec fn relational_at(ts: Seq<Token>, i: nat) -> Result<(Node, nat), Error>
    decreases ts.len() - i, 7int
        when i <= ts.len()
{
    match add_at(ts, i) {
        Err(e) => Err(e),
        Ok((n, j)) => relational_tail(ts, clamp_pos(i, j, ts.len()), n),
    }
}

/// The left fold of `('==' | '!=') relational` onto `acc`.
pub open spec fn equality_tail(ts: Seq<Token>, i: nat, acc: Node) -> Result<(Node, nat), Error>
    decreases ts.len() - i, 8int
        when i <= ts.len()
{
    if i < ts.len() && ts[i as int].kind is Eq {
        match relational_at(ts, i + 1) {
            Err(e) => Err(e),
            Ok((n, j)) => equality_tail(
                ts,
                clamp_pos(i + 1, j, ts.len()),
                bin_node(NodeKind::Eq, acc, n),
            ),
        }
    } else if i < ts.len() && ts[i as int].kind is Neq {
        match relational_at(ts, i + 1) {
            Err(e) => Err(e),
            Ok((n, j)) => equality_tail(
                ts,
                clamp_pos(i + 1, j, ts.len()),
                bin_node(NodeKind::Neq, acc, n),
            ),
        }
    } else {
        Ok((acc, i))
    }
}

/// `equality := relational (('==' | '!=') relational)*`.
pub open spec fn equality_at(ts: Seq<Token>, i: nat) -> Result<(Node, nat), Error>
    decreases ts.len() - i, 9int
        when i <= ts.len()
{
    match relational_at(ts, i) {
        Err(e) => Err(e),
        Ok((n, j)) => equality_tail(ts, clamp_pos(i, j, ts.len()), n),
    }
}

/// `expr := equality`, the start symbol.
pub open spec fn expr_at(ts: Seq<Token>, i: nat) -> Result<(Node, nat), Error>
    decreases ts.len() - i, 10int
        when i <= ts.len()
{
    equality_at(ts, i)
}

/// What [`parse`] returns: the tree of the expression that starts the token
/// sequence, or the first parse error.  Tokens past that expression are
/// left unread.
pub open spec fn parse_spec(ts: Seq<Token>) -> Result<Node, Error> {
    match expr_at(ts, 0) {
        Err(e) => Err(e),
        Ok((n, _)) => Ok(n),
    }
}

proof fn wf_primary_at(ts: Seq<Token>, i: nat)
    requires
        i <= ts.len(),
    ensures
        (primary_at(ts, i) matches Ok(p) ==> wf_node(p.0)),
    decreases ts.len() - i, 0int,
{
    if i < ts.len() && ts[i as int].kind is LParen {
        wf_expr_at(ts, i + 1);
    }
}

proof fn wf_unary_at(ts: Seq<Token>, i: nat)
    requires
        i <= ts.len(),
    ensures
        (unary_at(ts, i) matches Ok(p) ==> wf_node(p.0)),
    decreases ts.len() - i, 1int,
{
    if i < ts.len() && ts[i as int].kind is Plus {
        wf_primary_at(ts, i + 1);
    } else if i < ts.len() && ts[i as int].kind is Minus {
        wf_primary_at(ts, i + 1);
        assert(wf_node(num_node(0)));
    } else {
        wf_primary_at(ts, i);
    }
}

proof fn wf_mul_tail(ts: Seq<Token>, i: nat, acc: Node)
    requires
        i <= ts.len(),
        wf_node(acc),
    ensures
        (mul_tail(ts, i, acc) matches Ok(p) ==> wf_node(p.0)),
    decreases ts.len() - i, 2int,
{
    if i < ts.len() && (ts[i as int].kind is Asterisk || ts[i as int].kind is Slash) {
        wf_unary_at(ts, i + 1);
        let kind = if ts[i as int].kind is Asterisk {
            NodeKind::Mul
        } else {
            NodeKind::Div
        };
        match unary_at(ts, i + 1) {
            Ok((n, j)) => {
                wf_mul_tail(ts, clamp_pos(i + 1, j, ts.len()), bin_node(kind, acc, n));
            },
            Err(_) => {},
        }
    }
}

proof fn wf_mul_at(ts: Seq<Token>, i: nat)
    requires
        i <= ts.len(),
    ensures
        (mul_at(ts, i) matches Ok(p) ==> wf_node(p.0)),
    decreases ts.len() - i, 3int,
{
    wf_unary_at(ts, i);
    match unary_at(ts, i) {
        Ok((n, j)) => {
            wf_mul_tail(ts, clamp_pos(i, j, ts.len()), n);
        },
        Err(_) => {},
    }
}

proof fn wf_add_tail(ts: Seq<Token>, i: nat, acc: Node)
    requires
        i <= ts.len(),
        wf_node(acc),
    ensures
        (add_tail(ts, i, acc) matches Ok(p) ==> wf_node(p.0)),
    decreases ts.len() - i, 4int,
{
    if i < ts.len() && (ts[i as int].kind is Plus || ts[i as int].kind is Minus) {
        wf_mul_at(ts, i + 1);
        let kind = if ts[i as int].kind is Plus {
            NodeKind::Add
        } else {
            NodeKind::Sub
        };
        match mul_at(ts, i + 1) {
            Ok((n, j)) => {
                wf_add_tail(ts, clamp_pos(i + 1, j, ts.len()), bin_node(kind, acc, n));
            },
            Err(_) => {},
        }
    }
}

proof fn wf_add_at(ts: Seq<Token>, i: nat)
    requires
        i <= ts.len(),
    ensures
        (add_at(ts, i) matches Ok(p) ==> wf_node(p.0)),
    decreases ts.len() - i, 5int,
{
    wf_mul_at(ts, i);
    match mul_at(ts, i) {
        Ok((n, j)) => {
            wf_add_tail(ts, clamp_pos(i, j, ts.len()), n);
        },
        Err(_) => {},
    }
}

proof fn wf_relational_tail(ts: Seq<Token>, i: nat, acc: Node)
    requires
        i <= ts.len(),
        wf_node(acc),
    ensures
        (relational_tail(ts, i, acc) matches Ok(p) ==> wf_node(p.0)),
    decreases ts.len() - i, 6int,
{
    if i < ts.len() && (ts[i as int].kind is Lt || ts[i as int].kind is Leq || ts[i as int].kind
        is Gt || ts[i as int].kind is Geq) {
        wf_add_at(ts, i + 1);
        match add_at(ts, i + 1) {
            Ok((n, j)) => {
                let folded = if ts[i as int].kind is Lt {
                    bin_node(NodeKind::Lt, acc, n)
                } else if ts[i as int].kind is Leq {
                    bin_node(NodeKind::Leq, acc, n)
                } else if ts[i as int].kind is Gt {
                    bin_node(NodeKind::Lt, n, acc)
                } else {
                    bin_node(NodeKind::Leq, n, acc)
                };
                wf_relational_tail(ts, clamp_pos(i + 1, j, ts.len()), folded);
            },
            Err(_) => {},
        }
    }
}

proof fn wf_relational_at(ts: Seq<Token>, i: nat)
    requires
        i <= ts.len(),
    ensures
        (relational_at(ts, i) matches Ok(p) ==> wf_node(p.0)),
    decreases ts.len() - i, 7int,
{
    wf_add_at(ts, i);
    match add_at(ts, i) {
        Ok((n, j)) => {
            wf_relational_tail(ts, clamp_pos(i, j, ts.len()), n);
        },
        Err(_) => {},
    }
}

proof fn wf_equality_tail(ts: Seq<Token>, i: nat, acc: Node)
    requires
        i <= ts.len(),
        wf_node(acc),
    ensures
        (equality_tail(ts, i, acc) matches Ok(p) ==> wf_node(p.0)),
    decreases ts.len() - i, 8int,
{
    if i < ts.len() && (ts[i as int].kind is Eq || ts[i as int].kind is Neq) {
        wf_relational_at(ts, i + 1);
        let kind = if ts[i as int].kind is Eq {
            NodeKind::Eq
        } else {
            NodeKind::Neq
        };
        match relational_at(ts, i + 1) {
            Ok((n, j)) => {
                wf_equality_tail(ts, clamp_pos(i + 1, j, ts.len()), bin_node(kind, acc, n));
            },
            Err(_) => {},
        }
    }
}

proof fn wf_equality_at(ts: Seq<Token>, i: nat)
    requires
        i <= ts.len(),
    ensures
        (equality_at(ts, i) matches Ok(p) ==> wf_node(p.0)),
    decreases ts.len() - i, 9int,
{
    wf_relational_at(ts, i);
    match relational_at(ts, i) {
        Ok((n, j)) => {
            wf_equality_tail(ts, clamp_pos(i, j, ts.len()), n);
        },
        Err(_) => {},
    }
}

proof fn wf_expr_at(ts: Seq<Token>, i: nat)
    requires
        i <= ts.len(),
    ensures
        (expr_at(ts, i) matches Ok(p) ==> wf_node(p.0)),
    decreases ts.len() - i, 10int,
{
    wf_equality_at(ts, i);
}

/// Law: a syntactically valid token sequence parses to a well-formed tree —
/// every operator node owns exactly two subtrees, every leaf none.
pub proof fn lemma_parse_spec_wf(ts: Seq<Token>)
    ensures
        (parse_spec(ts) matches Ok(n) ==> wf_node(n)),
{
    wf_expr_at(ts, 0);
}

/// A one-token-lookahead cursor over the scanned tokens.
pub struct TokenIter {
    tokens: Vec<Token>,
    pos: usize,
}

impl TokenIter {
    /// The tokens being read.
    pub closed spec fn toks(&self) -> Seq<Token> {
        self.tokens@
    }

    /// How many tokens have been consumed.
    pub closed spec fn cursor(&self) -> nat {
        self.pos as nat
    }

    pub open spec fn wf(&self) -> bool {
        self.cursor() <= self.toks().len()
    }

    pub fn new(tokens: Vec<Token>) -> (r: TokenIter)
        ensures
            r.toks() == tokens@,
            r.cursor() == 0,
            r.wf(),
    {
        TokenIter { tokens, pos: 0 }
    }

    /// The lookahead token, without consuming it; `Eof` when the stream is
    /// exhausted.
    pub fn peek(&self) -> (r: Result<Token, Error>)
        requires
            self.wf(),
        ensures
            (if self.cursor() < self.toks().len() {
                r == Ok::<Token, Error>(self.toks()[self.cursor() as int])
            } else {
                r == Err::<Token, Error>(Error::Eof)
            }),
    {
        if self.pos < self.tokens.len() {
            Ok(self.tokens[self.pos])
        } else {
            Err(Error::Eof)
        }
    }

    /// Consumes the lookahead token when its kind is `token_kind`; otherwise
    /// consumes nothing and reports the token (or `Eof`).
    pub fn expect_token(&mut self, token_kind: TokenKind) -> (r: Result<(), Error>)
        requires
            old(self).wf(),
        ensures
            final(self).toks() == old(self).toks(),
            final(self).wf(),
            (match r {
                Ok(()) => old(self).cursor() < old(self).toks().len() && old(self).toks()[old(
                    self,
                ).cursor() as int].kind == token_kind && final(self).cursor() == old(self).cursor() + 1,
                Err(e) => final(self).cursor() == old(self).cursor() && ({
                    if old(self).cursor() < old(self).toks().len() {
                        e == Error::UnexpectedToken(
                            old(self).toks()[old(self).cursor() as int],
                        ) && old(self).toks()[old(self).cursor() as int].kind != token_kind
                    } else {
                        e == Error::Eof
                    }
                }),
            }),
    {
        match self.peek() {
            Err(e) => Err(e),
            Ok(token) => {
                if token.kind == token_kind {
                    proof {
                        vstd::std_specs::vec::axiom_spec_len(&self.tokens);
                    }
                    self.pos += 1;
                    Ok(())
                } else {
                    Err(Error::UnexpectedToken(token))
                }
            },
        }
    }

    /// Consumes the lookahead token when it is a number, returning its
    /// value; otherwise consumes nothing and reports the token (or `Eof`).
    pub fn expect_number(&mut self) -> (r: Result<u64, Error>)
        requires
            old(self).wf(),
        ensures
            final(self).toks() == old(self).toks(),
            final(self).wf(),
            (match r {
                Ok(n) => old(self).cursor() < old(self).toks().len() && old(self).toks()[old(
                    self,
                ).cursor() as int].kind == TokenKind::Number(n) && final(self).cursor() == old(self).cursor() + 1,
                Err(e) => final(self).cursor() == old(self).cursor() && ({
                    if old(self).cursor() < old(self).toks().len() {
                        e == Error::UnexpectedToken(
                            old(self).toks()[old(self).cursor() as int],
                        ) && !(old(self).toks()[old(self).cursor() as int].kind is Number)
                    } else {
                        e == Error::Eof
                    }
                }),
            }),
    {
        match self.peek() {
            Err(e) => Err(e),
            Ok(token) => match token.kind {
                TokenKind::Number(n) => {
                    proof {
                        vstd::std_specs::vec::axiom_spec_len(&self.tokens);
                    }
                    self.pos += 1;
                    Ok(n)
                },
                _ => Err(Error::UnexpectedToken(token)),
            },
        }
    }
}

impl Node {
    fn new(kind: NodeKind, lhs: Node, rhs: Node) -> (r: Self)
        ensures
            r == bin_node(kind, lhs, rhs),
    {
        Self { kind, lhs: Some(Box::new(lhs)), rhs: Some(Box::new(rhs)) }
    }

    fn new_num(n: u64) -> (r: Self)
        ensures
            r == num_node(n),
    {
        Self { kind: NodeKind::Num(n), lhs: None, rhs: None }
    }

    #[verifier::loop_isolation(false)]
    fn expr(tokens: &mut TokenIter) -> (r: Result<Self, Error>)
        requires
            old(tokens).wf(),
        ensures
            final(tokens).wf(),
            final(tokens).toks() == old(tokens).toks(),
            old(tokens).cursor() <= final(tokens).cursor(),
            (match r {
                Ok(n) => expr_at(old(tokens).toks(), old(tokens).cursor()) == Ok::<
                    (Node, nat),
                    Error,
                >((n, final(tokens).cursor())) && wf_node(n) && old(tokens).cursor() < final(tokens).cursor(),
                Err(e) => expr_at(old(tokens).toks(), old(tokens).cursor()) == Err::<
                    (Node, nat),
                    Error,
                >(e),
            }),
        decreases old(tokens).toks().len() - old(tokens).cursor(), 10int,
    {
        Node::equality(tokens)
    }

    #[verifier::loop_isolation(false)]
    fn equality(tokens: &mut TokenIter) -> (r: Result<Self, Error>)
        requires
            old(tokens).wf(),
        ensures
            final(tokens).wf(),
            final(tokens).toks() == old(tokens).toks(),
            old(tokens).cursor() <= final(tokens).cursor(),
            (match r {
                Ok(n) => equality_at(old(tokens).toks(), old(tokens).cursor()) == Ok::<
                    (Node, nat),
                    Error,
                >((n, final(tokens).cursor())) && wf_node(n) && old(tokens).cursor() < final(tokens).cursor(),
                Err(e) => equality_at(old(tokens).toks(), old(tokens).cursor()) == Err::<
                    (Node, nat),
                    Error,
                >(e),
            }),
        decreases old(tokens).toks().len() - old(tokens).cursor(), 9int,
    {
        let ghost ts = old(tokens).toks();
        let ghost i0 = old(tokens).cursor();
        let mut node = match Node::relational(tokens) {
            Ok(n) => n,
            Err(e) => {
                return Err(e);
            },
        };
        loop
            invariant
                tokens.wf(),
                tokens.toks() == ts,
                i0 < tokens.cursor() <= ts.len(),
                wf_node(node),
                equality_at(ts, i0) == equality_tail(ts, tokens.cursor(), node),
            decreases ts.len() - tokens.cursor(),
        {
            let ghost c = tokens.cursor();
            if tokens.expect_token(TokenKind::Eq).is_ok() {
                let rhs = match Node::relational(tokens) {
                    Ok(n) => n,
                    Err(e) => {
                        return Err(e);
                    },
                };
                proof {
                    assert(equality_tail(ts, c, node) == equality_tail(
                        ts,
                        tokens.cursor(),
                        bin_node(NodeKind::Eq, node, rhs),
                    ));
                }
                node = Node::new(NodeKind::Eq, node, rhs);
            } else if tokens.expect_token(TokenKind::Neq).is_ok() {
                let rhs = match Node::relational(tokens) {
                    Ok(n) => n,
                    Err(e) => {
                        return Err(e);
                    },
                };
                proof {
                    assert(equality_tail(ts, c, node) == equality_tail(
                        ts,
                        tokens.cursor(),
                        bin_node(NodeKind::Neq, node, rhs),
                    ));
                }
                node = Node::new(NodeKind::Neq, node, rhs);
            } else {
                proof {
                    assert(equality_tail(ts, c, node) == Ok::<(Node, nat), Error>((node, c)));
                }
                return Ok(node);
            }
        }
    }

    #[verifier::loop_isolation(false)]
    fn relational(tokens: &mut TokenIter) -> (r: Result<Self, Error>)
        requires
            old(tokens).wf(),
        ensures
            final(tokens).wf(),
            final(tokens).toks() == old(tokens).toks(),
            old(tokens).cursor() <= final(tokens).cursor(),
            (match r {
                Ok(n) => relational_at(old(tokens).toks(), old(tokens).cursor()) == Ok::<
                    (Node, nat),
                    Error,
                >((n, final(tokens).cursor())) && wf_node(n) && old(tokens).cursor() < final(tokens).cursor(),
                Err(e) => relational_at(old(tokens).toks(), old(tokens).cursor()) == Err::<
                    (Node, nat),
                    Error,
                >(e),
            }),
        decreases old(tokens).toks().len() - old(tokens).cursor(), 7int,
    {
        let ghost ts = old(tokens).toks();
        let ghost i0 = old(tokens).cursor();
        let mut node = match Node::add(tokens) {
            Ok(n) => n,
            Err(e) => {
                return Err(e);
            },
        };
        loop
            invariant
                tokens.wf(),
                tokens.toks() == ts,
                i0 < tokens.cursor() <= ts.len(),
                wf_node(node),
                relational_at(ts, i0) == relational_tail(ts, tokens.cursor(), node),
            decreases ts.len() - tokens.cursor(),
        {
            let ghost c = tokens.cursor();
            if tokens.expect_token(TokenKind::Lt).is_ok() {
                let rhs = match Node::add(tokens) {
                    Ok(n) => n,
                    Err(e) => {
                        return Err(e);
                    },
                };
                proof {
                    assert(relational_tail(ts, c, node) == relational_tail(
                        ts,
                        tokens.cursor(),
                        bin_node(NodeKind::Lt, node, rhs),
                    ));
                }
                node = Node::new(NodeKind::Lt, node, rhs);
            } else if tokens.expect_token(TokenKind::Leq).is_ok() {
                let rhs = match Node::add(tokens) {
                    Ok(n) => n,
                    Err(e) => {
                        return Err(e);
                    },
                };
                proof {
                    assert(relational_tail(ts, c, node) == relational_tail(
                        ts,
                        tokens.cursor(),
                        bin_node(NodeKind::Leq, node, rhs),
                    ));
                }
                node = Node::new(NodeKind::Leq, node, rhs);
            } else if tokens.expect_token(TokenKind::Gt).is_ok() {
                let rhs = match Node::add(tokens) {
                    Ok(n) => n,
                    Err(e) => {
                        return Err(e);
                    },
                };
                proof {
                    assert(relational_tail(ts, c, node) == relational_tail(
                        ts,
                        tokens.cursor(),
                        bin_node(NodeKind::Lt, rhs, node),
                    ));
                }
                node = Node::new(NodeKind::Lt, rhs, node);
            } else if tokens.expect_token(TokenKind::Geq).is_ok() {
                let rhs = match Node::add(tokens) {
                    Ok(n) => n,
                    Err(e) => {
                        return Err(e);
                    },
                };
                proof {
                    assert(relational_tail(ts, c, node) == relational_tail(
                        ts,
                        tokens.cursor(),
                        bin_node(NodeKind::Leq, rhs, node),
                    ));
                }
                node = Node::new(NodeKind::Leq, rhs, node);
            } else {
                proof {
                    assert(relational_tail(ts, c, node) == Ok::<(Node, nat), Error>((node, c)));
                }
                return Ok(node);
            }
        }
    }

    #[verifier::loop_isolation(false)]
    fn add(tokens: &mut TokenIter) -> (r: Result<Self, Error>)
        requires
            old(tokens).wf(),
        ensures
            final(tokens).wf(),
            final(tokens).toks() == old(tokens).toks(),
            old(tokens).cursor() <= final(tokens).cursor(),
            (match r {
                Ok(n) => add_at(old(tokens).toks(), old(tokens).cursor()) == Ok::<
                    (Node, nat),
                    Error,
                >((n, final(tokens).cursor())) && wf_node(n) && old(tokens).cursor() < final(tokens).cursor(),
                Err(e) => add_at(old(tokens).toks(), old(tokens).cursor()) == Err::<
                    (Node, nat),
                    Error,
                >(e),
            }),
        decreases old(tokens).toks().len() - old(tokens).cursor(), 5int,
    {
        let ghost ts = old(tokens).toks();
        let ghost i0 = old(tokens).cursor();
        let mut node = match Node::mul(tokens) {
            Ok(n) => n,
            Err(e) => {
                return Err(e);
            },
        };
        loop
            invariant
                tokens.wf(),
                tokens.toks() == ts,
                i0 < tokens.cursor() <= ts.len(),
                wf_node(node),
                add_at(ts, i0) == add_tail(ts, tokens.cursor(), node),
            decreases ts.len() - tokens.cursor(),
        {
            let ghost c = tokens.cursor();
            if tokens.expect_token(TokenKind::Plus).is_ok() {
                let rhs = match Node::mul(tokens) {
                    Ok(n) => n,
                    Err(e) => {
                        return Err(e);
                    },
                };
                proof {
                    assert(add_tail(ts, c, node) == add_tail(
                        ts,
                        tokens.cursor(),
                        bin_node(NodeKind::Add, node, rhs),
                    ));
                }
                node = Node::new(NodeKind::Add, node, rhs);
            } else if tokens.expect_token(TokenKind::Minus).is_ok() {
                let rhs = match Node::mul(tokens) {
                    Ok(n) => n,
                    Err(e) => {
                        return Err(e);
                    },
                };
                proof {
                    assert(add_tail(ts, c, node) == add_tail(
                        ts,
                        tokens.cursor(),
                        bin_node(NodeKind::Sub, node, rhs),
                    ));
                }
                node = Node::new(NodeKind::Sub, node, rhs);
            } else {
                proof {
                    assert(add_tail(ts, c, node) == Ok::<(Node, nat), Error>((node, c)));
                }
                return Ok(node);
            }
        }
    }

    #[verifier::loop_isolation(false)]
    fn mul(tokens: &mut TokenIter) -> (r: Result<Self, Error>)
        requires
            old(tokens).wf(),
        ensures
            final(tokens).wf(),
            final(tokens).toks() == old(tokens).toks(),
            old(tokens).cursor() <= final(tokens).cursor(),
            (match r {
                Ok(n) => mul_at(old(tokens).toks(), old(tokens).cursor()) == Ok::<
                    (Node, nat),
                    Error,
                >((n, final(tokens).cursor())) && wf_node(n) && old(tokens).cursor() < final(tokens).cursor(),
                Err(e) => mul_at(old(tokens).toks(), old(tokens).cursor()) == Err::<
                    (Node, nat),
                    Error,
                >(e),
            }),
        decreases old(tokens).toks().len() - old(tokens).cursor(), 3int,
    {
        let ghost ts = old(tokens).toks();
        let ghost i0 = old(tokens).cursor();
        let mut node = match Node::unary(tokens) {
            Ok(n) => n,
            Err(e) => {
                return Err(e);
            },
        };
        loop
            invariant
                tokens.wf(),
                tokens.toks() == ts,
                i0 < tokens.cursor() <= ts.len(),
                wf_node(node),
                mul_at(ts, i0) == mul_tail(ts, tokens.cursor(), node),
            decreases ts.len() - tokens.cursor(),
        {
            let ghost c = tokens.cursor();
            if tokens.expect_token(TokenKind::Asterisk).is_ok() {
                let rhs = match Node::unary(tokens) {
                    Ok(n) => n,
                    Err(e) => {
                        return Err(e);
                    },
                };
                proof {
                    assert(mul_tail(ts, c, node) == mul_tail(
                        ts,
                        tokens.cursor(),
                        bin_node(NodeKind::Mul, node, rhs),
                    ));
                }
                node = Node::new(NodeKind::Mul, node, rhs);
            } else if tokens.expect_token(TokenKind::Slash).is_ok() {
                let rhs = match Node::unary(tokens) {
                    Ok(n) => n,
                    Err(e) => {
                        return Err(e);
                    },
                };
                proof {
                    assert(mul_tail(ts, c, node) == mul_tail(
                        ts,
                        tokens.cursor(),
                        bin_node(NodeKind::Div, node, rhs),
                    ));
                }
                node = Node::new(NodeKind::Div, node, rhs);
            } else {
                proof {
                    assert(mul_tail(ts, c, node) == Ok::<(Node, nat), Error>((node, c)));
                }
                return Ok(node);
            }
        }
    }

    fn unary(tokens: &mut TokenIter) -> (r: Result<Self, Error>)
        requires
            old(tokens).wf(),
        ensures
            final(tokens).wf(),
            final(tokens).toks() == old(tokens).toks(),
            old(tokens).cursor() <= final(tokens).cursor(),
            (match r {
                Ok(n) => unary_at(old(tokens).toks(), old(tokens).cursor()) == Ok::<
                    (Node, nat),
                    Error,
                >((n, final(tokens).cursor())) && wf_node(n) && old(tokens).cursor() < final(tokens).cursor(),
                Err(e) => unary_at(old(tokens).toks(), old(tokens).cursor()) == Err::<
                    (Node, nat),
                    Error,
                >(e),
            }),
        decreases old(tokens).toks().len() - old(tokens).cursor(), 1int,
    {
        if tokens.expect_token(TokenKind::Plus).is_ok() {
            Node::primary(tokens)
        } else if tokens.expect_token(TokenKind::Minus).is_ok() {
            match Node::primary(tokens) {
                Ok(n) => {
                    proof {
                        assert(wf_node(num_node(0)));
                    }
                    Ok(Node::new(NodeKind::Sub, Node::new_num(0), n))
                },
                Err(e) => Err(e),
            }
        } else {
            Node::primary(tokens)
        }
    }

    fn primary(tokens: &mut TokenIter) -> (r: Result<Self, Error>)
        requires
            old(tokens).wf(),
        ensures
            final(tokens).wf(),
            final(tokens).toks() == old(tokens).toks(),
            old(tokens).cursor() <= final(tokens).cursor(),
            (match r {
                Ok(n) => primary_at(old(tokens).toks(), old(tokens).cursor()) == Ok::<
                    (Node, nat),
                    Error,
                >((n, final(tokens).cursor())) && wf_node(n) && old(tokens).cursor() < final(tokens).cursor(),
                Err(e) => primary_at(old(tokens).toks(), old(tokens).cursor()) == Err::<
                    (Node, nat),
                    Error,
                >(e),
            }),
        decreases old(tokens).toks().len() - old(tokens).cursor(), 0int,
    {
        if tokens.expect_token(TokenKind::LParen).is_ok() {
            let node = match Node::expr(tokens) {
                Ok(n) => n,
                Err(e) => {
                    return Err(e);
                },
            };
            match tokens.expect_token(TokenKind::RParen) {
                Ok(_) => Ok(node),
                Err(e) => Err(e),
            }
        } else {
            match tokens.expect_number() {
                Ok(n) => Ok(Node::new_num(n)),
                Err(e) => Err(e),
            }
        }
    }
}

/// Parses the expression that starts the token sequence, exactly as
/// [`parse_spec`] describes; a successful parse always yields a well-formed
/// tree.
pub fn parse(tokens: Vec<Token>) -> (r: Result<Node, Error>)
    ensures
        r == parse_spec(tokens@),
        (r matches Ok(n) ==> wf_node(n)),
{
    let mut token_iter = TokenIter::new(tokens);
    match Node::expr(&mut token_iter) {
        Ok(n) => Ok(n),
        Err(e) => Err(e),
    }
}

} // verus!
