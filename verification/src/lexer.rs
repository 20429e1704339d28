//! Lexical scanning: turns the source text into the sequence of tokens that
//! the parser consumes.
//!
//! The scanner walks the byte stream left to right with maximal munch: digit
//! runs form `Number` tokens, the punctuation characters form one- or
//! two-byte operator tokens, ASCII whitespace is skipped, and a synthetic
//! `Eof` token with an empty location closes every successful scan.  The
//! whole behaviour is pinned by the spec function [`tokens_from`].

use vstd::prelude::*;
use vstd::string::StrSliceExecFns;
use vstd::string::StringSliceAdditionalSpecFns;

verus! {

pub const B_TAB: u8 = 9;

pub const B_LF: u8 = 10;

pub const B_FF: u8 = 12;

pub const B_CR: u8 = 13;

pub const B_SPACE: u8 = 32;

pub const B_BANG: u8 = 33;

pub const B_LPAREN: u8 = 40;

pub const B_RPAREN: u8 = 41;

pub const B_STAR: u8 = 42;

pub const B_PLUS: u8 = 43;

pub const B_MINUS: u8 = 45;

pub const B_SLASH: u8 = 47;

pub const B_ZERO: u8 = 48;

pub const B_NINE: u8 = 57;

pub const B_LT: u8 = 60;

pub const B_EQ: u8 = 61;

pub const B_GT: u8 = 62;

/// A half-open byte-offset range into the source text.
#[derive(Debug, Clone, Copy, PartialEq, Eq, Structural)]
pub struct Loc {
    pub start: usize,
    pub end: usize,
}

/// A payload together with the source location it was read from.
#[derive(Debug, Clone, Copy, PartialEq, Eq)]
pub struct Annot<T> {
    pub kind: T,
    pub loc: Loc,
}

impl<T> Annot<T> {
    /// The source range this item was read from.
    pub open spec fn spec_loc(&self) -> Loc {
        self.loc
    }

    /// The source range this item was read from.
    pub fn loc(&self) -> (r: Loc)
        ensures
            r == self.spec_loc(),
    {
        self.loc
    }
}

/// Why scanning stopped.
#[derive(Debug, Clone, Copy, PartialEq, Eq, Structural)]
pub enum ErrorKind {
    /// A byte that starts no token.
    InvalidChar(char),
    /// The input ended inside a two-byte operator.
    Eof,
    /// A digit run whose value does not fit in 64 bits.
    LiteralOverflow,
}

/// A scan error, located in the source text.
pub type Error = Annot<ErrorKind>;

/// What a token is.
#[derive(Debug, Clone, Copy, PartialEq, Eq, Structural)]
pub enum TokenKind {
    Number(u64),
    Plus,
    Minus,
    Asterisk,
    Slash,
    LParen,
    RParen,
    Lt,
    Leq,
    Gt,
    Geq,
    Eq,
    Neq,
    Eof,
}

/// A classified, located lexical unit.
pub type Token = Annot<TokenKind>;

impl Error {
    fn new(error_kind: ErrorKind, loc: Loc) -> (r: Self)
        ensures
            r.kind == error_kind,
            r.spec_loc() == loc,
    {
        Error { kind: error_kind, loc }
    }
}

impl Token {
    fn new(token_kind: TokenKind, loc: Loc) -> (r: Self)
        ensures
            r.kind == token_kind,
            r.spec_loc() == loc,
    {
        Token { kind: token_kind, loc }
    }

    fn eof(loc: Loc) -> (r: Self)
        ensures
            r.kind == TokenKind::Eof,
            r.spec_loc() == loc,
    {
        Token { kind: TokenKind::Eof, loc }
    }
}

// ---------------------------------------------------------------------------
// The mathematical scanner.
// ---------------------------------------------------------------------------

pub open spec fn is_digit_byte(b: u8) -> bool {
    B_ZERO <= b <= B_NINE
}

/// The ASCII whitespace bytes: space, tab, line feed, form feed, carriage
/// return.
pub open spec fn is_space_byte(b: u8) -> bool {
    b == B_SPACE || b == B_TAB || b == B_LF || b == B_FF || b == B_CR
}

pub open spec fn digit_of(b: u8) -> nat {
    (b - B_ZERO) as nat
}

/// The token with the given kind and byte range.
pub open spec fn mk_tok(kind: TokenKind, start: nat, end: nat) -> Token {
    Annot { kind, loc: Loc { start: start as usize, end: end as usize } }
}

/// The scan error with the given kind and byte range.
pub open spec fn mk_err(kind: ErrorKind, start: nat, end: nat) -> Error {
    Annot { kind, loc: Loc { start: start as usize, end: end as usize } }
}

/// The first position at or after `pos` that does not hold whitespace.
pub open spec fn skip_ws(s: Seq<u8>, pos: nat) -> nat
    decreases s.len() - pos when pos <= s.len()
{
    if pos < s.len() && is_space_byte(s[pos as int]) {
        skip_ws(s, pos + 1)
    } else {
        pos
    }
}

/// The end of the digit run that starts at `pos`.
pub open spec fn digit_run_end(s: Seq<u8>, pos: nat) -> nat
    decreases s.len() - pos when pos <= s.len()
{
    if pos < s.len() && is_digit_byte(s[pos as int]) {
        digit_run_end(s, pos + 1)
    } else {
        pos
    }
}

/// The value of the decimal digits `s[start..end]`.
pub open spec fn digits_value(s: Seq<u8>, start: nat, end: nat) -> nat
    decreases end - start when start <= end
{
    if start < end {
        digits_value(s, start, (end - 1) as nat) * 10 + digit_of(s[end - 1])
    } else {
        0
    }
}

/// The token that starts at or after `pos`, with the position just past it;
/// or the error that scanning there produces.
///
/// Maximal munch: a digit run is read whole, and `<` and `>` take a
/// following `=` when one is there.  A lone `=` or `!` is invalid: at the
/// end of the input it reports `Eof`, otherwise the byte after it.
pub open spec fn next_token(s: Seq<u8>, pos: nat) -> Result<(Token, nat), Error>
    recommends
        pos <= s.len(),
{
    let p = skip_ws(s, pos);
    if p >= s.len() {
        Ok((mk_tok(TokenKind::Eof, p, p), p))
    } else {
        let b = s[p as int];
        if is_digit_byte(b) {
            let e = digit_run_end(s, p);
            if digits_value(s, p, e) <= u64::MAX {
                Ok((mk_tok(TokenKind::Number(digits_value(s, p, e) as u64), p, e), e))
            } else {
                Err(mk_err(ErrorKind::LiteralOverflow, p, e))
            }
        } else if b == B_PLUS {
            Ok((mk_tok(TokenKind::Plus, p, p + 1), p + 1))
        } else if b == B_MINUS {
            Ok((mk_tok(TokenKind::Minus, p, p + 1), p + 1))
        } else if b == B_STAR {
            Ok((mk_tok(TokenKind::Asterisk, p, p + 1), p + 1))
        } else if b == B_SLASH {
            Ok((mk_tok(TokenKind::Slash, p, p + 1), p + 1))
        } else if b == B_LPAREN {
            Ok((mk_tok(TokenKind::LParen, p, p + 1), p + 1))
        } else if b == B_RPAREN {
            Ok((mk_tok(TokenKind::RParen, p, p + 1), p + 1))
        } else if b == B_LT {
            if p + 1 < s.len() && s[(p + 1) as int] == B_EQ {
                Ok((mk_tok(TokenKind::Leq, p, p + 2), p + 2))
            } else {
                Ok((mk_tok(TokenKind::Lt, p, p + 1), p + 1))
            }
        } else if b == B_GT {
            if p + 1 < s.len() && s[(p + 1) as int] == B_EQ {
                Ok((mk_tok(TokenKind::Geq, p, p + 2), p + 2))
            } else {
                Ok((mk_tok(TokenKind::Gt, p, p + 1), p + 1))
            }
        } else if b == B_EQ || b == B_BANG {
            if p + 1 >= s.len() {
                Err(mk_err(ErrorKind::Eof, p, p))
            } else if s[(p + 1) as int] == B_EQ {
                let kind = if b == B_EQ {
                    TokenKind::Eq
                } else {
                    TokenKind::Neq
                };
                Ok((mk_tok(kind, p, p + 2), p + 2))
            } else {
                Err(mk_err(ErrorKind::InvalidChar(s[(p + 1) as int] as char), p + 1, p + 2))
            }
        } else {
            Err(mk_err(ErrorKind::InvalidChar(b as char), p, p + 1))
        }
    }
}

/// The whole token sequence from `pos` on, ending with the `Eof` token; or
/// the first error.  This is what [`tokenize`] returns.
pub open spec fn tokens_from(s: Seq<u8>, pos: nat) -> Result<Seq<Token>, Error>
    decreases s.len() - pos
        when pos <= s.len()
        via tokens_from_decreases
{
    match next_token(s, pos) {
        Err(e) => Err(e),
        Ok((t, p2)) => if t.kind is Eof {
            Ok(seq![t])
        } else {
            match tokens_from(s, p2) {
                Err(e) => Err(e),
                Ok(r) => Ok(seq![t] + r),
            }
        },
    }
}

#[via_fn]
proof fn tokens_from_decreases(s: Seq<u8>, pos: nat) {
    lemma_next_token_bounds(s, pos);
}

pub proof fn lemma_skip_ws(s: Seq<u8>, pos: nat)
    requires
        pos <= s.len(),
    ensures
        pos <= skip_ws(s, pos) <= s.len(),
        skip_ws(s, pos) < s.len() ==> !is_space_byte(s[skip_ws(s, pos) as int]),
    decreases s.len() - pos,
{
    if pos < s.len() && is_space_byte(s[pos as int]) {
        lemma_skip_ws(s, pos + 1);
    }
}

pub proof fn lemma_digit_run_end(s: Seq<u8>, pos: nat)
    requires
        pos <= s.len(),
    ensures
        pos <= digit_run_end(s, pos) <= s.len(),
        digit_run_end(s, pos) < s.len() ==> !is_digit_byte(s[digit_run_end(s, pos) as int]),
        pos < s.len() && is_digit_byte(s[pos as int]) ==> digit_run_end(s, pos) > pos,
    decreases s.len() - pos,
{
    if pos < s.len() && is_digit_byte(s[pos as int]) {
        lemma_digit_run_end(s, pos + 1);
    }
}

/// A successful [`next_token`] stays within the input and, except for the
/// `Eof` token, makes progress.
pub proof fn lemma_next_token_bounds(s: Seq<u8>, pos: nat)
    requires
        pos <= s.len(),
    ensures
        (match next_token(s, pos) {
            Ok((t, p2)) => pos <= p2 <= s.len() && (t.kind is Eof ==> p2 == s.len()) && (!(
            t.kind is Eof) ==> p2 > pos),
            Err(_) => true,
        }),
{
    lemma_skip_ws(s, pos);
    let p = skip_ws(s, pos);
    if p < s.len() {
        lemma_digit_run_end(s, p);
    }
}

/// Law: every successful scan yields at least one token, its last token is
/// the synthetic `Eof`, and no other token is an `Eof` — consumers may treat
/// the `Eof` token as the one end marker.
pub proof fn lemma_tokens_end_with_eof(s: Seq<u8>, pos: nat)
    requires
        pos <= s.len(),
    ensures
        (tokens_from(s, pos) matches Ok(ts) ==> ts.len() >= 1 && ts.last().kind is Eof && (forall|
            i: int,
        |
            0 <= i < ts.len() - 1 ==> !(#[trigger] ts[i].kind is Eof))),
    decreases s.len() - pos,
{
    lemma_next_token_bounds(s, pos);
    match next_token(s, pos) {
        Ok((t, p2)) => {
            if !(t.kind is Eof) {
                lemma_tokens_end_with_eof(s, p2);
                match tokens_from(s, p2) {
                    Ok(r) => {
                        let ts = seq![t] + r;
                        assert(ts.last() == r.last());
                        assert forall|i: int| 0 <= i < ts.len() - 1 implies !(#[trigger] ts[i].kind
                            is Eof) by {
                            if i >= 1 {
                                assert(ts[i] == r[i - 1]);
                            } else {
                                assert(ts[i] == t);
                            }
                        }
                    },
                    Err(_) => {},
                }
            }
        },
        Err(_) => {},
    }
}

// ---------------------------------------------------------------------------
// The executable scanner.
// ---------------------------------------------------------------------------

/// A cursor over the source bytes.
struct Input {
    s: Vec<u8>,
    pos: usize,
}

impl Input {
    spec fn wf(&self) -> bool {
        self.pos <= self.s@.len()
    }

    fn new(s: &str) -> (r: Input)
        ensures
            r.s@ == s.spec_bytes(),
            r.pos == 0,
            r.wf(),
    {
        Input { s: s.as_bytes_vec(), pos: 0 }
    }

    fn eof(&self) -> (r: Error)
        ensures
            r == mk_err(ErrorKind::Eof, self.pos as nat, self.pos as nat),
    {
        let pos = self.pos();
        Error::new(ErrorKind::Eof, Loc { start: pos, end: pos })
    }

    fn pos(&self) -> (r: usize)
        ensures
            r == self.pos,
    {
        self.pos
    }

    fn peek(&self) -> (r: Result<u8, Error>)
        requires
            self.wf(),
        ensures
            (if (self.pos as nat) < self.s@.len() {
                r == Ok::<u8, Error>(self.s@[self.pos as int])
            } else {
                r == Err::<u8, Error>(mk_err(ErrorKind::Eof, self.pos as nat, self.pos as nat))
            }),
    {
        if self.pos < self.s.len() {
            Ok(self.s[self.pos])
        } else {
            Err(self.eof())
        }
    }

    fn peek_nth(&self, n: usize) -> (r: Result<u8, Error>)
        requires
            self.wf(),
        ensures
            (if self.pos + n < self.s@.len() {
                r == Ok::<u8, Error>(self.s@[self.pos + n])
            } else {
                r == Err::<u8, Error>(mk_err(ErrorKind::Eof, self.pos as nat, self.pos as nat))
            }),
    {
        if n < self.s.len() - self.pos {
            Ok(self.s[self.pos + n])
        } else {
            Err(self.eof())
        }
    }

    fn inc(&mut self)
        requires
            old(self).pos < old(self).s@.len(),
        ensures
            final(self).s == old(self).s,
            final(self).pos == old(self).pos + 1,
    {
        proof {
            vstd::std_specs::vec::axiom_spec_len(&self.s);
        }
        self.pos += 1
    }

    fn inc_nth(&mut self, n: usize)
        requires
            old(self).pos + n <= old(self).s@.len(),
        ensures
            final(self).s == old(self).s,
            final(self).pos == old(self).pos + n,
    {
        proof {
            vstd::std_specs::vec::axiom_spec_len(&self.s);
        }
        self.pos += n
    }

    fn pos_then_inc(&mut self) -> (r: usize)
        requires
            old(self).pos < old(self).s@.len(),
        ensures
            final(self).s == old(self).s,
            final(self).pos == old(self).pos + 1,
            r == old(self).pos,
    {
        let pos = self.pos();
        self.inc();
        pos
    }

    /// Consumes one byte that must be `want`; any other byte, or the end of
    /// the input, is an error and leaves the cursor where it was.
    #[allow(dead_code)]
    fn consume_byte(&mut self, want: u8) -> (r: Result<usize, Error>)
        requires
            old(self).wf(),
        ensures
            final(self).s == old(self).s,
            final(self).wf(),
            (if old(self).pos < old(self).s@.len() {
                if old(self).s@[old(self).pos as int] == want {
                    r == Ok::<usize, Error>(old(self).pos) && final(self).pos == old(self).pos
                        + 1
                } else {
                    r == Err::<usize, Error>(
                        mk_err(
                            ErrorKind::InvalidChar(old(self).s@[old(self).pos as int] as char),
                            old(self).pos as nat,
                            (old(self).pos + 1) as nat,
                        ),
                    ) && final(self).pos == old(self).pos
                }
            } else {
                r == Err::<usize, Error>(
                    mk_err(ErrorKind::Eof, old(self).pos as nat, old(self).pos as nat),
                ) && final(self).pos == old(self).pos
            }),
    {
        proof {
            vstd::std_specs::vec::axiom_spec_len(&self.s);
        }
        match self.peek() {
            Err(e) => Err(e),
            Ok(got) => if got != want {
                let pos = self.pos();
                Err(Error::new(ErrorKind::InvalidChar(got as char), Loc { start: pos, end: pos + 1 }))
            } else {
                Ok(self.pos_then_inc())
            },
        }
    }

    /// Consumes exactly the bytes of `wants`; at the first byte that differs
    /// the cursor stays where it was and the mismatch is reported as in
    /// [`scan_bytes`].
    fn consume_bytes(&mut self, wants: &[u8]) -> (r: Result<usize, Error>)
        requires
            old(self).wf(),
        ensures
            final(self).s == old(self).s,
            final(self).wf(),
            (match scan_bytes(old(self).s@, old(self).pos as nat, wants@, 0) {
                Ok(()) => r == Ok::<usize, Error>(old(self).pos) && final(self).pos == old(
                    self,
                ).pos + wants@.len(),
                Err(e) => r == Err::<usize, Error>(e) && final(self).pos == old(self).pos,
            }),
    {
        let ghost sb = self.s@;
        let ghost s0 = self.s;
        let ghost p: nat = self.pos as nat;
        proof {
            vstd::std_specs::vec::axiom_spec_len(&self.s);
        }
        let pos = self.pos;
        let mut idx: usize = 0;
        loop
            invariant
                self.s == s0,
                self.s@ == sb,
                sb.len() <= usize::MAX,
                self.pos == pos,
                p == pos as nat,
                self.wf(),
                idx <= wants@.len(),
                scan_bytes(sb, p, wants@, 0) == scan_bytes(sb, p, wants@, idx as nat),
                pos + idx <= sb.len() || idx == 0,
            ensures
                self.s == s0,
                self.pos == pos,
                scan_bytes(sb, p, wants@, 0) == Ok::<(), Error>(()),
                pos + wants@.len() <= sb.len(),
            decreases wants@.len() - idx,
        {
            if idx >= wants.len() {
                proof {
                    assert(scan_bytes(sb, p, wants@, idx as nat) == Ok::<(), Error>(()));
                    if wants@.len() == 0 {
                    } else {
                        assert(pos + idx <= sb.len());
                    }
                }
                break;
            }
            match self.peek_nth(idx) {
                Err(e) => {
                    proof {
                        assert(scan_bytes(sb, p, wants@, idx as nat) == Err::<(), Error>(
                            mk_err(ErrorKind::Eof, p, p),
                        ));
                    }
                    return Err(e);
                },
                Ok(got) => {
                    if got != wants[idx] {
                        proof {
                            assert(scan_bytes(sb, p, wants@, idx as nat) == Err::<(), Error>(
                                mk_err(
                                    ErrorKind::InvalidChar(sb[(p + idx) as int] as char),
                                    (p + idx) as nat,
                                    (p + idx + 1) as nat,
                                ),
                            ));
                        }
                        let at = pos + idx;
                        return Err(
                            Error::new(
                                ErrorKind::InvalidChar(got as char),
                                Loc { start: at, end: at + 1 },
                            ),
                        );
                    }
                    proof {
                        assert(scan_bytes(sb, p, wants@, idx as nat) == scan_bytes(
                            sb,
                            p,
                            wants@,
                            (idx + 1) as nat,
                        ));
                    }
                    idx += 1;
                },
            }
        }
        self.inc_nth(wants.len());
        Ok(pos)
    }

    /// Consumes the decimal digit run at the cursor and returns its start
    /// and value; a run whose value exceeds 64 bits is rejected.
    fn consume_numbers(&mut self) -> (r: Result<(usize, u64), Error>)
        requires
            old(self).wf(),
            old(self).pos < old(self).s@.len(),
            is_digit_byte(old(self).s@[old(self).pos as int]),
        ensures
            final(self).s == old(self).s,
            final(self).wf(),
            final(self).pos == digit_run_end(old(self).s@, old(self).pos as nat),
            ({
                let sb = old(self).s@;
                let start = old(self).pos as nat;
                let e = digit_run_end(sb, start);
                let v = digits_value(sb, start, e);
                if v <= u64::MAX {
                    r == Ok::<(usize, u64), Error>((old(self).pos, v as u64))
                } else {
                    r == Err::<(usize, u64), Error>(mk_err(ErrorKind::LiteralOverflow, start, e))
                }
            }),
    {
        let ghost sb = self.s@;
        let ghost s0 = self.s;
        let start = self.pos;
        let mut val: u64 = 0;
        let mut over: bool = false;
        proof {
            vstd::std_specs::vec::axiom_spec_len(&self.s);
            assert(digits_value(sb, start as nat, start as nat) == 0);
        }
        loop
            invariant
                self.s == s0,
                self.s@ == sb,
                sb.len() <= usize::MAX,
                start <= self.pos <= sb.len(),
                digit_run_end(sb, start as nat) == digit_run_end(sb, self.pos as nat),
                !over ==> val == digits_value(sb, start as nat, self.pos as nat),
                over ==> digits_value(sb, start as nat, self.pos as nat) > u64::MAX,
            ensures
                self.s == s0,
                start <= self.pos <= sb.len(),
                self.pos == digit_run_end(sb, start as nat),
                !over ==> val == digits_value(sb, start as nat, self.pos as nat),
                over ==> digits_value(sb, start as nat, self.pos as nat) > u64::MAX,
            decreases sb.len() - self.pos,
        {
            if self.pos >= self.s.len() {
                break;
            }
            let b = self.s[self.pos];
            if !(b >= B_ZERO && b <= B_NINE) {
                break;
            }
            let d = (b - B_ZERO) as u64;
            proof {
                assert(digit_run_end(sb, self.pos as nat) == digit_run_end(
                    sb,
                    (self.pos + 1) as nat,
                ));
                assert(digits_value(sb, start as nat, (self.pos + 1) as nat) == digits_value(
                    sb,
                    start as nat,
                    self.pos as nat,
                ) * 10 + digit_of(sb[self.pos as int]));
            }
            if over || val > (u64::MAX - d) / 10 {
                proof {
                    let dv = digits_value(sb, start as nat, self.pos as nat);
                    assert(dv * 10 + digit_of(sb[self.pos as int]) >= dv);
                    if !over {
                        assert(10 * ((u64::MAX - d) / 10) + 9 >= u64::MAX - d);
                        assert(dv * 10 + digit_of(sb[self.pos as int]) > u64::MAX);
                    }
                }
                over = true;
            } else {
                proof {
                    assert(10 * ((u64::MAX - d) / 10) <= u64::MAX - d);
                }
                val = val * 10 + d;
            }
            self.pos += 1;
        }
        if over {
            let end = self.pos;
            Err(Error::new(ErrorKind::LiteralOverflow, Loc { start, end }))
        } else {
            Ok((start, val))
        }
    }

    /// Skips the whitespace run at the cursor.
    fn consume_spaces(&mut self)
        requires
            old(self).wf(),
        ensures
            final(self).s == old(self).s,
            final(self).wf(),
            final(self).pos == skip_ws(old(self).s@, old(self).pos as nat),
    {
        let ghost sb = self.s@;
        let ghost s0 = self.s;
        let ghost start: nat = self.pos as nat;
        proof {
            vstd::std_specs::vec::axiom_spec_len(&self.s);
        }
        loop
            invariant
                self.s == s0,
                self.s@ == sb,
                sb.len() <= usize::MAX,
                start <= self.pos <= sb.len(),
                skip_ws(sb, start) == skip_ws(sb, self.pos as nat),
            ensures
                self.s == s0,
                self.pos == skip_ws(sb, start),
            decreases sb.len() - self.pos,
        {
            if self.pos >= self.s.len() {
                break;
            }
            let b = self.s[self.pos];
            if !(b == B_SPACE || b == B_TAB || b == B_LF || b == B_FF || b == B_CR) {
                break;
            }
            proof {
                assert(skip_ws(sb, self.pos as nat) == skip_ws(sb, (self.pos + 1) as nat));
            }
            self.pos += 1;
        }
    }
}

/// The outcome that [`consume_bytes`] reports for matching `wants` against
/// `s` at `pos`, examined from offset `j` on: the position of the first
/// mismatch, or `Eof` when the input ends first.
pub open spec fn scan_bytes(s: Seq<u8>, pos: nat, wants: Seq<u8>, j: nat) -> Result<(), Error>
    decreases wants.len() - j when j <= wants.len()
{
    if j >= wants.len() {
        Ok(())
    } else if pos + j >= s.len() {
        Err(mk_err(ErrorKind::Eof, pos, pos))
    } else if s[(pos + j) as int] != wants[j as int] {
        Err(mk_err(ErrorKind::InvalidChar(s[(pos + j) as int] as char), pos + j, pos + j + 1))
    } else {
        scan_bytes(s, pos, wants, j + 1)
    }
}

fn lex_number(input: &mut Input) -> (r: Result<Token, Error>)
    requires
        old(input).wf(),
        old(input).pos < old(input).s@.len(),
        is_digit_byte(old(input).s@[old(input).pos as int]),
    ensures
        final(input).s == old(input).s,
        final(input).wf(),
        final(input).pos == digit_run_end(old(input).s@, old(input).pos as nat),
        ({
            let sb = old(input).s@;
            let start = old(input).pos as nat;
            let e = digit_run_end(sb, start);
            let v = digits_value(sb, start, e);
            if v <= u64::MAX {
                r == Ok::<Token, Error>(mk_tok(TokenKind::Number(v as u64), start, e))
            } else {
                r == Err::<Token, Error>(mk_err(ErrorKind::LiteralOverflow, start, e))
            }
        }),
{
    match input.consume_numbers() {
        Ok((pos, n)) => {
            let end = input.pos();
            Ok(Token::new(TokenKind::Number(n), Loc { start: pos, end }))
        },
        Err(e) => Err(e),
    }
}

fn lex_byte(input: &mut Input, bytes: &[u8], kind: TokenKind) -> (r: Result<Token, Error>)
    requires
        old(input).wf(),
    ensures
        final(input).s == old(input).s,
        final(input).wf(),
        (match scan_bytes(old(input).s@, old(input).pos as nat, bytes@, 0) {
            Ok(()) => r == Ok::<Token, Error>(
                mk_tok(kind, old(input).pos as nat, (old(input).pos + bytes@.len()) as nat),
            ) && final(input).pos == old(input).pos + bytes@.len(),
            Err(e) => r == Err::<Token, Error>(e) && final(input).pos == old(input).pos,
        }),
{
    match input.consume_bytes(bytes) {
        Ok(pos) => {
            let end = input.pos();
            Ok(Token::new(kind, Loc { start: pos, end }))
        },
        Err(e) => Err(e),
    }
}

/// Prefixing already-scanned tokens onto the outcome of the rest of the
/// scan.
pub open spec fn with_prefix(pre: Seq<Token>, r: Result<Seq<Token>, Error>) -> Result<
    Seq<Token>,
    Error,
> {
    match r {
        Ok(ts) => Ok(pre + ts),
        Err(e) => Err(e),
    }
}

/// One scanned token extends the prefix.
proof fn lemma_tokens_from_step(s: Seq<u8>, pos: nat, t: Token, p2: nat, pre: Seq<Token>)
    requires
        pos <= s.len(),
        next_token(s, pos) == Ok::<(Token, nat), Error>((t, p2)),
        !(t.kind is Eof),
        with_prefix(pre, tokens_from(s, pos)) == tokens_from(s, 0),
    ensures
        with_prefix(pre.push(t), tokens_from(s, p2)) == tokens_from(s, 0),
{
    lemma_next_token_bounds(s, pos);
    match tokens_from(s, p2) {
        Ok(r) => {
            assert(tokens_from(s, pos) == Ok::<Seq<Token>, Error>(seq![t] + r));
            assert(pre.push(t) + r =~= pre + (seq![t] + r));
        },
        Err(e) => {
            assert(tokens_from(s, pos) == Err::<Seq<Token>, Error>(e));
        },
    }
}

/// Scans the whole of `s` into tokens, exactly as [`tokens_from`] describes:
/// the result is `tokens_from` of the source bytes, whether that is the
/// token sequence (always ending in `Eof`) or the first scan error.
pub fn tokenize(s: &str) -> (r: Result<Vec<Token>, Error>)
    ensures
        (match r {
            Ok(v) => tokens_from(s.spec_bytes(), 0) == Ok::<Seq<Token>, Error>(v@),
            Err(e) => tokens_from(s.spec_bytes(), 0) == Err::<Seq<Token>, Error>(e),
        }),
{
    let mut input = Input::new(s);
    let mut tokens: Vec<Token> = Vec::new();
    let ghost sb = s.spec_bytes();
    proof {
        assert(with_prefix(tokens@, tokens_from(sb, 0)) == tokens_from(sb, 0)) by {
            match tokens_from(sb, 0) {
                Ok(ts) => {
                    assert(tokens@ + ts =~= ts);
                },
                Err(_) => {},
            }
        }
    }
    loop
        invariant
            sb == s.spec_bytes(),
            input.wf(),
            input.s@ == sb,
            with_prefix(tokens@, tokens_from(sb, input.pos as nat)) == tokens_from(sb, 0),
        decreases sb.len() - input.pos,
    {
        let ghost p: nat = input.pos as nat;
        match input.peek() {
            Err(e) => {
                match e.kind {
                    ErrorKind::Eof => {
                        let pos = input.pos();
                        let t = Token::eof(Loc { start: pos, end: pos });
                        proof {
                            assert(skip_ws(sb, p) == p);
                            assert(next_token(sb, p) == Ok::<(Token, nat), Error>((
                                mk_tok(TokenKind::Eof, p, p),
                                p,
                            )));
                            assert(tokens_from(sb, p) == Ok::<Seq<Token>, Error>(
                                seq![mk_tok(TokenKind::Eof, p, p)],
                            ));
                            assert(tokens@ + seq![t] =~= tokens@.push(t));
                        }
                        tokens.push(t);
                        return Ok(tokens);
                    },
                    _ => {
                        return Err(e);
                    },
                }
            },
            Ok(b) => {
                if b >= B_ZERO && b <= B_NINE {
                    proof {
                        assert(skip_ws(sb, p) == p);
                        lemma_digit_run_end(sb, p);
                    }
                    match lex_number(&mut input) {
                        Ok(t) => {
                            proof {
                                assert(next_token(sb, p) == Ok::<(Token, nat), Error>((
                                    t,
                                    input.pos as nat,
                                )));
                                lemma_tokens_from_step(sb, p, t, input.pos as nat, tokens@);
                            }
                            tokens.push(t);
                        },
                        Err(e) => {
                            proof {
                                assert(next_token(sb, p) == Err::<(Token, nat), Error>(e));
                                assert(tokens_from(sb, p) == Err::<Seq<Token>, Error>(e));
                            }
                            return Err(e);
                        },
                    }
                } else if b == B_PLUS || b == B_MINUS || b == B_STAR || b == B_SLASH || b == B_LPAREN || b
                    == B_RPAREN {
                    let kind = if b == B_PLUS {
                        TokenKind::Plus
                    } else if b == B_MINUS {
                        TokenKind::Minus
                    } else if b == B_STAR {
                        TokenKind::Asterisk
                    } else if b == B_SLASH {
                        TokenKind::Slash
                    } else if b == B_LPAREN {
                        TokenKind::LParen
                    } else {
                        TokenKind::RParen
                    };
                    let bytes = [b];
                    match lex_byte(&mut input, &bytes, kind) {
                        Ok(t) => {
                            proof {
                                assert(skip_ws(sb, p) == p);
                                assert(scan_bytes(sb, p, bytes@, 0) == scan_bytes(
                                    sb,
                                    p,
                                    bytes@,
                                    1,
                                ));
                                assert(next_token(sb, p) == Ok::<(Token, nat), Error>((
                                    t,
                                    input.pos as nat,
                                )));
                                lemma_tokens_from_step(sb, p, t, input.pos as nat, tokens@);
                            }
                            tokens.push(t);
                        },
                        Err(e) => {
                            proof {
                                assert(scan_bytes(sb, p, bytes@, 0) == scan_bytes(
                                    sb,
                                    p,
                                    bytes@,
                                    1,
                                ));
                                assert(false);
                            }
                            return Err(e);
                        },
                    }
                } else if b == B_EQ || b == B_BANG {
                    let kind = if b == B_EQ {
                        TokenKind::Eq
                    } else {
                        TokenKind::Neq
                    };
                    let bytes = [b, B_EQ];
                    match lex_byte(&mut input, &bytes, kind) {
                        Ok(t) => {
                            proof {
                                assert(skip_ws(sb, p) == p);
                                assert(scan_bytes(sb, p, bytes@, 0) == scan_bytes(
                                    sb,
                                    p,
                                    bytes@,
                                    1,
                                ));
                                assert(next_token(sb, p) == Ok::<(Token, nat), Error>((
                                    t,
                                    input.pos as nat,
                                )));
                                lemma_tokens_from_step(sb, p, t, input.pos as nat, tokens@);
                            }
                            tokens.push(t);
                        },
                        Err(e) => {
                            proof {
                                assert(skip_ws(sb, p) == p);
                                assert(scan_bytes(sb, p, bytes@, 0) == scan_bytes(
                                    sb,
                                    p,
                                    bytes@,
                                    1,
                                ));
                                if p + 1 < sb.len() && sb[(p + 1) as int] == B_EQ {
                                    assert(scan_bytes(sb, p, bytes@, 2) == Ok::<(), Error>(()));
                                }
                                assert(next_token(sb, p) == Err::<(Token, nat), Error>(e));
                                assert(tokens_from(sb, p) == Err::<Seq<Token>, Error>(e));
                            }
                            return Err(e);
                        },
                    }
                } else if b == B_LT || b == B_GT {
                    let (two_kind, one_kind) = if b == B_LT {
                        (TokenKind::Leq, TokenKind::Lt)
                    } else {
                        (TokenKind::Geq, TokenKind::Gt)
                    };
                    let two = [b, B_EQ];
                    proof {
                        assert(skip_ws(sb, p) == p);
                        assert(scan_bytes(sb, p, two@, 0) == scan_bytes(sb, p, two@, 1));
                    }
                    match lex_byte(&mut input, &two, two_kind) {
                        Ok(t) => {
                            proof {
                                if p + 1 < sb.len() && sb[(p + 1) as int] == B_EQ {
                                    assert(scan_bytes(sb, p, two@, 2) == Ok::<(), Error>(()));
                                } else {
                                    assert(scan_bytes(sb, p, two@, 1) is Err);
                                }
                                assert(next_token(sb, p) == Ok::<(Token, nat), Error>((
                                    t,
                                    input.pos as nat,
                                )));
                                lemma_tokens_from_step(sb, p, t, input.pos as nat, tokens@);
                            }
                            tokens.push(t);
                        },
                        Err(_) => {
                            let one = [b];
                            proof {
                                assert(scan_bytes(sb, p, one@, 0) == scan_bytes(sb, p, one@, 1));
                                assert(scan_bytes(sb, p, one@, 0) == Ok::<(), Error>(()));
                            }
                            match lex_byte(&mut input, &one, one_kind) {
                                Ok(t) => {
                                    proof {
                                        assert(next_token(sb, p) == Ok::<(Token, nat), Error>((
                                            t,
                                            input.pos as nat,
                                        )));
                                        lemma_tokens_from_step(
                                            sb,
                                            p,
                                            t,
                                            input.pos as nat,
                                            tokens@,
                                        );
                                    }
                                    tokens.push(t);
                                },
                                Err(e) => {
                                    proof {
                                        assert(false);
                                    }
                                    return Err(e);
                                },
                            }
                        },
                    }
                } else if b == B_SPACE || b == B_TAB || b == B_LF || b == B_FF || b == B_CR {
                    input.consume_spaces();
                    proof {
                        lemma_skip_ws(sb, p);
                        lemma_skip_ws(sb, p + 1);
                        assert(skip_ws(sb, p) == skip_ws(sb, p + 1));
                        assert(skip_ws(sb, input.pos as nat) == input.pos as nat);
                        assert(next_token(sb, p) == next_token(sb, input.pos as nat));
                        assert(tokens_from(sb, p) == tokens_from(sb, input.pos as nat));
                    }
                } else {
                    let pos = input.pos();
                    proof {
                        vstd::std_specs::vec::axiom_spec_len(&input.s);
                        assert(skip_ws(sb, p) == p);
                        assert(next_token(sb, p) == Err::<(Token, nat), Error>(
                            mk_err(ErrorKind::InvalidChar(sb[p as int] as char), p, p + 1),
                        ));
                        assert(tokens_from(sb, p) == Err::<Seq<Token>, Error>(
                            mk_err(ErrorKind::InvalidChar(sb[p as int] as char), p, p + 1),
                        ));
                    }
                    return Err(
                        Error::new(ErrorKind::InvalidChar(b as char), Loc { start: pos, end: pos + 1 }),
                    );
                }
            },
        }
    }
}

} // verus!
