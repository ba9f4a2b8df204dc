use vstd::prelude::*;

use crate::ast::{SExpr, SStmt};
use crate::lexer::{
    digits_end, fixed_literal, lemma_eof_sticky, lemma_skip_ws_bounds, lemma_token_literal,
    letters_end, lex_next, lex_token, skip_ws,
};
use crate::token::{literal_text, TokenType, TokenView};

verus! {

/// The text being parsed and the position its first token is read from.
pub struct Ctx {
    pub text: Seq<char>,
    pub start: nat,
}

/// The position from which the `k`-th token is read.
pub open spec fn lex_pos(c: Ctx, k: nat) -> nat
    decreases k,
{
    if k == 0 {
        c.start
    } else {
        lex_next(c.text, lex_pos(c, (k - 1) as nat))
    }
}

/// The `k`-th token of the stream; past the end, `Eof` again and again.
#[verifier::opaque]
pub open spec fn tk(c: Ctx, k: nat) -> TokenView {
    lex_token(c.text, lex_pos(c, k))
}

/// The kind of the `k`-th token.
pub open spec fn kind(c: Ctx, k: nat) -> TokenType {
    tk(c, k).0
}

/// The literal text of the `k`-th token.
pub open spec fn lit(c: Ctx, k: nat) -> Seq<char> {
    literal_text(tk(c, k))
}

/// How many tokens precede `Eof` when lexing from position `p`.
pub open spec fn count_from(text: Seq<char>, p: nat) -> nat
    decreases text.len() - p,
{
    if p >= text.len() || lex_token(text, p).0 == TokenType::Eof || lex_next(text, p) <= p
        || lex_next(text, p) > text.len() {
        0
    } else {
        1 + count_from(text, lex_next(text, p))
    }
}

/// The index of the first `Eof` token: every index the parser visits lies at or before it.
pub open spec fn eof_at(c: Ctx) -> nat {
    count_from(c.text, c.start)
}

/// What went wrong, beside the token it went wrong at.
#[derive(Debug, Clone, Copy, PartialEq, Eq, Structural)]
pub enum ErrorKind {
    /// The next token was not of the kind that the grammar requires there.
    Expected(TokenType),
    /// No expression can start with this token.
    NoPrefixParse,
    /// A character that no token can hold.
    IllegalCharacter,
    /// An integer literal too large for a 64-bit signed integer.
    IntegerOutOfRange,
}

/// An error as a mathematical value: its kind, the offending token, and the
/// position in the text where that token starts.
pub type ErrView = (ErrorKind, TokenView, nat);

/// The outcome of parsing one construct: the tree (none on failure), the index of
/// the current token when it is done, and the errors found, in order.
pub struct Outcome<T> {
    pub node: Option<T>,
    pub end: nat,
    pub errs: Seq<ErrView>,
}

/// Binding strengths, from weakest to strongest.
pub open spec fn lowest() -> nat {
    1
}

/// The binding strength of a prefix operator.
pub open spec fn prefix_prec() -> nat {
    6
}

/// The binding strength of a token as an infix operator; `(` binds as a call.
pub open spec fn precedence(t: TokenType) -> nat {
    match t {
        TokenType::Eq | TokenType::NotEq => 2,
        TokenType::Lt | TokenType::Gt => 3,
        TokenType::Plus | TokenType::Minus => 4,
        TokenType::Asterisk | TokenType::Slash => 5,
        TokenType::Lparen => 7,
        _ => 1,
    }
}

/// The value of a string of decimal digits.
pub open spec fn digits_value(s: Seq<char>) -> int
    decreases s.len(),
{
    if s.len() == 0 {
        0
    } else {
        digits_value(s.drop_last()) * 10 + (s.last() as int - '0' as int)
    }
}

/// The value of an integer literal, when it is a non-empty string of digits that fits `i64`.
pub open spec fn int_value(s: Seq<char>) -> Option<int> {
    if s.len() > 0 && (forall|i: int| 0 <= i < s.len() ==> '0' <= #[trigger] s[i] <= '9')
        && digits_value(s) <= i64::MAX {
        Some(digits_value(s))
    } else {
        None
    }
}

/// The index after `j`: one on, except at `Eof`, which the parser never moves past.
pub open spec fn adv(c: Ctx, j: nat) -> nat {
    if kind(c, j) == TokenType::Eof {
        j
    } else {
        j + 1
    }
}

/// Failure at index `j` with the error `e` added to `errs`.
pub open spec fn fail<T>(errs: Seq<ErrView>, e: ErrView, j: nat) -> Outcome<T> {
    Outcome { node: None, end: j, errs: errs.push(e) }
}

/// The error for a token of the wrong kind at index `j`.
pub open spec fn expected(c: Ctx, t: TokenType, j: nat) -> ErrView {
    err_at(c, ErrorKind::Expected(t), j)
}

/// The position in the text where the `k`-th token starts.
pub open spec fn tok_start(c: Ctx, k: nat) -> nat {
    skip_ws(c.text, lex_pos(c, k))
}

/// The error of kind `e` at the `j`-th token.
pub open spec fn err_at(c: Ctx, e: ErrorKind, j: nat) -> ErrView {
    (e, tk(c, j), tok_start(c, j))
}

/// The first index at or after `j` whose token ends a statement: `;` or `Eof`.
pub open spec fn sync(c: Ctx, j: nat) -> nat
    decreases eof_at(c) - j,
{
    if j >= eof_at(c) || kind(c, j) == TokenType::Semicolon || kind(c, j) == TokenType::Eof {
        j
    } else {
        sync(c, j + 1)
    }
}

/// Parameter names after `(` at `k`: `ident (, ident)* )`.
pub open spec fn parse_params(c: Ctx, k: nat) -> Outcome<Seq<Seq<char>>> {
    if kind(c, k + 1) == TokenType::Rparen {
        Outcome { node: Some(Seq::empty()), end: k + 1, errs: Seq::empty() }
    } else if kind(c, k + 1) != TokenType::Ident {
        fail(Seq::empty(), expected(c, TokenType::Ident, k + 1), k)
    } else {
        params_rest(c, seq![lit(c, k + 1)], k + 1)
    }
}

/// More parameter names after the one at `k`.
pub open spec fn params_rest(c: Ctx, acc: Seq<Seq<char>>, k: nat) -> Outcome<Seq<Seq<char>>>
    decreases eof_at(c) - k,
{
    if kind(c, k + 1) == TokenType::Comma {
        if kind(c, k + 2) != TokenType::Ident {
            fail(Seq::empty(), expected(c, TokenType::Ident, k + 2), k + 1)
        } else if k + 2 <= eof_at(c) {
            params_rest(c, acc.push(lit(c, k + 2)), k + 2)
        } else {
            Outcome { node: None, end: k, errs: Seq::empty() }
        }
    } else if kind(c, k + 1) == TokenType::Rparen {
        Outcome { node: Some(acc), end: k + 1, errs: Seq::empty() }
    } else {
        fail(Seq::empty(), expected(c, TokenType::Rparen, k + 1), k)
    }
}

} // verus!

verus! {

/// A parse that stands still at `k` with nothing found. It stands in for the
/// branches whose indices would run backwards or past `Eof`, which keeps every
/// definition total; the parser's own proofs show it never takes them.
pub open spec fn stuck<T>(k: nat) -> Outcome<T> {
    Outcome { node: None, end: k, errs: Seq::empty() }
}

/// A failed outcome carried over to another kind of tree.
pub open spec fn failed<T, U>(o: Outcome<T>, errs: Seq<ErrView>) -> Outcome<U> {
    Outcome { node: None, end: o.end, errs: errs + o.errs }
}

/// An expression starting at `k`, binding operators stronger than `prec`.
pub open spec fn parse_expr(c: Ctx, k: nat, prec: nat) -> Outcome<SExpr>
    decreases eof_at(c) - k, 4nat,
{
    let p = parse_prefix(c, k);
    match p.node {
        Some(left) => if k <= p.end <= eof_at(c) {
            infix_loop(c, left, p.end, prec, p.errs)
        } else {
            p
        },
        None => p,
    }
}

/// The expression that the token at `k` starts.
pub open spec fn parse_prefix(c: Ctx, k: nat) -> Outcome<SExpr>
    decreases eof_at(c) - k, 3nat,
{
    let t = kind(c, k);
    if k >= eof_at(c) {
        fail(Seq::empty(), err_at(c, ErrorKind::NoPrefixParse, k), k)
    } else if t == TokenType::Ident {
        Outcome { node: Some(SExpr::Ident(lit(c, k))), end: k, errs: Seq::empty() }
    } else if t == TokenType::Int {
        match int_value(lit(c, k)) {
            Some(v) => Outcome { node: Some(SExpr::Int(lit(c, k), v)), end: k, errs: Seq::empty() },
            None => fail(Seq::empty(), err_at(c, ErrorKind::IntegerOutOfRange, k), k),
        }
    } else if t == TokenType::True || t == TokenType::False {
        Outcome { node: Some(SExpr::Bool(t == TokenType::True)), end: k, errs: Seq::empty() }
    } else if t == TokenType::Bang || t == TokenType::Minus {
        let r = parse_expr(c, k + 1, prefix_prec());
        match r.node {
            Some(e) => Outcome {
                node: Some(SExpr::Prefix(lit(c, k), Box::new(e))),
                end: r.end,
                errs: r.errs,
            },
            None => r,
        }
    } else if t == TokenType::Lparen {
        let r = parse_expr(c, k + 1, lowest());
        match r.node {
            Some(e) => if kind(c, r.end + 1) == TokenType::Rparen {
                Outcome { node: Some(e), end: r.end + 1, errs: r.errs }
            } else {
                fail(r.errs, expected(c, TokenType::Rparen, r.end + 1), r.end)
            },
            None => r,
        }
    } else if t == TokenType::If {
        parse_if(c, k)
    } else if t == TokenType::Function {
        parse_fn(c, k)
    } else if t == TokenType::Illegal {
        fail(Seq::empty(), err_at(c, ErrorKind::IllegalCharacter, k), k)
    } else {
        fail(Seq::empty(), err_at(c, ErrorKind::NoPrefixParse, k), k)
    }
}

/// Extends `left`, which ends at `k`, by the infix operators and calls that bind
/// stronger than `prec`; an operator's right operand binds at its own strength, so
/// chains of equal strength group to the left.
pub open spec fn infix_loop(c: Ctx, left: SExpr, k: nat, prec: nat, errs: Seq<ErrView>) -> Outcome<SExpr>
    decreases eof_at(c) - k, 1nat,
{
    let op = kind(c, k + 1);
    if prec < precedence(op) && k + 1 < eof_at(c) {
        if op == TokenType::Lparen {
            let a = parse_args(c, k + 1);
            match a.node {
                Some(args) => if k < a.end <= eof_at(c) {
                    infix_loop(c, SExpr::Call(Box::new(left), args), a.end, prec, errs + a.errs)
                } else {
                    stuck(k)
                },
                None => failed(a, errs),
            }
        } else {
            let r = parse_expr(c, k + 2, precedence(op));
            match r.node {
                Some(right) => if k < r.end <= eof_at(c) {
                    infix_loop(
                        c,
                        SExpr::Infix(Box::new(left), lit(c, k + 1), Box::new(right)),
                        r.end,
                        prec,
                        errs + r.errs,
                    )
                } else {
                    stuck(k)
                },
                None => failed(r, errs),
            }
        }
    } else {
        Outcome { node: Some(left), end: k, errs }
    }
}

/// Call arguments after `(` at `k`: `)` or `expr (, expr)* )`.
pub open spec fn parse_args(c: Ctx, k: nat) -> Outcome<Seq<SExpr>>
    decreases eof_at(c) - k, 0nat,
{
    if kind(c, k + 1) == TokenType::Rparen {
        Outcome { node: Some(Seq::empty()), end: k + 1, errs: Seq::empty() }
    } else if k + 1 <= eof_at(c) {
        let r = parse_expr(c, k + 1, lowest());
        match r.node {
            Some(e) => if k < r.end <= eof_at(c) {
                args_rest(c, seq![e], r.end, r.errs)
            } else {
                stuck(k)
            },
            None => failed(r, Seq::empty()),
        }
    } else {
        stuck(k)
    }
}

/// More call arguments after the one that ends at `k`.
pub open spec fn args_rest(c: Ctx, acc: Seq<SExpr>, k: nat, errs: Seq<ErrView>) -> Outcome<Seq<SExpr>>
    decreases eof_at(c) - k, 0nat,
{
    if kind(c, k + 1) == TokenType::Comma {
        if k + 2 <= eof_at(c) {
            let r = parse_expr(c, k + 2, lowest());
            match r.node {
                Some(e) => if k < r.end <= eof_at(c) {
                    args_rest(c, acc.push(e), r.end, errs + r.errs)
                } else {
                    stuck(k)
                },
                None => failed(r, errs),
            }
        } else {
            stuck(k)
        }
    } else if kind(c, k + 1) == TokenType::Rparen {
        Outcome { node: Some(acc), end: k + 1, errs }
    } else {
        fail(errs, expected(c, TokenType::Rparen, k + 1), k)
    }
}

/// `if (condition) { ... }`, with an optional `else { ... }`, starting at `k`.
pub open spec fn parse_if(c: Ctx, k: nat) -> Outcome<SExpr>
    decreases eof_at(c) - k, 2nat,
{
    if kind(c, k + 1) != TokenType::Lparen {
        fail(Seq::empty(), expected(c, TokenType::Lparen, k + 1), k)
    } else if k + 2 <= eof_at(c) {
        let cond = parse_expr(c, k + 2, lowest());
        match cond.node {
            None => cond,
            Some(ce) => if kind(c, cond.end + 1) != TokenType::Rparen {
                fail(cond.errs, expected(c, TokenType::Rparen, cond.end + 1), cond.end)
            } else if kind(c, cond.end + 2) != TokenType::Lbrace {
                fail(cond.errs, expected(c, TokenType::Lbrace, cond.end + 2), cond.end + 1)
            } else if k < cond.end + 2 <= eof_at(c) {
                let cons = parse_block(c, cond.end + 2);
                let errs = cond.errs + cons.errs;
                match cons.node {
                    None => failed(cons, cond.errs),
                    Some(cb) => if kind(c, cons.end + 1) != TokenType::Else {
                        Outcome { node: Some(SExpr::If(Box::new(ce), cb, None)), end: cons.end, errs }
                    } else if kind(c, cons.end + 2) != TokenType::Lbrace {
                        fail(errs, expected(c, TokenType::Lbrace, cons.end + 2), cons.end + 1)
                    } else if k < cons.end + 2 <= eof_at(c) {
                        let alt = parse_block(c, cons.end + 2);
                        match alt.node {
                            None => failed(alt, errs),
                            Some(ab) => Outcome {
                                node: Some(SExpr::If(Box::new(ce), cb, Some(ab))),
                                end: alt.end,
                                errs: errs + alt.errs,
                            },
                        }
                    } else {
                        stuck(k)
                    },
                }
            } else {
                stuck(k)
            },
        }
    } else {
        stuck(k)
    }
}

/// `fn(parameters) { body }` starting at `k`.
pub open spec fn parse_fn(c: Ctx, k: nat) -> Outcome<SExpr>
    decreases eof_at(c) - k, 2nat,
{
    if kind(c, k + 1) != TokenType::Lparen {
        fail(Seq::empty(), expected(c, TokenType::Lparen, k + 1), k)
    } else {
        let ps = parse_params(c, k + 1);
        match ps.node {
            None => failed(ps, Seq::empty()),
            Some(names) => if kind(c, ps.end + 1) != TokenType::Lbrace {
                fail(ps.errs, expected(c, TokenType::Lbrace, ps.end + 1), ps.end)
            } else if k < ps.end + 1 <= eof_at(c) {
                let b = parse_block(c, ps.end + 1);
                match b.node {
                    None => failed(b, ps.errs),
                    Some(body) => Outcome {
                        node: Some(SExpr::Func(names, body)),
                        end: b.end,
                        errs: ps.errs + b.errs,
                    },
                }
            } else {
                stuck(k)
            },
        }
    }
}

/// A block after `{` at `k`, up to its `}`.
pub open spec fn parse_block(c: Ctx, k: nat) -> Outcome<Seq<SStmt>>
    decreases eof_at(c) - k, 0nat,
{
    if k + 1 <= eof_at(c) {
        block_rest(c, Seq::empty(), k + 1, Seq::empty())
    } else {
        stuck(k)
    }
}

/// The statements of a block from `k` on; a statement that fails is left out
/// and its errors kept.
pub open spec fn block_rest(c: Ctx, acc: Seq<SStmt>, k: nat, errs: Seq<ErrView>) -> Outcome<Seq<SStmt>>
    decreases eof_at(c) - k, 7nat,
{
    if kind(c, k) == TokenType::Rbrace {
        Outcome { node: Some(acc), end: k, errs }
    } else if kind(c, k) == TokenType::Eof {
        fail(errs, expected(c, TokenType::Rbrace, k), k)
    } else if k < eof_at(c) {
        let s = parse_stmt(c, k);
        let acc2 = match s.node {
            Some(st) => acc.push(st),
            None => acc,
        };
        if k <= s.end <= eof_at(c) && k < adv(c, s.end) <= eof_at(c) {
            block_rest(c, acc2, adv(c, s.end), errs + s.errs)
        } else {
            stuck(k)
        }
    } else {
        stuck(k)
    }
}

/// A statement starting at `k`. On failure the parse resumes at the next `;` or `Eof`.
pub open spec fn parse_stmt(c: Ctx, k: nat) -> Outcome<SStmt>
    decreases eof_at(c) - k, 6nat,
{
    let r = if kind(c, k) == TokenType::Let {
        parse_let(c, k)
    } else if kind(c, k) == TokenType::Return {
        parse_return(c, k)
    } else {
        parse_expr_stmt(c, k)
    };
    match r.node {
        Some(_) => r,
        None => Outcome { node: None, end: sync(c, r.end), errs: r.errs },
    }
}

/// A finished statement ending at `j`, with the `;` after it taken when there is
/// one. The `;` may be left out only before `}` or the end; elsewhere its absence
/// is recorded as an error, and the statement is kept.
pub open spec fn finish_stmt(c: Ctx, s: SStmt, j: nat, errs: Seq<ErrView>) -> Outcome<SStmt> {
    if kind(c, j + 1) == TokenType::Semicolon {
        Outcome { node: Some(s), end: j + 1, errs }
    } else if kind(c, j + 1) == TokenType::Eof || kind(c, j + 1) == TokenType::Rbrace {
        Outcome { node: Some(s), end: j, errs }
    } else {
        Outcome { node: Some(s), end: j, errs: errs.push(expected(c, TokenType::Semicolon, j + 1)) }
    }
}

/// `let name = value` starting at `k`.
pub open spec fn parse_let(c: Ctx, k: nat) -> Outcome<SStmt>
    decreases eof_at(c) - k, 0nat,
{
    if kind(c, k + 1) != TokenType::Ident {
        fail(Seq::empty(), expected(c, TokenType::Ident, k + 1), k)
    } else if kind(c, k + 2) != TokenType::Assign {
        fail(Seq::empty(), expected(c, TokenType::Assign, k + 2), k + 1)
    } else if k + 3 <= eof_at(c) {
        let v = parse_expr(c, k + 3, lowest());
        match v.node {
            Some(e) => finish_stmt(c, SStmt::Let(lit(c, k + 1), e), v.end, v.errs),
            None => failed(v, Seq::empty()),
        }
    } else {
        stuck(k)
    }
}

/// `return value` starting at `k`.
pub open spec fn parse_return(c: Ctx, k: nat) -> Outcome<SStmt>
    decreases eof_at(c) - k, 0nat,
{
    if k + 1 <= eof_at(c) {
        let v = parse_expr(c, k + 1, lowest());
        match v.node {
            Some(e) => finish_stmt(c, SStmt::Return(e), v.end, v.errs),
            None => failed(v, Seq::empty()),
        }
    } else {
        stuck(k)
    }
}

/// An expression statement starting at `k`.
pub open spec fn parse_expr_stmt(c: Ctx, k: nat) -> Outcome<SStmt>
    decreases eof_at(c) - k, 5nat,
{
    let v = parse_expr(c, k, lowest());
    match v.node {
        Some(e) => finish_stmt(c, SStmt::Expr(tk(c, k), e), v.end, v.errs),
        None => failed(v, Seq::empty()),
    }
}

/// The top-level statements from `k` to `Eof`, and the errors found on the way.
pub open spec fn program_rest(c: Ctx, acc: Seq<SStmt>, k: nat, errs: Seq<ErrView>) -> (
    Seq<SStmt>,
    Seq<ErrView>,
)
    decreases eof_at(c) - k,
{
    if kind(c, k) == TokenType::Eof || k >= eof_at(c) {
        (acc, errs)
    } else {
        let s = parse_stmt(c, k);
        let acc2 = match s.node {
            Some(st) => acc.push(st),
            None => acc,
        };
        if k <= s.end <= eof_at(c) && k < adv(c, s.end) <= eof_at(c) {
            program_rest(c, acc2, adv(c, s.end), errs + s.errs)
        } else {
            (acc2, errs + s.errs)
        }
    }
}

} // verus!

verus! {

/// A run of letters never moves backwards nor past the end, and a letter starts a non-empty one.
proof fn lemma_letters_end(input: Seq<char>, i: nat)
    requires
        i <= input.len(),
    ensures
        i <= letters_end(input, i) <= input.len(),
        i < input.len() && crate::lexer::letter(input[i as int]) ==> i < letters_end(input, i),
    decreases input.len() - i,
{
    if i < input.len() && crate::lexer::letter(input[i as int]) {
        lemma_letters_end(input, i + 1);
    }
}

/// A run of digits never moves backwards nor past the end, and a digit starts a non-empty one.
proof fn lemma_digits_end(input: Seq<char>, i: nat)
    requires
        i <= input.len(),
    ensures
        i <= digits_end(input, i) <= input.len(),
        i < input.len() && crate::lexer::digit(input[i as int]) ==> i < digits_end(input, i),
    decreases input.len() - i,
{
    if i < input.len() && crate::lexer::digit(input[i as int]) {
        lemma_digits_end(input, i + 1);
    }
}

/// Every token but `Eof` consumes at least one character, and none reads past the end.
pub proof fn lemma_lex_progress(text: Seq<char>, p: nat)
    requires
        p <= text.len(),
    ensures
        lex_token(text, p).0 != TokenType::Eof ==> p < lex_next(text, p) <= text.len(),
        lex_token(text, p).0 == TokenType::Eof ==> lex_token(text, p).1 is None && lex_next(text, p)
            == text.len(),
{
    lemma_skip_ws_bounds(text, p);
    let q = skip_ws(text, p);
    if q < text.len() {
        lemma_letters_end(text, q);
        lemma_digits_end(text, q);
    }
}

/// Positions of the tokens up to the first `Eof`: each lies in the text, and the
/// number of tokens still to come counts down.
proof fn lemma_count_down(c: Ctx, k: nat)
    requires
        c.start <= c.text.len(),
        k <= eof_at(c),
    ensures
        lex_pos(c, k) <= c.text.len(),
        count_from(c.text, lex_pos(c, k)) == eof_at(c) - k,
    decreases k,
{
    if k > 0 {
        lemma_count_down(c, (k - 1) as nat);
        lemma_lex_progress(c.text, lex_pos(c, (k - 1) as nat));
    }
}

/// Past the first `Eof` the stream stays at the end of the text.
proof fn lemma_past_eof(c: Ctx, k: nat)
    requires
        c.start <= c.text.len(),
        k > eof_at(c),
    ensures
        lex_pos(c, k) == c.text.len(),
    decreases k,
{
    let p = lex_pos(c, (k - 1) as nat);
    if k - 1 > eof_at(c) {
        lemma_past_eof(c, (k - 1) as nat);
        lemma_eof_sticky(c.text, p);
        lemma_lex_progress(c.text, p);
    } else {
        lemma_count_down(c, (k - 1) as nat);
        lemma_lex_progress(c.text, p);
    }
}

/// The `k`-th token is `Eof` exactly when `k` is at or past `eof_at(c)`, and an
/// `Eof` token carries no literal.
pub broadcast proof fn lemma_stream(c: Ctx, k: nat)
    requires
        c.start <= c.text.len(),
    ensures
        (#[trigger] tk(c, k).0 == TokenType::Eof) == (k >= eof_at(c)),
        k >= eof_at(c) ==> tk(c, k) == (TokenType::Eof, None::<Seq<char>>),
{
    reveal(tk);
    if k <= eof_at(c) {
        lemma_count_down(c, k);
        lemma_lex_progress(c.text, lex_pos(c, k));
    } else {
        lemma_past_eof(c, k);
        lemma_lex_progress(c.text, lex_pos(c, k));
        lemma_skip_ws_bounds(c.text, lex_pos(c, k));
    }
}

} // verus!

verus! {

/// Every token position lies within the text.
pub proof fn lemma_lex_pos_bound(c: Ctx, k: nat)
    requires
        c.start <= c.text.len(),
    ensures
        lex_pos(c, k) <= c.text.len(),
    decreases k,
{
    if k > 0 {
        lemma_lex_pos_bound(c, (k - 1) as nat);
        lemma_lex_progress(c.text, lex_pos(c, (k - 1) as nat));
    }
}

} // verus!

verus! {

/// Appending nothing leaves a sequence as it is.
pub broadcast proof fn lemma_add_empty<A>(s: Seq<A>)
    ensures
        #[trigger] (s + Seq::<A>::empty()) == s,
{
    assert(s + Seq::<A>::empty() =~= s);
}

/// Appending a sequence that ends in `e` is appending the rest, then `e`.
pub broadcast proof fn lemma_add_push<A>(s: Seq<A>, t: Seq<A>, e: A)
    ensures
        #[trigger] (s + t.push(e)) == (s + t).push(e),
{
    assert(s + t.push(e) =~= (s + t).push(e));
}

/// Appending is associative.
pub broadcast proof fn lemma_add_assoc<A>(a: Seq<A>, b: Seq<A>, c: Seq<A>)
    ensures
        #[trigger] (a + (b + c)) == (a + b) + c,
{
    assert(a + (b + c) =~= (a + b) + c);
}

pub broadcast group group_seq_append {
    lemma_add_empty,
    lemma_add_push,
    lemma_add_assoc,
}

} // verus!

verus! {

/// A token of a kind with one spelling carries that spelling; every token but
/// `Eof` carries a literal.
pub broadcast proof fn lemma_tk_literal(c: Ctx, k: nat)
    ensures
        fixed_literal(#[trigger] tk(c, k).0) is Some ==> tk(c, k).1 == fixed_literal(tk(c, k).0),
        tk(c, k).0 != TokenType::Eof ==> tk(c, k).1 is Some,
{
    reveal(tk);
    lemma_token_literal(c.text, lex_pos(c, k));
}

} // verus!
