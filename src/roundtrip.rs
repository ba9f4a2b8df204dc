use vstd::prelude::*;

use crate::ast::{expr_src, exprs_src, stmt_src, stmts_src, SExpr, SStmt};
use crate::grammar::{
    adv, args_rest, eof_at, infix_loop, parse_args, int_value, kind, lemma_stream, lex_pos, parse_expr, parse_expr_stmt,
    parse_let, parse_prefix, parse_return, parse_stmt, precedence, program_rest, tk, Ctx, ErrView,
    Outcome,
};
use crate::parser::program_of;
use crate::lexer::{
    char_at, digit, digits_end, keyword_kind, letter, letters_end, lex_next, lex_token, scan_at,
    skip_ws, white_space,
};
use crate::token::{TokenType, TokenView};

verus! {

broadcast use lemma_stream;

/// A name that lexes back as itself: non-empty, all letters, no keyword.
pub open spec fn word(n: Seq<char>) -> bool {
    &&& n.len() > 0
    &&& forall|i: int| 0 <= i < n.len() ==> letter(#[trigger] n[i])
    &&& keyword_kind(n) == TokenType::Ident
}

/// The token kind of an infix operator's text.
pub open spec fn infix_kind(op: Seq<char>) -> Option<TokenType> {
    if op == seq!['+'] {
        Some(TokenType::Plus)
    } else if op == seq!['-'] {
        Some(TokenType::Minus)
    } else if op == seq!['*'] {
        Some(TokenType::Asterisk)
    } else if op == seq!['/'] {
        Some(TokenType::Slash)
    } else if op == seq!['<'] {
        Some(TokenType::Lt)
    } else if op == seq!['>'] {
        Some(TokenType::Gt)
    } else if op == seq!['=', '='] {
        Some(TokenType::Eq)
    } else if op == seq!['!', '='] {
        Some(TokenType::NotEq)
    } else {
        None
    }
}

/// The token kind of a prefix operator's text.
pub open spec fn prefix_kind(op: Seq<char>) -> Option<TokenType> {
    if op == seq!['!'] {
        Some(TokenType::Bang)
    } else if op == seq!['-'] {
        Some(TokenType::Minus)
    } else {
        None
    }
}

/// Expressions made of names, integer literals, booleans, prefix and infix
/// operators and calls, each part as the parser would have built it: everything
/// but `if` and function literals, whose printed form drops the braces.
pub open spec fn plain(e: SExpr) -> bool
    decreases e,
{
    match e {
        SExpr::Ident(n) => word(n),
        SExpr::Int(t, v) => int_value(t) == Some(v),
        SExpr::Bool(_) => true,
        SExpr::Prefix(op, r) => prefix_kind(op) is Some && plain(*r),
        SExpr::Infix(l, op, r) => infix_kind(op) is Some && plain(*l) && plain(*r),
        SExpr::Call(f, args) => plain(*f) && plain_args(args),
        _ => false,
    }
}

/// Every expression of the sequence is plain.
pub open spec fn plain_args(v: Seq<SExpr>) -> bool
    decreases v,
{
    if v.len() == 0 {
        true
    } else {
        plain_args(v.drop_last()) && plain(v.last())
    }
}

/// The tokens that the printed form of a plain expression lexes into.
pub open spec fn toks(e: SExpr) -> Seq<TokenView>
    decreases e,
{
    match e {
        SExpr::Ident(n) => seq![(TokenType::Ident, Some(n))],
        SExpr::Int(t, _) => seq![(TokenType::Int, Some(t))],
        SExpr::Bool(b) => if b {
            seq![(TokenType::True, Some(seq!['t', 'r', 'u', 'e']))]
        } else {
            seq![(TokenType::False, Some(seq!['f', 'a', 'l', 's', 'e']))]
        },
        SExpr::Prefix(op, r) => seq![
            (TokenType::Lparen, Some(seq!['('])),
            (prefix_kind(op)->0, Some(op)),
        ] + toks(*r) + seq![(TokenType::Rparen, Some(seq![')']))],
        SExpr::Infix(l, op, r) => seq![(TokenType::Lparen, Some(seq!['(']))] + toks(*l) + seq![
            (infix_kind(op)->0, Some(op)),
        ] + toks(*r) + seq![(TokenType::Rparen, Some(seq![')']))],
        SExpr::Call(f, args) => toks(*f) + seq![(TokenType::Lparen, Some(seq!['(']))] + args_toks(args)
            + seq![(TokenType::Rparen, Some(seq![')']))],
        _ => Seq::empty(),
    }
}

/// The tokens of call arguments: each argument's tokens, separated by commas.
pub open spec fn args_toks(v: Seq<SExpr>) -> Seq<TokenView>
    decreases v,
{
    if v.len() == 0 {
        Seq::empty()
    } else if v.len() == 1 {
        toks(v[0])
    } else {
        args_toks(v.drop_last()) + seq![(TokenType::Comma, Some(seq![',']))] + toks(v.last())
    }
}

/// Lexing `text` from `p` yields exactly the tokens `s`, none of them `Eof`, and
/// stops at `q`.
pub open spec fn lexes(text: Seq<char>, p: nat, s: Seq<TokenView>, q: nat) -> bool
    decreases s.len(),
{
    if s.len() == 0 {
        p == q
    } else {
        &&& lex_token(text, p) == s[0]
        &&& s[0].0 != TokenType::Eof
        &&& lexes(text, lex_next(text, p), s.drop_first(), q)
    }
}

proof fn lemma_lexes_concat(text: Seq<char>, p: nat, s1: Seq<TokenView>, q: nat, s2: Seq<TokenView>, r: nat)
    requires
        lexes(text, p, s1, q),
        lexes(text, q, s2, r),
    ensures
        lexes(text, p, s1 + s2, r),
    decreases s1.len(),
{
    if s1.len() == 0 {
        assert(s1 + s2 =~= s2);
    } else {
        lemma_lexes_concat(text, lex_next(text, p), s1.drop_first(), q, s2, r);
        assert((s1 + s2).drop_first() =~= s1.drop_first() + s2);
    }
}

proof fn lemma_lexes_space(text: Seq<char>, p: nat, s: Seq<TokenView>, q: nat)
    requires
        p < text.len(),
        white_space(text[p as int]),
        s.len() > 0,
        lexes(text, p + 1, s, q),
    ensures
        lexes(text, p, s, q),
{
    assert(skip_ws(text, p) == skip_ws(text, p + 1));
}

proof fn lemma_letters_run(text: Seq<char>, p: nat, m: nat)
    requires
        p + m <= text.len(),
        forall|i: int| p <= i < p + m ==> letter(#[trigger] text[i]),
        !letter(char_at(text, (p + m) as int)),
    ensures
        letters_end(text, p) == p + m,
    decreases m,
{
    if m > 0 {
        lemma_letters_run(text, p + 1, (m - 1) as nat);
    }
}

proof fn lemma_digits_run(text: Seq<char>, p: nat, m: nat)
    requires
        p + m <= text.len(),
        forall|i: int| p <= i < p + m ==> digit(#[trigger] text[i]),
        !digit(char_at(text, (p + m) as int)),
    ensures
        digits_end(text, p) == p + m,
    decreases m,
{
    if m > 0 {
        lemma_digits_run(text, p + 1, (m - 1) as nat);
    }
}

/// A run of letters or digits that `text` holds at `p`, followed by neither,
/// lexes as one token.
proof fn lemma_lex_run(text: Seq<char>, p: nat, w: Seq<char>)
    requires
        p + w.len() <= text.len(),
        w.len() > 0,
        text.subrange(p as int, (p + w.len()) as int) == w,
        !letter(char_at(text, (p + w.len()) as int)),
        !digit(char_at(text, (p + w.len()) as int)),
        (forall|i: int| 0 <= i < w.len() ==> letter(#[trigger] w[i])) || (forall|i: int|
            0 <= i < w.len() ==> digit(#[trigger] w[i])),
    ensures
        (forall|i: int| 0 <= i < w.len() ==> letter(#[trigger] w[i])) ==> lexes(
            text,
            p,
            seq![(keyword_kind(w), Some(w))],
            p + w.len(),
        ),
        (forall|i: int| 0 <= i < w.len() ==> digit(#[trigger] w[i])) ==> lexes(
            text,
            p,
            seq![(TokenType::Int, Some(w))],
            p + w.len(),
        ),
{
    assert(text[p as int] == w[0]);
    assert forall|i: int| p <= i < p + w.len() implies text[i] == w[i - p] by {
        assert(text.subrange(p as int, (p + w.len()) as int)[i - p] == text[i]);
    }
    assert(skip_ws(text, p) == p);
    if forall|i: int| 0 <= i < w.len() ==> letter(#[trigger] w[i]) {
        assert forall|i: int| p <= i < p + w.len() implies letter(#[trigger] text[i]) by {
            assert(letter(w[i - p]));
        }
        lemma_letters_run(text, p, w.len());
        assert(keyword_kind(w) != TokenType::Eof);
        let s = seq![(keyword_kind(w), Some(w))];
        assert(s.drop_first() =~= Seq::<TokenView>::empty());
        assert(text.subrange(p as int, (p + w.len()) as int) == w);
        assert(scan_at(text, p) == ((keyword_kind(w), Some(w)), p + w.len()));
        assert(lex_token(text, p) == s[0]);
        assert(lexes(text, p + w.len(), s.drop_first(), p + w.len()));
    }
    if forall|i: int| 0 <= i < w.len() ==> digit(#[trigger] w[i]) {
        assert forall|i: int| p <= i < p + w.len() implies digit(#[trigger] text[i]) by {
            assert(digit(w[i - p]));
        }
        assert(!letter(w[0]));
        lemma_digits_run(text, p, w.len());
        let s = seq![(TokenType::Int, Some(w))];
        assert(s.drop_first() =~= Seq::<TokenView>::empty());
        assert(scan_at(text, p) == ((TokenType::Int, Some(w)), p + w.len()));
        assert(lex_token(text, p) == s[0]);
        assert(lexes(text, p + w.len(), s.drop_first(), p + w.len()));
    }
}

} // verus!

verus! {

/// A part of `whole`, where `text` holds `whole` at `p`, is held at `p + off`.
proof fn lemma_sub(text: Seq<char>, p: nat, whole: Seq<char>, off: nat, part: Seq<char>)
    requires
        p + whole.len() <= text.len(),
        text.subrange(p as int, (p + whole.len()) as int) == whole,
        off + part.len() <= whole.len(),
        whole.subrange(off as int, (off + part.len()) as int) == part,
    ensures
        text.subrange((p + off) as int, (p + off + part.len()) as int) == part,
{
    assert forall|i: int| 0 <= i < part.len() implies text.subrange(
        (p + off) as int,
        (p + off + part.len()) as int,
    )[i] == part[i] by {
        assert(whole.subrange(off as int, (off + part.len()) as int)[i] == whole[off + i]);
        assert(text.subrange(p as int, (p + whole.len()) as int)[off + i] == text[p + off + i]);
    }
    assert(text.subrange((p + off) as int, (p + off + part.len()) as int) =~= part);
}

/// An operator or parenthesis held at `p`, not followed by `=`, lexes as one token.
proof fn lemma_lex_op(text: Seq<char>, p: nat, op: Seq<char>, k: TokenType)
    requires
        p + op.len() <= text.len(),
        text.subrange(p as int, (p + op.len()) as int) == op,
        prefix_kind(op) == Some(k) || infix_kind(op) == Some(k) || (op == seq!['('] && k
            == TokenType::Lparen) || (op == seq![')'] && k == TokenType::Rparen) || (op == seq!['=']
            && k == TokenType::Assign) || (op == seq![';'] && k == TokenType::Semicolon) || (op == seq![',']
            && k == TokenType::Comma),
        char_at(text, (p + op.len()) as int) != '=',
    ensures
        lexes(text, p, seq![(k, Some(op))], p + op.len()),
{
    assert(text.subrange(p as int, (p + op.len()) as int)[0] == text[p as int]);
    if op.len() == 2 {
        assert(text.subrange(p as int, (p + op.len()) as int)[1] == text[p + 1int]);
    }
    assert(skip_ws(text, p) == p);
    let s = seq![(k, Some(op))];
    assert(s.drop_first() =~= Seq::<TokenView>::empty());
    assert(scan_at(text, p) == ((k, Some(op)), p + op.len()));
    assert(lexes(text, p + op.len(), s.drop_first(), p + op.len()));
}

/// The printed form of a plain expression is non-empty and starts with no `=`.
proof fn lemma_src_start(e: SExpr)
    requires
        plain(e),
    ensures
        expr_src(e).len() > 0,
        expr_src(e)[0] != '=',
        !white_space(expr_src(e)[0]),
    decreases e,
{
    match e {
        SExpr::Ident(n) => {
            assert(letter(n[0]));
        },
        SExpr::Int(t, v) => {
            assert('0' <= t[0] <= '9');
        },
        SExpr::Call(f, args) => {
            lemma_src_start(*f);
        },
        _ => {},
    }
}

/// Each expression of a plain sequence is plain.
proof fn lemma_plain_args(v: Seq<SExpr>)
    requires
        plain_args(v),
    ensures
        forall|i: int| 0 <= i < v.len() ==> plain(#[trigger] v[i]),
    decreases v.len(),
{
    if v.len() > 0 {
        lemma_plain_args(v.drop_last());
        assert forall|i: int| 0 <= i < v.len() implies plain(#[trigger] v[i]) by {
            if i < v.len() - 1 {
                assert(v.drop_last()[i] == v[i]);
            }
        }
    }
}

/// The printed arguments of a call, when there are any, start with no `=`.
proof fn lemma_args_start(v: Seq<SExpr>)
    requires
        plain_args(v),
        v.len() > 0,
    ensures
        exprs_src(v).len() > 0,
        exprs_src(v)[0] != '=',
    decreases v.len(),
{
    if v.len() == 1 {
        lemma_src_start(v[0]);
    } else {
        lemma_args_start(v.drop_last());
    }
}

} // verus!

verus! {

/// Four tokens lexed one after another lex as their concatenation.
proof fn lemma_lexes_chain(
    text: Seq<char>,
    p0: nat,
    s1: Seq<TokenView>,
    p1: nat,
    s2: Seq<TokenView>,
    p2: nat,
    s3: Seq<TokenView>,
    p3: nat,
    s4: Seq<TokenView>,
    p4: nat,
)
    requires
        lexes(text, p0, s1, p1),
        lexes(text, p1, s2, p2),
        lexes(text, p2, s3, p3),
        lexes(text, p3, s4, p4),
    ensures
        lexes(text, p0, s1 + s2 + s3 + s4, p4),
{
    lemma_lexes_concat(text, p0, s1, p1, s2, p2);
    lemma_lexes_concat(text, p0, s1 + s2, p2, s3, p3);
    lemma_lexes_concat(text, p0, s1 + s2 + s3, p3, s4, p4);
}

/// The printed form of a plain expression lexes back into its tokens.
proof fn lemma_lex_render(text: Seq<char>, p: nat, e: SExpr)
    requires
        plain(e),
        p + expr_src(e).len() <= text.len(),
        text.subrange(p as int, (p + expr_src(e).len()) as int) == expr_src(e),
        !letter(char_at(text, (p + expr_src(e).len()) as int)),
        !digit(char_at(text, (p + expr_src(e).len()) as int)),
        char_at(text, (p + expr_src(e).len()) as int) != '=',
    ensures
        toks(e).len() > 0,
        lexes(text, p, toks(e), p + expr_src(e).len()),
    decreases e, 1nat,
{
    match e {
        SExpr::Ident(n) => {
            lemma_lex_run(text, p, n);
        },
        SExpr::Int(t, v) => {
            assert forall|i: int| 0 <= i < t.len() implies digit(#[trigger] t[i]) by {
                assert('0' <= t[i] <= '9');
            }
            lemma_lex_run(text, p, t);
        },
        SExpr::Bool(b) => {
            if b {
                let w = seq!['t', 'r', 'u', 'e'];
                assert(keyword_kind(w) == TokenType::True);
                lemma_lex_run(text, p, w);
            } else {
                let w = seq!['f', 'a', 'l', 's', 'e'];
                assert(keyword_kind(w) == TokenType::False);
                lemma_lex_run(text, p, w);
            }
        },
        SExpr::Prefix(_, _) => lemma_lex_prefix(text, p, e),
        SExpr::Infix(_, _, _) => lemma_lex_infix(text, p, e),
        SExpr::Call(_, _) => lemma_lex_call(text, p, e),
        _ => {},
    }
}

/// The printed form of a plain prefix expression lexes back into its tokens.
proof fn lemma_lex_prefix(text: Seq<char>, p: nat, e: SExpr)
    requires
        plain(e),
        e is Prefix,
        p + expr_src(e).len() <= text.len(),
        text.subrange(p as int, (p + expr_src(e).len()) as int) == expr_src(e),
        !letter(char_at(text, (p + expr_src(e).len()) as int)),
        !digit(char_at(text, (p + expr_src(e).len()) as int)),
        char_at(text, (p + expr_src(e).len()) as int) != '=',
    ensures
        lexes(text, p, toks(e), p + expr_src(e).len()),
    decreases e, 0nat,
{
    let src = expr_src(e);
    let op = e->Prefix_0;
    let r = e->Prefix_1;
    let rs = expr_src(*r);
    let k = prefix_kind(op)->0;
    lemma_src_start(*r);
    assert(src == seq!['('] + op + rs + seq![')']);
    assert(src.subrange(0, 1) =~= seq!['(']);
    assert(src.subrange(1, (1 + op.len()) as int) =~= op);
    assert(src.subrange((1 + op.len()) as int, (1 + op.len() + rs.len()) as int) =~= rs);
    assert(src.subrange((1 + op.len() + rs.len()) as int, src.len() as int) =~= seq![')']);
    lemma_sub(text, p, src, 0, seq!['(']);
    lemma_sub(text, p, src, 1, op);
    lemma_sub(text, p, src, 1 + op.len(), rs);
    lemma_sub(text, p, src, 1 + op.len() + rs.len(), seq![')']);
    let p1 = p + 1;
    let p2 = p1 + op.len();
    let p3 = p2 + rs.len();
    let p4 = p3 + 1;
    assert(text.subrange(p1 as int, p2 as int)[0] == text[p1 as int]);
    assert(text.subrange(p2 as int, p3 as int)[0] == text[p2 as int]);
    assert(text.subrange(p3 as int, p4 as int)[0] == text[p3 as int]);
    lemma_lex_op(text, p, seq!['('], TokenType::Lparen);
    lemma_lex_op(text, p1, op, k);
    lemma_lex_render(text, p2, *r);
    lemma_lex_op(text, p3, seq![')'], TokenType::Rparen);
    lemma_lexes_chain(
        text,
        p,
        seq![(TokenType::Lparen, Some(seq!['(']))],
        p1,
        seq![(k, Some(op))],
        p2,
        toks(*r),
        p3,
        seq![(TokenType::Rparen, Some(seq![')']))],
        p4,
    );
    assert(seq![(TokenType::Lparen, Some(seq!['(']))] + seq![(k, Some(op))] =~= seq![
        (TokenType::Lparen, Some(seq!['('])),
        (k, Some(op)),
    ]);
}

/// The printed form of a plain infix expression lexes back into its tokens.
#[verifier::rlimit(40)]
proof fn lemma_lex_infix(text: Seq<char>, p: nat, e: SExpr)
    requires
        plain(e),
        e is Infix,
        p + expr_src(e).len() <= text.len(),
        text.subrange(p as int, (p + expr_src(e).len()) as int) == expr_src(e),
        !letter(char_at(text, (p + expr_src(e).len()) as int)),
        !digit(char_at(text, (p + expr_src(e).len()) as int)),
        char_at(text, (p + expr_src(e).len()) as int) != '=',
    ensures
        lexes(text, p, toks(e), p + expr_src(e).len()),
    decreases e, 0nat,
{
    let src = expr_src(e);
    let l = e->Infix_0;
    let op = e->Infix_1;
    let r = e->Infix_2;
    let ls = expr_src(*l);
    let rs = expr_src(*r);
    let k = infix_kind(op)->0;
    lemma_src_start(*l);
    lemma_src_start(*r);
    assert(src == seq!['('] + ls + seq![' '] + op + seq![' '] + rs + seq![')']);
    let a = 1 + ls.len();
    let b = a + 1 + op.len();
    let d = b + 1 + rs.len();
    assert(src.subrange(0, 1) =~= seq!['(']);
    assert(src.subrange(1, a as int) =~= ls);
    assert(src.subrange(a as int, (a + 1) as int) =~= seq![' ']);
    assert(src.subrange((a + 1) as int, b as int) =~= op);
    assert(src.subrange(b as int, (b + 1) as int) =~= seq![' ']);
    assert(src.subrange((b + 1) as int, d as int) =~= rs);
    assert(src.subrange(d as int, (d + 1) as int) =~= seq![')']);
    lemma_sub(text, p, src, 0, seq!['(']);
    lemma_sub(text, p, src, 1, ls);
    lemma_sub(text, p, src, a, seq![' ']);
    lemma_sub(text, p, src, a + 1, op);
    lemma_sub(text, p, src, b, seq![' ']);
    lemma_sub(text, p, src, b + 1, rs);
    lemma_sub(text, p, src, d, seq![')']);
    assert(text.subrange((p + 1) as int, (p + a) as int)[0] == text[p + 1int]);
    assert(text.subrange((p + a) as int, (p + a + 1) as int)[0] == text[(p + a) as int]);
    assert(text.subrange((p + a + 1) as int, (p + b) as int)[0] == text[(p + a + 1) as int]);
    assert(text.subrange((p + b) as int, (p + b + 1) as int)[0] == text[(p + b) as int]);
    assert(text.subrange((p + b + 1) as int, (p + d) as int)[0] == text[(p + b + 1) as int]);
    assert(text.subrange((p + d) as int, (p + d + 1) as int)[0] == text[(p + d) as int]);
    lemma_lex_op(text, p, seq!['('], TokenType::Lparen);
    lemma_lex_render(text, p + 1, *l);
    lemma_lex_op(text, p + a + 1, op, k);
    lemma_lexes_space(text, p + a, seq![(k, Some(op))], p + b);
    lemma_lex_render(text, p + b + 1, *r);
    lemma_lexes_space(text, p + b, toks(*r), p + d);
    lemma_lex_op(text, p + d, seq![')'], TokenType::Rparen);
    let t1 = seq![(TokenType::Lparen, Some(seq!['(']))];
    let t2 = seq![(k, Some(op))];
    let t3 = seq![(TokenType::Rparen, Some(seq![')']))];
    lemma_lexes_chain(text, p, t1, p + 1, toks(*l), p + a, t2, p + b, toks(*r), p + d);
    lemma_lexes_concat(text, p, t1 + toks(*l) + t2 + toks(*r), p + d, t3, p + d + 1);
}

/// The printed form of a plain call lexes back into its tokens.
proof fn lemma_lex_call(text: Seq<char>, p: nat, e: SExpr)
    requires
        plain(e),
        e is Call,
        p + expr_src(e).len() <= text.len(),
        text.subrange(p as int, (p + expr_src(e).len()) as int) == expr_src(e),
        !letter(char_at(text, (p + expr_src(e).len()) as int)),
        !digit(char_at(text, (p + expr_src(e).len()) as int)),
        char_at(text, (p + expr_src(e).len()) as int) != '=',
    ensures
        lexes(text, p, toks(e), p + expr_src(e).len()),
    decreases e, 0nat,
{
    let src = expr_src(e);
    let f = e->Call_0;
    let args = e->Call_1;
    let fs = expr_src(*f);
    let xs = exprs_src(args);
    let a = fs.len();
    let b = a + 1 + xs.len();
    assert(src == fs + seq!['('] + xs + seq![')']);
    assert(src.subrange(0, a as int) =~= fs);
    assert(src.subrange(a as int, (a + 1) as int) =~= seq!['(']);
    assert(src.subrange((a + 1) as int, b as int) =~= xs);
    assert(src.subrange(b as int, (b + 1) as int) =~= seq![')']);
    lemma_sub(text, p, src, 0, fs);
    lemma_sub(text, p, src, a, seq!['(']);
    lemma_sub(text, p, src, a + 1, xs);
    lemma_sub(text, p, src, b, seq![')']);
    assert(text.subrange((p + a) as int, (p + a + 1) as int)[0] == text[(p + a) as int]);
    assert(text.subrange((p + b) as int, (p + b + 1) as int)[0] == text[(p + b) as int]);
    if args.len() > 0 {
        lemma_args_start(args);
        assert(text.subrange((p + a + 1) as int, (p + b) as int)[0] == text[(p + a + 1) as int]);
    }
    lemma_lex_render(text, p, *f);
    lemma_lex_op(text, p + a, seq!['('], TokenType::Lparen);
    lemma_lex_args(text, p + a + 1, args);
    lemma_lex_op(text, p + b, seq![')'], TokenType::Rparen);
    lemma_lexes_chain(
        text,
        p,
        toks(*f),
        p + a,
        seq![(TokenType::Lparen, Some(seq!['(']))],
        p + a + 1,
        args_toks(args),
        p + b,
        seq![(TokenType::Rparen, Some(seq![')']))],
        p + b + 1,
    );
}

/// The printed arguments of a call lex back into their tokens.
proof fn lemma_lex_args(text: Seq<char>, p: nat, v: Seq<SExpr>)
    requires
        plain_args(v),
        p + exprs_src(v).len() <= text.len(),
        text.subrange(p as int, (p + exprs_src(v).len()) as int) == exprs_src(v),
        !letter(char_at(text, (p + exprs_src(v).len()) as int)),
        !digit(char_at(text, (p + exprs_src(v).len()) as int)),
        char_at(text, (p + exprs_src(v).len()) as int) != '=',
    ensures
        lexes(text, p, args_toks(v), p + exprs_src(v).len()),
    decreases v, 1nat,
{
    if v.len() == 1 {
        lemma_lex_render(text, p, v[0]);
    } else if v.len() > 1 {
        let xs = exprs_src(v);
        let ds = exprs_src(v.drop_last());
        let ls = expr_src(v.last());
        let a = ds.len();
        assert(xs == ds + seq![','] + ls);
        assert(xs.subrange(0, a as int) =~= ds);
        assert(xs.subrange(a as int, (a + 1) as int) =~= seq![',']);
        assert(xs.subrange((a + 1) as int, xs.len() as int) =~= ls);
        lemma_sub(text, p, xs, 0, ds);
        lemma_sub(text, p, xs, a, seq![',']);
        lemma_sub(text, p, xs, a + 1, ls);
        lemma_src_start(v.last());
        assert(text.subrange((p + a) as int, (p + a + 1) as int)[0] == text[(p + a) as int]);
        assert(text.subrange((p + a + 1) as int, (p + xs.len()) as int)[0] == text[(p + a + 1) as int]);
        lemma_lex_args(text, p, v.drop_last());
        lemma_lex_op(text, p + a, seq![','], TokenType::Comma);
        lemma_lex_render(text, p + a + 1, v.last());
        lemma_lexes_concat(text, p, args_toks(v.drop_last()), p + a, seq![(TokenType::Comma, Some(seq![',']))], p + a + 1);
        lemma_lexes_concat(
            text,
            p,
            args_toks(v.drop_last()) + seq![(TokenType::Comma, Some(seq![',']))],
            p + a + 1,
            toks(v.last()),
            p + xs.len(),
        );
    }
}

} // verus!

verus! {

/// The stream holds the tokens `s`, none of them `Eof`, from index `k` on.
pub open spec fn in_stream(c: Ctx, k: nat, s: Seq<TokenView>) -> bool {
    forall|i: int| 0 <= i < s.len() ==> tk(c, (k + i) as nat) == #[trigger] s[i] && s[i].0 != TokenType::Eof
}

/// Tokens that lex from where the `k`-th token is read are the stream's tokens from `k` on.
proof fn lemma_lexes_stream(c: Ctx, k: nat, s: Seq<TokenView>, q: nat)
    requires
        lexes(c.text, lex_pos(c, k), s, q),
    ensures
        in_stream(c, k, s),
        lex_pos(c, k + s.len()) == q,
    decreases s.len(),
{
    reveal(tk);
    if s.len() > 0 {
        assert(lex_pos(c, k + 1) == lex_next(c.text, lex_pos(c, k)));
        lemma_lexes_stream(c, k + 1, s.drop_first(), q);
        assert forall|i: int| 0 <= i < s.len() implies tk(c, (k + i) as nat) == #[trigger] s[i] && s[i].0
            != TokenType::Eof by {
            if i > 0 {
                assert(s.drop_first()[i - 1] == s[i]);
            }
        }
        assert(k + 1 + s.drop_first().len() == k + s.len());
    }
}

/// A slice of the tokens in the stream is in the stream.
proof fn lemma_stream_slice(c: Ctx, k: nat, s: Seq<TokenView>, off: nat, part: Seq<TokenView>)
    requires
        in_stream(c, k, s),
        off + part.len() <= s.len(),
        s.subrange(off as int, (off + part.len()) as int) == part,
    ensures
        in_stream(c, k + off, part),
{
    assert forall|i: int| 0 <= i < part.len() implies tk(c, (k + off + i) as nat) == #[trigger] part[i]
        && part[i].0 != TokenType::Eof by {
        assert(s.subrange(off as int, (off + part.len()) as int)[i] == s[off + i]);
        assert(tk(c, (k + (off + i)) as nat) == s[off + i]);
    }
}

/// The tokens of a plain expression other than a call parse back, from their
/// first token, into the expression.
proof fn lemma_parse_prefix(c: Ctx, k: nat, e: SExpr)
    requires
        c.start <= c.text.len(),
        plain(e),
        !(e is Call),
        in_stream(c, k, toks(e)),
    ensures
        toks(e).len() > 0,
        k + toks(e).len() <= eof_at(c),
        parse_prefix(c, k) == (Outcome::<SExpr> {
            node: Some(e),
            end: (k + toks(e).len() - 1) as nat,
            errs: Seq::empty(),
        }),
    decreases e, 1nat,
{
    let s = toks(e);
    assert(s.len() > 0) by {
        match e {
            SExpr::Prefix(_, _) => {},
            SExpr::Infix(_, _, _) => {},
            _ => {},
        }
    }
    assert(tk(c, (k + (s.len() - 1)) as nat) == s[s.len() - 1]);
    assert(tk(c, k) == s[0]);
    match e {
        SExpr::Ident(n) => {},
        SExpr::Int(t, v) => {},
        SExpr::Bool(b) => {},
        SExpr::Prefix(_, _) => {
            lemma_parse_prefix_op(c, k, e);
        },
        SExpr::Infix(_, _, _) => {
            lemma_parse_infix(c, k, e);
        },
        _ => {},
    }
}

/// The tokens of a plain prefix expression parse back into it.
proof fn lemma_parse_prefix_op(c: Ctx, k: nat, e: SExpr)
    requires
        c.start <= c.text.len(),
        plain(e),
        in_stream(c, k, toks(e)),
        e is Prefix,
    ensures
        parse_prefix(c, k) == (Outcome::<SExpr> {
            node: Some(e),
            end: (k + toks(e).len() - 1) as nat,
            errs: Seq::empty(),
        }),
    decreases e, 0nat,
{
    let s = toks(e);
    let op = e->Prefix_0;
    let r = e->Prefix_1;
    let tr = toks(*r);
    let pk = prefix_kind(op)->0;
    assert(s == seq![(TokenType::Lparen, Some(seq!['('])), (pk, Some(op))] + tr + seq![
        (TokenType::Rparen, Some(seq![')'])),
    ]);
    assert(tk(c, k) == s[0]);
    assert(s.subrange(2, (2 + tr.len()) as int) =~= tr);
    lemma_stream_slice(c, k, s, 2, tr);
    assert(tk(c, k + 1) == s[1]);
    let j = k + 1 + tr.len();
    assert(tk(c, (k + (s.len() - 1)) as nat) == s[s.len() - 1]);
    assert(tk(c, j + 1) == (TokenType::Rparen, Some(seq![')'])));
    lemma_parse_expr(c, k + 2, *r, 6);
    assert(parse_prefix(c, k + 1) == (Outcome::<SExpr> {
        node: Some(SExpr::Prefix(op, r)),
        end: j,
        errs: Seq::empty(),
    }));
    assert(infix_loop(c, SExpr::Prefix(op, r), j, 1, Seq::empty()) == (Outcome::<SExpr> {
        node: Some(SExpr::Prefix(op, r)),
        end: j,
        errs: Seq::empty(),
    }));
    assert(parse_expr(c, k + 1, 1) == (Outcome::<SExpr> {
        node: Some(SExpr::Prefix(op, r)),
        end: j,
        errs: Seq::empty(),
    }));
}

/// The tokens of a plain infix expression parse back into it.
#[verifier::rlimit(40)]
proof fn lemma_parse_infix(c: Ctx, k: nat, e: SExpr)
    requires
        c.start <= c.text.len(),
        plain(e),
        in_stream(c, k, toks(e)),
        e is Infix,
    ensures
        parse_prefix(c, k) == (Outcome::<SExpr> {
            node: Some(e),
            end: (k + toks(e).len() - 1) as nat,
            errs: Seq::empty(),
        }),
    decreases e, 0nat,
{
    let s = toks(e);
    let l = e->Infix_0;
    let op = e->Infix_1;
    let r = e->Infix_2;
    let tl = toks(*l);
    let tr = toks(*r);
    let ik = infix_kind(op)->0;
    assert(s == seq![(TokenType::Lparen, Some(seq!['(']))] + tl + seq![(ik, Some(op))] + tr + seq![
        (TokenType::Rparen, Some(seq![')'])),
    ]);
    assert(tk(c, k) == s[0]);
    assert(s.subrange(1, (1 + tl.len()) as int) =~= tl);
    assert(s.subrange((2 + tl.len()) as int, (2 + tl.len() + tr.len()) as int) =~= tr);
    lemma_stream_slice(c, k, s, 1, tl);
    lemma_stream_slice(c, k, s, 2 + tl.len(), tr);
    let j1 = k + tl.len();
    let j2 = j1 + 1 + tr.len();
    assert(tk(c, (k + (1 + tl.len())) as nat) == s[(1 + tl.len()) as int]);
    assert(s[(1 + tl.len()) as int] == (ik, Some(op)));
    assert(tk(c, j1 + 1) == (ik, Some(op)));
    assert(tk(c, (k + (s.len() - 1)) as nat) == s[s.len() - 1]);
    assert(tk(c, j2 + 1) == (TokenType::Rparen, Some(seq![')'])));
    lemma_reach(c, k + 1, *l, 1);
    lemma_parse_expr(c, j1 + 2, *r, precedence(ik));
    let whole = SExpr::Infix(l, op, r);
    assert(infix_loop(c, whole, j2, 1, Seq::empty()) == (Outcome::<SExpr> {
        node: Some(whole),
        end: j2,
        errs: Seq::empty(),
    }));
    assert(Seq::<crate::grammar::ErrView>::empty() + Seq::<crate::grammar::ErrView>::empty()
        =~= Seq::<crate::grammar::ErrView>::empty());
    assert(infix_loop(c, *l, j1, 1, Seq::empty()) == (Outcome::<SExpr> {
        node: Some(whole),
        end: j2,
        errs: Seq::empty(),
    }));
    assert(parse_expr(c, k + 1, 1) == (Outcome::<SExpr> {
        node: Some(whole),
        end: j2,
        errs: Seq::empty(),
    }));
}

/// The tokens of a plain expression, followed by a token that binds no stronger
/// than `prec`, parse back into the expression.
proof fn lemma_parse_expr(c: Ctx, k: nat, e: SExpr, prec: nat)
    requires
        c.start <= c.text.len(),
        plain(e),
        in_stream(c, k, toks(e)),
        1 <= prec < 7,
        precedence(kind(c, k + toks(e).len())) <= prec,
    ensures
        toks(e).len() > 0,
        k + toks(e).len() <= eof_at(c),
        parse_expr(c, k, prec) == (Outcome::<SExpr> {
            node: Some(e),
            end: (k + toks(e).len() - 1) as nat,
            errs: Seq::empty(),
        }),
    decreases e, 3nat,
{
    lemma_reach(c, k, e, prec);
    let end = (k + toks(e).len() - 1) as nat;
    assert(end + 1 == k + toks(e).len());
    assert(infix_loop(c, e, end, prec, Seq::empty()) == (Outcome::<SExpr> {
        node: Some(e),
        end,
        errs: Seq::empty(),
    }));
}

} // verus!

verus! {

/// The innermost callee of a chain of calls; any other expression itself.
pub open spec fn head(e: SExpr) -> SExpr
    decreases e,
{
    match e {
        SExpr::Call(f, _) => head(*f),
        _ => e,
    }
}

/// Argument tokens after the first argument: a comma and the argument's tokens, for each.
pub open spec fn rest_toks(v: Seq<SExpr>) -> Seq<TokenView>
    decreases v.len(),
{
    if v.len() == 0 {
        Seq::empty()
    } else {
        seq![(TokenType::Comma, Some(seq![',']))] + toks(v[0]) + rest_toks(v.drop_first())
    }
}

proof fn lemma_rest_back(v: Seq<SExpr>)
    requires
        v.len() > 0,
    ensures
        rest_toks(v) == rest_toks(v.drop_last()) + seq![(TokenType::Comma, Some(seq![',']))] + toks(
            v.last(),
        ),
    decreases v.len(),
{
    let cm = seq![(TokenType::Comma, Some(seq![',']))];
    if v.len() == 1 {
        assert(v.drop_first() =~= Seq::<SExpr>::empty());
        assert(v.drop_last() =~= Seq::<SExpr>::empty());
        assert(rest_toks(v) =~= cm + toks(v[0]));
    } else {
        lemma_rest_back(v.drop_first());
        assert(v.drop_first().drop_last() =~= v.drop_last().drop_first());
        assert(v.drop_first().last() == v.last());
        assert(v.drop_last()[0] == v[0]);
        assert(rest_toks(v.drop_last()) == cm + toks(v[0]) + rest_toks(v.drop_last().drop_first()));
        assert(rest_toks(v) =~= rest_toks(v.drop_last()) + cm + toks(v.last()));
    }
}

proof fn lemma_args_front(v: Seq<SExpr>)
    requires
        v.len() > 0,
    ensures
        args_toks(v) == toks(v[0]) + rest_toks(v.drop_first()),
    decreases v.len(),
{
    if v.len() == 1 {
        assert(v.drop_first() =~= Seq::<SExpr>::empty());
        assert(toks(v[0]) + Seq::<TokenView>::empty() =~= toks(v[0]));
    } else {
        lemma_args_front(v.drop_last());
        lemma_rest_back(v.drop_first());
        assert(v.drop_first().drop_last() =~= v.drop_last().drop_first());
        assert(v.drop_first().last() == v.last());
        assert(v.drop_last()[0] == v[0]);
        assert(args_toks(v) =~= toks(v[0]) + rest_toks(v.drop_first()));
    }
}

/// The first token of a plain expression opens a group or is a name, an integer or a boolean.
proof fn lemma_first_tok(e: SExpr)
    requires
        plain(e),
    ensures
        toks(e).len() > 0,
        toks(e)[0].0 == TokenType::Lparen || toks(e)[0].0 == TokenType::Ident || toks(e)[0].0
            == TokenType::Int || toks(e)[0].0 == TokenType::True || toks(e)[0].0 == TokenType::False,
    decreases e,
{
    if let SExpr::Call(f, args) = e {
        lemma_first_tok(*f);
    }
}

/// From the first token of a plain expression, the parser reads the innermost
/// callee and then, in its operator loop, applies the calls one after another,
/// arriving where the whole expression ends.
proof fn lemma_reach(c: Ctx, k: nat, e: SExpr, prec: nat)
    requires
        c.start <= c.text.len(),
        plain(e),
        in_stream(c, k, toks(e)),
        prec < 7,
    ensures
        toks(e).len() > 0,
        toks(head(e)).len() > 0,
        k + toks(e).len() <= eof_at(c),
        parse_prefix(c, k) == (Outcome::<SExpr> {
            node: Some(head(e)),
            end: (k + toks(head(e)).len() - 1) as nat,
            errs: Seq::empty(),
        }),
        infix_loop(c, head(e), (k + toks(head(e)).len() - 1) as nat, prec, Seq::empty()) == infix_loop(
            c,
            e,
            (k + toks(e).len() - 1) as nat,
            prec,
            Seq::empty(),
        ),
    decreases e, 2nat,
{
    match e {
        SExpr::Call(f, args) => {
            let tf = toks(*f);
            let ta = args_toks(args);
            let rp = seq![(TokenType::Rparen, Some(seq![')']))];
            let s = toks(e);
            assert(s == tf + seq![(TokenType::Lparen, Some(seq!['(']))] + ta + rp);
            assert(s.subrange(0, tf.len() as int) =~= tf);
            assert(s.subrange((tf.len() + 1) as int, s.len() as int) =~= ta + rp);
            lemma_stream_slice(c, k, s, 0, tf);
            assert(k + 0 == k);
            lemma_stream_slice(c, k, s, tf.len() + 1, ta + rp);
            lemma_reach(c, k, *f, prec);
            let jf = (k + tf.len() - 1) as nat;
            assert(tk(c, (k + tf.len()) as nat) == s[tf.len() as int]);
            assert(tk(c, (k + (s.len() - 1)) as nat) == s[s.len() - 1]);
            lemma_args(c, jf + 1, args);
            assert(Seq::<ErrView>::empty() + Seq::<ErrView>::empty() =~= Seq::<ErrView>::empty());
            assert(infix_loop(c, *f, jf, prec, Seq::empty()) == infix_loop(
                c,
                e,
                (k + s.len() - 1) as nat,
                prec,
                Seq::empty(),
            ));
        },
        _ => {
            lemma_parse_prefix(c, k, e);
        },
    }
}

/// The tokens of plain call arguments and the closing `)`, after the `(` at `k`,
/// parse back into the arguments.
proof fn lemma_args(c: Ctx, k: nat, args: Seq<SExpr>)
    requires
        c.start <= c.text.len(),
        plain_args(args),
        in_stream(c, k + 1, args_toks(args) + seq![(TokenType::Rparen, Some(seq![')']))]),
    ensures
        parse_args(c, k) == (Outcome::<Seq<SExpr>> {
            node: Some(args),
            end: k + args_toks(args).len() + 1,
            errs: Seq::empty(),
        }),
    decreases args, 1nat,
{
    let ta = args_toks(args);
    let rp = seq![(TokenType::Rparen, Some(seq![')']))];
    let s = ta + rp;
    assert(tk(c, (k + 1 + ta.len()) as nat) == s[ta.len() as int]);
    if args.len() == 0 {
        assert(tk(c, (k + 1 + 0) as nat) == s[0]);
        assert(args =~= Seq::<SExpr>::empty());
    } else {
        lemma_plain_args(args);
        lemma_args_front(args);
        let a0 = args[0];
        let t0 = toks(a0);
        let rest = rest_toks(args.drop_first());
        assert(s == t0 + (rest + rp));
        lemma_first_tok(a0);
        assert(s.subrange(0, t0.len() as int) =~= t0);
        lemma_stream_slice(c, k + 1, s, 0, t0);
        assert(s.subrange(t0.len() as int, s.len() as int) =~= rest + rp);
        lemma_stream_slice(c, k + 1, s, t0.len(), rest + rp);
        assert(tk(c, (k + 1 + 0) as nat) == s[0]);
        assert(tk(c, (k + 1 + t0.len()) as nat) == s[t0.len() as int]);
        assert((rest + rp)[0].0 == TokenType::Comma || (rest + rp)[0].0 == TokenType::Rparen);
        assert(s[t0.len() as int] == (rest + rp)[0]);
        lemma_parse_expr(c, k + 1, a0, 1);
        let j = (k + t0.len()) as nat;
        lemma_args_rest(c, seq![a0], args.drop_first(), j);
        assert(seq![a0] + args.drop_first() =~= args);
    }
}

/// The remaining argument tokens, each after a comma, and the closing `)`, after
/// the argument that ends at `j`, parse back into the remaining arguments.
proof fn lemma_args_rest(c: Ctx, acc: Seq<SExpr>, v: Seq<SExpr>, j: nat)
    requires
        c.start <= c.text.len(),
        forall|i: int| 0 <= i < v.len() ==> plain(#[trigger] v[i]),
        in_stream(c, j + 1, rest_toks(v) + seq![(TokenType::Rparen, Some(seq![')']))]),
    ensures
        args_rest(c, acc, j, Seq::empty()) == (Outcome::<Seq<SExpr>> {
            node: Some(acc + v),
            end: j + rest_toks(v).len() + 1,
            errs: Seq::empty(),
        }),
    decreases v, 0nat,
{
    let rt = rest_toks(v);
    let rp = seq![(TokenType::Rparen, Some(seq![')']))];
    let s = rt + rp;
    assert(tk(c, (j + 1 + 0) as nat) == s[0]);
    if v.len() == 0 {
        assert(acc + v =~= acc);
    } else {
        let v0 = v[0];
        let t0 = toks(v0);
        let more = rest_toks(v.drop_first());
        let cm = seq![(TokenType::Comma, Some(seq![',']))];
        assert(s == cm + t0 + (more + rp));
        assert(s.subrange(1, (1 + t0.len()) as int) =~= t0);
        lemma_stream_slice(c, j + 1, s, 1, t0);
        assert(s.subrange((1 + t0.len()) as int, s.len() as int) =~= more + rp);
        lemma_stream_slice(c, j + 1, s, 1 + t0.len(), more + rp);
        assert(tk(c, (j + 1 + (1 + t0.len())) as nat) == s[(1 + t0.len()) as int]);
        assert(s[(1 + t0.len()) as int] == (more + rp)[0]);
        assert((more + rp)[0].0 == TokenType::Comma || (more + rp)[0].0 == TokenType::Rparen);
        lemma_parse_expr(c, j + 2, v0, 1);
        let e1 = (j + 1 + t0.len()) as nat;
        assert forall|i: int| 0 <= i < v.drop_first().len() implies plain(#[trigger] v.drop_first()[i]) by {
            assert(v.drop_first()[i] == v[i + 1]);
        }
        lemma_args_rest(c, acc.push(v0), v.drop_first(), e1);
        assert(Seq::<ErrView>::empty() + Seq::<ErrView>::empty() =~= Seq::<ErrView>::empty());
        assert(acc.push(v0) + v.drop_first() =~= acc + v);
    }
}

/// Statements whose printed form parses back: an expression statement (holding
/// its expression's first token), `let` and `return`, each over a plain expression.
pub open spec fn plain_stmt(st: SStmt) -> bool {
    match st {
        SStmt::Expr(t, e) => plain(e) && toks(e).len() > 0 && t == toks(e)[0],
        SStmt::Let(n, e) => word(n) && plain(e),
        SStmt::Return(e) => plain(e),
        SStmt::Block(_) => false,
    }
}

/// The tokens that the printed form of a plain statement lexes into.
pub open spec fn stmt_toks(st: SStmt) -> Seq<TokenView> {
    match st {
        SStmt::Expr(_, e) => toks(e),
        SStmt::Let(n, e) => seq![
            (TokenType::Let, Some(seq!['l', 'e', 't'])),
            (TokenType::Ident, Some(n)),
            (TokenType::Assign, Some(seq!['='])),
        ] + toks(e) + seq![(TokenType::Semicolon, Some(seq![';']))],
        SStmt::Return(e) => seq![(TokenType::Return, Some(seq!['r', 'e', 't', 'u', 'r', 'n']))] + toks(e)
            + seq![(TokenType::Semicolon, Some(seq![';']))],
        SStmt::Block(_) => Seq::empty(),
    }
}

/// A text that lexes, from its start to its end, into `s` has `s` as its token
/// stream, and then `Eof`.
proof fn lemma_whole_stream(text: Seq<char>, s: Seq<TokenView>)
    requires
        s.len() > 0,
        lexes(text, 0, s, text.len()),
    ensures
        in_stream(Ctx { text, start: 0 }, 0, s),
        kind(Ctx { text, start: 0 }, s.len()) == TokenType::Eof,
        eof_at(Ctx { text, start: 0 }) == s.len(),
{
    let c = Ctx { text, start: 0 };
    lemma_lexes_stream(c, 0, s, text.len());
    let n = s.len();
    assert(tk(c, n) == lex_token(text, text.len())) by {
        reveal(tk);
        assert(skip_ws(text, text.len()) == text.len());
    }
    assert(tk(c, (0 + (n - 1)) as nat) == s[n - 1]);
}

/// The printed form of a plain statement lexes into its tokens.
/// The printed form of a plain statement lexes into its tokens.
proof fn lemma_lex_stmt(st: SStmt)
    requires
        plain_stmt(st),
    ensures
        stmt_toks(st).len() > 0,
        lexes(stmt_src(st), 0, stmt_toks(st), stmt_src(st).len()),
{
    let text = stmt_src(st);
    assert(text.subrange(0, text.len() as int) =~= text);
    match st {
        SStmt::Expr(_, e) => {
            lemma_lex_render(text, 0, e);
        },
        SStmt::Let(n, e) => {
            lemma_lex_let(text, 0, n, e);
        },
        SStmt::Return(e) => {
            lemma_lex_return(text, 0, e);
        },
        SStmt::Block(_) => {},
    }
}

/// A character of `whole`, where `text` holds `whole` at `p`, is held at `p + i`.
proof fn lemma_char(text: Seq<char>, p: nat, whole: Seq<char>, i: int)
    requires
        p + whole.len() <= text.len(),
        text.subrange(p as int, (p + whole.len()) as int) == whole,
        0 <= i < whole.len(),
    ensures
        text[p + i] == whole[i],
{
    assert(text.subrange(p as int, (p + whole.len()) as int)[i] == text[p + i]);
}

/// The printed form of a plain `let` statement, held by `text` at `p` and not
/// followed by `=`, lexes into its tokens.
#[verifier::rlimit(50)]
proof fn lemma_lex_let(text: Seq<char>, p: nat, n: Seq<char>, e: SExpr)
    requires
        word(n),
        plain(e),
        p + stmt_src(SStmt::Let(n, e)).len() <= text.len(),
        text.subrange(p as int, (p + stmt_src(SStmt::Let(n, e)).len()) as int) == stmt_src(
            SStmt::Let(n, e),
        ),
        char_at(text, (p + stmt_src(SStmt::Let(n, e)).len()) as int) != '=',
    ensures
        lexes(text, p, stmt_toks(SStmt::Let(n, e)), p + stmt_src(SStmt::Let(n, e)).len()),
{
    let whole = stmt_src(SStmt::Let(n, e));
    let src = expr_src(e);
    let kw = seq!['l', 'e', 't'];
    let a = 4 + n.len();
    let b = a + 3;
    let d = b + src.len();
    assert(whole == seq!['l', 'e', 't', ' '] + n + seq![' ', '=', ' '] + src + seq![';']);
    assert(whole.subrange(0, 3) =~= kw);
    assert(whole.subrange(4, a as int) =~= n);
    assert(whole.subrange((a + 1) as int, (a + 2) as int) =~= seq!['=']);
    assert(whole.subrange(b as int, d as int) =~= src);
    assert(whole.subrange(d as int, (d + 1) as int) =~= seq![';']);
    lemma_sub(text, p, whole, 0, kw);
    lemma_sub(text, p, whole, 4, n);
    lemma_sub(text, p, whole, a + 1, seq!['=']);
    lemma_sub(text, p, whole, b, src);
    lemma_sub(text, p, whole, d, seq![';']);
    lemma_char(text, p, whole, 3);
    lemma_char(text, p, whole, a as int);
    lemma_char(text, p, whole, (a + 2) as int);
    lemma_char(text, p, whole, 4);
    lemma_char(text, p, whole, b as int);
    lemma_char(text, p, whole, d as int);
    lemma_src_start(e);
    assert(keyword_kind(kw) == TokenType::Let);
    lemma_lex_run(text, p, kw);
    lemma_lex_run(text, p + 4, n);
    lemma_lexes_space(text, p + 3, seq![(TokenType::Ident, Some(n))], p + a);
    lemma_lex_op(text, p + a + 1, seq!['='], TokenType::Assign);
    lemma_lexes_space(text, p + a, seq![(TokenType::Assign, Some(seq!['=']))], p + a + 2);
    lemma_lex_render(text, p + b, e);
    lemma_lexes_space(text, p + a + 2, toks(e), p + d);
    lemma_lex_op(text, p + d, seq![';'], TokenType::Semicolon);
    let t1 = seq![(TokenType::Let, Some(kw))];
    let t2 = seq![(TokenType::Ident, Some(n))];
    let t3 = seq![(TokenType::Assign, Some(seq!['=']))];
    let t5 = seq![(TokenType::Semicolon, Some(seq![';']))];
    lemma_lexes_chain(text, p, t1, p + 3, t2, p + a, t3, p + a + 2, toks(e), p + d);
    lemma_lexes_concat(text, p, t1 + t2 + t3 + toks(e), p + d, t5, p + d + 1);
    assert(t1 + t2 + t3 =~= seq![
        (TokenType::Let, Some(kw)),
        (TokenType::Ident, Some(n)),
        (TokenType::Assign, Some(seq!['='])),
    ]);
}

/// The printed form of a plain `return` statement, held by `text` at `p` and not
/// followed by `=`, lexes into its tokens.
#[verifier::rlimit(50)]
proof fn lemma_lex_return(text: Seq<char>, p: nat, e: SExpr)
    requires
        plain(e),
        p + stmt_src(SStmt::Return(e)).len() <= text.len(),
        text.subrange(p as int, (p + stmt_src(SStmt::Return(e)).len()) as int) == stmt_src(
            SStmt::Return(e),
        ),
        char_at(text, (p + stmt_src(SStmt::Return(e)).len()) as int) != '=',
    ensures
        lexes(text, p, stmt_toks(SStmt::Return(e)), p + stmt_src(SStmt::Return(e)).len()),
{
    let whole = stmt_src(SStmt::Return(e));
    let src = expr_src(e);
    let kw = seq!['r', 'e', 't', 'u', 'r', 'n'];
    let d = 7 + src.len();
    assert(whole == seq!['r', 'e', 't', 'u', 'r', 'n', ' '] + src + seq![';']);
    assert(whole.subrange(0, 6) =~= kw);
    assert(whole.subrange(7, d as int) =~= src);
    assert(whole.subrange(d as int, (d + 1) as int) =~= seq![';']);
    lemma_sub(text, p, whole, 0, kw);
    lemma_sub(text, p, whole, 7, src);
    lemma_sub(text, p, whole, d, seq![';']);
    lemma_char(text, p, whole, 6);
    lemma_char(text, p, whole, 7);
    lemma_char(text, p, whole, d as int);
    lemma_src_start(e);
    assert(keyword_kind(kw) == TokenType::Return);
    lemma_lex_run(text, p, kw);
    lemma_lex_render(text, p + 7, e);
    lemma_lexes_space(text, p + 6, toks(e), p + d);
    lemma_lex_op(text, p + d, seq![';'], TokenType::Semicolon);
    let t1 = seq![(TokenType::Return, Some(kw))];
    let t5 = seq![(TokenType::Semicolon, Some(seq![';']))];
    lemma_lexes_concat(text, p, t1, p + 6, toks(e), p + d);
    lemma_lexes_concat(text, p, t1 + toks(e), p + d, t5, p + d + 1);
}

} // verus!

verus! {

/// The tokens of a plain statement, alone in the stream, parse back into it.
/// The tokens of a plain statement, alone in the stream, parse back into it.
proof fn lemma_parse_stmt(c: Ctx, st: SStmt)
    requires
        c.start <= c.text.len(),
        plain_stmt(st),
        stmt_toks(st).len() > 0,
        in_stream(c, 0, stmt_toks(st)),
        kind(c, stmt_toks(st).len()) == TokenType::Eof,
        eof_at(c) == stmt_toks(st).len(),
    ensures
        parse_stmt(c, 0) == (Outcome::<SStmt> {
            node: Some(st),
            end: (stmt_toks(st).len() - 1) as nat,
            errs: Seq::empty(),
        }),
{
    match st {
        SStmt::Expr(_, _) => lemma_parse_expr_stmt(c, st),
        SStmt::Let(_, _) => lemma_parse_let_stmt(c, 0, st),
        SStmt::Return(_) => lemma_parse_return_stmt(c, 0, st),
        SStmt::Block(_) => {},
    }
}

/// The tokens of a plain expression statement parse back into it.
#[verifier::rlimit(50)]
proof fn lemma_parse_expr_stmt(c: Ctx, st: SStmt)
    requires
        c.start <= c.text.len(),
        plain_stmt(st),
        stmt_toks(st).len() > 0,
        in_stream(c, 0, stmt_toks(st)),
        kind(c, stmt_toks(st).len()) == TokenType::Eof,
        eof_at(c) == stmt_toks(st).len(),
        st is Expr,
    ensures
        parse_stmt(c, 0) == (Outcome::<SStmt> {
            node: Some(st),
            end: (stmt_toks(st).len() - 1) as nat,
            errs: Seq::empty(),
        }),
{
    let s = stmt_toks(st);
    let n = s.len();
    assert(tk(c, (0 + 0) as nat) == s[0]);
    let e = st->Expr_1;
    lemma_parse_expr(c, 0, e, 1);
    lemma_first_tok(e);
    assert(parse_expr_stmt(c, 0) == (Outcome::<SStmt> {
        node: Some(st),
        end: (n - 1) as nat,
        errs: Seq::empty(),
    }));
}

/// The tokens of a plain `let` statement parse back into it.
#[verifier::rlimit(50)]
proof fn lemma_parse_let_stmt(c: Ctx, k: nat, st: SStmt)
    requires
        c.start <= c.text.len(),
        plain_stmt(st),
        stmt_toks(st).len() > 0,
        in_stream(c, k, stmt_toks(st)),
        st is Let,
    ensures
        parse_stmt(c, k) == (Outcome::<SStmt> {
            node: Some(st),
            end: (k + stmt_toks(st).len() - 1) as nat,
            errs: Seq::empty(),
        }),
{
    let s = stmt_toks(st);
    let n = s.len();
    assert(tk(c, (k + 0) as nat) == s[0]);
    let name = st->Let_0;
    let e = st->Let_1;
    let te = toks(e);
    assert(s.subrange(3, (3 + te.len()) as int) =~= te);
    lemma_stream_slice(c, k, s, 3, te);
    assert(tk(c, (k + 1) as nat) == s[1]);
    assert(tk(c, (k + 2) as nat) == s[2]);
    assert(tk(c, (k + (n - 1)) as nat) == s[n - 1]);
    lemma_parse_expr(c, k + 3, e, 1);
    assert(parse_let(c, k) == (Outcome::<SStmt> {
        node: Some(st),
        end: (k + n - 1) as nat,
        errs: Seq::empty(),
    }));
}

/// The tokens of a plain `return` statement parse back into it.
#[verifier::rlimit(50)]
proof fn lemma_parse_return_stmt(c: Ctx, k: nat, st: SStmt)
    requires
        c.start <= c.text.len(),
        plain_stmt(st),
        stmt_toks(st).len() > 0,
        in_stream(c, k, stmt_toks(st)),
        st is Return,
    ensures
        parse_stmt(c, k) == (Outcome::<SStmt> {
            node: Some(st),
            end: (k + stmt_toks(st).len() - 1) as nat,
            errs: Seq::empty(),
        }),
{
    let s = stmt_toks(st);
    let n = s.len();
    assert(tk(c, (k + 0) as nat) == s[0]);
    let e = st->Return_0;
    let te = toks(e);
    assert(s.subrange(1, (1 + te.len()) as int) =~= te);
    lemma_stream_slice(c, k, s, 1, te);
    assert(tk(c, (k + (n - 1)) as nat) == s[n - 1]);
    lemma_parse_expr(c, k + 1, e, 1);
    assert(parse_return(c, k) == (Outcome::<SStmt> {
        node: Some(st),
        end: (k + n - 1) as nat,
        errs: Seq::empty(),
    }));
}

/// A statement that spans every token before `Eof` is the whole program.
proof fn lemma_program_one(c: Ctx, st: SStmt, n: nat)
    requires
        c.start <= c.text.len(),
        n > 0,
        eof_at(c) == n,
        parse_stmt(c, 0) == (Outcome::<SStmt> { node: Some(st), end: (n - 1) as nat, errs: Seq::empty() }),
    ensures
        program_rest(c, Seq::empty(), 0, Seq::empty()) == (seq![st], Seq::<ErrView>::empty()),
{
    assert(kind(c, n) == TokenType::Eof);
    assert(kind(c, 0) != TokenType::Eof);
    assert(kind(c, (n - 1) as nat) != TokenType::Eof);
    assert(adv(c, (n - 1) as nat) == n);
    assert(Seq::<ErrView>::empty() + Seq::<ErrView>::empty() =~= Seq::<ErrView>::empty());
    assert(Seq::<SStmt>::empty().push(st) =~= seq![st]);
    assert(program_rest(c, seq![st], n, Seq::empty()) == (seq![st], Seq::<ErrView>::empty()));
}

/// A statement over a plain expression (names, integer literals, booleans, prefix
/// and infix operators, calls) — an expression statement, `let` or `return` —
/// prints to text that parses back into exactly that statement, with no errors;
/// so printing the parsed program again gives the same text: the printed form is
/// a fixed point at once.
pub proof fn lemma_round_trip(st: SStmt)
    requires
        plain_stmt(st),
    ensures
        program_of(stmt_src(st)) == (seq![st], Seq::<ErrView>::empty()),
        stmts_src(program_of(stmt_src(st)).0) == stmt_src(st),
{
    let text = stmt_src(st);
    let c = Ctx { text, start: 0 };
    lemma_lex_stmt(st);
    lemma_whole_stream(text, stmt_toks(st));
    lemma_parse_stmt(c, st);
    lemma_program_one(c, st, stmt_toks(st).len());
    assert(seq![st].drop_last() =~= Seq::<SStmt>::empty());
    assert(stmts_src(Seq::<SStmt>::empty()) == Seq::<char>::empty());
    assert(Seq::<char>::empty() + stmt_src(st) =~= stmt_src(st));
    assert(stmts_src(seq![st]) == stmt_src(st));
}

} // verus!

verus! {

/// `let` and `return` statements over plain expressions: each prints ending in
/// `;`, so a run of them prints as a program that parses back statement by statement.
pub open spec fn keyword_stmt(st: SStmt) -> bool {
    plain_stmt(st) && (st is Let || st is Return)
}

/// The tokens that the printed form of a run of statements lexes into.
pub open spec fn stmts_toks(v: Seq<SStmt>) -> Seq<TokenView>
    decreases v.len(),
{
    if v.len() == 0 {
        Seq::empty()
    } else {
        stmts_toks(v.drop_last()) + stmt_toks(v.last())
    }
}

/// A `let` or `return` statement prints starting with its keyword and lexes into
/// tokens that start with it.
proof fn lemma_keyword_start(st: SStmt)
    requires
        keyword_stmt(st),
    ensures
        stmt_src(st).len() > 0,
        stmt_src(st)[0] == 'l' || stmt_src(st)[0] == 'r',
        stmt_toks(st).len() > 0,
        stmt_toks(st)[0].0 == TokenType::Let || stmt_toks(st)[0].0 == TokenType::Return,
{
}

/// The printed form of a run of `let` and `return` statements, held by `text` at
/// its start and not followed by `=`, lexes into their tokens.
proof fn lemma_lex_stmts(text: Seq<char>, v: Seq<SStmt>)
    requires
        forall|i: int| 0 <= i < v.len() ==> keyword_stmt(#[trigger] v[i]),
        stmts_src(v).len() <= text.len(),
        text.subrange(0, stmts_src(v).len() as int) == stmts_src(v),
        char_at(text, stmts_src(v).len() as int) != '=',
    ensures
        lexes(text, 0, stmts_toks(v), stmts_src(v).len()),
    decreases v.len(),
{
    if v.len() > 0 {
        let dl = v.drop_last();
        let last = v.last();
        let whole = stmts_src(v);
        let ds = stmts_src(dl);
        let ls = stmt_src(last);
        assert(whole == ds + ls);
        assert(whole.subrange(0, ds.len() as int) =~= ds);
        assert(whole.subrange(ds.len() as int, whole.len() as int) =~= ls);
        lemma_sub(text, 0, whole, 0, ds);
        lemma_sub(text, 0, whole, ds.len(), ls);
        assert(keyword_stmt(v[v.len() - 1]));
        lemma_keyword_start(last);
        lemma_char(text, 0, whole, ds.len() as int);
        assert forall|i: int| 0 <= i < dl.len() implies keyword_stmt(#[trigger] dl[i]) by {
            assert(dl[i] == v[i]);
        }
        lemma_lex_stmts(text, dl);
        match last {
            SStmt::Let(n, e) => lemma_lex_let(text, ds.len(), n, e),
            SStmt::Return(e) => lemma_lex_return(text, ds.len(), e),
            _ => {},
        }
        lemma_lexes_concat(text, 0, stmts_toks(dl), ds.len(), stmt_toks(last), whole.len());
    }
}

proof fn lemma_stmts_front(v: Seq<SStmt>)
    requires
        v.len() > 0,
    ensures
        stmts_toks(v) == stmt_toks(v[0]) + stmts_toks(v.drop_first()),
    decreases v.len(),
{
    if v.len() == 1 {
        assert(v.drop_first() =~= Seq::<SStmt>::empty());
        assert(v.drop_last() =~= Seq::<SStmt>::empty());
        assert(stmts_toks(v) =~= stmt_toks(v[0]) + stmts_toks(v.drop_first()));
    } else {
        lemma_stmts_front(v.drop_last());
        assert(v.drop_first().drop_last() =~= v.drop_last().drop_first());
        assert(v.drop_first().last() == v.last());
        assert(v.drop_last()[0] == v[0]);
        assert(stmts_toks(v) =~= stmt_toks(v[0]) + stmts_toks(v.drop_first()));
    }
}

/// The tokens of a `let` or `return` statement parse back into it.
proof fn lemma_keyword_parse(c: Ctx, k: nat, st: SStmt)
    requires
        c.start <= c.text.len(),
        keyword_stmt(st),
        in_stream(c, k, stmt_toks(st)),
    ensures
        parse_stmt(c, k) == (Outcome::<SStmt> {
            node: Some(st),
            end: (k + stmt_toks(st).len() - 1) as nat,
            errs: Seq::empty(),
        }),
{
    lemma_keyword_start(st);
    match st {
        SStmt::Let(_, _) => lemma_parse_let_stmt(c, k, st),
        SStmt::Return(_) => lemma_parse_return_stmt(c, k, st),
        _ => {},
    }
}

/// One step of the top-level loop: a statement that parses from `k` to just
/// before `k1` is kept, and the loop goes on from `k1`.
proof fn lemma_program_step(c: Ctx, acc: Seq<SStmt>, k: nat, st: SStmt, k1: nat)
    requires
        c.start <= c.text.len(),
        k < k1,
        kind(c, k) != TokenType::Eof,
        kind(c, (k1 - 1) as nat) != TokenType::Eof,
        parse_stmt(c, k) == (Outcome::<SStmt> { node: Some(st), end: (k1 - 1) as nat, errs: Seq::empty() }),
    ensures
        program_rest(c, acc, k, Seq::empty()) == program_rest(c, acc.push(st), k1, Seq::empty()),
{
    assert(adv(c, (k1 - 1) as nat) == k1);
    assert(Seq::<ErrView>::empty() + Seq::<ErrView>::empty() =~= Seq::<ErrView>::empty());
}

/// The tokens of a run of `let` and `return` statements, followed by `Eof`, parse
/// back into the statements with no errors.
proof fn lemma_program_stmts(c: Ctx, acc: Seq<SStmt>, w: Seq<SStmt>, k: nat)
    requires
        c.start <= c.text.len(),
        forall|i: int| 0 <= i < w.len() ==> keyword_stmt(#[trigger] w[i]),
        in_stream(c, k, stmts_toks(w)),
        kind(c, k + stmts_toks(w).len()) == TokenType::Eof,
    ensures
        program_rest(c, acc, k, Seq::empty()) == (acc + w, Seq::<ErrView>::empty()),
    decreases w.len(),
{
    if w.len() == 0 {
        assert(acc + w =~= acc);
    } else {
        lemma_stmts_front(w);
        let w0 = w[0];
        let t0 = stmt_toks(w0);
        let rest = stmts_toks(w.drop_first());
        let s = stmts_toks(w);
        assert(keyword_stmt(w[0]));
        lemma_keyword_start(w0);
        assert(s.subrange(0, t0.len() as int) =~= t0);
        assert(s.subrange(t0.len() as int, s.len() as int) =~= rest);
        lemma_stream_slice(c, k, s, 0, t0);
        lemma_stream_slice(c, k, s, t0.len(), rest);
        assert(k + 0 == k);
        assert(tk(c, (k + 0) as nat) == s[0]);
        assert(tk(c, (k + (t0.len() - 1)) as nat) == s[t0.len() - 1]);
        lemma_keyword_parse(c, k, w0);
        assert forall|i: int| 0 <= i < w.drop_first().len() implies keyword_stmt(
            #[trigger] w.drop_first()[i],
        ) by {
            assert(w.drop_first()[i] == w[i + 1]);
        }
        let k1 = k + t0.len();
        assert(k1 + rest.len() == k + s.len());
        lemma_program_stmts(c, acc.push(w0), w.drop_first(), k1);
        lemma_program_step(c, acc, k, w0, k1);
        assert(acc.push(w0) + w.drop_first() =~= acc + w);
    }
}

/// A program made of `let` and `return` statements over plain expressions (names,
/// integer literals, booleans, prefix and infix operators, calls) prints to text
/// that parses back into exactly those statements, with no errors; so printing
/// the parsed program again gives the same text.
pub proof fn lemma_round_trip_program(v: Seq<SStmt>)
    requires
        forall|i: int| 0 <= i < v.len() ==> keyword_stmt(#[trigger] v[i]),
    ensures
        program_of(stmts_src(v)) == (v, Seq::<ErrView>::empty()),
        stmts_src(program_of(stmts_src(v)).0) == stmts_src(v),
{
    let text = stmts_src(v);
    let c = Ctx { text, start: 0 };
    assert(text.subrange(0, text.len() as int) =~= text);
    lemma_lex_stmts(text, v);
    if v.len() == 0 {
        assert(tk(c, 0) == lex_token(text, text.len())) by {
            reveal(tk);
            assert(skip_ws(text, text.len()) == text.len());
        }
    } else {
        lemma_stmts_front(v);
        assert(keyword_stmt(v[0]));
        lemma_keyword_start(v[0]);
        lemma_whole_stream(text, stmts_toks(v));
    }
    lemma_program_stmts(c, Seq::empty(), v, 0);
    assert(Seq::<SStmt>::empty() + v =~= v);
}

} // verus!
