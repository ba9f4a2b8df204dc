use vstd::prelude::*;

use crate::ast::{
    anchored_block, anchored_expr, anchored_exprs, anchored_ident, anchored_stmt, anchored_stmts,
    expr_view, exprs_view, names_view, stmt_view, stmts_view, BlockStatement, Boolean,
    CallExpression, Expression, ExpressionStatement, FunctionLiteral, Identifier, IfExpression,
    InfixExpression, IntegerLiteral, LetStatement, PrefixExpression, Program, ReturnStatement, SExpr,
    SStmt, Statement,
};
use crate::grammar::{
    args_rest, block_rest, digits_value, eof_at, expected, group_seq_append, infix_loop, int_value,
    kind, lemma_lex_pos_bound, lemma_lex_progress, lemma_stream, lemma_tk_literal, lex_pos, lit, params_rest,
    parse_args, parse_block, parse_expr, parse_expr_stmt, parse_fn, parse_if, parse_let,
    parse_params, parse_prefix, parse_return, parse_stmt, precedence, program_rest, sync, tk, tok_start,
    err_at, Ctx,
    ErrView, ErrorKind, Outcome,
};
use crate::lexer::{lex_next, Lexer};
use crate::strings::chars_of;
use crate::token::{kind_name, literal_text, Token, TokenType};

verus! {

broadcast use {lemma_stream, lemma_tk_literal, group_seq_append};

/// A syntax error: what went wrong, and the token it went wrong at.
#[derive(Debug)]
pub struct ParseError {
    pub kind: ErrorKind,
    pub token: Token,
    /// Where the offending token starts in the text, counted in characters.
    pub position: usize,
}

impl View for ParseError {
    type V = ErrView;

    open spec fn view(&self) -> ErrView {
        (self.kind, self.token@, self.position as nat)
    }
}

/// The views of a sequence of errors.
pub open spec fn errs_view(v: Seq<ParseError>) -> Seq<ErrView> {
    v.map_values(|e: ParseError| e@)
}

/// The tree of an optional expression.
pub open spec fn opt_expr(r: Option<Expression>) -> Option<SExpr> {
    match r {
        Some(e) => Some(expr_view(e)),
        None => None,
    }
}

/// The tree of an optional statement.
pub open spec fn opt_stmt(r: Option<Statement>) -> Option<SStmt> {
    match r {
        Some(s) => Some(stmt_view(s)),
        None => None,
    }
}

/// A recursive-descent parser with operator-precedence climbing, reading tokens
/// from its lexer one at a time: `cur_token` is the token under examination and
/// `peek_token` the one after it.
pub struct Parser {
    l: Lexer,
    cur_token: Token,
    peek_token: Token,
    cur_pos: usize,
    peek_pos: usize,
    errors: Vec<ParseError>,
    ctx: Ghost<Ctx>,
    index: Ghost<nat>,
}

impl Parser {
    /// The text and the position of the first token.
    pub closed spec fn context(&self) -> Ctx {
        self.ctx@
    }

    /// The index of the current token in the token stream.
    pub closed spec fn at(&self) -> nat {
        self.index@
    }

    /// The errors found so far.
    pub closed spec fn errs(&self) -> Seq<ErrView> {
        errs_view(self.errors@)
    }

    /// The two buffered tokens are the stream's tokens at the current index and
    /// the next, and the lexer stands just after them.
    pub closed spec fn wf(&self) -> bool {
        &&& self.l.wf()
        &&& self.l.text() == self.ctx@.text
        &&& self.ctx@.start <= self.ctx@.text.len()
        &&& self.cur_token@ == tk(self.ctx@, self.index@)
        &&& self.peek_token@ == tk(self.ctx@, self.index@ + 1)
        &&& self.l.pos() == lex_pos(self.ctx@, self.index@ + 2)
        &&& self.cur_pos as nat == tok_start(self.ctx@, self.index@)
        &&& self.peek_pos as nat == tok_start(self.ctx@, self.index@ + 1)
    }

    /// A parser over the tokens that `l` yields from where it stands.
    pub fn new(l: Lexer) -> (r: Parser)
        requires
            l.wf(),
        ensures
            r.wf(),
            r.context() == (Ctx { text: l.text(), start: l.pos() }),
            r.at() == 0,
            r.errs() == Seq::<ErrView>::empty(),
    {
        let ghost c = Ctx { text: l.text(), start: l.pos() };
        let mut l = l;
        proof {
            reveal(tk);
        }
        proof {
            l.lemma_pos_bound();
        }
        let (cur_token, cur_pos) = l.next_located_token();
        proof {
            assert(lex_pos(c, 1) == lex_next(c.text, lex_pos(c, 0)));
            lemma_lex_progress(c.text, c.start);
        }
        let (peek_token, peek_pos) = l.next_located_token();
        proof {
            assert(lex_pos(c, 2) == lex_next(c.text, lex_pos(c, 1)));
        }
        let p = Parser {
            l,
            cur_token,
            peek_token,
            cur_pos,
            peek_pos,
            errors: Vec::new(),
            ctx: Ghost(c),
            index: Ghost(0),
        };
        assert(errs_view(p.errors@) =~= Seq::<ErrView>::empty());
        p
    }

    /// Moves one token on: the peeked token becomes current and a new one is peeked.
    pub fn next_token(&mut self)
        requires
            old(self).wf(),
        ensures
            final(self).wf(),
            final(self).context() == old(self).context(),
            final(self).at() == old(self).at() + 1,
            final(self).errs() == old(self).errs(),
    {
        proof {
            reveal(tk);
            lemma_lex_pos_bound(self.ctx@, self.index@ + 2);
        }
        let (mut t, p) = self.l.next_located_token();
        core::mem::swap(&mut self.peek_token, &mut t);
        self.cur_token = t;
        self.cur_pos = self.peek_pos;
        self.peek_pos = p;
        self.index = Ghost(self.index@ + 1);
    }

    /// The errors found so far, in order.
    pub fn errors(&self) -> (r: &Vec<ParseError>)
        ensures
            errs_view(r@) == self.errs(),
    {
        &self.errors
    }
}

/// The value of the decimal literal `s`, when it is one and fits `i64`.
pub fn parse_integer(s: &String) -> (r: Option<i64>)
    ensures
        match r {
            Some(v) => int_value(s@) == Some(v as int),
            None => int_value(s@) is None,
        },
{
    let cs = chars_of(s.as_str());
    if cs.len() == 0 {
        return None;
    }
    let mut v: i64 = 0;
    let mut i: usize = 0;
    while i < cs.len()
        invariant
            cs@ == s@,
            i <= cs.len(),
            v as int == digits_value(cs@.take(i as int)),
            forall|j: int| 0 <= j < i ==> '0' <= #[trigger] cs@[j] <= '9',
        decreases cs.len() - i,
    {
        let c = cs[i];
        assert(cs@.take(i + 1).drop_last() =~= cs@.take(i as int));
        if !('0' <= c && c <= '9') {
            return None;
        }
        let d = (c as u32 - '0' as u32) as i64;
        proof {
            lemma_digits_value_nonneg(cs@.take(i as int));
        }
        match v.checked_mul(10) {
            Some(m) => match m.checked_add(d) {
                Some(n) => {
                    v = n;
                },
                None => {
                    proof {
                        lemma_digits_prefix(s@, i + 1);
                    }
                    return None;
                },
            },
            None => {
                proof {
                    lemma_digits_prefix(s@, i + 1);
                }
                return None;
            },
        }
        i = i + 1;
    }
    assert(cs@.take(i as int) =~= s@);
    Some(v)
}

/// The value of digits is never negative.
proof fn lemma_digits_value_nonneg(s: Seq<char>)
    requires
        forall|j: int| 0 <= j < s.len() ==> '0' <= #[trigger] s[j] <= '9',
    ensures
        digits_value(s) >= 0,
    decreases s.len(),
{
    if s.len() > 0 {
        lemma_digits_value_nonneg(s.drop_last());
    }
}

/// When the first `i` characters are digits whose value exceeds `i64::MAX`, the
/// whole text has no value as a literal.
proof fn lemma_digits_prefix(s: Seq<char>, i: int)
    requires
        0 < i <= s.len(),
        forall|j: int| 0 <= j < i ==> '0' <= #[trigger] s[j] <= '9',
        digits_value(s.take(i)) > i64::MAX,
    ensures
        int_value(s) is None,
    decreases s.len() - i,
{
    if i < s.len() {
        if '0' <= s[i] <= '9' {
            assert(s.take(i + 1).drop_last() =~= s.take(i));
            lemma_digits_value_nonneg(s.take(i));
            lemma_digits_prefix(s, i + 1);
        }
    } else {
        assert(s.take(i) =~= s);
    }
}

/// The binding strength of a token as an infix operator.
fn precedence_of(t: TokenType) -> (r: u8)
    ensures
        r as nat == precedence(t),
{
    match t {
        TokenType::Eq | TokenType::NotEq => 2,
        TokenType::Lt | TokenType::Gt => 3,
        TokenType::Plus | TokenType::Minus => 4,
        TokenType::Asterisk | TokenType::Slash => 5,
        TokenType::Lparen => 7,
        _ => 1,
    }
}

impl Parser {
    /// How far the current token lies before `Eof`.
    spec fn remaining(&self) -> int {
        eof_at(self.context()) - self.at()
    }

    /// `after` is this parser once it has parsed a construct whose outcome is `o`,
    /// giving `node`.
    spec fn steps<T>(&self, after: &Parser, node: Option<T>, o: Outcome<T>) -> bool {
        &&& after.wf()
        &&& after.context() == self.context()
        &&& node == o.node
        &&& after.at() == o.end
        &&& after.errs() == self.errs() + o.errs
        &&& self.at() <= after.at() <= eof_at(self.context())
    }

    /// Records the error of kind `kind` at the current token (`at_peek` false) or
    /// the next one (`at_peek` true).
    fn push_error(&mut self, kind: ErrorKind, at_peek: bool)
        requires
            old(self).wf(),
        ensures
            final(self).wf(),
            final(self).context() == old(self).context(),
            final(self).at() == old(self).at(),
            final(self).errs() == old(self).errs().push(
                err_at(
                    old(self).context(),
                    kind,
                    if at_peek {
                        old(self).at() + 1
                    } else {
                        old(self).at()
                    },
                ),
            ),
    {
        let (token, position) = if at_peek {
            (self.peek_token.duplicate(), self.peek_pos)
        } else {
            (self.cur_token.duplicate(), self.cur_pos)
        };
        self.errors.push(ParseError { kind, token, position });
        assert(errs_view(self.errors@) =~= errs_view(old(self).errors@).push(
            (kind, token@, position as nat),
        ));
    }

    /// Whether the current token is of kind `t`.
    fn cur_token_is(&self, t: TokenType) -> (r: bool)
        requires
            self.wf(),
        ensures
            r == (kind(self.context(), self.at()) == t),
    {
        self.cur_token.token_type == t
    }

    /// Whether the next token is of kind `t`.
    fn peek_token_is(&self, t: TokenType) -> (r: bool)
        requires
            self.wf(),
        ensures
            r == (kind(self.context(), self.at() + 1) == t),
    {
        self.peek_token.token_type == t
    }

    /// Moves on when the next token is of kind `t`; records an error otherwise.
    fn expect_peek(&mut self, t: TokenType) -> (r: bool)
        requires
            old(self).wf(),
        ensures
            final(self).wf(),
            final(self).context() == old(self).context(),
            r == (kind(old(self).context(), old(self).at() + 1) == t),
            r ==> final(self).at() == old(self).at() + 1 && final(self).errs() == old(self).errs(),
            !r ==> final(self).at() == old(self).at() && final(self).errs() == old(self).errs().push(
                expected(old(self).context(), t, old(self).at() + 1),
            ),
    {
        if self.peek_token.token_type == t {
            self.next_token();
            true
        } else {
            self.push_error(ErrorKind::Expected(t), true);
            false
        }
    }
}

/// The trees of an optional list of expressions.
pub open spec fn opt_exprs(r: Option<Vec<Expression>>) -> Option<Seq<SExpr>> {
    match r {
        Some(v) => Some(exprs_view(v@)),
        None => None,
    }
}

/// The names of an optional list of identifiers.
pub open spec fn opt_names(r: Option<Vec<Identifier>>) -> Option<Seq<Seq<char>>> {
    match r {
        Some(v) => Some(names_view(v@)),
        None => None,
    }
}

/// The statements of an optional block.
pub open spec fn opt_block(r: Option<BlockStatement>) -> Option<Seq<SStmt>> {
    match r {
        Some(b) => Some(stmts_view(b.statements@)),
        None => None,
    }
}

impl Parser {
    /// An expression that binds operators stronger than `prec`, starting at the
    /// current token and ending with the current token on its last token.
    #[verifier::rlimit(50)]
    fn parse_expression(&mut self, prec: u8, Ghost(m): Ghost<int>) -> (r: Option<Expression>)
        requires
            old(self).wf(),
            m == old(self).remaining(),
            old(self).at() <= eof_at(old(self).context()),
        ensures
            r is Some ==> anchored_expr(r->0),
            old(self).steps(
                final(self),
                opt_expr(r),
                parse_expr(old(self).context(), old(self).at(), prec as nat),
            ),
        decreases m, 4nat,
    {
        let ghost c = self.context();
        let ghost k0 = self.at();
        let ghost base = self.errs();
        let first = self.parse_prefix(Ghost(self.remaining()));
        let mut left = match first {
            Some(e) => e,
            None => {
                return None;
            },
        };
        let ghost mut errs = parse_prefix(c, k0).errs;
        loop
            invariant
                self.wf(),
                self.context() == c,
                c == old(self).context(),
                k0 == old(self).at(),
                m == eof_at(c) - k0,
                base == old(self).errs(),
                k0 <= self.at() <= eof_at(c),
                self.errs() == base + errs,
                anchored_expr(left),
                infix_loop(c, expr_view(left), self.at(), prec as nat, errs) == parse_expr(
                    c,
                    k0,
                    prec as nat,
                ),
            decreases eof_at(c) - self.at(),
        {
            let ghost k = self.at();
            let op_prec = precedence_of(self.peek_token.token_type);
            if !(prec < op_prec && !self.peek_token_is(TokenType::Eof)) {
                return Some(left);
            }
            if self.peek_token_is(TokenType::Lparen) {
                self.next_token();
                let token = self.cur_token.duplicate();
                let args = self.parse_call_arguments(Ghost(self.remaining()));
                match args {
                    Some(a) => {
                        proof {
                            errs = errs + parse_args(c, k + 1).errs;
                        }
                        left = Expression::Call(
                            CallExpression { token, function: Box::new(left), arguments: a },
                        );
                    },
                    None => {
                        return None;
                    },
                }
            } else {
                self.next_token();
                let token = self.cur_token.duplicate();
                let operator = self.cur_token.literal();
                self.next_token();
                let right = self.parse_expression(op_prec, Ghost(self.remaining()));
                match right {
                    Some(rt) => {
                        proof {
                            errs = errs + parse_expr(c, k + 2, op_prec as nat).errs;
                        }
                        left = Expression::Infix(
                            InfixExpression { token, left: Box::new(left), operator, right: Box::new(rt) },
                        );
                    },
                    None => {
                        return None;
                    },
                }
            }
            proof {
                assert(self.errs() == base + errs);
            }
        }
    }

    /// The expression that the current token starts.
    #[verifier::rlimit(50)]
    fn parse_prefix(&mut self, Ghost(m): Ghost<int>) -> (r: Option<Expression>)
        requires
            old(self).wf(),
            m == old(self).remaining(),
            old(self).at() <= eof_at(old(self).context()),
        ensures
            r is Some ==> anchored_expr(r->0),
            old(self).steps(final(self), opt_expr(r), parse_prefix(old(self).context(), old(self).at())),
        decreases m, 3nat,
    {
        let ghost c = self.context();
        let ghost k = self.at();
        let t = self.cur_token.token_type;
        let token = self.cur_token.duplicate();
        match t {
            TokenType::Ident => {
                let value = self.cur_token.literal();
                Some(Expression::Identifier(Identifier { token, value }))
            },
            TokenType::Int => {
                let text = self.cur_token.literal();
                match parse_integer(&text) {
                    Some(v) => Some(Expression::IntegerLiteral(IntegerLiteral { token, value: v })),
                    None => {
                        self.push_error(ErrorKind::IntegerOutOfRange, false);
                        None
                    },
                }
            },
            TokenType::True | TokenType::False => Some(
                Expression::Boolean(Boolean { token, value: t == TokenType::True }),
            ),
            TokenType::Bang | TokenType::Minus => {
                let operator = self.cur_token.literal();
                self.next_token();
                match self.parse_expression(6, Ghost(self.remaining())) {
                    Some(right) => Some(
                        Expression::Prefix(PrefixExpression { token, operator, right: Box::new(right) }),
                    ),
                    None => None,
                }
            },
            TokenType::Lparen => {
                self.next_token();
                match self.parse_expression(1, Ghost(self.remaining())) {
                    Some(e) => if self.expect_peek(TokenType::Rparen) {
                        Some(e)
                    } else {
                        None
                    },
                    None => None,
                }
            },
            TokenType::If => self.parse_if_expression(Ghost(self.remaining())),
            TokenType::Function => self.parse_function_literal(Ghost(self.remaining())),
            TokenType::Illegal => {
                self.push_error(ErrorKind::IllegalCharacter, false);
                None
            },
            _ => {
                self.push_error(ErrorKind::NoPrefixParse, false);
                None
            },
        }
    }

    /// The arguments of a call, the current token being its `(`.
    #[verifier::rlimit(50)]
    fn parse_call_arguments(&mut self, Ghost(m): Ghost<int>) -> (r: Option<Vec<Expression>>)
        requires
            old(self).wf(),
            m == old(self).remaining(),
            old(self).at() < eof_at(old(self).context()),
        ensures
            r is Some ==> anchored_exprs(r->0@),
            old(self).steps(final(self), opt_exprs(r), parse_args(old(self).context(), old(self).at())),
        decreases m, 0nat,
    {
        let ghost c = self.context();
        let ghost k0 = self.at();
        let ghost base = self.errs();
        let mut args: Vec<Expression> = Vec::new();
        if self.peek_token_is(TokenType::Rparen) {
            self.next_token();
            assert(exprs_view(args@) =~= Seq::<SExpr>::empty());
            return Some(args);
        }
        self.next_token();
        let first = self.parse_expression(1, Ghost(self.remaining()));
        match first {
            Some(e) => {
                args.push(e);
            },
            None => {
                return None;
            },
        }
        let ghost mut errs = parse_expr(c, k0 + 1, 1).errs;
        proof {
            assert(args@.drop_last() =~= Seq::<Expression>::empty());
            assert(exprs_view(Seq::<Expression>::empty()) =~= Seq::<SExpr>::empty());
            assert(exprs_view(args@) =~= seq![expr_view(args@[0])]);
            assert(anchored_exprs(args@.drop_last()));
        }
        loop
            invariant
                self.wf(),
                self.context() == c,
                c == old(self).context(),
                k0 == old(self).at(),
                m == eof_at(c) - k0,
                base == old(self).errs(),
                k0 < self.at() <= eof_at(c),
                self.errs() == base + errs,
                anchored_exprs(args@),
                args_rest(c, exprs_view(args@), self.at(), errs) == parse_args(c, k0),
            decreases eof_at(c) - self.at(),
        {
            let ghost k = self.at();
            if self.peek_token_is(TokenType::Comma) {
                self.next_token();
                self.next_token();
                match self.parse_expression(1, Ghost(self.remaining())) {
                    Some(e) => {
                        let ghost before = args@;
                        args.push(e);
                        proof {
                            assert(args@.drop_last() =~= before);
                            errs = errs + parse_expr(c, k + 2, 1).errs;
                        }
                    },
                    None => {
                        return None;
                    },
                }
            } else if self.peek_token_is(TokenType::Rparen) {
                self.next_token();
                return Some(args);
            } else {
                self.push_error(ErrorKind::Expected(TokenType::Rparen), true);
                return None;
            }
        }
    }

    /// `if (condition) { ... } else { ... }`, the current token being `if`.
    #[verifier::rlimit(50)]
    fn parse_if_expression(&mut self, Ghost(m): Ghost<int>) -> (r: Option<Expression>)
        requires
            kind(old(self).context(), old(self).at()) == TokenType::If,
            old(self).wf(),
            m == old(self).remaining(),
            old(self).at() < eof_at(old(self).context()),
        ensures
            r is Some ==> anchored_expr(r->0),
            old(self).steps(final(self), opt_expr(r), parse_if(old(self).context(), old(self).at())),
        decreases m, 2nat,
    {
        let ghost c = self.context();
        let ghost k = self.at();
        let token = self.cur_token.duplicate();
        if !self.expect_peek(TokenType::Lparen) {
            return None;
        }
        self.next_token();
        let condition = match self.parse_expression(1, Ghost(self.remaining())) {
            Some(e) => e,
            None => {
                return None;
            },
        };
        if !self.expect_peek(TokenType::Rparen) {
            return None;
        }
        if !self.expect_peek(TokenType::Lbrace) {
            return None;
        }
        let consequence = match self.parse_block_statement(Ghost(self.remaining())) {
            Some(b) => b,
            None => {
                return None;
            },
        };
        if self.peek_token_is(TokenType::Else) {
            self.next_token();
            if !self.expect_peek(TokenType::Lbrace) {
                return None;
            }
            let alternative = match self.parse_block_statement(Ghost(self.remaining())) {
                Some(b) => b,
                None => {
                    return None;
                },
            };
            Some(
                Expression::If(
                    IfExpression {
                        token,
                        condition: Box::new(condition),
                        consequence,
                        alternative: Some(alternative),
                    },
                ),
            )
        } else {
            Some(
                Expression::If(
                    IfExpression { token, condition: Box::new(condition), consequence, alternative: None },
                ),
            )
        }
    }

    /// `fn(parameters) { body }`, the current token being `fn`.
    #[verifier::rlimit(50)]
    fn parse_function_literal(&mut self, Ghost(m): Ghost<int>) -> (r: Option<Expression>)
        requires
            kind(old(self).context(), old(self).at()) == TokenType::Function,
            old(self).wf(),
            m == old(self).remaining(),
            old(self).at() < eof_at(old(self).context()),
        ensures
            r is Some ==> anchored_expr(r->0),
            old(self).steps(final(self), opt_expr(r), parse_fn(old(self).context(), old(self).at())),
        decreases m, 2nat,
    {
        let token = self.cur_token.duplicate();
        if !self.expect_peek(TokenType::Lparen) {
            return None;
        }
        let parameters = match self.parse_function_parameters() {
            Some(p) => p,
            None => {
                return None;
            },
        };
        if !self.expect_peek(TokenType::Lbrace) {
            return None;
        }
        let body = match self.parse_block_statement(Ghost(self.remaining())) {
            Some(b) => b,
            None => {
                return None;
            },
        };
        Some(Expression::Function(FunctionLiteral { token, parameters, body }))
    }

    /// The parameter names of a function literal, the current token being its `(`.
    fn parse_function_parameters(&mut self) -> (r: Option<Vec<Identifier>>)
        requires
            old(self).wf(),
            old(self).at() < eof_at(old(self).context()),
        ensures
            r is Some ==> forall|i: int| 0 <= i < r->0@.len() ==> anchored_ident(#[trigger] r->0@[i]),
            old(self).steps(final(self), opt_names(r), parse_params(old(self).context(), old(self).at())),
    {
        let ghost c = self.context();
        let ghost k0 = self.at();
        let mut ids: Vec<Identifier> = Vec::new();
        if self.peek_token_is(TokenType::Rparen) {
            self.next_token();
            assert(names_view(ids@) =~= Seq::<Seq<char>>::empty());
            return Some(ids);
        }
        if !self.expect_peek(TokenType::Ident) {
            return None;
        }
        ids.push(Identifier { token: self.cur_token.duplicate(), value: self.cur_token.literal() });
        assert(names_view(ids@) =~= seq![lit(c, k0 + 1)]);
        loop
            invariant
                self.wf(),
                self.context() == c,
                c == old(self).context(),
                k0 == old(self).at(),
                k0 < self.at() <= eof_at(c),
                self.errs() == old(self).errs(),
                forall|i: int| 0 <= i < ids@.len() ==> anchored_ident(#[trigger] ids@[i]),
                params_rest(c, names_view(ids@), self.at()) == parse_params(c, k0),
            decreases eof_at(c) - self.at(),
        {
            let ghost k = self.at();
            if self.peek_token_is(TokenType::Comma) {
                self.next_token();
                if !self.expect_peek(TokenType::Ident) {
                    return None;
                }
                let ghost before = ids@;
                ids.push(Identifier { token: self.cur_token.duplicate(), value: self.cur_token.literal() });
                assert(names_view(ids@) =~= names_view(before).push(lit(c, k + 2)));
            } else if self.peek_token_is(TokenType::Rparen) {
                self.next_token();
                return Some(ids);
            } else {
                self.push_error(ErrorKind::Expected(TokenType::Rparen), true);
                return None;
            }
        }
    }

    /// A block, the current token being its `{`; it ends on the matching `}`.
    #[verifier::rlimit(50)]
    fn parse_block_statement(&mut self, Ghost(m): Ghost<int>) -> (r: Option<BlockStatement>)
        requires
            kind(old(self).context(), old(self).at()) == TokenType::Lbrace,
            old(self).wf(),
            m == old(self).remaining(),
            old(self).at() < eof_at(old(self).context()),
        ensures
            r is Some ==> anchored_block(r->0),
            old(self).steps(final(self), opt_block(r), parse_block(old(self).context(), old(self).at())),
        decreases m, 0nat,
    {
        let ghost c = self.context();
        let ghost k0 = self.at();
        let ghost base = self.errs();
        let token = self.cur_token.duplicate();
        let mut statements: Vec<Statement> = Vec::new();
        self.next_token();
        let ghost mut errs = Seq::<ErrView>::empty();
        assert(stmts_view(statements@) =~= Seq::<SStmt>::empty());
        assert(base + errs =~= base);
        loop
            invariant
                self.wf(),
                self.context() == c,
                c == old(self).context(),
                k0 == old(self).at(),
                m == eof_at(c) - k0,
                base == old(self).errs(),
                k0 < self.at() <= eof_at(c),
                self.errs() == base + errs,
                anchored_stmts(statements@),
                token@ == (TokenType::Lbrace, Some(seq!['{'])),
                block_rest(c, stmts_view(statements@), self.at(), errs) == parse_block(c, k0),
            decreases eof_at(c) - self.at(),
        {
            let ghost k = self.at();
            if self.cur_token_is(TokenType::Rbrace) {
                return Some(BlockStatement { token, statements });
            }
            if self.cur_token_is(TokenType::Eof) {
                self.push_error(ErrorKind::Expected(TokenType::Rbrace), false);
                proof {
                    assert(base + errs.push(expected(c, TokenType::Rbrace, k)) =~= (base + errs).push(
                        expected(c, TokenType::Rbrace, k),
                    ));
                }
                return None;
            }
            let s = self.parse_statement(Ghost(self.remaining()));
            match s {
                Some(st) => {
                    let ghost before = statements@;
                    statements.push(st);
                    assert(statements@.drop_last() =~= before);
                    assert(anchored_stmts(statements@));
                },
                None => {},
            }
            proof {
                errs = errs + parse_stmt(c, k).errs;
            }
            if !self.cur_token_is(TokenType::Eof) {
                self.next_token();
            }
        }
    }

    /// A statement starting at the current token. When it fails, the parser moves on
    /// to the next `;` or to the end.
    #[verifier::rlimit(50)]
    fn parse_statement(&mut self, Ghost(m): Ghost<int>) -> (r: Option<Statement>)
        requires
            old(self).wf(),
            m == old(self).remaining(),
            old(self).at() < eof_at(old(self).context()),
        ensures
            r is Some ==> anchored_stmt(r->0),
            old(self).steps(final(self), opt_stmt(r), parse_stmt(old(self).context(), old(self).at())),
        decreases m, 6nat,
    {
        let r = if self.cur_token_is(TokenType::Let) {
            self.parse_let_statement(Ghost(self.remaining()))
        } else if self.cur_token_is(TokenType::Return) {
            self.parse_return_statement(Ghost(self.remaining()))
        } else {
            self.parse_expression_statement(Ghost(self.remaining()))
        };
        if r.is_none() {
            self.synchronize();
        }
        r
    }

    /// Moves on to the next `;` or to the end.
    fn synchronize(&mut self)
        requires
            old(self).wf(),
            old(self).at() <= eof_at(old(self).context()),
        ensures
            final(self).wf(),
            final(self).context() == old(self).context(),
            final(self).errs() == old(self).errs(),
            final(self).at() == sync(old(self).context(), old(self).at()),
            old(self).at() <= final(self).at() <= eof_at(old(self).context()),
    {
        let ghost c = self.context();
        while !(self.cur_token_is(TokenType::Semicolon) || self.cur_token_is(TokenType::Eof))
            invariant
                self.wf(),
                self.context() == c,
                old(self).at() <= self.at() <= eof_at(c),
                self.errs() == old(self).errs(),
                sync(c, self.at()) == sync(c, old(self).at()),
            decreases eof_at(c) - self.at(),
        {
            self.next_token();
        }
    }

    /// Takes the `;` after a statement when there is one; records its absence as
    /// an error unless `}` or the end follows.
    fn skip_semicolon(&mut self)
        requires
            old(self).wf(),
        ensures
            final(self).wf(),
            final(self).context() == old(self).context(),
            final(self).at() == if kind(old(self).context(), old(self).at() + 1) == TokenType::Semicolon {
                old(self).at() + 1
            } else {
                old(self).at()
            },
            final(self).errs() == if kind(old(self).context(), old(self).at() + 1) == TokenType::Semicolon
                || kind(old(self).context(), old(self).at() + 1) == TokenType::Eof || kind(
                old(self).context(),
                old(self).at() + 1,
            ) == TokenType::Rbrace {
                old(self).errs()
            } else {
                old(self).errs().push(expected(old(self).context(), TokenType::Semicolon, old(self).at() + 1))
            },
    {
        if self.peek_token_is(TokenType::Semicolon) {
            self.next_token();
        } else if !(self.peek_token_is(TokenType::Eof) || self.peek_token_is(TokenType::Rbrace)) {
            self.push_error(ErrorKind::Expected(TokenType::Semicolon), true);
        }
    }

    /// `let name = value`, the current token being `let`.
    #[verifier::rlimit(50)]
    fn parse_let_statement(&mut self, Ghost(m): Ghost<int>) -> (r: Option<Statement>)
        requires
            kind(old(self).context(), old(self).at()) == TokenType::Let,
            old(self).wf(),
            m == old(self).remaining(),
            old(self).at() < eof_at(old(self).context()),
        ensures
            r is Some ==> anchored_stmt(r->0),
            old(self).steps(final(self), opt_stmt(r), parse_let(old(self).context(), old(self).at())),
        decreases m, 0nat,
    {
        let token = self.cur_token.duplicate();
        if !self.expect_peek(TokenType::Ident) {
            return None;
        }
        let name = Identifier { token: self.cur_token.duplicate(), value: self.cur_token.literal() };
        if !self.expect_peek(TokenType::Assign) {
            return None;
        }
        self.next_token();
        let value = match self.parse_expression(1, Ghost(self.remaining())) {
            Some(e) => e,
            None => {
                return None;
            },
        };
        self.skip_semicolon();
        Some(Statement::Let(LetStatement { token, name, value }))
    }

    /// `return value`, the current token being `return`.
    #[verifier::rlimit(50)]
    fn parse_return_statement(&mut self, Ghost(m): Ghost<int>) -> (r: Option<Statement>)
        requires
            kind(old(self).context(), old(self).at()) == TokenType::Return,
            old(self).wf(),
            m == old(self).remaining(),
            old(self).at() < eof_at(old(self).context()),
        ensures
            r is Some ==> anchored_stmt(r->0),
            old(self).steps(final(self), opt_stmt(r), parse_return(old(self).context(), old(self).at())),
        decreases m, 0nat,
    {
        let token = self.cur_token.duplicate();
        self.next_token();
        let return_value = match self.parse_expression(1, Ghost(self.remaining())) {
            Some(e) => e,
            None => {
                return None;
            },
        };
        self.skip_semicolon();
        Some(Statement::Return(ReturnStatement { token, return_value }))
    }

    /// An expression standing as a statement.
    #[verifier::rlimit(50)]
    fn parse_expression_statement(&mut self, Ghost(m): Ghost<int>) -> (r: Option<Statement>)
        requires
            old(self).wf(),
            m == old(self).remaining(),
            old(self).at() < eof_at(old(self).context()),
        ensures
            r is Some ==> anchored_stmt(r->0),
            old(self).steps(final(self), opt_stmt(r), parse_expr_stmt(old(self).context(), old(self).at())),
        decreases m, 5nat,
    {
        let token = self.cur_token.duplicate();
        let expression = match self.parse_expression(1, Ghost(self.remaining())) {
            Some(e) => e,
            None => {
                return None;
            },
        };
        self.skip_semicolon();
        Some(Statement::Expression(ExpressionStatement { token, expression }))
    }
}

} // verus!

verus! {

/// The statements and errors that parsing `text` from its start gives.
pub open spec fn program_of(text: Seq<char>) -> (Seq<SStmt>, Seq<ErrView>) {
    program_rest(Ctx { text, start: 0 }, Seq::empty(), 0, Seq::empty())
}

impl Parser {
    /// Parses statements up to the end of the input. A statement that fails is
    /// left out, its errors are recorded, and parsing goes on after it.
    pub fn parse_program(&mut self) -> (r: Program)
        requires
            old(self).wf(),
        ensures
            final(self).wf(),
            final(self).context() == old(self).context(),
            anchored_stmts(r.statements@),
            ({
                let p = program_rest(old(self).context(), Seq::empty(), old(self).at(), Seq::empty());
                &&& stmts_view(r.statements@) == p.0
                &&& final(self).errs() == old(self).errs() + p.1
            }),
    {
        let ghost c = self.context();
        let ghost k0 = self.at();
        let ghost base = self.errs();
        let mut statements: Vec<Statement> = Vec::new();
        let ghost mut errs = Seq::<ErrView>::empty();
        assert(stmts_view(statements@) =~= Seq::<SStmt>::empty());
        while !self.cur_token_is(TokenType::Eof)
            invariant
                self.wf(),
                self.context() == c,
                base == old(self).errs(),
                c == old(self).context(),
                k0 == old(self).at(),
                self.at() < eof_at(c) || kind(c, self.at()) == TokenType::Eof,
                self.errs() == base + errs,
                anchored_stmts(statements@),
                program_rest(c, stmts_view(statements@), self.at(), errs) == program_rest(
                    c,
                    Seq::empty(),
                    k0,
                    Seq::empty(),
                ),
            decreases eof_at(c) - self.at(),
        {
            let ghost k = self.at();
            let s = self.parse_statement(Ghost(self.remaining()));
            match s {
                Some(st) => {
                    let ghost before = statements@;
                    statements.push(st);
                    assert(statements@.drop_last() =~= before);
                    assert(anchored_stmts(statements@));
                },
                None => {},
            }
            proof {
                errs = errs + parse_stmt(c, k).errs;
            }
            if !self.cur_token_is(TokenType::Eof) {
                self.next_token();
            }
        }
        Program { statements }
    }
}

/// Parses `input` from its start: the program and the errors found, in order.
pub fn parse(input: String) -> (r: (Program, Vec<ParseError>))
    ensures
        stmts_view(r.0.statements@) == program_of(input@).0,
        errs_view(r.1@) == program_of(input@).1,
        anchored_stmts(r.0.statements@),
{
    let l = Lexer::new(input);
    let mut p = Parser::new(l);
    let program = p.parse_program();
    let errors = p.take_errors();
    (program, errors)
}

impl Parser {
    /// Hands over the errors found so far.
    pub fn take_errors(self) -> (r: Vec<ParseError>)
        ensures
            errs_view(r@) == self.errs(),
    {
        self.errors
    }
}

} // verus!

verus! {

/// The human-readable message of an error.
pub open spec fn message_text(e: ErrView) -> Seq<char> {
    let found = e.1;
    match e.0 {
        ErrorKind::Expected(t) => "expected next token to be "@ + kind_name(t) + ", got "@
            + kind_name(found.0) + " instead"@ + if t == TokenType::Assign {
            "; a let statement needs an initializer"@
        } else {
            Seq::empty()
        },
        ErrorKind::NoPrefixParse => "no prefix parse function for "@ + kind_name(found.0) + " found"@,
        ErrorKind::IllegalCharacter => "unexpected character "@ + literal_text(found),
        ErrorKind::IntegerOutOfRange => "could not parse "@ + literal_text(found) + " as integer"@,
    }
}

impl ParseError {
    /// What went wrong, in words: the expected and the found token kinds, or the offending text.
    pub fn message(&self) -> (r: String)
        ensures
            r@ == message_text(self@),
    {
        let mut out = String::new();
        match self.kind {
            ErrorKind::Expected(t) => {
                out.append("expected next token to be ");
                out.append(t.name().as_str());
                out.append(", got ");
                out.append(self.token.token_type.name().as_str());
                out.append(" instead");
                if t == TokenType::Assign {
                    out.append("; a let statement needs an initializer");
                }
            },
            ErrorKind::NoPrefixParse => {
                out.append("no prefix parse function for ");
                out.append(self.token.token_type.name().as_str());
                out.append(" found");
            },
            ErrorKind::IllegalCharacter => {
                out.append("unexpected character ");
                out.append(self.token.literal().as_str());
            },
            ErrorKind::IntegerOutOfRange => {
                out.append("could not parse ");
                out.append(self.token.literal().as_str());
                out.append(" as integer");
            },
        }
        out
    }
}

} // verus!
